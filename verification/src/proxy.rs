//! Passing a worker's response body on to the client.
//!
//! The body is streamed through, never buffered as a whole. In streaming mode
//! the event stream is always terminated with `data: [DONE]`, even if the
//! worker omits it.

use vstd::prelude::*;

verus! {

/// The bytes of `data: [DONE]`.
pub open spec fn done_marker() -> Seq<u8> {
    seq![100u8, 97, 116, 97, 58, 32, 91, 68, 79, 78, 69, 93]
}

/// The terminator that is added where the worker sent none: the marker and an
/// empty line.
pub open spec fn terminator() -> Seq<u8> {
    done_marker() + seq![10u8, 10]
}

/// Whether the marker stands in a chunk, at any place.
pub open spec fn contains_done(chunk: Seq<u8>) -> bool {
    exists|at: int|
        0 <= at && at + 12 <= chunk.len() && #[trigger] chunk.subrange(at, at + 12)
            == done_marker()
}

fn marker() -> (r: Vec<u8>)
    ensures
        r@ == done_marker(),
{
    let r: Vec<u8> = vec![100u8, 97, 116, 97, 58, 32, 91, 68, 79, 78, 69, 93];
    assert(r@ =~= done_marker());
    r
}

/// The bytes to send where the worker sent no terminator.
pub fn done_bytes() -> (r: Vec<u8>)
    ensures
        r@ == terminator(),
        r@ == seq![100u8, 97, 116, 97, 58, 32, 91, 68, 79, 78, 69, 93, 10, 10],
{
    let mut r = marker();
    r.push(10);
    r.push(10);
    assert(r@ =~= terminator());
    assert(r@ =~= seq![100u8, 97, 116, 97, 58, 32, 91, 68, 79, 78, 69, 93, 10, 10]);
    r
}

/// Whether the marker stands in a chunk.
pub fn chunk_contains_done(chunk: &[u8]) -> (r: bool)
    ensures
        r == contains_done(chunk@),
        r == exists|at: int|
            0 <= at && at + 12 <= chunk@.len() && #[trigger] chunk@.subrange(at, at + 12)
                == seq![100u8, 97, 116, 97, 58, 32, 91, 68, 79, 78, 69, 93],
{
    let wanted = marker();
    if chunk.len() < 12 {
        return false;
    }
    let mut at: usize = 0;
    while at <= chunk.len() - 12
        invariant
            12 <= chunk@.len() <= usize::MAX,
            at <= chunk@.len() - 11,
            wanted@ == done_marker(),
            forall|k: int|
                0 <= k < at ==> #[trigger] chunk@.subrange(k, k + 12) != done_marker(),
        decreases chunk@.len() - at,
    {
        let mut i: usize = 0;
        while i < 12 && chunk[at + i] == wanted[i]
            invariant
                i <= 12,
                at + 12 <= chunk@.len() <= usize::MAX,
                wanted@ == done_marker(),
                forall|k: int| 0 <= k < i ==> chunk@[at + k] == #[trigger] wanted@[k],
            decreases 12 - i,
        {
            i += 1;
        }
        if i == 12 {
            assert(chunk@.subrange(at as int, at + 12) =~= done_marker());
            return true;
        }
        assert(chunk@.subrange(at as int, at + 12)[i as int] != done_marker()[i as int]);
        at += 1;
    }
    false
}

/// What the worker's body stream reports.
#[derive(Debug)]
pub enum StreamEvent {
    /// A chunk of the body.
    Chunk(Vec<u8>),
    /// The stream failed.
    Failed,
    /// The stream ended.
    Ended,
}

/// What happens towards the client.
#[derive(Debug)]
pub enum StreamAction {
    /// Send these bytes.
    Send(Vec<u8>),
    /// Fail the response body.
    Fail,
    /// The body is complete; the time to first token is given, in the unit of
    /// the clock.
    Finish(u64),
}

/// Where a proxied response body stands.
#[derive(Debug, Clone, Copy, PartialEq, Eq, Structural)]
pub struct ProxyStream {
    /// Whether the client asked for an event stream.
    pub streaming: bool,
    /// Whether the terminator was passed on or added.
    pub done_seen: bool,
    /// Whether the worker's stream failed.
    pub failed: bool,
    /// When the first chunk came.
    pub first_chunk_after: Option<u64>,
    /// Chunks of generated text passed on so far.
    pub tokens: u64,
}

/// One more token; the count stays at its largest value once there.
pub open spec fn one_more_token(tokens: u64) -> u64 {
    if tokens == u64::MAX {
        u64::MAX
    } else {
        (tokens + 1) as u64
    }
}

impl ProxyStream {
    /// A body of which nothing has come yet.
    pub open spec fn fresh(streaming: bool) -> ProxyStream {
        ProxyStream {
            streaming,
            done_seen: false,
            failed: false,
            first_chunk_after: None,
            tokens: 0,
        }
    }

    /// The state after an event at time `elapsed`.
    pub open spec fn after(self, event: StreamEvent, elapsed: u64) -> ProxyStream {
        match event {
            StreamEvent::Chunk(chunk) => ProxyStream {
                done_seen: self.done_seen || (self.streaming && contains_done(chunk@)),
                first_chunk_after: match self.first_chunk_after {
                    Some(first) => Some(first),
                    None => Some(elapsed),
                },
                tokens: if self.streaming && !contains_done(chunk@) {
                    one_more_token(self.tokens)
                } else {
                    self.tokens
                },
                ..self
            },
            StreamEvent::Failed => ProxyStream { failed: true, ..self },
            StreamEvent::Ended => if self.streaming {
                ProxyStream { done_seen: true, ..self }
            } else {
                self
            },
        }
    }

    /// What an event at time `elapsed` makes happen: a chunk is passed on as it
    /// came, a failure fails the body, and the end finishes it, after a
    /// terminator where one is due. A body without chunks has its time to
    /// first token at the end.
    pub open spec fn responds(self, event: StreamEvent, elapsed: u64, action: StreamAction) -> bool {
        match event {
            StreamEvent::Chunk(chunk) => action matches StreamAction::Send(bytes) && bytes@
                == chunk@,
            StreamEvent::Failed => action is Fail,
            StreamEvent::Ended => if self.streaming && !self.done_seen {
                action matches StreamAction::Send(bytes) && bytes@ == terminator()
            } else {
                action == StreamAction::Finish(
                    match self.first_chunk_after {
                        Some(first) => first,
                        None => elapsed,
                    },
                )
            },
        }
    }

    /// Start passing a body on.
    pub fn new(streaming: bool) -> (r: ProxyStream)
        ensures
            r == ProxyStream::fresh(streaming),
    {
        ProxyStream {
            streaming,
            done_seen: false,
            failed: false,
            first_chunk_after: None,
            tokens: 0,
        }
    }

    /// Handle one event of the worker's stream. `elapsed` is the time since the
    /// request was sent to the worker. Where the end makes the terminator due,
    /// it is sent first, and the end is to be handed in again.
    pub fn step(&mut self, event: StreamEvent, elapsed: u64) -> (action: StreamAction)
        ensures
            *final(self) == old(self).after(event, elapsed),
            old(self).responds(event, elapsed, action),
    {
        match event {
            StreamEvent::Chunk(chunk) => {
                if self.first_chunk_after.is_none() {
                    self.first_chunk_after = Some(elapsed);
                }
                if self.streaming {
                    if chunk_contains_done(chunk.as_slice()) {
                        self.done_seen = true;
                    } else {
                        self.tokens = self.tokens.saturating_add(1);
                    }
                }
                StreamAction::Send(chunk)
            },
            StreamEvent::Failed => {
                self.failed = true;
                StreamAction::Fail
            },
            StreamEvent::Ended => {
                if self.streaming && !self.done_seen {
                    self.done_seen = true;
                    StreamAction::Send(done_bytes())
                } else {
                    match self.first_chunk_after {
                        Some(first) => StreamAction::Finish(first),
                        None => StreamAction::Finish(elapsed),
                    }
                }
            },
        }
    }
}

/// One event with its time and what it made happen.
pub struct StreamStep {
    /// The event.
    pub event: StreamEvent,
    /// Its time.
    pub elapsed: u64,
    /// What happened.
    pub action: StreamAction,
}

/// The state after `n` steps of a body.
pub open spec fn stream_state(streaming: bool, steps: Seq<StreamStep>) -> ProxyStream
    decreases steps.len(),
{
    if steps.len() == 0 {
        ProxyStream::fresh(streaming)
    } else {
        stream_state(streaming, steps.drop_last()).after(
            steps.last().event,
            steps.last().elapsed,
        )
    }
}

/// The steps of one body, from its start.
pub open spec fn stream_run(streaming: bool, steps: Seq<StreamStep>) -> bool {
    forall|k: int|
        0 <= k < steps.len() ==> stream_state(streaming, steps.take(k)).responds(
            (#[trigger] steps[k]).event,
            steps[k].elapsed,
            steps[k].action,
        )
}

/// Whether a step adds a terminator that the worker did not send.
pub open spec fn adds_terminator(step: StreamStep) -> bool {
    step.event is Ended && step.action is Send
}

proof fn lemma_run_prefix(streaming: bool, steps: Seq<StreamStep>)
    requires
        stream_run(streaming, steps),
        steps.len() > 0,
    ensures
        stream_run(streaming, steps.drop_last()),
        stream_state(streaming, steps.drop_last()).responds(
            steps.last().event,
            steps.last().elapsed,
            steps.last().action,
        ),
{
    let head = steps.drop_last();
    assert forall|k: int| 0 <= k < head.len() implies stream_state(
        streaming,
        head.take(k),
    ).responds((#[trigger] head[k]).event, head[k].elapsed, head[k].action) by {
        assert(head.take(k) =~= steps.take(k));
        assert(steps[k] == head[k]);
    }
    let last = steps.len() - 1;
    assert(steps.take(last) =~= head);
    assert(steps[last] == steps.last());
}

proof fn lemma_mode_is_kept(streaming: bool, steps: Seq<StreamStep>)
    ensures
        stream_state(streaming, steps).streaming == streaming,
    decreases steps.len(),
{
    if steps.len() > 0 {
        lemma_mode_is_kept(streaming, steps.drop_last());
    }
}

/// In streaming mode the marker has been sent to the client, inside a chunk of
/// the worker or as an added terminator, by the time the body is finished.
pub proof fn law_event_streams_are_terminated(steps: Seq<StreamStep>)
    requires
        steps.len() > 0,
        stream_run(true, steps),
        steps.last().action is Finish,
    ensures
        exists|k: int|
            0 <= k < steps.len() && ((#[trigger] steps[k]).action matches StreamAction::Send(bytes)
                && contains_done(bytes@)),
{
    lemma_run_prefix(true, steps);
    lemma_mode_is_kept(true, steps.drop_last());
    lemma_done_was_sent(steps.drop_last());
    let head = steps.drop_last();
    let k = choose|k: int|
        0 <= k < head.len() && ((#[trigger] head[k]).action matches StreamAction::Send(bytes)
            && contains_done(bytes@));
    assert(steps[k] == head[k]);
}

/// The step at which the marker is first seen sends it.
#[verifier::spinoff_prover]
proof fn lemma_step_that_saw_done(
    before: ProxyStream,
    event: StreamEvent,
    elapsed: u64,
    action: StreamAction,
)
    requires
        before.streaming,
        !before.done_seen,
        before.after(event, elapsed).done_seen,
        before.responds(event, elapsed, action),
    ensures
        action matches StreamAction::Send(bytes) && contains_done(bytes@),
{
    match event {
        StreamEvent::Chunk(chunk) => {
            assert(action matches StreamAction::Send(bytes) && bytes@ == chunk@);
        },
        StreamEvent::Failed => {},
        StreamEvent::Ended => {
            assert(action matches StreamAction::Send(bytes) && bytes@ == terminator());
            lemma_terminator_holds_marker();
        },
    }
}

proof fn lemma_terminator_holds_marker()
    ensures
        contains_done(terminator()),
{
    let at: int = 0;
    assert(terminator().subrange(at, at + 12) =~= done_marker());
}

#[verifier::spinoff_prover]
proof fn lemma_done_was_sent(steps: Seq<StreamStep>)
    requires
        stream_run(true, steps),
        stream_state(true, steps).done_seen,
    ensures
        exists|k: int|
            0 <= k < steps.len() && ((#[trigger] steps[k]).action matches StreamAction::Send(bytes)
                && contains_done(bytes@)),
    decreases steps.len(),
{
    if steps.len() > 0 {
        let head = steps.drop_last();
        let last = steps.len() - 1;
        lemma_run_prefix(true, steps);
        lemma_mode_is_kept(true, head);
        if stream_state(true, head).done_seen {
            lemma_done_was_sent(head);
            let k = choose|k: int|
                0 <= k < head.len() && ((#[trigger] head[k]).action matches StreamAction::Send(
                    bytes,
                ) && contains_done(bytes@));
            assert(steps[k] == head[k]);
        } else {
            lemma_step_that_saw_done(
                stream_state(true, head),
                steps[last].event,
                steps[last].elapsed,
                steps[last].action,
            );
            assert(steps[last].action matches StreamAction::Send(bytes) && contains_done(bytes@));
        }
    }
}

/// At most one terminator is added to a body, and none where the client asked
/// for no event stream.
pub proof fn law_at_most_one_terminator_is_added(
    streaming: bool,
    steps: Seq<StreamStep>,
    i: int,
    j: int,
)
    requires
        stream_run(streaming, steps),
        0 <= i < steps.len(),
        0 <= j < steps.len(),
        adds_terminator(steps[i]),
        adds_terminator(steps[j]),
    ensures
        streaming,
        i == j,
{
    lemma_mode_is_kept(streaming, steps.take(i));
    lemma_mode_is_kept(streaming, steps.take(j));
    if i < j {
        lemma_done_stays(streaming, steps, i, j);
    } else if j < i {
        lemma_done_stays(streaming, steps, j, i);
    }
}

proof fn lemma_done_stays(streaming: bool, steps: Seq<StreamStep>, i: int, j: int)
    requires
        stream_run(streaming, steps),
        0 <= i < j <= steps.len(),
        adds_terminator(steps[i]),
    ensures
        stream_state(streaming, steps.take(j)).done_seen,
    decreases j - i,
{
    assert(steps.take(j).drop_last() =~= steps.take(j - 1));
    if i == j - 1 {
        lemma_mode_is_kept(streaming, steps.take(i));
    } else {
        lemma_done_stays(streaming, steps, i, j - 1);
    }
}

/// Nothing the worker sends is changed, dropped or moved: each chunk is sent
/// on as it came, and only an end can send something that the worker did not.
pub proof fn law_chunks_pass_unchanged(streaming: bool, steps: Seq<StreamStep>, k: int)
    requires
        stream_run(streaming, steps),
        0 <= k < steps.len(),
    ensures
        steps[k].event matches StreamEvent::Chunk(chunk) ==> (
        steps[k].action matches StreamAction::Send(bytes) && bytes@ == chunk@),
        steps[k].action is Send && !(steps[k].event is Chunk) ==> adds_terminator(steps[k]),
{
    assert(stream_state(streaming, steps.take(k)).responds(
        steps[k].event,
        steps[k].elapsed,
        steps[k].action,
    ));
}

/// The bytes sent to the client, in order.
pub open spec fn sent_bytes(steps: Seq<StreamStep>) -> Seq<u8>
    decreases steps.len(),
{
    if steps.len() == 0 {
        seq![]
    } else {
        sent_bytes(steps.drop_last()) + (match steps.last().action {
            StreamAction::Send(bytes) => bytes@,
            _ => seq![],
        })
    }
}

/// The bytes of the worker's chunks, in order.
pub open spec fn chunk_bytes(steps: Seq<StreamStep>) -> Seq<u8>
    decreases steps.len(),
{
    if steps.len() == 0 {
        seq![]
    } else {
        chunk_bytes(steps.drop_last()) + (match steps.last().event {
            StreamEvent::Chunk(chunk) => chunk@,
            _ => seq![],
        })
    }
}

/// Whether a chunk of the worker holds the marker.
pub open spec fn worker_sent_done(steps: Seq<StreamStep>) -> bool {
    exists|k: int|
        0 <= k < steps.len() && ((#[trigger] steps[k]).event matches StreamEvent::Chunk(chunk)
            && contains_done(chunk@))
}

/// Whether the worker's stream has ended.
pub open spec fn has_ended(steps: Seq<StreamStep>) -> bool {
    exists|k: int| 0 <= k < steps.len() && (#[trigger] steps[k]).event is Ended
}

/// Whether no chunk comes after the end.
pub open spec fn ends_once_drained(steps: Seq<StreamStep>) -> bool {
    forall|i: int, j: int|
        0 <= i < j < steps.len() && (#[trigger] steps[i]).event is Ended ==> !((
        #[trigger] steps[j]).event is Chunk)
}

/// When the first chunk came.
pub open spec fn first_chunk_time(steps: Seq<StreamStep>) -> Option<u64>
    decreases steps.len(),
{
    if steps.len() == 0 {
        None
    } else {
        match first_chunk_time(steps.drop_last()) {
            Some(first) => Some(first),
            None => if steps.last().event is Chunk {
                Some(steps.last().elapsed)
            } else {
                None
            },
        }
    }
}

/// When the body is finished, the client has been sent the worker's chunks,
/// byte for byte, and behind them one terminator exactly where an event stream
/// was asked for and no chunk holds the marker. The time to first token is that
/// of the first chunk, or of the end where no chunk came, and no later than the
/// end on a clock that does not go back.
pub proof fn law_a_finished_body_is_whole(streaming: bool, steps: Seq<StreamStep>)
    requires
        stream_run(streaming, steps),
        ends_once_drained(steps),
        steps.len() > 0,
        steps.last().action is Finish,
    ensures
        sent_bytes(steps) == chunk_bytes(steps) + (if streaming && !worker_sent_done(steps) {
            terminator()
        } else {
            seq![]
        }),
        steps.last().action == StreamAction::Finish(
            match first_chunk_time(steps) {
                Some(first) => first,
                None => steps.last().elapsed,
            },
        ),
        (forall|i: int, j: int|
            0 <= i <= j < steps.len() ==> (#[trigger] steps[i]).elapsed <= (
            #[trigger] steps[j]).elapsed) ==> (steps.last().action matches StreamAction::Finish(
            first,
        ) && first <= steps.last().elapsed),
{
    let last = steps.len() - 1;
    lemma_run_prefix(streaming, steps);
    lemma_sent_so_far(streaming, steps);
    lemma_sent_so_far(streaming, steps.drop_last());
    assert(steps[last].event is Ended);
    assert(has_ended(steps));
    lemma_first_chunk_was_a_step(steps);
}

/// An end finishes the body at the latest when it is handed in the second time
/// in a row.
pub proof fn law_an_end_finishes_the_body(streaming: bool, steps: Seq<StreamStep>)
    requires
        stream_run(streaming, steps),
        steps.len() > 1,
        steps.last().event is Ended,
        steps.drop_last().last().event is Ended,
    ensures
        steps.last().action is Finish,
{
    lemma_run_prefix(streaming, steps);
    lemma_mode_is_kept(streaming, steps.drop_last().drop_last());
}

/// What was sent and what is known after any steps.
#[verifier::spinoff_prover]
proof fn lemma_sent_so_far(streaming: bool, steps: Seq<StreamStep>)
    requires
        stream_run(streaming, steps),
        ends_once_drained(steps),
    ensures
        sent_bytes(steps) == chunk_bytes(steps) + (if streaming && !worker_sent_done(steps)
            && has_ended(steps) {
            terminator()
        } else {
            seq![]
        }),
        stream_state(streaming, steps).streaming == streaming,
        stream_state(streaming, steps).done_seen == (streaming && (worker_sent_done(steps)
            || has_ended(steps))),
        stream_state(streaming, steps).first_chunk_after == first_chunk_time(steps),
    decreases steps.len(),
{
    if steps.len() > 0 {
        let head = steps.drop_last();
        let last = steps.len() - 1;
        lemma_run_prefix(streaming, steps);
        assert(ends_once_drained(head)) by {
            assert forall|i: int, j: int|
                0 <= i < j < head.len() && (#[trigger] head[i]).event is Ended implies !((
            #[trigger] head[j]).event is Chunk) by {
                assert(head[i] == steps[i] && head[j] == steps[j]);
            }
        }
        lemma_sent_so_far(streaming, head);
        lemma_known_grows(steps);
        match steps.last().event {
            StreamEvent::Chunk(chunk) => {
                assert(!has_ended(head)) by {
                    if has_ended(head) {
                        let k = choose|k: int|
                            0 <= k < head.len() && (#[trigger] head[k]).event is Ended;
                        assert(steps[k] == head[k]);
                        assert(!(steps[last].event is Chunk));
                    }
                }
                assert(sent_bytes(steps) =~= chunk_bytes(steps));
                assert(chunk_bytes(steps) + Seq::<u8>::empty() =~= chunk_bytes(steps));
            },
            StreamEvent::Failed => {
                assert(sent_bytes(steps) =~= sent_bytes(head));
                assert(chunk_bytes(steps) =~= chunk_bytes(head));
            },
            StreamEvent::Ended => {
                assert(chunk_bytes(steps) =~= chunk_bytes(head));
                assert(chunk_bytes(head) + Seq::<u8>::empty() =~= chunk_bytes(head));
                assert(sent_bytes(head) + Seq::<u8>::empty() =~= sent_bytes(head));
            },
        }
    } else {
        assert(sent_bytes(steps) =~= chunk_bytes(steps) + Seq::<u8>::empty());
    }
}

proof fn lemma_known_grows(steps: Seq<StreamStep>)
    requires
        steps.len() > 0,
    ensures
        worker_sent_done(steps) == (worker_sent_done(steps.drop_last()) || (
        steps.last().event matches StreamEvent::Chunk(chunk) && contains_done(chunk@))),
        has_ended(steps) == (has_ended(steps.drop_last()) || steps.last().event is Ended),
{
    let head = steps.drop_last();
    let last = steps.len() - 1;
    assert(steps[last] == steps.last());
    assert forall|k: int| 0 <= k < head.len() implies (#[trigger] head[k]) == steps[k] by {}
    if worker_sent_done(steps) {
        let k = choose|k: int|
            0 <= k < steps.len() && ((#[trigger] steps[k]).event matches StreamEvent::Chunk(chunk)
                && contains_done(chunk@));
        assert(k == last || steps[k] == head[k]);
    }
    if has_ended(steps) {
        let k = choose|k: int| 0 <= k < steps.len() && (#[trigger] steps[k]).event is Ended;
        assert(k == last || steps[k] == head[k]);
    }
    if worker_sent_done(head) {
        let k = choose|k: int|
            0 <= k < head.len() && ((#[trigger] head[k]).event matches StreamEvent::Chunk(chunk)
                && contains_done(chunk@));
        assert(steps[k] == head[k]);
    }
    if has_ended(head) {
        let k = choose|k: int| 0 <= k < head.len() && (#[trigger] head[k]).event is Ended;
        assert(steps[k] == head[k]);
    }
}

proof fn lemma_first_chunk_was_a_step(steps: Seq<StreamStep>)
    ensures
        first_chunk_time(steps) matches Some(first) ==> exists|k: int|
            0 <= k < steps.len() && (#[trigger] steps[k]).elapsed == first,
    decreases steps.len(),
{
    if steps.len() > 0 {
        let head = steps.drop_last();
        lemma_first_chunk_was_a_step(head);
        if let Some(first) = first_chunk_time(head) {
            let k = choose|k: int| 0 <= k < head.len() && (#[trigger] head[k]).elapsed == first;
            assert(steps[k] == head[k]);
        } else {
            assert(steps[steps.len() - 1] == steps.last());
        }
    }
}

/// Chunks without the marker, in order of their steps.
pub open spec fn unmarked_chunks(steps: Seq<StreamStep>) -> nat
    decreases steps.len(),
{
    if steps.len() == 0 {
        0
    } else {
        unmarked_chunks(steps.drop_last()) + (match steps.last().event {
            StreamEvent::Chunk(chunk) => if exists|at: int|
                0 <= at && at + 12 <= chunk@.len() && #[trigger] chunk@.subrange(at, at + 12)
                    == seq![100u8, 97, 116, 97, 58, 32, 91, 68, 79, 78, 69, 93] {
                0nat
            } else {
                1
            },
            _ => 0,
        })
    }
}

/// In streaming mode the tokens counted are the chunks without the marker;
/// otherwise none are. A body has failed once the worker's stream did.
pub proof fn law_tokens_are_the_unmarked_chunks(streaming: bool, steps: Seq<StreamStep>)
    requires
        unmarked_chunks(steps) <= u64::MAX,
    ensures
        stream_state(streaming, steps).tokens == (if streaming {
            unmarked_chunks(steps)
        } else {
            0
        }),
        stream_state(streaming, steps).streaming == streaming,
        stream_state(streaming, steps).failed <==> exists|k: int|
            0 <= k < steps.len() && (#[trigger] steps[k]).event is Failed,
    decreases steps.len(),
{
    if steps.len() > 0 {
        let head = steps.drop_last();
        let last = steps.len() - 1;
        law_tokens_are_the_unmarked_chunks(streaming, head);
        assert(steps[last] == steps.last());
        if exists|k: int| 0 <= k < head.len() && (#[trigger] head[k]).event is Failed {
            let k = choose|k: int| 0 <= k < head.len() && (#[trigger] head[k]).event is Failed;
            assert(steps[k] == head[k]);
        }
        if exists|k: int| 0 <= k < steps.len() && (#[trigger] steps[k]).event is Failed {
            let k = choose|k: int| 0 <= k < steps.len() && (#[trigger] steps[k]).event is Failed;
            assert(k == last || steps[k] == head[k]);
        }
    }
}

/// The terminator is the marker and an empty line.
pub proof fn law_terminator_is_the_marker_and_an_empty_line()
    ensures
        terminator() == seq![100u8, 97, 116, 97, 58, 32, 91, 68, 79, 78, 69, 93, 10, 10],
        "data: [DONE]"@.len() == 12,
        forall|i: int|
            0 <= i < 12 ==> #[trigger] terminator()[i] as int == "data: [DONE]"@[i] as int,
{
    reveal_strlit("data: [DONE]");
    assert(terminator() =~= seq![100u8, 97, 116, 97, 58, 32, 91, 68, 79, 78, 69, 93, 10, 10]);
}

} // verus!
