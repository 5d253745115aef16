//! Prompt tokens and the sharded, TTL- and LRU-bounded prefix index.

use std::collections::HashMap;
use std::hash::{DefaultHasher, Hasher};
use std::time::{Duration, Instant};

use vstd::bytes::{spec_u64_to_le_bytes, u64_to_le_bytes};
use vstd::prelude::*;
use vstd::std_specs::hash::DefaultHasherAdditionalSpecFns;
use vstd::utf8::encode_utf8;

use crate::beliefs::{
    all_held, deepest_match, expired, holders, holds, law_deepest_match_is_the_last_held,
    leaves_before, lemma_deepest_match_is_held, lemma_match_ends, match_len, newest, recorded,
    touched, unexpired, without_worker, Belief,
};
use crate::collections::keys_of;
use crate::sorting::{ascending, pair_le, sort_pairs};
use crate::text::{chars_of, string_of, texts};
use crate::worker::WorkerId;

verus! {

broadcast use vstd::std_specs::hash::group_hash_axioms;

/// What `char::is_alphanumeric` answers: whether Unicode counts the character
/// as a letter or a number.
pub uninterp spec fn alphanumeric(c: char) -> bool;

/// `char::is_alphanumeric` depends on the character alone.
pub assume_specification[ char::is_alphanumeric ](c: char) -> (r: bool)
    ensures
        r == alphanumeric(c),
;

/// What `str::to_lowercase` returns: the lowercase equivalent of the text.
pub uninterp spec fn lowercase(text: Seq<char>) -> Seq<char>;

/// `str::to_lowercase` depends on the text alone.
pub assume_specification[ str::to_lowercase ](s: &str) -> (r: String)
    ensures
        r@ == lowercase(s@),
;

/// A run of characters, if it has any.
pub open spec fn run_of(run: Seq<char>) -> Seq<Seq<char>> {
    if run.len() == 0 {
        seq![]
    } else {
        seq![run]
    }
}

/// The maximal runs of marked characters of `rest` when `run` is the run being
/// read.
pub open spec fn runs_after(run: Seq<char>, rest: Seq<char>, marks: Seq<bool>) -> Seq<Seq<char>>
    decreases rest.len(),
{
    if rest.len() == 0 {
        run_of(run)
    } else if marks[0] {
        runs_after(run.push(rest[0]), rest.drop_first(), marks.drop_first())
    } else {
        run_of(run) + runs_after(seq![], rest.drop_first(), marks.drop_first())
    }
}

/// The words of a text: lowercased maximal runs of alphanumeric characters.
pub open spec fn words_of(text: Seq<char>) -> Seq<Seq<char>> {
    runs_after(seq![], text, text.map_values(|c: char| alphanumeric(c))).map_values(
        |run: Seq<char>| lowercase(run),
    )
}

fn finish_run(chars: &Vec<char>, from: usize, to: usize, runs: &mut Vec<String>)
    requires
        from <= to <= chars@.len(),
    ensures
        texts(final(runs)@) == texts(old(runs)@) + run_of(
            chars@.subrange(from as int, to as int),
        ),
{
    if from < to {
        runs.push(string_of(chars, from, to));
    }
    assert(texts(runs@) =~= texts(old(runs)@) + run_of(chars@.subrange(from as int, to as int)));
}

/// The maximal runs of marked characters, in order. `marks` holds one mark per
/// character.
pub fn split_runs(chars: &Vec<char>, marks: &Vec<bool>) -> (runs: Vec<String>)
    requires
        marks@.len() == chars@.len(),
    ensures
        texts(runs@) == runs_after(seq![], chars@, marks@),
{
    let mut runs: Vec<String> = Vec::new();
    let mut from: usize = 0;
    let mut at: usize = 0;
    assert(chars@.subrange(0, 0) =~= seq![]);
    assert(chars@.skip(0) =~= chars@);
    assert(marks@.skip(0) =~= marks@);
    assert(texts(runs@) =~= seq![]);
    assert(runs_after(seq![], chars@, marks@) =~= texts(runs@) + runs_after(
        seq![],
        chars@,
        marks@,
    ));
    while at < chars.len()
        invariant
            from <= at <= chars@.len(),
            marks@.len() == chars@.len(),
            runs_after(seq![], chars@, marks@) == texts(runs@) + runs_after(
                chars@.subrange(from as int, at as int),
                chars@.skip(at as int),
                marks@.skip(at as int),
            ),
        decreases chars@.len() - at,
    {
        assert(chars@.skip(at as int)[0] == chars@[at as int]);
        assert(chars@.skip(at as int).drop_first() =~= chars@.skip(at + 1));
        assert(marks@.skip(at as int).drop_first() =~= marks@.skip(at + 1));
        if marks[at] {
            assert(chars@.subrange(from as int, at as int).push(chars@[at as int])
                =~= chars@.subrange(from as int, at + 1));
        } else {
            let ghost before = texts(runs@);
            let ghost run = chars@.subrange(from as int, at as int);
            let ghost rest = runs_after(seq![], chars@.skip(at + 1), marks@.skip(at + 1));
            finish_run(chars, from, at, &mut runs);
            from = at + 1;
            assert(chars@.subrange(from as int, at + 1) =~= seq![]);
            assert(before + (run_of(run) + rest) =~= before + run_of(run) + rest);
        }
        at += 1;
    }
    assert(chars@.skip(at as int) =~= seq![]);
    finish_run(chars, from, at, &mut runs);
    runs
}

/// Split a prompt into cheap, model-agnostic tokens: lowercased runs of
/// alphanumeric characters. A stand-in for a real tokenizer.
pub fn tokenize(prompt: &str) -> (tokens: Vec<String>)
    ensures
        texts(tokens@) == words_of(prompt@),
{
    let chars = chars_of(prompt);
    let mut marks: Vec<bool> = Vec::new();
    while marks.len() < chars.len()
        invariant
            marks@.len() <= chars@.len(),
            marks@ == chars@.take(marks@.len() as int).map_values(|c: char| alphanumeric(c)),
        decreases chars@.len() - marks@.len(),
    {
        let ghost done = marks@.len() as int;
        marks.push(chars[marks.len()].is_alphanumeric());
        assert(marks@ =~= chars@.take(done + 1).map_values(|c: char| alphanumeric(c)));
    }
    assert(chars@.take(marks@.len() as int) =~= chars@);
    let runs = split_runs(&chars, &marks);
    let mut tokens: Vec<String> = Vec::new();
    while tokens.len() < runs.len()
        invariant
            tokens@.len() <= runs@.len(),
            texts(tokens@) == texts(runs@).take(tokens@.len() as int).map_values(
                |run: Seq<char>| lowercase(run),
            ),
        decreases runs@.len() - tokens@.len(),
    {
        let ghost done = tokens@.len() as int;
        let ghost before = texts(tokens@);
        let token = runs[tokens.len()].to_lowercase();
        let ghost word = token@;
        tokens.push(token);
        assert(texts(tokens@) =~= before.push(word));
        assert(word == lowercase(texts(runs@)[done]));
        assert(texts(tokens@) =~= texts(runs@).take(done + 1).map_values(
            |run: Seq<char>| lowercase(run),
        ));
    }
    assert(texts(runs@).take(tokens@.len() as int) =~= texts(runs@));
    tokens
}

/// A character that is not alphanumeric ends one word and starts none: what
/// stands before it and after it is split on its own.
pub proof fn law_separators_split_words(before: Seq<char>, separator: char, after: Seq<char>)
    requires
        !alphanumeric(separator),
    ensures
        words_of(before.push(separator) + after) == words_of(before) + words_of(after),
{
    lemma_runs_split(seq![], before, separator, after);
    let lower = |run: Seq<char>| lowercase(run);
    assert((runs_in(seq![], before) + runs_in(seq![], after)).map_values(lower) =~= runs_in(
        seq![],
        before,
    ).map_values(lower) + runs_in(seq![], after).map_values(lower));
}

/// A text of alphanumeric characters is one word, in lowercase; the empty text
/// has none.
pub proof fn law_alphanumeric_text_is_one_word(text: Seq<char>)
    requires
        forall|i: int| 0 <= i < text.len() ==> alphanumeric(#[trigger] text[i]),
    ensures
        words_of(text) == (if text.len() == 0 {
            seq![]
        } else {
            seq![lowercase(text)]
        }),
{
    lemma_one_run(seq![], text);
    assert(seq![] + text =~= text);
    assert(words_of(text) =~= run_of(text).map_values(|run: Seq<char>| lowercase(run)));
}

/// Whether `from..to` bounds a maximal run of alphanumeric characters, which is
/// not empty.
pub open spec fn is_run(text: Seq<char>, from: int, to: int) -> bool {
    &&& 0 <= from < to <= text.len()
    &&& forall|i: int| from <= i < to ==> alphanumeric(#[trigger] text[i])
    &&& from > 0 ==> !alphanumeric(text[from - 1])
    &&& to < text.len() ==> !alphanumeric(text[to])
}

/// Every word is the lowercase of a non-empty maximal run of alphanumeric
/// characters of the text.
pub proof fn law_words_are_runs(text: Seq<char>, k: int)
    requires
        0 <= k < words_of(text).len(),
    ensures
        exists|from: int, to: int|
            #[trigger] is_run(text, from, to) && words_of(text)[k] == lowercase(
                text.subrange(from, to),
            ),
{
    assert(text.subrange(0, 0) =~= seq![]);
    assert(text.skip(0) =~= text);
    lemma_run_bounds(text, 0, 0, k);
    let (from, to) = choose|from: int, to: int| #[trigger]
        is_run(text, from, to) && runs_in(seq![], text)[k] == text.subrange(from, to);
    assert(is_run(text, from, to) && words_of(text)[k] == lowercase(text.subrange(from, to)));
}

/// The maximal alphanumeric runs of `rest` when `run` is the run being read.
spec fn runs_in(run: Seq<char>, rest: Seq<char>) -> Seq<Seq<char>> {
    runs_after(run, rest, rest.map_values(|c: char| alphanumeric(c)))
}

proof fn lemma_runs_step(run: Seq<char>, rest: Seq<char>)
    requires
        rest.len() > 0,
    ensures
        alphanumeric(rest[0]) ==> runs_in(run, rest) == runs_in(
            run.push(rest[0]),
            rest.drop_first(),
        ),
        !alphanumeric(rest[0]) ==> runs_in(run, rest) == run_of(run) + runs_in(
            seq![],
            rest.drop_first(),
        ),
{
    let mark = |c: char| alphanumeric(c);
    assert(rest.map_values(mark).drop_first() =~= rest.drop_first().map_values(mark));
}

proof fn lemma_runs_split(run: Seq<char>, before: Seq<char>, separator: char, after: Seq<char>)
    requires
        !alphanumeric(separator),
    ensures
        runs_in(run, before.push(separator) + after) == runs_in(run, before) + runs_in(
            seq![],
            after,
        ),
    decreases before.len(),
{
    let whole = before.push(separator) + after;
    lemma_runs_step(run, whole);
    if before.len() == 0 {
        assert(whole.drop_first() =~= after);
    } else {
        let rest = before.drop_first();
        lemma_runs_step(run, before);
        assert(whole.drop_first() =~= rest.push(separator) + after);
        if alphanumeric(before[0]) {
            lemma_runs_split(run.push(before[0]), rest, separator, after);
        } else {
            lemma_runs_split(seq![], rest, separator, after);
            assert(run_of(run) + (runs_in(seq![], rest) + runs_in(seq![], after)) =~= run_of(run)
                + runs_in(seq![], rest) + runs_in(seq![], after));
        }
    }
}

proof fn lemma_one_run(run: Seq<char>, text: Seq<char>)
    requires
        forall|i: int| 0 <= i < text.len() ==> alphanumeric(#[trigger] text[i]),
    ensures
        runs_in(run, text) == run_of(run + text),
    decreases text.len(),
{
    if text.len() == 0 {
        assert(run + text =~= run);
    } else {
        lemma_runs_step(run, text);
        assert(alphanumeric(text[0]));
        lemma_one_run(run.push(text[0]), text.drop_first());
        assert(run.push(text[0]) + text.drop_first() =~= run + text);
    }
}

/// With a run open since `from`, each run that is still to come has bounds.
proof fn lemma_run_bounds(text: Seq<char>, from: int, at: int, k: int)
    requires
        0 <= from <= at <= text.len(),
        forall|i: int| from <= i < at ==> alphanumeric(#[trigger] text[i]),
        from > 0 ==> !alphanumeric(text[from - 1]),
        0 <= k < runs_in(text.subrange(from, at), text.skip(at)).len(),
    ensures
        exists|start: int, end: int|
            #[trigger] is_run(text, start, end) && runs_in(
                text.subrange(from, at),
                text.skip(at),
            )[k] == text.subrange(start, end),
    decreases text.len() - at,
{
    let run = text.subrange(from, at);
    let rest = text.skip(at);
    if at == text.len() {
        assert(is_run(text, from, at));
    } else {
        lemma_runs_step(run, rest);
        assert(rest[0] == text[at]);
        assert(rest.drop_first() =~= text.skip(at + 1));
        if alphanumeric(text[at]) {
            assert(run.push(text[at]) =~= text.subrange(from, at + 1));
            lemma_run_bounds(text, from, at + 1, k);
        } else if k < run_of(run).len() {
            assert(is_run(text, from, at));
        } else {
            assert(text.subrange(at + 1, at + 1) =~= seq![]);
            lemma_run_bounds(text, at + 1, at + 1, k - run_of(run).len());
        }
    }
}

/// What is fed to the hasher for the tokens themselves: each token's bytes and
/// an end mark, so that "a" + "bc" differs from "ab" + "c".
pub open spec fn token_writes(tokens: Seq<Seq<char>>) -> Seq<Seq<u8>>
    decreases tokens.len(),
{
    if tokens.len() == 0 {
        seq![]
    } else {
        token_writes(tokens.drop_last()).push(encode_utf8(tokens.last())).push(seq![0xffu8])
    }
}

/// The hash of a list of tokens: their number, then the tokens.
pub open spec fn tokens_hash(tokens: Seq<Seq<char>>) -> u64 {
    DefaultHasher::spec_finish(
        seq![spec_u64_to_le_bytes(tokens.len() as u64)] + token_writes(tokens),
    )
}

/// The hash of every non-empty prefix of `tokens`, shortest first.
pub open spec fn prefix_chain(tokens: Seq<Seq<char>>) -> Seq<u64> {
    Seq::new(tokens.len(), |i: int| tokens_hash(tokens.take(i + 1)))
}

fn hash_tokens(tokens: &[String], len: usize) -> (hash: u64)
    requires
        len <= tokens@.len(),
    ensures
        hash == tokens_hash(texts(tokens@).take(len as int)),
{
    let ghost all = texts(tokens@);
    let mut hasher = DefaultHasher::new();
    let count = u64_to_le_bytes(len as u64);
    let end_mark: Vec<u8> = vec![0xff];
    hasher.write(count.as_slice());
    let mut i: usize = 0;
    assert(all.take(0) =~= seq![]);
    assert(hasher@ =~= seq![count@] + token_writes(all.take(0)));
    while i < len
        invariant
            i <= len <= tokens@.len(),
            all == texts(tokens@),
            end_mark@ =~= seq![0xffu8],
            hasher@ == seq![count@] + token_writes(all.take(i as int)),
        decreases len - i,
    {
        hasher.write(tokens[i].as_str().as_bytes());
        hasher.write(end_mark.as_slice());
        i += 1;
        proof {
            let done = all.take(i as int);
            assert(done.drop_last() =~= all.take(i - 1));
            assert(done.last() == tokens@[i - 1]@);
            assert(hasher@ =~= seq![count@] + token_writes(done));
        }
    }
    hasher.finish()
}

/// Prefix hashes for every non-empty prefix of `tokens`.
pub fn prefix_hashes(tokens: &[String]) -> (hashes: Vec<u64>)
    ensures
        hashes@ == prefix_chain(texts(tokens@)),
{
    let mut hashes: Vec<u64> = Vec::new();
    while hashes.len() < tokens.len()
        invariant
            hashes@.len() <= tokens@.len(),
            hashes@ == prefix_chain(texts(tokens@)).take(hashes@.len() as int),
        decreases tokens@.len() - hashes@.len(),
    {
        let len = hashes.len() + 1;
        let hash = hash_tokens(tokens, len);
        hashes.push(hash);
        assert(hashes@ =~= prefix_chain(texts(tokens@)).take(hashes@.len() as int));
    }
    assert(hashes@ =~= prefix_chain(texts(tokens@)));
    hashes
}

/// Something whose prefixes can be recorded: a chain of hashes, or a list of
/// tokens that has one.
pub trait PrefixKey {
    /// One hash for each non-empty prefix, shortest first.
    spec fn chain(&self) -> Seq<u64>;

    /// Compute the chain.
    fn hashes(&self) -> (hashes: Vec<u64>)
        ensures
            hashes@ == self.chain(),
    ;
}

fn copied(hashes: &[u64]) -> (r: Vec<u64>)
    ensures
        r@ == hashes@,
{
    let mut r: Vec<u64> = Vec::new();
    while r.len() < hashes.len()
        invariant
            r@.len() <= hashes@.len(),
            r@ == hashes@.take(r@.len() as int),
        decreases hashes@.len() - r@.len(),
    {
        r.push(hashes[r.len()]);
        assert(r@ =~= hashes@.take(r@.len() as int));
    }
    assert(r@ =~= hashes@);
    r
}

impl PrefixKey for [u64] {
    open spec fn chain(&self) -> Seq<u64> {
        self@
    }

    fn hashes(&self) -> (hashes: Vec<u64>) {
        copied(self)
    }
}

impl PrefixKey for Vec<u64> {
    open spec fn chain(&self) -> Seq<u64> {
        self@
    }

    fn hashes(&self) -> (hashes: Vec<u64>) {
        copied(self.as_slice())
    }
}

impl PrefixKey for [String] {
    open spec fn chain(&self) -> Seq<u64> {
        prefix_chain(texts(self@))
    }

    fn hashes(&self) -> (hashes: Vec<u64>) {
        prefix_hashes(self)
    }
}

impl PrefixKey for Vec<String> {
    open spec fn chain(&self) -> Seq<u64> {
        prefix_chain(texts(self@))
    }

    fn hashes(&self) -> (hashes: Vec<u64>) {
        prefix_hashes(self.as_slice())
    }
}

/// Number of shards; a power of two.
pub const SHARDS: usize = 64;

/// The shard that a hash belongs to.
pub open spec fn shard_index(hash: u64) -> int {
    (hash & 63) as int
}

fn shard_of(hash: u64) -> (shard: usize)
    ensures
        shard == shard_index(hash),
        0 <= shard < SHARDS,
{
    assert(hash & 63 < 64) by (bit_vector);
    (hash & 63) as usize
}

/// One index entry: who holds the block, and when it was last touched.
#[derive(Debug)]
struct IndexEntry {
    workers: Vec<WorkerId>,
    last_touched: u64,
}

impl IndexEntry {
    spec fn belief(self) -> Belief {
        Belief { workers: self.workers@.to_set(), last_touched: self.last_touched }
    }

    spec fn wf(self) -> bool {
        self.workers@.no_duplicates() && self.workers@.len() > 0
    }

    fn position(&self, worker: WorkerId) -> (r: Option<usize>)
        ensures
            match r {
                Some(i) => i < self.workers@.len() && self.workers@[i as int] == worker,
                None => !self.belief().workers.contains(worker),
            },
            r is Some ==> self.belief().workers.contains(worker),
    {
        let mut i: usize = 0;
        while i < self.workers.len()
            invariant
                i <= self.workers@.len(),
                forall|k: int| 0 <= k < i ==> self.workers@[k] != worker,
            decreases self.workers@.len() - i,
        {
            if self.workers[i] == worker {
                assert(self.workers@.contains(self.workers@[i as int]));
                return Some(i);
            }
            i += 1;
        }
        None
    }

    fn held_by(worker: WorkerId, now: u64) -> (r: IndexEntry)
        ensures
            r.wf(),
            r.belief() == (Belief {
                workers: Set::<WorkerId>::empty().insert(worker),
                last_touched: now,
            }),
    {
        let mut workers: Vec<WorkerId> = Vec::new();
        workers.push(worker);
        assert(workers@ =~= Seq::<WorkerId>::empty().push(worker));
        proof {
            Seq::<WorkerId>::empty().lemma_push_to_set_commute(worker);
            assert(Seq::<WorkerId>::empty().to_set() =~= Set::empty());
        }
        IndexEntry { workers, last_touched: now }
    }

    fn with_worker(self, worker: WorkerId, now: u64) -> (r: IndexEntry)
        requires
            self.wf(),
        ensures
            r.wf(),
            r.belief() == (Belief {
                workers: self.belief().workers.insert(worker),
                last_touched: now,
            }),
    {
        let missing = self.position(worker).is_none();
        let mut workers = self.workers;
        if missing {
            proof {
                workers@.lemma_push_to_set_commute(worker);
                assert(!workers@.contains(worker));
            }
            workers.push(worker);
        } else {
            assert(workers@.to_set().insert(worker) =~= workers@.to_set());
        }
        IndexEntry { workers, last_touched: now }
    }

    fn without_worker(self, worker: WorkerId) -> (r: IndexEntry)
        requires
            self.wf(),
        ensures
            r.workers@.no_duplicates(),
            r.belief() == (Belief {
                workers: self.belief().workers.remove(worker),
                last_touched: self.last_touched,
            }),
    {
        let position = self.position(worker);
        let mut workers = self.workers;
        let ghost before = workers@;
        if let Some(i) = position {
            workers.remove(i);
            proof {
                assert(workers@ =~= before.remove(i as int));
                assert forall|w: WorkerId| workers@.contains(w) == (before.contains(w) && w
                    != worker) by {
                    if workers@.contains(w) {
                        let k = choose|k: int| 0 <= k < workers@.len() && workers@[k] == w;
                        if k < i {
                            assert(before[k] == w);
                        } else {
                            assert(before[k + 1] == w);
                        }
                    }
                    if before.contains(w) && w != worker {
                        let k = choose|k: int| 0 <= k < before.len() && before[k] == w;
                        if k < i {
                            assert(workers@[k] == w);
                        } else {
                            assert(workers@[k - 1] == w);
                        }
                    }
                }
                assert(workers@.to_set() =~= before.to_set().remove(worker));
            }
        } else {
            assert(workers@.to_set().remove(worker) =~= workers@.to_set());
        }
        IndexEntry { workers, last_touched: self.last_touched }
    }
}

/// What one eviction sweep removed.
#[derive(Debug, Clone, Copy, PartialEq, Eq, Structural)]
pub struct EvictionStats {
    /// Entries that had outlived the TTL.
    pub expired: usize,
    /// Entries trimmed to keep the index within its bound.
    pub evicted: usize,
}

/// A point on the machine's monotonic clock.
#[verifier::external_type_specification]
#[verifier::external_body]
pub struct ExInstant(Instant);

/// `Instant::now` reads the monotonic clock; nothing is claimed of the value.
pub assume_specification[ Instant::now ]() -> Instant;

/// `Instant::elapsed` tells the time passed since an instant; nothing is
/// claimed of the value.
pub assume_specification[ Instant::elapsed ](instant: &Instant) -> Duration;

/// `Duration::as_nanos` tells how many nanoseconds a duration has. A duration
/// is opaque here, so nothing is claimed of the number.
pub assume_specification[ Duration::as_nanos ](duration: &Duration) -> u128;

/// Sharded memory of which prompt blocks each worker is believed to hold.
///
/// The index is a belief, not a fact: engine-side eviction makes entries wrong,
/// and the worst case is a mis-route that pays a prefill. TTL, the LRU bound
/// and purging on worker death keep the belief bounded.
#[derive(Debug)]
pub struct PrefixIndex {
    shards: Vec<HashMap<u64, IndexEntry>>,
    started: Instant,
}

impl View for PrefixIndex {
    type V = Map<u64, Belief>;

    closed spec fn view(&self) -> Map<u64, Belief> {
        Map::new(
            |hash: u64| self.shards@[shard_index(hash)]@.contains_key(hash),
            |hash: u64| self.shards@[shard_index(hash)]@[hash].belief(),
        )
    }
}

impl PrefixIndex {
    /// Validity: every entry lies in the shard of its hash and names the
    /// workers that hold the block, at least one and each once.
    pub closed spec fn wf(self) -> bool {
        &&& self.shards@.len() == SHARDS
        &&& forall|i: int, hash: u64|
            0 <= i < SHARDS && #[trigger] self.shards@[i]@.contains_key(hash) ==> shard_index(hash)
                == i && self.shards@[i]@[hash].wf()
    }

    /// An empty index.
    pub fn new() -> (r: PrefixIndex)
        ensures
            r.wf(),
            r@ == Map::<u64, Belief>::empty(),
    {
        let mut shards: Vec<HashMap<u64, IndexEntry>> = Vec::new();
        while shards.len() < SHARDS
            invariant
                shards@.len() <= SHARDS,
                forall|i: int|
                    0 <= i < shards@.len() ==> (#[trigger] shards@[i])@ == Map::<
                        u64,
                        IndexEntry,
                    >::empty(),
            decreases SHARDS - shards@.len(),
        {
            shards.push(HashMap::new());
        }
        let r = PrefixIndex { shards, started: Instant::now() };
        assert forall|hash: u64| !r@.contains_key(hash) by {
            lemma_shard_index(hash);
        }
        assert(r@ =~= Map::<u64, Belief>::empty());
        r
    }

    /// Nanoseconds since the index was made, the time its entries are stamped
    /// with. It rests on the machine's clock alone.
    pub(crate) fn now(&self) -> u64 {
        self.started.elapsed().as_nanos() as u64
    }

    fn entry(&self, hash: u64) -> (r: Option<&IndexEntry>)
        requires
            self.wf(),
        ensures
            match r {
                Some(entry) => entry.wf() && self@.contains_key(hash) && entry.belief()
                    == self@[hash],
                None => !self@.contains_key(hash),
            },
    {
        let shard = shard_of(hash);
        self.shards[shard].get(&hash)
    }

    fn put(&mut self, hash: u64, entry: IndexEntry)
        requires
            old(self).wf(),
            entry.wf(),
        ensures
            final(self).wf(),
            final(self)@ == old(self)@.insert(hash, entry.belief()),
    {
        let shard = shard_of(hash);
        self.shards[shard].insert(hash, entry);
        proof {
            let after = old(self)@.insert(hash, entry.belief());
            assert forall|h: u64|
                #![trigger self@.contains_key(h)]
                self@.contains_key(h) == after.contains_key(h) && (self@.contains_key(h) ==> self@[h]
                    == after[h]) by {
                lemma_shard_index(h);
            }
            assert(self@ =~= after);
        }
    }

    fn take(&mut self, hash: u64) -> (r: Option<IndexEntry>)
        requires
            old(self).wf(),
        ensures
            final(self).wf(),
            final(self)@ == old(self)@.remove(hash),
            match r {
                Some(entry) => entry.wf() && old(self)@.contains_key(hash) && entry.belief()
                    == old(self)@[hash],
                None => !old(self)@.contains_key(hash),
            },
    {
        let shard = shard_of(hash);
        let r = self.shards[shard].remove(&hash);
        proof {
            let after = old(self)@.remove(hash);
            assert forall|h: u64|
                #![trigger self@.contains_key(h)]
                self@.contains_key(h) == after.contains_key(h) && (self@.contains_key(h) ==> self@[h]
                    == after[h]) by {
                lemma_shard_index(h);
            }
            assert(self@ =~= after);
        }
        r
    }

    spec fn below(self, shards: int) -> Set<u64> {
        self@.dom().filter(|hash: u64| shard_index(hash) < shards)
    }

    proof fn lemma_below_grows(self, i: int)
        requires
            self.wf(),
            0 <= i < SHARDS,
        ensures
            self.below(i + 1) == self.below(i).union(self.shards@[i]@.dom()),
            self.below(i).disjoint(self.shards@[i]@.dom()),
    {
        assert forall|h: u64| self.below(i + 1).contains(h) == self.below(i).union(
            self.shards@[i]@.dom(),
        ).contains(h) by {
            lemma_shard_index(h);
            if self.shards@[i]@.contains_key(h) {
                assert(shard_index(h) == i);
            }
        }
        assert(self.below(i + 1) =~= self.below(i).union(self.shards@[i]@.dom()));
        assert forall|h: u64| self.below(i).contains(h) implies !self.shards@[i]@.dom().contains(
            h,
        ) by {
            if self.shards@[i]@.contains_key(h) {
                assert(shard_index(h) == i);
            }
        }
    }

    proof fn lemma_below_all(self)
        ensures
            self.below(0) == Set::<u64>::empty(),
            self.below(SHARDS as int) == self@.dom(),
    {
        assert forall|h: u64| 0 <= #[trigger] shard_index(h) < SHARDS by {
            lemma_shard_index(h);
        }
        assert(self.below(0) =~= Set::<u64>::empty());
        assert(self.below(SHARDS as int) =~= self@.dom());
    }

    /// Number of entries in the index.
    pub fn len(&self) -> (r: usize)
        requires
            self.wf(),
        ensures
            self@.dom().finite(),
            self@.len() <= usize::MAX ==> r == self@.len(),
            self@.len() > usize::MAX ==> r == usize::MAX,
    {
        let mut sum: usize = 0;
        let mut i: usize = 0;
        proof {
            self.lemma_below_all();
        }
        while i < SHARDS
            invariant
                self.wf(),
                i <= SHARDS,
                self.below(i as int).finite(),
                sum == if self.below(i as int).len() <= usize::MAX {
                    self.below(i as int).len()
                } else {
                    usize::MAX as nat
                },
            decreases SHARDS - i,
        {
            proof {
                self.lemma_below_grows(i as int);
                vstd::set_lib::lemma_set_disjoint_lens(
                    self.below(i as int),
                    self.shards@[i as int]@.dom(),
                );
            }
            sum = sum.saturating_add(self.shards[i].len());
            i += 1;
        }
        proof {
            self.lemma_below_all();
        }
        sum
    }

    fn hashes(&self) -> (hashes: Vec<u64>)
        requires
            self.wf(),
        ensures
            hashes@.no_duplicates(),
            hashes@.to_set() == self@.dom(),
            self@.dom().finite(),
            hashes@.len() == self@.len(),
    {
        let mut hashes: Vec<u64> = Vec::new();
        let mut i: usize = 0;
        proof {
            self.lemma_below_all();
            assert(hashes@.to_set() =~= self.below(0));
        }
        while i < SHARDS
            invariant
                self.wf(),
                i <= SHARDS,
                hashes@.no_duplicates(),
                hashes@.to_set() == self.below(i as int),
            decreases SHARDS - i,
        {
            let mut keys = keys_of(&self.shards[i]);
            let ghost before = hashes@;
            let ghost added = keys@;
            hashes.append(&mut keys);
            proof {
                self.lemma_below_grows(i as int);
                assert(hashes@ == before + added);
                assert forall|h: u64| hashes@.contains(h) == (before.contains(h)
                    || added.contains(h)) by {
                    if before.contains(h) {
                        let k = choose|k: int| 0 <= k < before.len() && before[k] == h;
                        assert(hashes@[k] == h);
                    }
                    if added.contains(h) {
                        let k = choose|k: int| 0 <= k < added.len() && added[k] == h;
                        assert(hashes@[before.len() + k] == h);
                    }
                }
                assert(hashes@.to_set() =~= before.to_set().union(added.to_set()));
                assert forall|a: int, b: int|
                    0 <= a < hashes@.len() && 0 <= b < hashes@.len() && a != b implies hashes@[a]
                    != hashes@[b] by {
                    if a < before.len() && b >= before.len() {
                        assert(before.to_set().contains(before[a]));
                        assert(added.to_set().contains(added[b - before.len()]));
                    }
                    if b < before.len() && a >= before.len() {
                        assert(before.to_set().contains(before[b]));
                        assert(added.to_set().contains(added[a - before.len()]));
                    }
                }
            }
            i += 1;
        }
        proof {
            self.lemma_below_all();
            hashes@.unique_seq_to_set();
            vstd::seq_lib::seq_to_set_is_finite(hashes@);
        }
        hashes
    }

    /// Record, at time `now`, that this worker holds every block of `chain`.
    pub fn record_at(&mut self, worker: WorkerId, chain: &[u64], now: u64)
        requires
            old(self).wf(),
        ensures
            final(self).wf(),
            final(self)@ == recorded(old(self)@, worker, chain@, now),
    {
        let mut i: usize = 0;
        assert(chain@.take(0) =~= seq![]);
        assert(self@ =~= recorded(old(self)@, worker, chain@.take(0), now));
        while i < chain.len()
            invariant
                self.wf(),
                i <= chain@.len(),
                self@ == recorded(old(self)@, worker, chain@.take(i as int), now),
            decreases chain@.len() - i,
        {
            let hash = chain[i];
            let ghost before = self@;
            let entry = match self.take(hash) {
                Some(entry) => entry.with_worker(worker, now),
                None => IndexEntry::held_by(worker, now),
            };
            self.put(hash, entry);
            i += 1;
            proof {
                let done = chain@.take(i as int);
                assert(done =~= chain@.take(i - 1).push(hash));
                lemma_record_one_more(old(self)@, worker, chain@.take(i - 1), hash, now);
                assert(self@ =~= before.insert(
                    hash,
                    Belief { workers: holders(before, hash).insert(worker), last_touched: now },
                ));
            }
        }
        assert(chain@.take(i as int) =~= chain@);
    }

    /// Record that this worker now holds every prefix of `prefix`: the
    /// optimistic belief that it caches the blocks once it has served them.
    pub fn record<P: PrefixKey + ?Sized>(&mut self, worker: WorkerId, prefix: &P)
        requires
            old(self).wf(),
        ensures
            final(self).wf(),
            exists|now: u64|
                final(self)@ == #[trigger] recorded(old(self)@, worker, prefix.chain(), now),
    {
        let now = self.now();
        let chain = prefix.hashes();
        self.record_at(worker, chain.as_slice(), now);
    }

    /// Longest prefix of `chain` this worker is believed to hold, walking
    /// until the first miss and touching, at time `now`, each block it finds.
    pub fn longest_match_at(&mut self, worker: WorkerId, chain: &[u64], now: u64) -> (r: usize)
        requires
            old(self).wf(),
        ensures
            final(self).wf(),
            r == match_len(old(self)@, worker, chain@),
            r <= chain@.len(),
            forall|i: int|
                0 <= i < r ==> old(self)@.contains_key(#[trigger] chain@[i])
                    && old(self)@[chain@[i]].workers.contains(worker),
            r < chain@.len() ==> !(old(self)@.contains_key(chain@[r as int])
                && old(self)@[chain@[r as int]].workers.contains(worker)),
            final(self)@ == touched(old(self)@, chain@.take(r as int), now),
    {
        let mut i: usize = 0;
        assert(self@ =~= touched(old(self)@, chain@.take(0), now));
        while i < chain.len()
            invariant
                self.wf(),
                i <= chain@.len(),
                self@ == touched(old(self)@, chain@.take(i as int), now),
                forall|k: int|
                    0 <= k < i ==> holds(old(self)@, worker, #[trigger] chain@[k]),
            decreases chain@.len() - i,
        {
            let hash = chain[i];
            let held = match self.entry(hash) {
                Some(entry) => entry.position(worker).is_some(),
                None => false,
            };
            if !held {
                assert(!holds(old(self)@, worker, hash));
                proof {
                    lemma_match_ends(old(self)@, worker, chain@, i as nat);
                }
                return i;
            }
            let ghost before = self@;
            if let Some(entry) = self.take(hash) {
                let workers = entry.workers;
                self.put(hash, IndexEntry { workers, last_touched: now });
            }
            i += 1;
            proof {
                let done = chain@.take(i as int);
                let prior = chain@.take(i - 1);
                assert(done =~= prior.push(hash));
                assert forall|h: u64| done.contains(h) == (prior.contains(h) || h == hash) by {
                    lemma_push_contains(prior, hash, h);
                }
                assert(self@ =~= touched(old(self)@, done, now));
            }
        }
        proof {
            lemma_match_ends(old(self)@, worker, chain@, i as nat);
        }
        i
    }

    /// Longest prefix of `chain` this worker is believed to hold. The blocks
    /// found are touched.
    pub fn longest_match(&mut self, worker: WorkerId, chain: &[u64]) -> (r: usize)
        requires
            old(self).wf(),
        ensures
            final(self).wf(),
            r == match_len(old(self)@, worker, chain@),
            r <= chain@.len(),
            forall|i: int|
                0 <= i < r ==> old(self)@.contains_key(#[trigger] chain@[i])
                    && old(self)@[chain@[i]].workers.contains(worker),
            r < chain@.len() ==> !(old(self)@.contains_key(chain@[r as int])
                && old(self)@[chain@[r as int]].workers.contains(worker)),
            exists|now: u64|
                final(self)@ == #[trigger] touched(old(self)@, chain@.take(r as int), now),
    {
        let now = self.now();
        self.longest_match_at(worker, chain, now)
    }

    /// Longest prefix of `tokens` this worker is known to have cached.
    pub fn matched_prefix_len(&self, worker: WorkerId, tokens: &[String]) -> (r: usize)
        requires
            self.wf(),
        ensures
            r == deepest_match(self@, worker, prefix_chain(texts(tokens@))),
            r <= tokens@.len(),
            forall|i: int|
                0 <= i < tokens@.len() && i + 1 >= r ==> (i + 1 == r <==> self@.contains_key(
                    #[trigger] prefix_chain(texts(tokens@))[i],
                ) && self@[prefix_chain(texts(tokens@))[i]].workers.contains(worker)),
    {
        let hashes = prefix_hashes(tokens);
        let mut len: usize = hashes.len();
        assert(hashes@.take(len as int) =~= hashes@);
        while len > 0
            invariant
                self.wf(),
                hashes@ == prefix_chain(texts(tokens@)),
                len <= hashes@.len(),
                deepest_match(self@, worker, hashes@) == deepest_match(
                    self@,
                    worker,
                    hashes@.take(len as int),
                ),
            decreases len,
        {
            let hash = hashes[len - 1];
            assert(hashes@.take(len as int).last() == hash);
            assert(hashes@.take(len as int).drop_last() =~= hashes@.take(len - 1));
            let held = match self.entry(hash) {
                Some(entry) => entry.position(worker).is_some(),
                None => false,
            };
            if held {
                proof {
                    lemma_last_held(self@, worker, hashes@);
                }
                return len;
            }
            len -= 1;
        }
        proof {
            lemma_last_held(self@, worker, hashes@);
        }
        0
    }

    /// Purge a worker: its KV cache died with it.
    pub fn remove_worker(&mut self, worker: WorkerId)
        requires
            old(self).wf(),
        ensures
            final(self).wf(),
            final(self)@ == without_worker(old(self)@, worker),
    {
        let hashes = self.hashes();
        let mut i: usize = 0;
        proof {
            self.law_every_entry_is_held();
            assert(self@ =~= purged_of(old(self)@, worker, hashes@.take(0)));
        }
        while i < hashes.len()
            invariant
                self.wf(),
                i <= hashes@.len(),
                hashes@.no_duplicates(),
                hashes@.to_set() == old(self)@.dom(),
                all_held(old(self)@),
                self@ == purged_of(old(self)@, worker, hashes@.take(i as int)),
            decreases hashes@.len() - i,
        {
            let hash = hashes[i];
            let ghost before = self@;
            proof {
                assert(hashes@.to_set().contains(hash));
                assert(!hashes@.take(i as int).contains(hash));
            }
            if let Some(entry) = self.take(hash) {
                let left = entry.without_worker(worker);
                if left.workers.len() > 0 {
                    assert(left.belief().workers.contains(left.workers@[0]));
                    assert(left.belief().workers != Set::<WorkerId>::empty());
                    self.put(hash, left);
                } else {
                    assert(left.belief().workers =~= Set::<WorkerId>::empty());
                }
            }
            i += 1;
            proof {
                let done = hashes@.take(i as int);
                let prior = hashes@.take(i - 1);
                assert(done =~= prior.push(hash));
                assert forall|h: u64| done.contains(h) == (prior.contains(h) || h == hash) by {
                    lemma_push_contains(prior, hash, h);
                }
                assert(self@ =~= purged_of(old(self)@, worker, done));
            }
        }
        proof {
            assert(hashes@.take(i as int) =~= hashes@);
            assert forall|h: u64| old(self)@.contains_key(h) implies hashes@.contains(h) by {
                assert(hashes@.to_set().contains(h));
            }
            assert(self@ =~= without_worker(old(self)@, worker));
        }
    }

    /// A valid index keeps no entry that nobody holds.
    pub proof fn law_every_entry_is_held(self)
        requires
            self.wf(),
        ensures
            all_held(self@),
    {
        assert forall|h: u64| #[trigger] self@.contains_key(h) implies self@[h].workers != Set::<
            WorkerId,
        >::empty() by {
            lemma_shard_index(h);
            let entry = self.shards@[shard_index(h)]@[h];
            assert(entry.wf());
            assert(entry.workers@.to_set().contains(entry.workers@[0]));
        }
    }

    /// Drop, at time `now`, the entries that nothing has touched for `ttl`
    /// nanoseconds, then the oldest ones until at most `max_entries` are left.
    pub fn evict_at(&mut self, now: u64, ttl: u64, max_entries: usize) -> (stats: EvictionStats)
        requires
            old(self).wf(),
        ensures
            final(self).wf(),
            newest(unexpired(old(self)@, now, ttl), max_entries as nat, final(self)@),
            stats.expired == old(self)@.len() - unexpired(old(self)@, now, ttl).len(),
            stats.evicted == unexpired(old(self)@, now, ttl).len() - final(self)@.len(),
    {
        let hashes = self.hashes();
        let ghost live = unexpired(old(self)@, now, ttl);
        let mut ages: Vec<(u64, u64)> = Vec::new();
        let mut i: usize = 0;
        assert(self@ =~= swept(old(self)@, now, ttl, hashes@.take(0)));
        while i < hashes.len()
            invariant
                self.wf(),
                i <= hashes@.len(),
                hashes@.no_duplicates(),
                hashes@.to_set() == old(self)@.dom(),
                live == unexpired(old(self)@, now, ttl),
                self@ == swept(old(self)@, now, ttl, hashes@.take(i as int)),
                ages@.len() <= i,
                ages_of(live, ages@),
                forall|k: int|
                    0 <= k < ages@.len() ==> hashes@.take(i as int).contains(
                        (#[trigger] ages@[k]).1,
                    ),
                forall|h: u64|
                    hashes@.take(i as int).contains(h) && #[trigger] live.contains_key(h)
                        ==> ages@.contains((live[h].last_touched, h)),
            decreases hashes@.len() - i,
        {
            let hash = hashes[i];
            let ghost prior = hashes@.take(i as int);
            let ghost before = ages@;
            proof {
                assert(hashes@.to_set().contains(hash));
                assert(!prior.contains(hash));
                assert(hashes@.take(i + 1) =~= prior.push(hash));
                assert forall|h: u64| hashes@.take(i + 1).contains(h) == (prior.contains(h) || h
                    == hash) by {
                    lemma_push_contains(prior, hash, h);
                }
            }
            let age = match self.entry(hash) {
                Some(entry) => Some(entry.last_touched),
                None => None,
            };
            if let Some(last_touched) = age {
                if now.saturating_sub(last_touched) >= ttl {
                    let _ = self.take(hash);
                } else {
                    ages.push((last_touched, hash));
                    proof {
                        assert(live.contains_key(hash));
                        assert forall|x: (u64, u64)| before.contains(x) implies ages@.contains(
                            x,
                        ) by {
                            let k = choose|k: int| 0 <= k < before.len() && before[k] == x;
                            assert(ages@[k] == x);
                        }
                        assert(ages@[before.len() as int] == (last_touched, hash));
                    }
                }
            }
            i += 1;
            assert(self@ =~= swept(old(self)@, now, ttl, hashes@.take(i as int)));
        }
        proof {
            assert(hashes@.take(i as int) =~= hashes@);
            assert forall|h: u64| old(self)@.contains_key(h) implies hashes@.contains(h) by {
                assert(hashes@.to_set().contains(h));
            }
            assert(self@ =~= live);
            lemma_ages_cover(live, ages@);
        }
        let expired_count = hashes.len() - ages.len();
        let mut evicted: usize = 0;
        if ages.len() > max_entries {
            let excess = ages.len() - max_entries;
            let sorted = sort_pairs(&ages, 0, ages.len());
            proof {
                assert(ages@.subrange(0, ages@.len() as int) =~= ages@);
                lemma_sorted_ages(live, ages@, sorted@);
            }
            assert(self@ =~= trimmed(live, sorted@.take(0)));
            while evicted < excess
                invariant
                    self.wf(),
                    evicted <= excess <= sorted@.len(),
                    ages_of(live, sorted@),
                    self@ == trimmed(live, sorted@.take(evicted as int)),
                decreases excess - evicted,
            {
                let hash = sorted[evicted].1;
                let _ = self.take(hash);
                proof {
                    let prior = sorted@.take(evicted as int);
                    let done = sorted@.take(evicted + 1);
                    assert(done =~= prior.push(sorted@[evicted as int]));
                    assert forall|h: u64| has_age(done, h) == (has_age(prior, h) || h == hash) by {
                        lemma_push_age(prior, sorted@[evicted as int], h);
                    }
                    assert(self@ =~= trimmed(live, done));
                }
                evicted += 1;
            }
            proof {
                lemma_trim_keeps_newest(live, sorted@, max_entries as nat);
            }
        }
        EvictionStats { expired: expired_count, evicted }
    }

    /// Drop the entries that nothing has touched for `ttl_secs`, then the
    /// oldest ones until at most `max_entries` are left.
    pub fn evict(&mut self, ttl_secs: u64, max_entries: usize) -> (stats: EvictionStats)
        requires
            old(self).wf(),
        ensures
            final(self).wf(),
            exists|now: u64|
                {
                    let live = #[trigger] unexpired(old(self)@, now, nanos_of(ttl_secs));
                    &&& newest(live, max_entries as nat, final(self)@)
                    &&& stats.expired == old(self)@.len() - live.len()
                    &&& stats.evicted == live.len() - final(self)@.len()
                },
    {
        let now = self.now();
        let ttl: u64 = match ttl_secs.checked_mul(1_000_000_000) {
            Some(nanos) => nanos,
            None => u64::MAX,
        };
        assert(ttl == nanos_of(ttl_secs));
        self.evict_at(now, ttl, max_entries)
    }
}

impl Default for PrefixIndex {
    fn default() -> (r: PrefixIndex)
        ensures
            r.wf(),
            r@ == Map::<u64, Belief>::empty(),
    {
        PrefixIndex::new()
    }
}

/// Seconds in nanoseconds, as far as a machine word reaches.
pub open spec fn nanos_of(secs: u64) -> u64 {
    if secs * 1_000_000_000 <= u64::MAX {
        (secs * 1_000_000_000) as u64
    } else {
        u64::MAX
    }
}

/// The index part-way through a TTL sweep: the entries of `hashes` are done.
spec fn swept(
    index: Map<u64, Belief>,
    now: u64,
    ttl: u64,
    hashes: Seq<u64>,
) -> Map<u64, Belief> {
    Map::new(
        |hash: u64|
            index.contains_key(hash) && (hashes.contains(hash) ==> !expired(
                index[hash].last_touched,
                now,
                ttl,
            )),
        |hash: u64| index[hash],
    )
}

spec fn has_age(ages: Seq<(u64, u64)>, hash: u64) -> bool {
    exists|k: int| 0 <= k < ages.len() && (#[trigger] ages[k]).1 == hash
}

/// The index part-way through an LRU trim: the entries of `ages` are gone.
spec fn trimmed(index: Map<u64, Belief>, ages: Seq<(u64, u64)>) -> Map<u64, Belief> {
    Map::new(
        |hash: u64| index.contains_key(hash) && !has_age(ages, hash),
        |hash: u64| index[hash],
    )
}

/// `ages` names entries of the index with their time of last touch, each once.
spec fn ages_of(index: Map<u64, Belief>, ages: Seq<(u64, u64)>) -> bool {
    &&& forall|k: int|
        0 <= k < ages.len() ==> index.contains_key((#[trigger] ages[k]).1)
            && index[ages[k].1].last_touched == ages[k].0
    &&& forall|k: int, l: int| 0 <= k < l < ages.len() ==> ages[k].1 != ages[l].1
}

proof fn lemma_push_age(ages: Seq<(u64, u64)>, added: (u64, u64), hash: u64)
    ensures
        has_age(ages.push(added), hash) == (has_age(ages, hash) || hash == added.1),
{
    let more = ages.push(added);
    if has_age(ages, hash) {
        let k = choose|k: int| 0 <= k < ages.len() && (#[trigger] ages[k]).1 == hash;
        assert(more[k].1 == hash);
    }
    if hash == added.1 {
        assert(more[ages.len() as int].1 == hash);
    }
    if has_age(more, hash) {
        let k = choose|k: int| 0 <= k < more.len() && (#[trigger] more[k]).1 == hash;
        if k < ages.len() {
            assert(ages[k].1 == hash);
        }
    }
}

/// Ages that name every entry are as many as the entries.
proof fn lemma_ages_cover(index: Map<u64, Belief>, ages: Seq<(u64, u64)>)
    requires
        ages_of(index, ages),
        forall|h: u64| #[trigger]
            index.contains_key(h) ==> ages.contains((index[h].last_touched, h)),
    ensures
        index.dom().finite(),
        index.len() == ages.len(),
{
    let named = ages.map_values(|age: (u64, u64)| age.1);
    assert(named.no_duplicates());
    assert(named.to_set() =~= index.dom()) by {
        assert forall|h: u64| named.to_set().contains(h) == index.dom().contains(h) by {
            if named.contains(h) {
                let k = choose|k: int| 0 <= k < named.len() && named[k] == h;
                assert(index.contains_key(ages[k].1));
            }
            if index.contains_key(h) {
                let k = choose|k: int|
                    0 <= k < ages.len() && ages[k] == (index[h].last_touched, h);
                assert(named[k] == h);
            }
        }
    }
    named.unique_seq_to_set();
    vstd::seq_lib::seq_to_set_is_finite(named);
}

/// Sorting keeps the ages what they are.
proof fn lemma_sorted_ages(
    index: Map<u64, Belief>,
    ages: Seq<(u64, u64)>,
    sorted: Seq<(u64, u64)>,
)
    requires
        ages_of(index, ages),
        sorted.to_multiset() == ages.to_multiset(),
        forall|h: u64| #[trigger]
            index.contains_key(h) ==> ages.contains((index[h].last_touched, h)),
    ensures
        ages_of(index, sorted),
        sorted.len() == ages.len(),
        forall|h: u64| #[trigger]
            index.contains_key(h) ==> sorted.contains((index[h].last_touched, h)),
{
    broadcast use vstd::seq_lib::group_to_multiset_ensures;

    assert(ages.no_duplicates()) by {
        assert forall|k: int, l: int|
            0 <= k < ages.len() && 0 <= l < ages.len() && k != l implies ages[k] != ages[l] by {
            if k < l {
                assert(ages[k].1 != ages[l].1);
            } else {
                assert(ages[l].1 != ages[k].1);
            }
        }
    }
    assert(sorted.len() == sorted.to_multiset().len());
    assert(ages.len() == ages.to_multiset().len());
    ages.lemma_multiset_has_no_duplicates();
    sorted.lemma_multiset_has_no_duplicates_conv();
    assert forall|x: (u64, u64)| sorted.contains(x) == ages.contains(x) by {
        assert(sorted.contains(x) <==> sorted.to_multiset().count(x) > 0);
        assert(ages.contains(x) <==> ages.to_multiset().count(x) > 0);
    }
    assert forall|k: int| 0 <= k < sorted.len() implies index.contains_key(
        (#[trigger] sorted[k]).1,
    ) && index[sorted[k].1].last_touched == sorted[k].0 by {
        assert(sorted.contains(sorted[k]));
        let l = choose|l: int| 0 <= l < ages.len() && ages[l] == sorted[k];
        assert(index.contains_key(ages[l].1));
    }
    assert forall|k: int, l: int| 0 <= k < l < sorted.len() implies sorted[k].1
        != sorted[l].1 by {
        assert(sorted[k] != sorted[l]);
        assert(index.contains_key(sorted[k].1));
        assert(index.contains_key(sorted[l].1));
    }
}

proof fn lemma_trimmed_len(index: Map<u64, Belief>, ages: Seq<(u64, u64)>)
    requires
        index.dom().finite(),
        ages_of(index, ages),
    ensures
        trimmed(index, ages).dom().finite(),
        trimmed(index, ages).len() == index.len() - ages.len(),
    decreases ages.len(),
{
    if ages.len() == 0 {
        assert(trimmed(index, ages) =~= index);
    } else {
        let prior = ages.drop_last();
        lemma_trimmed_len(index, prior);
        let hash = ages.last().1;
        assert(ages =~= prior.push(ages.last()));
        assert forall|h: u64| has_age(ages, h) == (has_age(prior, h) || h == hash) by {
            lemma_push_age(prior, ages.last(), h);
        }
        assert(!has_age(prior, hash)) by {
            if has_age(prior, hash) {
                let k = choose|k: int| 0 <= k < prior.len() && (#[trigger] prior[k]).1 == hash;
                assert(ages[k].1 != ages[ages.len() - 1].1);
            }
        }
        assert(index.contains_key(ages[ages.len() - 1].1));
        assert(trimmed(index, ages) =~= trimmed(index, prior).remove(hash));
    }
}

/// Dropping the first of the sorted ages leaves the newest entries.
proof fn lemma_trim_keeps_newest(
    index: Map<u64, Belief>,
    sorted: Seq<(u64, u64)>,
    max_entries: nat,
)
    requires
        index.dom().finite(),
        ages_of(index, sorted),
        ascending(sorted),
        sorted.len() == index.len(),
        max_entries < sorted.len(),
        forall|h: u64| #[trigger]
            index.contains_key(h) ==> sorted.contains((index[h].last_touched, h)),
    ensures
        newest(index, max_entries, trimmed(index, sorted.take(sorted.len() - max_entries))),
{
    let excess = sorted.len() - max_entries;
    let gone = sorted.take(excess);
    let kept = trimmed(index, gone);
    lemma_trimmed_len(index, gone);
    assert forall|a: u64, b: u64|
        index.contains_key(a) && !kept.contains_key(a) && kept.contains_key(
            b,
        ) implies #[trigger] leaves_before(index, a, b) by {
        let i = choose|i: int| 0 <= i < gone.len() && (#[trigger] gone[i]).1 == a;
        assert(sorted[i].1 == a);
        let j = choose|j: int| 0 <= j < sorted.len() && sorted[j] == (index[b].last_touched, b);
        if j < excess {
            assert(gone[j].1 == b);
        }
        assert(pair_le(sorted[i], sorted[j]));
    }
}

/// The index part-way through a purge: the entries of `hashes` are done.
spec fn purged_of(
    index: Map<u64, Belief>,
    worker: WorkerId,
    hashes: Seq<u64>,
) -> Map<u64, Belief> {
    Map::new(
        |hash: u64|
            index.contains_key(hash) && (hashes.contains(hash)
                ==> index[hash].workers.remove(worker) != Set::<WorkerId>::empty()),
        |hash: u64|
            if hashes.contains(hash) {
                Belief { workers: index[hash].workers.remove(worker), ..index[hash] }
            } else {
                index[hash]
            },
    )
}

proof fn lemma_push_contains(seq: Seq<u64>, added: u64, x: u64)
    ensures
        seq.push(added).contains(x) == (seq.contains(x) || x == added),
{
    let more = seq.push(added);
    if seq.contains(x) {
        let k = choose|k: int| 0 <= k < seq.len() && seq[k] == x;
        assert(more[k] == x);
    }
    if x == added {
        assert(more[seq.len() as int] == x);
    }
    if more.contains(x) {
        let k = choose|k: int| 0 <= k < more.len() && more[k] == x;
        if k < seq.len() {
            assert(seq[k] == x);
        }
    }
}

proof fn lemma_record_one_more(
    index: Map<u64, Belief>,
    worker: WorkerId,
    chain: Seq<u64>,
    hash: u64,
    now: u64,
)
    ensures
        ({
            let before = recorded(index, worker, chain, now);
            recorded(index, worker, chain.push(hash), now) == before.insert(
                hash,
                Belief { workers: holders(before, hash).insert(worker), last_touched: now },
            )
        }),
{
    let before = recorded(index, worker, chain, now);
    let after = recorded(index, worker, chain.push(hash), now);
    let more = chain.push(hash);
    assert forall|h: u64| more.contains(h) == (chain.contains(h) || h == hash) by {
        lemma_push_contains(chain, hash, h);
    }
    let belief = Belief { workers: holders(before, hash).insert(worker), last_touched: now };
    assert(holders(before, hash).insert(worker) =~= holders(index, hash).insert(worker));
    assert(after =~= before.insert(hash, belief));
}

proof fn lemma_shard_index(hash: u64)
    ensures
        0 <= shard_index(hash) < SHARDS,
{
    assert(hash & 63 < 64) by (bit_vector);
}

/// Lists of tokens are hashed from different inputs unless they are the same
/// list: separators keep apart what token boundaries keep apart.
pub proof fn law_token_lists_are_told_apart(a: Seq<Seq<char>>, b: Seq<Seq<char>>)
    requires
        token_writes(a) == token_writes(b),
    ensures
        a == b,
    decreases a.len(),
{
    lemma_token_writes_len(a);
    lemma_token_writes_len(b);
    if a.len() > 0 {
        let writes = token_writes(a);
        let head_a = token_writes(a.drop_last());
        let head_b = token_writes(b.drop_last());
        lemma_token_writes_len(a.drop_last());
        lemma_token_writes_len(b.drop_last());
        let at = writes.len() - 2;
        assert(writes[at] == encode_utf8(a.last()));
        assert(token_writes(b)[at] == encode_utf8(b.last()));
        vstd::utf8::encode_utf8_decode_utf8(a.last());
        vstd::utf8::encode_utf8_decode_utf8(b.last());
        assert(head_a =~= writes.take(at));
        assert(head_b =~= token_writes(b).take(at));
        law_token_lists_are_told_apart(a.drop_last(), b.drop_last());
        assert(a =~= a.drop_last().push(a.last()));
        assert(b =~= b.drop_last().push(b.last()));
    } else {
        assert(a =~= b);
    }
}

proof fn lemma_token_writes_len(tokens: Seq<Seq<char>>)
    ensures
        token_writes(tokens).len() == 2 * tokens.len(),
    decreases tokens.len(),
{
    if tokens.len() > 0 {
        lemma_token_writes_len(tokens.drop_last());
    }
}

/// The chain of a list of tokens is the beginning of the chain of every list
/// that extends it.
pub proof fn law_longer_tokens_extend_the_chain(tokens: Seq<Seq<char>>, longer: Seq<Seq<char>>)
    requires
        tokens.is_prefix_of(longer),
    ensures
        prefix_chain(tokens).is_prefix_of(prefix_chain(longer)),
{
    assert forall|i: int| 0 <= i < tokens.len() implies prefix_chain(tokens)[i] == prefix_chain(
        longer,
    )[i] by {
        assert(tokens.take(i + 1) =~= longer.take(i + 1));
    }
}

/// Once a prompt's tokens are recorded against a worker, every prompt that
/// extends them matches at least that far.
pub proof fn law_recorded_tokens_match_longer_prompts(
    index: Map<u64, Belief>,
    worker: WorkerId,
    tokens: Seq<Seq<char>>,
    longer: Seq<Seq<char>>,
    now: u64,
)
    requires
        tokens.is_prefix_of(longer),
    ensures
        deepest_match(
            recorded(index, worker, prefix_chain(tokens), now),
            worker,
            prefix_chain(longer),
        ) >= tokens.len(),
{
    let after = recorded(index, worker, prefix_chain(tokens), now);
    law_longer_tokens_extend_the_chain(tokens, longer);
    if tokens.len() > 0 {
        let last = prefix_chain(tokens)[tokens.len() - 1];
        assert(prefix_chain(tokens).contains(last));
        assert(prefix_chain(longer)[tokens.len() - 1] == last);
        lemma_held_hash_bounds_match(after, worker, prefix_chain(longer), tokens.len() - 1);
    }
}

proof fn lemma_last_held(index: Map<u64, Belief>, worker: WorkerId, hashes: Seq<u64>)
    ensures
        deepest_match(index, worker, hashes) <= hashes.len(),
        forall|i: int|
            0 <= i < hashes.len() && i + 1 >= deepest_match(index, worker, hashes) ==> (i + 1
                == deepest_match(index, worker, hashes) <==> index.contains_key(#[trigger] hashes[i])
                && index[hashes[i]].workers.contains(worker)),
{
    lemma_deepest_match_is_held(index, worker, hashes);
    assert forall|i: int|
        0 <= i < hashes.len() && i + 1 >= deepest_match(index, worker, hashes) implies (i + 1
        == deepest_match(index, worker, hashes) <==> index.contains_key(#[trigger] hashes[i])
        && index[hashes[i]].workers.contains(worker)) by {
        law_deepest_match_is_the_last_held(index, worker, hashes, i);
    }
}

/// A held hash bounds the deepest match from below.
pub proof fn lemma_held_hash_bounds_match(
    index: Map<u64, Belief>,
    worker: WorkerId,
    hashes: Seq<u64>,
    at: int,
)
    requires
        0 <= at < hashes.len(),
        holds(index, worker, hashes[at]),
    ensures
        deepest_match(index, worker, hashes) > at,
    decreases hashes.len(),
{
    if !holds(index, worker, hashes.last()) {
        assert(hashes.drop_last()[at] == hashes[at]);
        lemma_held_hash_bounds_match(index, worker, hashes.drop_last(), at);
    }
}

/// A list of hashes stands for itself; a list of tokens has one hash for each
/// non-empty prefix.
pub proof fn law_keys_have_their_chains(hashes: Vec<u64>, tokens: Vec<String>)
    ensures
        hashes.chain() == hashes@,
        tokens.chain() == prefix_chain(texts(tokens@)),
        tokens.chain().len() == tokens@.len(),
{
}

/// A list of hashes, or of tokens, is the same key as a slice.
pub proof fn law_slices_are_the_same_keys(hashes: &[u64], tokens: &[String])
    ensures
        hashes.chain() == hashes@,
        tokens.chain() == prefix_chain(texts(tokens@)),
        tokens.chain().len() == tokens@.len(),
{
}

/// The hash of a prefix of tokens tells the prefix: where two prefixes have
/// equal hashes they are the same tokens, as many and in the same order, unless
/// the two hasher inputs collide.
pub proof fn law_equal_prefix_hashes_mean_equal_tokens(
    a: Seq<Seq<char>>,
    b: Seq<Seq<char>>,
    i: int,
    j: int,
)
    requires
        a.len() <= u64::MAX,
        b.len() <= u64::MAX,
        0 <= i < a.len(),
        0 <= j < b.len(),
        ({
            let input_a = seq![spec_u64_to_le_bytes((i + 1) as u64)] + token_writes(a.take(i + 1));
            let input_b = seq![spec_u64_to_le_bytes((j + 1) as u64)] + token_writes(b.take(j + 1));
            DefaultHasher::spec_finish(input_a) == DefaultHasher::spec_finish(input_b) ==> input_a
                == input_b
        }),
        prefix_chain(a)[i] == prefix_chain(b)[j],
    ensures
        i == j,
        a.take(i + 1) == b.take(j + 1),
{
    let input_a = seq![spec_u64_to_le_bytes((i + 1) as u64)] + token_writes(a.take(i + 1));
    let input_b = seq![spec_u64_to_le_bytes((j + 1) as u64)] + token_writes(b.take(j + 1));
    assert(a.take(i + 1).len() == i + 1);
    assert(b.take(j + 1).len() == j + 1);
    assert(input_a == input_b);
    lemma_token_writes_len(a.take(i + 1));
    lemma_token_writes_len(b.take(j + 1));
    assert(token_writes(a.take(i + 1)) =~= input_a.skip(1));
    assert(token_writes(b.take(j + 1)) =~= input_b.skip(1));
    law_token_lists_are_told_apart(a.take(i + 1), b.take(j + 1));
}

/// Lists that start with the same tokens have the same hashes that far.
pub proof fn law_equal_tokens_have_equal_prefix_hashes(
    a: Seq<Seq<char>>,
    b: Seq<Seq<char>>,
    i: int,
)
    requires
        0 <= i < a.len(),
        i < b.len(),
        a.take(i + 1) == b.take(i + 1),
    ensures
        prefix_chain(a)[i] == prefix_chain(b)[i],
        prefix_chain(a).len() == a.len(),
{
}

/// Seconds are a thousand million nanoseconds each, up to the largest machine
/// word.
pub proof fn law_seconds_in_nanoseconds(secs: u64)
    ensures
        secs <= 18_446_744_073 ==> nanos_of(secs) == secs * 1_000_000_000,
        secs > 18_446_744_073 ==> nanos_of(secs) == u64::MAX,
{
}

} // verus!
