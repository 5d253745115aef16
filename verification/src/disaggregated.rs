//! The disaggregated flow: prefill and decode on different pools, with an
//! explicit handoff of the prompt's KV blocks in between.
//!
//! 1. [`begin`] selects a prefill worker; the request is proxied to it.
//! 2. [`hand_off`] selects a decode worker once prefill is done, and names the
//!    transfer that brings the blocks there.
//! 3. After the transfer the request is proxied to the decode worker, whose
//!    token stream is what the client sees.

use vstd::prelude::*;

use crate::beliefs::match_len;
use crate::config::Pool;
use crate::error::RouterError;
use crate::hashing::prompt_chain;
use crate::kv_transfer::Transfer;
use crate::request::{prompt_of, ChatCompletionRequest};
use crate::router::{
    law_dispatch_is_remembered, law_pool_selection_is_the_best_tradeoff,
    law_pool_selection_stays_in_the_pool, RouteDecision, Router, RouterView,
};
use crate::score::Score;
use crate::worker::WorkerId;

verus! {

/// A request whose prefill worker is chosen.
#[derive(Debug)]
pub struct Prefilling {
    /// The prompt's block chain.
    pub chain: Vec<u64>,
    /// The prefill worker.
    pub prefill: RouteDecision,
}

/// A prefilled request whose decode worker is chosen.
#[derive(Debug)]
pub struct Decoding {
    /// The prefill worker.
    pub prefill: RouteDecision,
    /// The decode worker.
    pub decode: RouteDecision,
    /// The transfer to run before decoding.
    pub transfer: Transfer,
}

/// The header that tells a worker which phase a proxied request is in.
pub fn phase_header(pool: Pool) -> (r: (String, String))
    ensures
        r.0@ == "x-router-phase"@,
        r.1@ == pool.name(),
        r.1@ == match pool {
            Pool::Prefill => "prefill"@,
            Pool::Decode => "decode"@,
            Pool::Both => "both"@,
        },
{
    ("x-router-phase".to_owned(), pool.to_string())
}

/// What choosing the prefill worker returns at time `now`.
pub open spec fn begins<F: Fn(usize, u64) -> Score>(
    scoring: F,
    before: RouterView,
    chain: Seq<u64>,
    now: u64,
    r: Result<Prefilling, RouterError>,
    after: RouterView,
) -> bool {
    match r {
        Ok(started) => started.chain@ == chain && before.pool_outcome(
            scoring,
            Pool::Prefill,
            chain,
            now,
            Ok(started.prefill),
            after,
        ),
        Err(error) => before.pool_outcome(scoring, Pool::Prefill, chain, now, Err(error), after),
    }
}

/// Choose the prefill worker for a request.
pub fn begin<F: Fn(usize, u64) -> Score>(
    router: &mut Router<F>,
    request: &ChatCompletionRequest,
) -> (r: Result<Prefilling, RouterError>)
    requires
        old(router).wf(),
    ensures
        final(router).wf(),
        final(router).scoring() == old(router).scoring(),
        exists|now: u64| #[trigger]
            begins(
                old(router).scoring(),
                old(router)@,
                prompt_chain(prompt_of(request.messages@), old(router)@.block_size),
                now,
                r,
                final(router)@,
            ),
{
    let chain = router.chain_for(request);
    let outcome = router.select_in_pool(Pool::Prefill, chain.as_slice());
    let ghost now = choose|now: u64| #[trigger]
        old(router)@.pool_outcome(
            old(router).scoring(),
            Pool::Prefill,
            chain@,
            now,
            outcome,
            router@,
        );
    let r = match outcome {
        Ok(prefill) => Ok(Prefilling { chain, prefill }),
        Err(error) => Err(error),
    };
    assert(begins(
        old(router).scoring(),
        old(router)@,
        prompt_chain(prompt_of(request.messages@), old(router)@.block_size),
        now,
        r,
        router@,
    ));
    r
}

/// What choosing the decode worker returns at time `now`: the whole prompt
/// moves from the prefill worker to it.
pub open spec fn hands_off<F: Fn(usize, u64) -> Score>(
    scoring: F,
    before: RouterView,
    started: Prefilling,
    now: u64,
    r: Result<Decoding, RouterError>,
    after: RouterView,
) -> bool {
    match r {
        Ok(handed) => {
            &&& handed.prefill == started.prefill
            &&& handed.transfer.from == started.prefill.worker.id
            &&& handed.transfer.to == handed.decode.worker.id
            &&& handed.transfer.blocks == started.chain@.len()
            &&& before.pool_outcome(
                scoring,
                Pool::Decode,
                started.chain@,
                now,
                Ok(handed.decode),
                after,
            )
        },
        Err(error) => before.pool_outcome(
            scoring,
            Pool::Decode,
            started.chain@,
            now,
            Err(error),
            after,
        ),
    }
}

/// Choose the decode worker for a prefilled request.
pub fn hand_off<F: Fn(usize, u64) -> Score>(
    router: &mut Router<F>,
    started: Prefilling,
) -> (r: Result<Decoding, RouterError>)
    requires
        old(router).wf(),
    ensures
        final(router).wf(),
        final(router).scoring() == old(router).scoring(),
        exists|now: u64| #[trigger]
            hands_off(old(router).scoring(), old(router)@, started, now, r, final(router)@),
{
    let outcome = router.select_in_pool(Pool::Decode, started.chain.as_slice());
    let ghost now = choose|now: u64| #[trigger]
        old(router)@.pool_outcome(
            old(router).scoring(),
            Pool::Decode,
            started.chain@,
            now,
            outcome,
            router@,
        );
    let ghost before_move = started;
    let r = match outcome {
        Ok(decode) => {
            let transfer = Transfer {
                from: started.prefill.worker.id,
                to: decode.worker.id,
                blocks: started.chain.len(),
            };
            Ok(Decoding { prefill: started.prefill, decode, transfer })
        },
        Err(error) => Err(error),
    };
    assert(hands_off(old(router).scoring(), old(router)@, before_move, now, r, router@));
    r
}

/// The two phases run on healthy workers of their own pools (two different
/// workers, while the registry stays as it is), and the decode worker is from
/// then on believed to hold the whole prompt.
pub proof fn law_phases_run_on_their_own_pools<F: Fn(usize, u64) -> Score>(
    scoring: F,
    first: RouterView,
    chain: Seq<u64>,
    begun_at: u64,
    started: Prefilling,
    second: RouterView,
    third: RouterView,
    handed_at: u64,
    handed: Decoding,
    last: RouterView,
)
    requires
        first.registry.well_filed(),
        begins(scoring, first, chain, begun_at, Ok(started), second),
        third.registry.well_filed(),
        hands_off(scoring, third, started, handed_at, Ok(handed), last),
    ensures
        handed.prefill.worker.pool == Pool::Prefill,
        first.registry.is_healthy(handed.prefill.worker.id),
        handed.decode.worker.pool == Pool::Decode,
        third.registry.is_healthy(handed.decode.worker.id),
        third.registry == first.registry ==> handed.transfer.from != handed.transfer.to,
        handed.transfer.blocks == chain.len(),
        match_len(last.index, handed.transfer.to, chain) == chain.len(),
{
    law_pool_selection_stays_in_the_pool(
        scoring,
        first,
        Pool::Prefill,
        chain,
        begun_at,
        started.prefill,
        second,
    );
    law_pool_selection_stays_in_the_pool(
        scoring,
        third,
        Pool::Decode,
        chain,
        handed_at,
        handed.decode,
        last,
    );
    let other: WorkerId = if handed.transfer.to == 0 {
        1
    } else {
        0
    };
    law_dispatch_is_remembered(third, handed.transfer.to, chain, handed_at, other, seq![]);
}

/// The prefill worker is what a selection in the prefill pool gives for the
/// whole chain, and where there is no such worker that selection's error is
/// returned.
pub proof fn law_begin_selects_for_prefill<F: Fn(usize, u64) -> Score>(
    scoring: F,
    before: RouterView,
    chain: Seq<u64>,
    now: u64,
    r: Result<Prefilling, RouterError>,
    after: RouterView,
)
    requires
        begins(scoring, before, chain, now, r, after),
    ensures
        match r {
            Ok(started) => {
                &&& started.chain@ == chain
                &&& before.pool_outcome(
                    scoring,
                    Pool::Prefill,
                    chain,
                    now,
                    Ok(started.prefill),
                    after,
                )
            },
            Err(error) => before.pool_outcome(
                scoring,
                Pool::Prefill,
                chain,
                now,
                Err(error),
                after,
            ),
        },
{
}

/// The decode worker is what a selection in the decode pool gives for the same
/// chain. The transfer brings every block of it from the prefill worker to the
/// decode worker, and the prefill decision is handed on unchanged.
pub proof fn law_hand_off_selects_for_decode<F: Fn(usize, u64) -> Score>(
    scoring: F,
    before: RouterView,
    started: Prefilling,
    now: u64,
    r: Result<Decoding, RouterError>,
    after: RouterView,
)
    requires
        hands_off(scoring, before, started, now, r, after),
    ensures
        match r {
            Ok(handed) => {
                &&& handed.prefill == started.prefill
                &&& handed.transfer.from == started.prefill.worker.id
                &&& handed.transfer.to == handed.decode.worker.id
                &&& handed.transfer.blocks == started.chain@.len()
                &&& before.pool_outcome(
                    scoring,
                    Pool::Decode,
                    started.chain@,
                    now,
                    Ok(handed.decode),
                    after,
                )
            },
            Err(error) => before.pool_outcome(
                scoring,
                Pool::Decode,
                started.chain@,
                now,
                Err(error),
                after,
            ),
        },
{
}

/// Both phases go to the best tradeoff of cache and load in their pools: no
/// healthy prefill worker beats the prefill decision, and no healthy decode
/// worker the decode decision, each judged by the leading blocks of the prompt
/// it holds and its requests in flight at the time.
pub proof fn law_both_phases_go_to_the_best_tradeoff<F: Fn(usize, u64) -> Score>(
    scoring: F,
    first: RouterView,
    chain: Seq<u64>,
    begun_at: u64,
    started: Prefilling,
    second: RouterView,
    third: RouterView,
    handed_at: u64,
    handed: Decoding,
    last: RouterView,
    prefill_rival: WorkerId,
    prefill_held: nat,
    decode_rival: WorkerId,
    decode_held: nat,
) -> (scores: (Score, Score))
    requires
        forall|m: usize, l: u64, s: Score| call_ensures(scoring, (m, l), s) ==> s is Rank,
        first.registry.well_filed(),
        begins(scoring, first, chain, begun_at, Ok(started), second),
        third.registry.well_filed(),
        hands_off(scoring, third, started, handed_at, Ok(handed), last),
        first.registry.workers.contains_key(prefill_rival),
        first.registry.workers[prefill_rival].healthy,
        first.registry.workers[prefill_rival].worker.pool == Pool::Prefill,
        third.registry.workers.contains_key(decode_rival),
        third.registry.workers[decode_rival].healthy,
        third.registry.workers[decode_rival].worker.pool == Pool::Decode,
        prefill_held <= chain.len(),
        decode_held <= chain.len(),
        forall|i: int|
            0 <= i < prefill_held ==> first.index.contains_key(#[trigger] chain[i])
                && first.index[chain[i]].workers.contains(prefill_rival),
        prefill_held < chain.len() ==> !(first.index.contains_key(chain[prefill_held as int])
            && first.index[chain[prefill_held as int]].workers.contains(prefill_rival)),
        forall|i: int|
            0 <= i < decode_held ==> third.index.contains_key(#[trigger] chain[i])
                && third.index[chain[i]].workers.contains(decode_rival),
        decode_held < chain.len() ==> !(third.index.contains_key(chain[decode_held as int])
            && third.index[chain[decode_held as int]].workers.contains(decode_rival)),
    ensures
        ({
            let prefill = handed.prefill;
            let load: u64 = if prefill.worker.id < first.counts.len() {
                first.counts[prefill.worker.id as int]
            } else {
                0
            };
            let rival_load: u64 = if prefill_rival < first.counts.len() {
                first.counts[prefill_rival as int]
            } else {
                0
            };
            &&& call_ensures(scoring, (prefill.matched_prefix_len, load), prefill.score)
            &&& call_ensures(scoring, (prefill_held as usize, rival_load), scores.0)
            &&& prefill_rival != prefill.worker.id ==> (prefill.score matches Score::Rank(x)
                && scores.0 matches Score::Rank(y) && (x > y || (x == y && (load < rival_load || (
            load == rival_load && prefill.worker.id < prefill_rival)))))
        }),
        ({
            let decode = handed.decode;
            let load: u64 = if decode.worker.id < third.counts.len() {
                third.counts[decode.worker.id as int]
            } else {
                0
            };
            let rival_load: u64 = if decode_rival < third.counts.len() {
                third.counts[decode_rival as int]
            } else {
                0
            };
            &&& call_ensures(scoring, (decode.matched_prefix_len, load), decode.score)
            &&& call_ensures(scoring, (decode_held as usize, rival_load), scores.1)
            &&& decode_rival != decode.worker.id ==> (decode.score matches Score::Rank(x)
                && scores.1 matches Score::Rank(y) && (x > y || (x == y && (load < rival_load || (
            load == rival_load && decode.worker.id < decode_rival)))))
        }),
{
    let prefill_score = law_pool_selection_is_the_best_tradeoff(
        scoring,
        first,
        Pool::Prefill,
        chain,
        begun_at,
        started.prefill,
        second,
        prefill_rival,
        prefill_held,
    );
    let decode_score = law_pool_selection_is_the_best_tradeoff(
        scoring,
        third,
        Pool::Decode,
        chain,
        handed_at,
        handed.decode,
        last,
        decode_rival,
        decode_held,
    );
    (prefill_score, decode_score)
}

} // verus!
