//! What block hashes and beliefs give together: a worker that served a prompt
//! is credited with exactly the blocks that the next prompt shares with it.

use vstd::prelude::*;

use crate::beliefs::{
    after_records, deepest_match, has_record_of, holds, law_match_len_is_the_held_prefix,
    law_records_are_what_is_held, lemma_deepest_match_is_held, match_len, recorded, Belief, Record,
};
use crate::hashing::{
    blocks_of, effective_block_size, law_shared_blocks_share_hashes, lemma_chain_len, prompt_chain,
};
use crate::prefix::{lemma_held_hash_bounds_match, prefix_chain};
use crate::worker::WorkerId;

verus! {

/// Two prompts start with the same `k` blocks.
pub open spec fn share_blocks(a: Seq<char>, b: Seq<char>, block_size: nat, k: nat) -> bool {
    let size = effective_block_size(block_size);
    &&& k <= blocks_of(a, size).len()
    &&& k <= blocks_of(b, size).len()
    &&& blocks_of(a, size).take(k as int) == blocks_of(b, size).take(k as int)
}

/// No hash in the chain of `a` collides with one in the chain of `b`: equal
/// hashes stand at the same place and for the same leading blocks.
pub open spec fn chains_do_not_collide(a: Seq<char>, b: Seq<char>, block_size: nat) -> bool {
    let chain_a = prompt_chain(a, block_size);
    let chain_b = prompt_chain(b, block_size);
    forall|i: int, j: int|
        0 <= i < chain_a.len() && 0 <= j < chain_b.len() && #[trigger] chain_a[i]
            == #[trigger] chain_b[j] ==> i == j && share_blocks(a, b, block_size, (i + 1) as nat)
}

/// Once `served` is recorded against a worker, any prompt that starts with the
/// same `k` blocks matches at least `k` blocks there.
pub proof fn law_shared_blocks_are_credited(
    index: Map<u64, Belief>,
    worker: WorkerId,
    served: Seq<char>,
    next: Seq<char>,
    block_size: nat,
    now: u64,
    k: nat,
)
    requires
        share_blocks(served, next, block_size, k),
    ensures
        match_len(
            recorded(index, worker, prompt_chain(served, block_size), now),
            worker,
            prompt_chain(next, block_size),
        ) >= k,
{
    let size = effective_block_size(block_size);
    let chain = prompt_chain(served, block_size);
    let probe = prompt_chain(next, block_size);
    let after = recorded(index, worker, chain, now);
    lemma_chain_len(blocks_of(served, size));
    lemma_chain_len(blocks_of(next, size));
    law_shared_blocks_share_hashes(served, next, block_size, k);
    assert forall|i: int| 0 <= i < k implies holds(after, worker, #[trigger] probe[i]) by {
        assert(chain.take(k as int)[i] == probe.take(k as int)[i]);
        assert(chain.contains(probe[i])) by {
            assert(chain[i] == probe[i]);
        }
    }
    law_match_len_is_the_held_prefix(after, worker, probe, k);
}

/// The records are those of the prompts served, one for each.
pub open spec fn records_prompts(
    records: Seq<Record>,
    prompts: Seq<Seq<char>>,
    block_size: nat,
) -> bool {
    &&& records.len() == prompts.len()
    &&& forall|i: int|
        0 <= i < records.len() ==> (#[trigger] records[i]).chain == prompt_chain(
            prompts[i],
            block_size,
        )
}

/// A worker matches exactly the blocks that the next prompt shares with one of
/// the prompts it served, whatever other workers served in between, where no
/// hashes of the chains collide.
pub proof fn law_match_is_exactly_the_shared_prefix(
    index: Map<u64, Belief>,
    records: Seq<Record>,
    prompts: Seq<Seq<char>>,
    worker: WorkerId,
    next: Seq<char>,
    block_size: nat,
    k: nat,
)
    requires
        forall|hash: u64| !#[trigger] holds(index, worker, hash),
        records_prompts(records, prompts, block_size),
        forall|i: int|
            0 <= i < records.len() && (#[trigger] records[i]).worker == worker
                ==> chains_do_not_collide(prompts[i], next, block_size),
    ensures
        match_len(after_records(index, records), worker, prompt_chain(next, block_size)) >= k <==> (
        k == 0 || exists|i: int|
            0 <= i < records.len() && (#[trigger] records[i]).worker == worker && share_blocks(
                prompts[i],
                next,
                block_size,
                k,
            )),
{
    let size = effective_block_size(block_size);
    let probe = prompt_chain(next, block_size);
    let after = after_records(index, records);
    lemma_chain_len(blocks_of(next, size));
    law_match_len_is_the_held_prefix(after, worker, probe, 0);
    if k > 0 && match_len(after, worker, probe) >= k {
        law_match_len_is_the_held_prefix(after, worker, probe, k);
        let last = k - 1;
        assert(holds(after, worker, probe[last]));
        law_records_are_what_is_held(index, records, worker, probe[last]);
        assert(!holds(index, worker, probe[last]));
        let i = choose|i: int|
            0 <= i < records.len() && (#[trigger] records[i]).worker == worker
                && records[i].chain.contains(probe[last]);
        let chain = prompt_chain(prompts[i], block_size);
        let at = choose|at: int| 0 <= at < chain.len() && chain[at] == probe[last];
        assert(chains_do_not_collide(prompts[i], next, block_size));
        assert(chain[at] == probe[last]);
        assert(share_blocks(prompts[i], next, block_size, k));
    }
    if exists|i: int|
        0 <= i < records.len() && (#[trigger] records[i]).worker == worker && share_blocks(
            prompts[i],
            next,
            block_size,
            k,
        ) {
        let i = choose|i: int|
            0 <= i < records.len() && (#[trigger] records[i]).worker == worker && share_blocks(
                prompts[i],
                next,
                block_size,
                k,
            );
        let chain = prompt_chain(prompts[i], block_size);
        lemma_chain_len(blocks_of(prompts[i], size));
        law_shared_blocks_share_hashes(prompts[i], next, block_size, k);
        assert forall|j: int| 0 <= j < k implies holds(after, worker, #[trigger] probe[j]) by {
            assert(chain.take(k as int)[j] == probe.take(k as int)[j]);
            assert(chain[j] == probe[j]);
            assert(records[i].chain.contains(probe[j]));
            assert(has_record_of(records, worker, probe[j]));
            law_records_are_what_is_held(index, records, worker, probe[j]);
        }
        law_match_len_is_the_held_prefix(after, worker, probe, k);
    }
}

/// Two lists of tokens start with the same `k` tokens.
pub open spec fn share_tokens(a: Seq<Seq<char>>, b: Seq<Seq<char>>, k: nat) -> bool {
    &&& k <= a.len()
    &&& k <= b.len()
    &&& a.take(k as int) == b.take(k as int)
}

/// No prefix hash of `a` collides with one of `b`: equal hashes stand for the
/// same leading tokens.
pub open spec fn prefixes_do_not_collide(a: Seq<Seq<char>>, b: Seq<Seq<char>>) -> bool {
    forall|i: int, j: int|
        0 <= i < a.len() && 0 <= j < b.len() && #[trigger] prefix_chain(a)[i]
            == #[trigger] prefix_chain(b)[j] ==> i == j && share_tokens(a, b, (i + 1) as nat)
}

/// The records are those of the lists of tokens served, one for each.
pub open spec fn records_tokens(records: Seq<Record>, served: Seq<Seq<Seq<char>>>) -> bool {
    &&& records.len() == served.len()
    &&& forall|i: int|
        0 <= i < records.len() ==> (#[trigger] records[i]).chain == prefix_chain(served[i])
}

/// A worker matches exactly the tokens that the next list shares with one of
/// the lists it served, where no prefix hashes collide.
pub proof fn law_token_match_is_exactly_the_shared_prefix(
    index: Map<u64, Belief>,
    records: Seq<Record>,
    served: Seq<Seq<Seq<char>>>,
    worker: WorkerId,
    next: Seq<Seq<char>>,
    k: nat,
)
    requires
        forall|hash: u64| !#[trigger] holds(index, worker, hash),
        records_tokens(records, served),
        forall|i: int|
            0 <= i < records.len() && (#[trigger] records[i]).worker == worker
                ==> prefixes_do_not_collide(served[i], next),
    ensures
        deepest_match(after_records(index, records), worker, prefix_chain(next)) >= k <==> (k == 0
            || exists|i: int|
            0 <= i < records.len() && (#[trigger] records[i]).worker == worker && share_tokens(
                served[i],
                next,
                k,
            )),
{
    let probe = prefix_chain(next);
    let after = after_records(index, records);
    let depth = deepest_match(after, worker, probe);
    lemma_deepest_match_is_held(after, worker, probe);
    if k > 0 && depth >= k {
        let last = depth - 1;
        law_records_are_what_is_held(index, records, worker, probe[last]);
        assert(!holds(index, worker, probe[last]));
        let i = choose|i: int|
            0 <= i < records.len() && (#[trigger] records[i]).worker == worker
                && records[i].chain.contains(probe[last]);
        let chain = prefix_chain(served[i]);
        let at = choose|at: int| 0 <= at < chain.len() && chain[at] == probe[last];
        assert(prefixes_do_not_collide(served[i], next));
        assert(prefix_chain(served[i])[at] == prefix_chain(next)[last]);
        assert(share_tokens(served[i], next, depth));
        assert(served[i].take(depth as int).take(k as int) =~= served[i].take(k as int));
        assert(next.take(depth as int).take(k as int) =~= next.take(k as int));
        assert(share_tokens(served[i], next, k));
    }
    if k > 0 && exists|i: int|
        0 <= i < records.len() && (#[trigger] records[i]).worker == worker && share_tokens(
            served[i],
            next,
            k,
        ) {
        let i = choose|i: int|
            0 <= i < records.len() && (#[trigger] records[i]).worker == worker && share_tokens(
                served[i],
                next,
                k,
            );
        let last = k - 1;
        assert(served[i].take(last + 1) == next.take(last + 1));
        assert(prefix_chain(served[i])[last] == probe[last]);
        assert(records[i].chain.contains(probe[last]));
        assert(has_record_of(records, worker, probe[last]));
        law_records_are_what_is_held(index, records, worker, probe[last]);
        lemma_held_hash_bounds_match(after, worker, probe, last);
    }
}

} // verus!
