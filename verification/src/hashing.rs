//! Tokenizer-free block prefix hashing: the cache-affinity primitive.

use std::hash::{DefaultHasher, Hasher};

use vstd::bytes::{
    lemma_auto_spec_u32_to_from_le_bytes, lemma_auto_spec_u64_to_from_le_bytes,
    spec_u32_to_le_bytes, spec_u64_to_le_bytes, u32_to_le_bytes, u64_to_le_bytes,
};
use vstd::prelude::*;
use vstd::std_specs::hash::DefaultHasherAdditionalSpecFns;

use crate::text::chars_of;

verus! {

/// Block size zero counts as one.
pub open spec fn effective_block_size(block_size: nat) -> nat {
    if block_size == 0 {
        1
    } else {
        block_size
    }
}

/// How many blocks of `size` characters cover `len` characters.
pub open spec fn block_count(len: nat, size: nat) -> nat {
    ((len + size - 1) / (size as int)) as nat
}

/// The `i`-th block of a text; the last one may be shorter.
pub open spec fn block_at(text: Seq<char>, size: nat, i: int) -> Seq<char> {
    text.subrange(
        i * size,
        if (i + 1) * size <= text.len() {
            (i + 1) * size
        } else {
            text.len() as int
        },
    )
}

/// A text cut into blocks of `size` characters.
pub open spec fn blocks_of(text: Seq<char>, size: nat) -> Seq<Seq<char>> {
    Seq::new(block_count(text.len(), size), |i: int| block_at(text, size, i))
}

/// What is fed to the hasher for one block: the hash of the block before it,
/// if there is one, then the block's length and its characters. These are the
/// bytes that `Hash` writes for the same values on a 64-bit little-endian
/// machine, fixed here so that a chain does not depend on the machine.
pub open spec fn link_writes(previous: Option<u64>, block: Seq<char>) -> Seq<Seq<u8>> {
    let head = match previous {
        Some(hash) => seq![spec_u64_to_le_bytes(hash)],
        None => seq![],
    };
    head.push(spec_u64_to_le_bytes(block.len() as u64)) + Seq::new(
        block.len(),
        |i: int| spec_u32_to_le_bytes(block[i] as u32),
    )
}

/// The hash of one block after `previous`.
pub open spec fn link_hash(previous: Option<u64>, block: Seq<char>) -> u64 {
    DefaultHasher::spec_finish(link_writes(previous, block))
}

/// The hash that the block after a chain is hashed with.
pub open spec fn chain_end(chain: Seq<u64>) -> Option<u64> {
    if chain.len() == 0 {
        None
    } else {
        Some(chain.last())
    }
}

/// The hash chain of a sequence of blocks: `h_0 = hash(block_0)`,
/// `h_i = hash(h_{i-1} || block_i)`.
pub open spec fn chain_of(blocks: Seq<Seq<char>>) -> Seq<u64>
    decreases blocks.len(),
{
    if blocks.len() == 0 {
        seq![]
    } else {
        let head = chain_of(blocks.drop_last());
        head.push(link_hash(chain_end(head), blocks.last()))
    }
}

/// The prefix-hash chain of a prompt.
pub open spec fn prompt_chain(prompt: Seq<char>, block_size: nat) -> Seq<u64> {
    chain_of(blocks_of(prompt, effective_block_size(block_size)))
}

fn hash_link(previous: Option<u64>, chars: &Vec<char>, from: usize, to: usize) -> (hash: u64)
    requires
        from <= to <= chars@.len(),
    ensures
        hash == link_hash(previous, chars@.subrange(from as int, to as int)),
{
    let ghost block = chars@.subrange(from as int, to as int);
    let mut hasher = DefaultHasher::new();
    let ghost mut head: Seq<Seq<u8>> = seq![];
    if let Some(hash) = previous {
        let bytes = u64_to_le_bytes(hash);
        hasher.write(bytes.as_slice());
        proof {
            head = head.push(bytes@);
        }
    }
    let length = u64_to_le_bytes((to - from) as u64);
    hasher.write(length.as_slice());
    proof {
        head = head.push(length@);
    }
    let mut i: usize = from;
    assert(hasher@ =~= head + Seq::new(0, |k: int| spec_u32_to_le_bytes(block[k] as u32)));
    while i < to
        invariant
            from <= i <= to <= chars@.len(),
            block == chars@.subrange(from as int, to as int),
            hasher@ == head + Seq::new(
                (i - from) as nat,
                |k: int| spec_u32_to_le_bytes(block[k] as u32),
            ),
        decreases to - i,
    {
        let bytes = u32_to_le_bytes(chars[i] as u32);
        hasher.write(bytes.as_slice());
        i += 1;
        assert(hasher@ =~= head + Seq::new(
            (i - from) as nat,
            |k: int| spec_u32_to_le_bytes(block[k] as u32),
        ));
    }
    assert(hasher@ =~= link_writes(previous, block));
    hasher.finish()
}

/// Compute the prefix-hash chain of a canonical prompt string.
///
/// The prompt is split into blocks of `block_size` characters and each block
/// is hashed into its predecessor. Character blocks stand in for the engine's
/// token blocks; blocks count characters, not bytes.
pub fn chain_hash(prompt: &str, block_size: usize) -> (chain: Vec<u64>)
    ensures
        chain@ == prompt_chain(prompt@, block_size as nat),
        chain@.len() == block_count(prompt@.len(), effective_block_size(block_size as nat)),
{
    let size: usize = if block_size == 0 {
        1
    } else {
        block_size
    };
    let chars = chars_of(prompt);
    let mut chain: Vec<u64> = Vec::new();
    let mut previous: Option<u64> = None;
    let mut from: usize = 0;
    let ghost blocks = blocks_of(chars@, size as nat);
    let ghost mut done: nat = 0;
    assert(blocks.take(0) =~= seq![]);
    assert((size - 1) / (size as int) == 0) by (nonlinear_arith)
        requires
            size > 0,
    ;
    while from < chars.len()
        invariant
            size > 0,
            blocks == blocks_of(chars@, size as nat),
            from <= chars@.len(),
            from == done * size || from == chars@.len(),
            from < chars@.len() ==> from == done * size,
            from == chars@.len() ==> done == blocks.len(),
            done <= blocks.len(),
            chain@ == chain_of(blocks.take(done as int)),
            previous == chain_end(chain@),
        decreases chars@.len() - from,
    {
        let to: usize = if chars.len() - from > size {
            from + size
        } else {
            chars.len()
        };
        proof {
            lemma_block_in_range(chars@.len(), size as nat, done);
            assert((done + 1) * size == done * size + size) by (nonlinear_arith);
        }
        assert(block_at(chars@, size as nat, done as int) =~= chars@.subrange(
            from as int,
            to as int,
        ));
        let hash = hash_link(previous, &chars, from, to);
        chain.push(hash);
        previous = Some(hash);
        proof {
            assert(blocks.take(done as int + 1).drop_last() =~= blocks.take(done as int));
            assert(blocks.take(done as int + 1).last() == blocks[done as int]);
            done = done + 1;
        }
        from = to;
    }
    assert(blocks.take(done as int) =~= blocks);
    proof {
        lemma_chain_len(blocks);
    }
    chain
}

proof fn lemma_block_in_range(len: nat, size: nat, done: nat)
    requires
        size > 0,
        done * size < len,
    ensures
        done < block_count(len, size),
        (done + 1) * size >= len ==> done + 1 == block_count(len, size),
{
    let top = len + size - 1;
    assert(top / (size as int) >= done + 1) by (nonlinear_arith)
        requires
            size > 0,
            done * size < len,
            top == len + size - 1,
    ;
    if (done + 1) * size >= len {
        assert(top / (size as int) < done + 2) by (nonlinear_arith)
            requires
                size > 0,
                (done + 1) * size >= len,
                top == len + size - 1,
        ;
    }
}

/// One hash per block.
pub proof fn lemma_chain_len(blocks: Seq<Seq<char>>)
    ensures
        chain_of(blocks).len() == blocks.len(),
    decreases blocks.len(),
{
    if blocks.len() > 0 {
        lemma_chain_len(blocks.drop_last());
    }
}

/// The chain of the first blocks is the beginning of the chain of all.
proof fn lemma_chain_take(blocks: Seq<Seq<char>>, k: nat)
    requires
        k <= blocks.len(),
    ensures
        chain_of(blocks).take(k as int) == chain_of(blocks.take(k as int)),
    decreases blocks.len(),
{
    lemma_chain_len(blocks);
    lemma_chain_len(blocks.take(k as int));
    if k == blocks.len() {
        assert(blocks.take(k as int) =~= blocks);
        assert(chain_of(blocks).take(k as int) =~= chain_of(blocks));
    } else {
        lemma_chain_len(blocks.drop_last());
        lemma_chain_take(blocks.drop_last(), k);
        assert(blocks.drop_last().take(k as int) =~= blocks.take(k as int));
        assert(chain_of(blocks).take(k as int) =~= chain_of(blocks.drop_last()).take(k as int));
    }
}

/// Prompts that share their first `k` blocks share the first `k` hashes of
/// their chains.
pub proof fn law_shared_blocks_share_hashes(a: Seq<char>, b: Seq<char>, block_size: nat, k: nat)
    requires
        k <= blocks_of(a, effective_block_size(block_size)).len(),
        k <= blocks_of(b, effective_block_size(block_size)).len(),
        blocks_of(a, effective_block_size(block_size)).take(k as int) == blocks_of(
            b,
            effective_block_size(block_size),
        ).take(k as int),
    ensures
        prompt_chain(a, block_size).take(k as int) == prompt_chain(b, block_size).take(k as int),
{
    lemma_chain_take(blocks_of(a, effective_block_size(block_size)), k);
    lemma_chain_take(blocks_of(b, effective_block_size(block_size)), k);
}

/// The hash at position `i` of the chain of `blocks`, and what it was
/// computed from.
proof fn lemma_chain_link(blocks: Seq<Seq<char>>, i: nat)
    requires
        i < blocks.len(),
    ensures
        chain_of(blocks).len() == blocks.len(),
        chain_of(blocks)[i as int] == link_hash(
            chain_end(chain_of(blocks).take(i as int)),
            blocks[i as int],
        ),
{
    let upto = blocks.take(i as int + 1);
    lemma_chain_len(blocks);
    lemma_chain_take(blocks, i + 1);
    lemma_chain_take(blocks, i);
    lemma_chain_len(upto);
    assert(upto.drop_last() =~= blocks.take(i as int));
    assert(chain_of(blocks)[i as int] == chain_of(blocks).take(i as int + 1)[i as int]);
    lemma_chain_len(blocks.take(i as int));
}

/// No two distinct hasher inputs met at the same position of the two chains,
/// up to position `k`, hash to the same value.
pub open spec fn no_collision(a: Seq<Seq<char>>, b: Seq<Seq<char>>, k: nat) -> bool {
    forall|i: int|
        0 <= i < k ==> {
            let inputs_a = link_writes(chain_end(chain_of(a).take(i)), #[trigger] a[i]);
            let inputs_b = link_writes(chain_end(chain_of(b).take(i)), b[i]);
            DefaultHasher::spec_finish(inputs_a) == DefaultHasher::spec_finish(inputs_b)
                ==> inputs_a == inputs_b
        }
}

proof fn lemma_same_code_same_char(x: char, y: char)
    requires
        x as u32 == y as u32,
    ensures
        x == y,
{
}

/// The hasher input tells the block and the previous hash apart.
proof fn lemma_link_writes_injective(
    p: Option<u64>,
    a: Seq<char>,
    q: Option<u64>,
    b: Seq<char>,
)
    requires
        link_writes(p, a) == link_writes(q, b),
        (p is None) == (q is None),
        a.len() <= u64::MAX,
        b.len() <= u64::MAX,
    ensures
        p == q,
        a == b,
{
    lemma_auto_spec_u64_to_from_le_bytes();
    lemma_auto_spec_u32_to_from_le_bytes();
    let wa = link_writes(p, a);
    let wb = link_writes(q, b);
    let offset: int = if p is None {
        1
    } else {
        2
    };
    if p is Some {
        assert(wa[0] == spec_u64_to_le_bytes(p->0));
        assert(wb[0] == spec_u64_to_le_bytes(q->0));
    }
    assert(wa.len() == a.len() + offset);
    assert(wb.len() == b.len() + offset);
    assert forall|i: int| 0 <= i < a.len() implies a[i] == b[i] by {
        assert(wa[i + offset] == spec_u32_to_le_bytes(a[i] as u32));
        assert(wb[i + offset] == spec_u32_to_le_bytes(b[i] as u32));
        lemma_same_code_same_char(a[i], b[i]);
    }
    assert(a =~= b);
}

proof fn lemma_equal_hash_equal_blocks(a: Seq<Seq<char>>, b: Seq<Seq<char>>, k: nat)
    requires
        k < a.len(),
        k < b.len(),
        no_collision(a, b, k + 1),
        chain_of(a)[k as int] == chain_of(b)[k as int],
        forall|i: int| 0 <= i <= k ==> (#[trigger] a[i]).len() <= u64::MAX,
        forall|i: int| 0 <= i <= k ==> (#[trigger] b[i]).len() <= u64::MAX,
    ensures
        a.take(k as int + 1) == b.take(k as int + 1),
    decreases k,
{
    lemma_chain_link(a, k);
    lemma_chain_link(b, k);
    let pa = chain_end(chain_of(a).take(k as int));
    let pb = chain_end(chain_of(b).take(k as int));
    assert(a[k as int].len() <= u64::MAX);
    lemma_link_writes_injective(pa, a[k as int], pb, b[k as int]);
    if k > 0 {
        assert(chain_of(a)[k - 1] == chain_of(b)[k - 1]);
        lemma_equal_hash_equal_blocks(a, b, (k - 1) as nat);
        assert(a.take(k as int + 1) =~= a.take(k as int).push(a[k as int]));
        assert(b.take(k as int + 1) =~= b.take(k as int).push(b[k as int]));
    } else {
        assert(a.take(1) =~= seq![a[0]]);
        assert(b.take(1) =~= seq![b[0]]);
    }
}

/// Prompts whose chains agree at position `k` share their first `k + 1`
/// blocks. Hashes are 64 bits wide, so this holds where no two different
/// hasher inputs at one position collide.
pub proof fn law_equal_hashes_mean_shared_blocks(
    a: Seq<char>,
    b: Seq<char>,
    block_size: nat,
    k: nat,
)
    requires
        a.len() <= u64::MAX,
        b.len() <= u64::MAX,
        k < prompt_chain(a, block_size).len(),
        k < prompt_chain(b, block_size).len(),
        no_collision(
            blocks_of(a, effective_block_size(block_size)),
            blocks_of(b, effective_block_size(block_size)),
            k + 1,
        ),
        prompt_chain(a, block_size)[k as int] == prompt_chain(b, block_size)[k as int],
    ensures
        blocks_of(a, effective_block_size(block_size)).take(k as int + 1) == blocks_of(
            b,
            effective_block_size(block_size),
        ).take(k as int + 1),
{
    let size = effective_block_size(block_size);
    lemma_chain_len(blocks_of(a, size));
    lemma_chain_len(blocks_of(b, size));
    lemma_block_len(a, size);
    lemma_block_len(b, size);
    lemma_equal_hash_equal_blocks(blocks_of(a, size), blocks_of(b, size), k);
}

/// A difference in one block shows in the hash of that block and of every
/// later one, where no two different hasher inputs at one position collide.
pub proof fn law_difference_diverges_the_rest(
    a: Seq<char>,
    b: Seq<char>,
    block_size: nat,
    k: nat,
    later: nat,
)
    requires
        a.len() <= u64::MAX,
        b.len() <= u64::MAX,
        k <= later,
        later < prompt_chain(a, block_size).len(),
        later < prompt_chain(b, block_size).len(),
        blocks_of(a, effective_block_size(block_size))[k as int] != blocks_of(
            b,
            effective_block_size(block_size),
        )[k as int],
        no_collision(
            blocks_of(a, effective_block_size(block_size)),
            blocks_of(b, effective_block_size(block_size)),
            later + 1,
        ),
    ensures
        prompt_chain(a, block_size)[later as int] != prompt_chain(b, block_size)[later as int],
{
    if prompt_chain(a, block_size)[later as int] == prompt_chain(b, block_size)[later as int] {
        let size = effective_block_size(block_size);
        law_equal_hashes_mean_shared_blocks(a, b, block_size, later);
        lemma_chain_len(blocks_of(a, size));
        lemma_chain_len(blocks_of(b, size));
        assert(blocks_of(a, size).take(later as int + 1)[k as int] == blocks_of(a, size)[k as int]);
        assert(blocks_of(b, size).take(later as int + 1)[k as int] == blocks_of(b, size)[k as int]);
    }
}

proof fn lemma_block_len(text: Seq<char>, size: nat)
    requires
        size > 0,
    ensures
        forall|i: int|
            0 <= i < blocks_of(text, size).len() ==> (#[trigger] blocks_of(text, size)[i]).len()
                <= text.len(),
{
    assert forall|i: int| 0 <= i < blocks_of(text, size).len() implies (#[trigger] blocks_of(
        text,
        size,
    )[i]).len() <= text.len() by {
        lemma_block_starts_inside(text.len(), size, i);
    }
}

proof fn lemma_block_starts_inside(len: nat, size: nat, i: int)
    requires
        size > 0,
        0 <= i < block_count(len, size),
    ensures
        0 <= i * size < len,
        i * size < (i + 1) * size,
{
    let top = len + size - 1;
    assert(i * size < len) by (nonlinear_arith)
        requires
            size > 0,
            0 <= i < top / (size as int),
            top == len + size - 1,
    ;
    assert(0 <= i * size < (i + 1) * size) by (nonlinear_arith)
        requires
            size > 0,
            0 <= i,
    ;
}

/// A prompt that extends another shares the hashes of every block that the
/// shorter one fills.
pub proof fn law_extended_prompt_shares_full_blocks(
    prompt: Seq<char>,
    longer: Seq<char>,
    block_size: nat,
)
    requires
        prompt.is_prefix_of(longer),
    ensures
        ({
            let full = (prompt.len() / effective_block_size(block_size)) as int;
            &&& full <= prompt_chain(prompt, block_size).len()
            &&& full <= prompt_chain(longer, block_size).len()
            &&& prompt_chain(prompt, block_size).take(full) == prompt_chain(
                longer,
                block_size,
            ).take(full)
        }),
{
    let size = effective_block_size(block_size);
    let full = prompt.len() / size;
    lemma_chain_len(blocks_of(prompt, size));
    lemma_chain_len(blocks_of(longer, size));
    lemma_full_blocks(prompt.len(), size);
    lemma_full_blocks(longer.len(), size);
    assert(full <= longer.len() / size) by (nonlinear_arith)
        requires
            size > 0,
            prompt.len() <= longer.len(),
            full == prompt.len() / size,
    ;
    assert forall|i: int| 0 <= i < full implies (#[trigger] blocks_of(prompt, size)[i])
        == blocks_of(longer, size)[i] by {
        assert((i + 1) * size <= prompt.len()) by (nonlinear_arith)
            requires
                size > 0,
                0 <= i < full,
                full == prompt.len() / size,
        ;
        assert(0 <= i * size <= (i + 1) * size) by (nonlinear_arith)
            requires
                size > 0,
                0 <= i,
        ;
        assert(block_at(prompt, size, i) =~= block_at(longer, size, i));
    }
    assert(blocks_of(prompt, size).take(full as int) =~= blocks_of(longer, size).take(full as int));
    law_shared_blocks_share_hashes(prompt, longer, block_size, full);
}

proof fn lemma_full_blocks(len: nat, size: nat)
    requires
        size > 0,
    ensures
        len / size <= block_count(len, size),
{
    assert(len / size <= (len + size - 1) / (size as int)) by (nonlinear_arith)
        requires
            size > 0,
    ;
}

/// The blocks of a text are the text, cut: put together again they give it
/// back, every block but the last has exactly `size` characters, and the last
/// has at least one.
pub proof fn law_blocks_are_the_text(text: Seq<char>, size: nat)
    requires
        size > 0,
    ensures
        blocks_of(text, size).flatten() == text,
        forall|i: int|
            0 <= i < blocks_of(text, size).len() - 1 ==> (#[trigger] blocks_of(text, size)[i]).len()
                == size,
        blocks_of(text, size).len() > 0 ==> 0 < blocks_of(text, size).last().len() <= size,
        blocks_of(text, size).len() == 0 <==> text.len() == 0,
{
    let blocks = blocks_of(text, size);
    let n = blocks.len() as int;
    if text.len() == 0 {
        assert((size - 1) / (size as int) == 0) by (nonlinear_arith)
            requires
                size > 0,
        ;
    } else {
        assert(0 * size == 0);
        lemma_block_in_range(text.len(), size, 0);
    }
    assert forall|i: int| 0 <= i < n - 1 implies (#[trigger] blocks[i]).len() == size by {
        lemma_block_starts_inside(text.len(), size, i);
        lemma_block_starts_inside(text.len(), size, i + 1);
        assert((i + 1) * size == i * size + size) by (nonlinear_arith);
    }
    if n > 0 {
        lemma_block_starts_inside(text.len(), size, n - 1);
        assert((n - 1 + 1) * size == (n - 1) * size + size) by (nonlinear_arith);
    }
    lemma_blocks_join(text, size, n as nat);
    assert(blocks.take(n) =~= blocks);
    if n > 0 && n * size < text.len() {
        lemma_block_in_range(text.len(), size, n as nat);
    }
    assert(text.take(text.len() as int) =~= text);
}

proof fn lemma_blocks_join(text: Seq<char>, size: nat, k: nat)
    requires
        size > 0,
        k <= blocks_of(text, size).len(),
    ensures
        blocks_of(text, size).take(k as int).flatten() == text.take(
            if k * size <= text.len() {
                (k * size) as int
            } else {
                text.len() as int
            },
        ),
    decreases k,
{
    let blocks = blocks_of(text, size);
    let upto = blocks.take(k as int);
    if k == 0 {
        assert(0 * size == 0);
        assert(upto =~= seq![]);
        assert(text.take(0) =~= seq![]);
    } else {
        let before = (k - 1) as nat;
        lemma_blocks_join(text, size, before);
        lemma_block_starts_inside(text.len(), size, before as int);
        assert(upto.drop_last() =~= blocks.take(before as int));
        assert(upto.last() == block_at(text, size, before as int));
        upto.lemma_flatten_and_flatten_alt_are_equivalent();
        upto.drop_last().lemma_flatten_and_flatten_alt_are_equivalent();
        assert(upto.flatten() == upto.drop_last().flatten() + upto.last());
        assert((before + 1) * size == before * size + size) by (nonlinear_arith);
        let to: int = if k * size <= text.len() {
            (k * size) as int
        } else {
            text.len() as int
        };
        assert(text.take((before * size) as int) + text.subrange((before * size) as int, to)
            =~= text.take(to));
    }
}

/// A chain has as many hashes as it takes blocks of `block_size` characters
/// (of one character where that is zero) to cover the text.
pub proof fn law_chain_covers_the_text(text: Seq<char>, block_size: nat)
    ensures
        ({
            let size: nat = if block_size == 0 {
                1
            } else {
                block_size
            };
            let n = prompt_chain(text, block_size).len();
            &&& n * size >= text.len()
            &&& n > 0 ==> (n - 1) * size < text.len()
        }),
{
    let size = effective_block_size(block_size);
    let n = blocks_of(text, size).len();
    lemma_chain_len(blocks_of(text, size));
    if n > 0 {
        lemma_block_starts_inside(text.len(), size, n - 1);
    }
    if n * size < text.len() {
        lemma_block_in_range(text.len(), size, n);
    }
}

/// What the hasher is fed at position `i` of the chain of a text.
pub open spec fn input_at(text: Seq<char>, block_size: nat, i: int) -> Seq<Seq<u8>> {
    let size = effective_block_size(block_size);
    link_writes(
        if i == 0 {
            None
        } else {
            Some(prompt_chain(text, block_size)[i - 1])
        },
        text.subrange(
            i * size,
            if (i + 1) * size <= text.len() {
                (i + 1) * size
            } else {
                text.len() as int
            },
        ),
    )
}

/// The hash at position `k` tells the text up to the end of that block apart:
/// where the chains of two prompts agree at `k`, the prompts agree on their
/// first `k + 1` blocks of `block_size` characters, character for character,
/// and end inside block `k` together or not at all. Hashes are 64 bits wide, so
/// this holds where no two different hasher inputs at one position collide; the
/// input at a position is the hash before it and the characters of the block.
pub proof fn law_equal_hashes_mean_equal_text(
    a: Seq<char>,
    b: Seq<char>,
    block_size: nat,
    k: nat,
)
    requires
        a.len() <= u64::MAX,
        b.len() <= u64::MAX,
        k < prompt_chain(a, block_size).len(),
        k < prompt_chain(b, block_size).len(),
        forall|i: int|
            0 <= i <= k ==> {
                let input_a = #[trigger] input_at(a, block_size, i);
                let input_b = input_at(b, block_size, i);
                DefaultHasher::spec_finish(input_a) == DefaultHasher::spec_finish(input_b)
                    ==> input_a == input_b
            },
        prompt_chain(a, block_size)[k as int] == prompt_chain(b, block_size)[k as int],
    ensures
        ({
            let size: nat = if block_size == 0 {
                1
            } else {
                block_size
            };
            let end_a: int = if (k + 1) * size <= a.len() {
                ((k + 1) * size) as int
            } else {
                a.len() as int
            };
            let end_b: int = if (k + 1) * size <= b.len() {
                ((k + 1) * size) as int
            } else {
                b.len() as int
            };
            a.take(end_a) == b.take(end_b)
        }),
    decreases k,
{
    let size = effective_block_size(block_size);
    let chain_a = prompt_chain(a, block_size);
    let chain_b = prompt_chain(b, block_size);
    lemma_chain_len(blocks_of(a, size));
    lemma_chain_len(blocks_of(b, size));
    lemma_block_starts_inside(a.len(), size, k as int);
    lemma_block_starts_inside(b.len(), size, k as int);
    lemma_block_len(a, size);
    lemma_block_len(b, size);
    let block_a = block_at(a, size, k as int);
    let block_b = block_at(b, size, k as int);
    assert(block_a == blocks_of(a, size)[k as int]);
    assert(block_b == blocks_of(b, size)[k as int]);
    let pa: Option<u64> = if k == 0 {
        None
    } else {
        Some(chain_a[k - 1])
    };
    let pb: Option<u64> = if k == 0 {
        None
    } else {
        Some(chain_b[k - 1])
    };
    lemma_chain_link(blocks_of(a, size), k);
    lemma_chain_link(blocks_of(b, size), k);
    assert(chain_end(chain_a.take(k as int)) == pa);
    assert(chain_end(chain_b.take(k as int)) == pb);
    assert(input_at(a, block_size, k as int) == link_writes(pa, block_a));
    assert(input_at(b, block_size, k as int) == link_writes(pb, block_b));
    lemma_link_writes_injective(pa, block_a, pb, block_b);
    assert((k + 1) * size == k * size + size) by (nonlinear_arith);
    let start = (k * size) as int;
    if k > 0 {
        law_equal_hashes_mean_equal_text(a, b, block_size, (k - 1) as nat);
    } else {
        assert(a.take(0) =~= b.take(0));
        assert(0 * size == 0);
    }
    assert(a.take(start) == b.take(start));
    assert(a.take(start + block_a.len()) =~= a.take(start) + block_a);
    assert(b.take(start + block_b.len()) =~= b.take(start) + block_b);
}

/// Prompts that agree, character for character, up to the end of block `k`
/// have the same hash there.
pub proof fn law_equal_text_has_equal_hashes(
    a: Seq<char>,
    b: Seq<char>,
    block_size: nat,
    k: nat,
)
    requires
        k < prompt_chain(a, block_size).len(),
        k < prompt_chain(b, block_size).len(),
        ({
            let size: nat = if block_size == 0 {
                1
            } else {
                block_size
            };
            let end_a: int = if (k + 1) * size <= a.len() {
                ((k + 1) * size) as int
            } else {
                a.len() as int
            };
            let end_b: int = if (k + 1) * size <= b.len() {
                ((k + 1) * size) as int
            } else {
                b.len() as int
            };
            a.take(end_a) == b.take(end_b)
        }),
    ensures
        prompt_chain(a, block_size)[k as int] == prompt_chain(b, block_size)[k as int],
{
    let size = effective_block_size(block_size);
    let end: int = if (k + 1) * size <= a.len() {
        ((k + 1) * size) as int
    } else {
        a.len() as int
    };
    lemma_chain_len(blocks_of(a, size));
    lemma_chain_len(blocks_of(b, size));
    assert(a.take(end).len() == end);
    assert forall|i: int| 0 <= i <= k implies (#[trigger] blocks_of(a, size)[i]) == blocks_of(
        b,
        size,
    )[i] by {
        lemma_block_starts_inside(a.len(), size, i);
        lemma_block_starts_inside(b.len(), size, i);
        assert((i + 1) * size <= (k + 1) * size) by (nonlinear_arith)
            requires
                0 <= i <= k,
        ;
        let to_a: int = if (i + 1) * size <= a.len() {
            (i + 1) * size
        } else {
            a.len() as int
        };
        let to_b: int = if (i + 1) * size <= b.len() {
            (i + 1) * size
        } else {
            b.len() as int
        };
        assert(to_a <= end);
        assert(to_a == to_b);
        assert(a.subrange(i * size, to_a) =~= a.take(end).subrange(i * size, to_a));
        assert(b.subrange(i * size, to_b) =~= b.take(end).subrange(i * size, to_b));
    }
    assert(blocks_of(a, size).take(k as int + 1) =~= blocks_of(b, size).take(k as int + 1));
    law_shared_blocks_share_hashes(a, b, block_size, k + 1);
    assert(prompt_chain(a, block_size).take(k as int + 1)[k as int] == prompt_chain(b, block_size).take(
        k as int + 1,
    )[k as int]);
}

} // verus!
