use vstd::prelude::*;

use crate::value::{header_size, header_tag, immediate_of, Value, NO_SCAN_TAG};

verus! {

/// What a value stands for once its pointers are followed: the mathematical
/// model of a value of the foreign runtime.
pub enum Repr {
    /// An immediate integer.
    Int(int),
    /// A block with a scanned tag, reached through pointer bits `ptr`, and
    /// what each of its fields stands for.
    Block { ptr: u64, tag: u8, fields: Seq<Repr> },
    /// A block whose tag marks its fields as raw words (strings, floats,
    /// custom blocks).
    Raw { ptr: u64, tag: u8, words: Seq<u64> },
    /// A pointer that does not lead to a block of the memory in question.
    Foreign(u64),
}

/// The word index of the first field of the block that pointer bits `bits`
/// designate.
pub open spec fn word_index(bits: u64) -> int {
    bits as int / 8
}

/// Whether `bits` is a pointer to a block that lies wholly below word `limit`
/// of `mem` (header included).
pub open spec fn block_fits(mem: spec_fn(int) -> u64, bits: u64, limit: int) -> bool {
    &&& bits % 8 == 0
    &&& word_index(bits) >= 1
    &&& word_index(bits) + header_size(mem(word_index(bits) - 1)) <= limit
}

/// What `v` stands for in `mem`, where only words below `limit` may be read.
/// The fields of a block are read with the block's own header as the limit,
/// so every block that a value reaches lies below the block that refers to it.
pub open spec fn denote(mem: spec_fn(int) -> u64, v: Value, limit: int) -> Repr
    decreases limit, 1int,
{
    if v.0 % 2 == 1 {
        Repr::Int(immediate_of(v.0))
    } else if block_fits(mem, v.0, limit) {
        let a = word_index(v.0);
        let h = mem(a - 1);
        if header_tag(h) < NO_SCAN_TAG {
            Repr::Block {
                ptr: v.0,
                tag: header_tag(h),
                fields: denote_fields(mem, a, header_size(h) as nat),
            }
        } else {
            Repr::Raw { ptr: v.0, tag: header_tag(h), words: raw_fields(mem, a, header_size(h) as nat) }
        }
    } else {
        Repr::Foreign(v.0)
    }
}

/// What the first `n` fields of the block at word `a` stand for.
pub open spec fn denote_fields(mem: spec_fn(int) -> u64, a: int, n: nat) -> Seq<Repr>
    decreases a, n,
{
    if n == 0 || a < 1 {
        Seq::empty()
    } else {
        denote_fields(mem, a, (n - 1) as nat).push(denote(mem, Value(mem(a + n - 1)), a - 1))
    }
}

/// The first `n` fields of the block at word `a`, as raw words.
pub open spec fn raw_fields(mem: spec_fn(int) -> u64, a: int, n: nat) -> Seq<u64> {
    Seq::new(n, |k: int| mem(a + k))
}

pub proof fn lemma_denote_fields_len(mem: spec_fn(int) -> u64, a: int, n: nat)
    requires
        a >= 1,
    ensures
        denote_fields(mem, a, n).len() == n,
        forall|k: int|
            0 <= k < n ==> #[trigger] denote_fields(mem, a, n)[k] == denote(
                mem,
                Value(mem(a + k)),
                a - 1,
            ),
    decreases n,
{
    if n > 0 {
        lemma_denote_fields_len(mem, a, (n - 1) as nat);
    }
}

/// Two memories that agree below `limit` give every value the same meaning
/// under that limit.
pub proof fn lemma_denote_agree(m1: spec_fn(int) -> u64, m2: spec_fn(int) -> u64, v: Value, limit: int)
    requires
        forall|i: int| i < limit ==> #[trigger] m1(i) == m2(i),
    ensures
        denote(m1, v, limit) == denote(m2, v, limit),
    decreases limit, 1int,
{
    if v.0 % 2 == 1 {
    } else if block_fits(m1, v.0, limit) {
        let a = word_index(v.0);
        assert(m1(a - 1) == m2(a - 1));
        let n = header_size(m1(a - 1)) as nat;
        lemma_fields_agree(m1, m2, a, n, limit);
        if header_tag(m1(a - 1)) >= NO_SCAN_TAG {
            assert(raw_fields(m1, a, n) =~= raw_fields(m2, a, n));
        }
    } else {
        if word_index(v.0) >= 1 && word_index(v.0) - 1 < limit {
            assert(m1(word_index(v.0) - 1) == m2(word_index(v.0) - 1));
        }
    }
}

proof fn lemma_fields_agree(m1: spec_fn(int) -> u64, m2: spec_fn(int) -> u64, a: int, n: nat, limit: int)
    requires
        forall|i: int| i < limit ==> #[trigger] m1(i) == m2(i),
        a >= 1,
        a + n <= limit,
    ensures
        denote_fields(m1, a, n) == denote_fields(m2, a, n),
    decreases a, n,
{
    if n > 0 {
        lemma_fields_agree(m1, m2, a, (n - 1) as nat, limit);
        assert(m1(a + n - 1) == m2(a + n - 1));
        lemma_denote_agree(m1, m2, Value(m1(a + n - 1)), a - 1);
    }
}

/// A value that is fully readable below `limit` in `m1` keeps its meaning in
/// any memory that agrees with `m1` below `limit`, under any larger limit.
pub proof fn lemma_denote_stable(
    m1: spec_fn(int) -> u64,
    m2: spec_fn(int) -> u64,
    v: Value,
    limit: int,
    limit2: int,
)
    requires
        forall|i: int| i < limit ==> #[trigger] m1(i) == m2(i),
        limit <= limit2,
        !(denote(m1, v, limit) is Foreign),
    ensures
        denote(m2, v, limit2) == denote(m1, v, limit),
{
    if v.0 % 2 == 0 {
        let a = word_index(v.0);
        assert(m1(a - 1) == m2(a - 1));
        let n = header_size(m1(a - 1)) as nat;
        lemma_fields_agree(m1, m2, a, n, limit);
        if header_tag(m1(a - 1)) >= NO_SCAN_TAG {
            assert(raw_fields(m1, a, n) =~= raw_fields(m2, a, n));
        }
    }
}

} // verus!

verus! {

/// Whether `r` is a block, scanned or raw.
pub open spec fn is_block_repr(r: Repr) -> bool {
    r is Block || r is Raw
}

/// The tag of a block.
pub open spec fn repr_tag(r: Repr) -> u8 {
    match r {
        Repr::Block { tag, .. } => tag,
        Repr::Raw { tag, .. } => tag,
        _ => 0,
    }
}

/// The field count of a block.
pub open spec fn repr_size(r: Repr) -> nat {
    match r {
        Repr::Block { fields, .. } => fields.len(),
        Repr::Raw { words, .. } => words.len(),
        _ => 0,
    }
}

} // verus!
