use vstd::prelude::*;

use crate::arena::Arena;
use crate::repr::{block_fits, denote, is_block_repr, lemma_denote_fields_len, repr_size, word_index};
use crate::value::{header_size, header_tag, Value, NO_SCAN_TAG};

verus! {

/// A field of a block to copy: a word taken as it is (an immediate, a raw
/// word, or a pointer that leads out of the arena), or the copy of an earlier
/// block of the plan.
#[derive(Clone, Copy, PartialEq, Eq, Debug)]
pub enum Field {
    Word(u64),
    Earlier(usize),
}

/// A block to copy: its tag and its fields.
pub struct PlannedBlock {
    pub tag: u8,
    pub fields: Vec<Field>,
}

/// Every block of `plan` refers only to blocks before it, so that the plan can
/// be carried out in order.
pub open spec fn plan_ordered(plan: Seq<PlannedBlock>) -> bool {
    forall|j: int, k: int|
        0 <= j < plan.len() && 0 <= k < plan[j].fields@.len() ==> (#[trigger] plan[j].fields@[k] matches Field::Earlier(i) ==> i < j)
}

/// `f`, read against `plan`, reproduces what `v` is in `mem` below word
/// `limit`: the same immediates and raw words, and for each block a planned
/// block with the same tag whose fields reproduce the block's fields.
pub open spec fn shows(mem: spec_fn(int) -> u64, plan: Seq<PlannedBlock>, f: Field, v: Value, limit: int) -> bool
    decreases limit, 1int,
{
    if v.0 % 2 == 1 || !block_fits(mem, v.0, limit) {
        f == Field::Word(v.0)
    } else {
        let a = word_index(v.0);
        let h = mem(a - 1);
        match f {
            Field::Word(_) => false,
            Field::Earlier(j) => {
                &&& j < plan.len()
                &&& plan[j as int].tag == header_tag(h)
                &&& plan[j as int].fields@.len() == header_size(h)
                &&& if header_tag(h) >= NO_SCAN_TAG {
                    forall|k: int|
                        0 <= k < header_size(h) ==> #[trigger] plan[j as int].fields@[k] == Field::Word(mem(a + k))
                } else {
                    shows_fields(mem, plan, plan[j as int].fields@, a, header_size(h) as nat)
                }
            },
        }
    }
}

/// The first `n` of `fs` reproduce the first `n` fields of the block at `a`.
pub open spec fn shows_fields(mem: spec_fn(int) -> u64, plan: Seq<PlannedBlock>, fs: Seq<Field>, a: int, n: nat) -> bool
    decreases a, n,
{
    if n == 0 || a < 1 {
        true
    } else {
        &&& shows_fields(mem, plan, fs, a, (n - 1) as nat)
        &&& shows(mem, plan, fs[n - 1], Value(mem(a + n - 1)), a - 1)
    }
}

/// `p2` starts with `p1`.
pub open spec fn plan_extends(p2: Seq<PlannedBlock>, p1: Seq<PlannedBlock>) -> bool {
    p1.len() <= p2.len() && forall|j: int| 0 <= j < p1.len() ==> #[trigger] p2[j] == p1[j]
}

proof fn lemma_shows_extend(mem: spec_fn(int) -> u64, p1: Seq<PlannedBlock>, p2: Seq<PlannedBlock>, f: Field, v: Value, limit: int)
    requires
        plan_extends(p2, p1),
        shows(mem, p1, f, v, limit),
    ensures
        shows(mem, p2, f, v, limit),
    decreases limit, 1int,
{
    if v.0 % 2 == 1 || !block_fits(mem, v.0, limit) {
    } else {
        let a = word_index(v.0);
        let h = mem(a - 1);
        if let Field::Earlier(j) = f {
            assert(p2[j as int] == p1[j as int]);
            if header_tag(h) < NO_SCAN_TAG {
                lemma_shows_fields_extend(mem, p1, p2, p1[j as int].fields@, a, header_size(h) as nat);
            }
        }
    }
}

proof fn lemma_shows_fields_extend(mem: spec_fn(int) -> u64, p1: Seq<PlannedBlock>, p2: Seq<PlannedBlock>, fs: Seq<Field>, a: int, n: nat)
    requires
        plan_extends(p2, p1),
        shows_fields(mem, p1, fs, a, n),
    ensures
        shows_fields(mem, p2, fs, a, n),
    decreases a, n,
{
    if n > 0 && a >= 1 {
        lemma_shows_fields_extend(mem, p1, p2, fs, a, (n - 1) as nat);
        lemma_shows_extend(mem, p1, p2, fs[n - 1], Value(mem(a + n - 1)), a - 1);
    }
}

/// For a block that fits, what reproduces it does not depend on the limit.
proof fn lemma_shows_limit(mem: spec_fn(int) -> u64, plan: Seq<PlannedBlock>, f: Field, v: Value, l1: int, l2: int)
    requires
        v.0 % 2 == 0,
        block_fits(mem, v.0, l1),
        block_fits(mem, v.0, l2),
        shows(mem, plan, f, v, l1),
    ensures
        shows(mem, plan, f, v, l2),
{
}

/// Every remembered block was copied as the planned block it names.
pub open spec fn memo_ok(mem: spec_fn(int) -> u64, end: int, plan: Seq<PlannedBlock>, memo: Seq<(u64, usize)>) -> bool {
    forall|i: int|
        0 <= i < memo.len() ==> {
            &&& (#[trigger] memo[i]).0 % 2 == 0
            &&& block_fits(mem, memo[i].0, end)
            &&& shows(mem, plan, Field::Earlier(memo[i].1), Value(memo[i].0), end)
        }
}

fn find_copied(memo: &Vec<(u64, usize)>, bits: u64) -> (r: Option<usize>)
    ensures
        r matches Some(j) ==> exists|i: int| 0 <= i < memo@.len() && #[trigger] memo@[i] == (bits, j),
{
    let mut i: usize = 0;
    while i < memo.len()
        invariant
            i <= memo@.len(),
        decreases memo@.len() - i,
    {
        if memo[i].0 == bits {
            proof {
                assert(memo@[i as int] == (bits, memo@[i as int].1));
            }
            return Some(memo[i].1);
        }
        i = i + 1;
    }
    None
}

fn plan_value(arena: &Arena, v: Value, limit: usize, plan: &mut Vec<PlannedBlock>, memo: &mut Vec<(u64, usize)>) -> (f: Field)
    requires
        arena.wf(),
        limit <= arena.end(),
        plan_ordered(old(plan)@),
        memo_ok(arena.mem(), arena.end(), old(plan)@, old(memo)@),
    ensures
        plan_extends(final(plan)@, old(plan)@),
        plan_ordered(final(plan)@),
        memo_ok(arena.mem(), arena.end(), final(plan)@, final(memo)@),
        shows(arena.mem(), final(plan)@, f, v, limit as int),
        f matches Field::Earlier(j) ==> j < final(plan)@.len(),
    decreases limit,
{
    if v.is_int() || !arena.fits_below(v, limit) {
        return Field::Word(v.0);
    }
    let ghost mem = arena.mem();
    let ghost end = arena.end();
    match find_copied(memo, v.0) {
        Some(j) => {
            proof {
                let i = choose|i: int| 0 <= i < memo@.len() && #[trigger] memo@[i] == (v.0, j);
                assert(memo_ok(mem, end, plan@, memo@));
                assert(shows(mem, plan@, Field::Earlier(j), v, end));
                lemma_shows_limit(mem, plan@, Field::Earlier(j), v, end, limit as int);
            }
            return Field::Earlier(j);
        },
        None => {},
    }
    let (size, tag) = arena.block_header(v, limit);
    let inner = Arena::field_limit(v);
    let ghost a = word_index(v.0);
    proof {
        lemma_denote_fields_len(mem, a, header_size(mem(a - 1)) as nat);
    }
    let mut fields: Vec<Field> = Vec::new();
    let mut k: usize = 0;
    while k < size
        invariant
            arena.wf(),
            limit <= arena.end(),
            mem == arena.mem(),
            end == arena.end(),
            block_fits(mem, v.0, limit as int),
            is_block_repr(denote(mem, v, limit as int)),
            size == repr_size(denote(mem, v, limit as int)),
            v.0 % 2 == 0,
            a == word_index(v.0),
            inner == a - 1,
            size == header_size(mem(a - 1)),
            tag == header_tag(mem(a - 1)),
            k <= size,
            fields@.len() == k,
            plan_extends(plan@, old(plan)@),
            plan_ordered(plan@),
            memo_ok(mem, end, plan@, memo@),
            forall|i: int| 0 <= i < k ==> (#[trigger] fields@[i] matches Field::Earlier(e) ==> e < plan@.len()),
            tag >= NO_SCAN_TAG ==> forall|i: int| 0 <= i < k ==> #[trigger] fields@[i] == Field::Word(mem(a + i)),
            tag < NO_SCAN_TAG ==> shows_fields(mem, plan@, fields@, a, k as nat),
        decreases size - k,
    {
        let c = arena.field(v, limit, k);
        let ghost p0 = plan@;
        if tag >= NO_SCAN_TAG {
            fields.push(Field::Word(c.0));
        } else {
            let f = plan_value(arena, c, inner, plan, memo);
            proof {
                lemma_shows_fields_extend(mem, p0, plan@, fields@, a, k as nat);
            }
            let ghost before = fields@;
            fields.push(f);
            proof {
                assert(fields@.take(k as int) =~= before);
                lemma_shows_fields_prefix(mem, plan@, before, fields@, a, k as nat);
            }
        }
        k = k + 1;
    }
    let ghost p1 = plan@;
    let j = plan.len();
    plan.push(PlannedBlock { tag, fields });
    proof {
        assert(plan_extends(plan@, p1));
        if tag < NO_SCAN_TAG {
            lemma_shows_fields_extend(mem, p1, plan@, plan@[j as int].fields@, a, size as nat);
        }
        assert(shows(mem, plan@, Field::Earlier(j), v, limit as int));
        assert forall|i: int| 0 <= i < memo@.len() implies {
            &&& (#[trigger] memo@[i]).0 % 2 == 0
            &&& block_fits(mem, memo@[i].0, end)
            &&& shows(mem, plan@, Field::Earlier(memo@[i].1), Value(memo@[i].0), end)
        } by {
            lemma_shows_extend(mem, p1, plan@, Field::Earlier(memo@[i].1), Value(memo@[i].0), end);
        }
    }
    memo.push((v.0, j));
    proof {
        lemma_fits_larger(mem, v.0, limit as int, end);
        lemma_shows_limit(mem, plan@, Field::Earlier(j), v, limit as int, end);
    }
    Field::Earlier(j)
}

proof fn lemma_fits_larger(mem: spec_fn(int) -> u64, bits: u64, l1: int, l2: int)
    requires
        block_fits(mem, bits, l1),
        l1 <= l2,
    ensures
        block_fits(mem, bits, l2),
{
}

proof fn lemma_shows_fields_prefix(mem: spec_fn(int) -> u64, plan: Seq<PlannedBlock>, fs: Seq<Field>, gs: Seq<Field>, a: int, n: nat)
    requires
        shows_fields(mem, plan, fs, a, n),
        n <= fs.len(),
        n <= gs.len(),
        forall|i: int| 0 <= i < n ==> fs[i] == gs[i],
    ensures
        shows_fields(mem, plan, gs, a, n),
    decreases n,
{
    if n > 0 && a >= 1 {
        lemma_shows_fields_prefix(mem, plan, fs, gs, a, (n - 1) as nat);
    }
}

/// A plan for copying `value` out of `arena`: the blocks it reaches, each
/// after the blocks it refers to, and the field that stands for `value`
/// itself.
pub fn export_plan(arena: &Arena, value: Value) -> (r: (Vec<PlannedBlock>, Field))
    requires
        arena.wf(),
    ensures
        plan_ordered(r.0@),
        shows(arena.mem(), r.0@, r.1, value, arena.end()),
        r.1 matches Field::Earlier(j) ==> j < r.0@.len(),
{
    let mut plan: Vec<PlannedBlock> = Vec::new();
    let mut memo: Vec<(u64, usize)> = Vec::new();
    let limit = arena.end_index();
    let f = plan_value(arena, value, limit, &mut plan, &mut memo);
    (plan, f)
}

} // verus!
