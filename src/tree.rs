use vstd::arithmetic::power2::{lemma_pow2_pos, lemma_pow2_unfold, pow2};
use vstd::laws_cmp::obeys_cmp;
use vstd::prelude::*;
use vstd::std_specs::btree::{
    into_iter, into_iter_btree_keys, key_obeys_cmp_spec, spec_btree_keys_iter, spec_btree_map_iter,
};
use vstd::std_specs::iter::IteratorSpec;
use std::collections::{BTreeMap, BTreeSet};

use crate::arena::{lemma_extends_denote, Arena};
use crate::convert::{check_block, field_of, in_field, models, FromOcamlRep, OcamlRep};
use crate::error::FromError;
use crate::repr::{denote, Repr};
use crate::value::{lemma_wrap_in_range, Value};

verus! {

/// Height of the balanced tree built over `n` sorted items: the left subtree
/// takes `n / 2` items, the right one the remaining `n - 1 - n / 2`.
pub open spec fn tree_height(n: nat) -> nat
    decreases n,
{
    if n == 0 {
        0
    } else {
        let l = tree_height(n / 2);
        let r = tree_height((n - 1 - n / 2) as nat);
        (if l >= r {
            l
        } else {
            r
        }) + 1
    }
}

/// The height of the tree over `n >= 1` items is the `h` with
/// `2^(h-1) <= n < 2^h`, that is, the ceiling of `log2(n + 1)`.
pub proof fn lemma_tree_height(n: nat)
    ensures
        n == 0 ==> tree_height(n) == 0,
        n >= 1 ==> tree_height(n) >= 1 && pow2((tree_height(n) - 1) as nat) <= n && n < pow2(
            tree_height(n),
        ),
    decreases n,
{
    if n >= 1 {
        let a = n / 2;
        let b = (n - 1 - n / 2) as nat;
        lemma_tree_height(a);
        lemma_tree_height(b);
        let ha = tree_height(a);
        let hb = tree_height(b);
        if b >= 1 && hb > ha {
            lemma_pow2_monotone(ha, (hb - 1) as nat);
        }
        assert(hb <= ha);
        lemma_pow2_unfold(ha + 1);
        if a == 0 {
            lemma_pow2_unfold(1);
            assert(pow2(0) == 1) by {
                vstd::arithmetic::power2::lemma2_to64();
            }
        } else {
            lemma_pow2_unfold(ha);
        }
    }
}

proof fn lemma_pow2_monotone(e1: nat, e2: nat)
    requires
        e1 <= e2,
    ensures
        pow2(e1) <= pow2(e2),
    decreases e2 - e1,
{
    if e1 < e2 {
        lemma_pow2_monotone(e1, (e2 - 1) as nat);
        lemma_pow2_unfold(e2);
        lemma_pow2_pos((e2 - 1) as nat);
    }
}

/// `r` is the balanced tree (`{left, key, value, right, height}` nodes,
/// empty tree the immediate 0) over the bindings `s`, in order.
pub open spec fn map_encodes<K: OcamlRep, V: OcamlRep>(s: Seq<(K::Model, V::Model)>, r: Repr) -> bool
    decreases s.len(),
{
    if s.len() == 0 {
        r == Repr::Int(0)
    } else {
        let m = s.len() / 2;
        &&& r is Block
        &&& r->Block_tag == 0
        &&& r->fields.len() == 5
        &&& map_encodes::<K, V>(s.take(m as int), r->fields[0])
        &&& K::encodes(s[m as int].0, r->fields[1])
        &&& V::encodes(s[m as int].1, r->fields[2])
        &&& map_encodes::<K, V>(s.skip(m as int + 1), r->fields[3])
        &&& r->fields[4] == Repr::Int(tree_height(s.len()) as int)
    }
}

pub open spec fn map_cost<K: OcamlRep, V: OcamlRep>(s: Seq<(K::Model, V::Model)>) -> nat
    decreases s.len(),
{
    if s.len() == 0 {
        0
    } else {
        map_cost::<K, V>(s.drop_last()) + 6 + K::cost(s.last().0) + V::cost(s.last().1)
    }
}

proof fn lemma_map_cost_split<K: OcamlRep, V: OcamlRep>(a: Seq<(K::Model, V::Model)>, b: Seq<(K::Model, V::Model)>)
    ensures
        map_cost::<K, V>(a + b) == map_cost::<K, V>(a) + map_cost::<K, V>(b),
    decreases b.len(),
{
    if b.len() == 0 {
        assert(a + b =~= a);
    } else {
        lemma_map_cost_split::<K, V>(a, b.drop_last());
        assert((a + b).drop_last() =~= a + b.drop_last());
        assert((a + b).last() == b.last());
    }
}

/// Reading `r` back as the bindings of a balanced tree, in order.
pub open spec fn map_from_repr<K: OcamlRep, V: OcamlRep>(r: Repr) -> Result<Seq<(K::Model, V::Model)>, FromError>
    decreases r,
{
    match r {
        Repr::Int(n) => if n == 0 {
            Ok(Seq::empty())
        } else {
            Err(FromError::NullaryVariantTagOutOfRange { max: 0, actual: n as i64 })
        },
        Repr::Block { fields, .. } => match check_block(r, 5, 0) {
            Some(e) => Err(e),
            None => match map_from_repr::<K, V>(fields[0]) {
                Err(e) => Err(e),
                Ok(left) => match in_field(1, K::from_repr(fields[1])) {
                    Err(e) => Err(e),
                    Ok(k) => match in_field(2, V::from_repr(fields[2])) {
                        Err(e) => Err(e),
                        Ok(v) => match map_from_repr::<K, V>(fields[3]) {
                            Err(e) => Err(e),
                            Ok(right) => Ok(left + seq![(k, v)] + right),
                        },
                    },
                },
            },
        },
        _ => match check_block(r, 5, 0) {
            Some(e) => Err(e),
            None => Err(FromError::ExpectedZeroTag(0)),
        },
    }
}

/// Encoding each binding of `s` loses nothing.
pub open spec fn entries_faithful<K: OcamlRep, V: OcamlRep>(s: Seq<(K::Model, V::Model)>) -> bool {
    forall|i: int| 0 <= i < s.len() ==> K::faithful(#[trigger] s[i].0) && V::faithful(s[i].1)
}

pub proof fn lemma_map_round_trip<K: OcamlRep, V: OcamlRep>(s: Seq<(K::Model, V::Model)>, r: Repr)
    requires
        entries_faithful::<K, V>(s),
        map_encodes::<K, V>(s, r),
    ensures
        map_from_repr::<K, V>(r) == Ok::<Seq<(K::Model, V::Model)>, FromError>(s),
    decreases s.len(),
{
    if s.len() > 0 {
        let m = (s.len() / 2) as int;
        let left = s.take(m);
        let right = s.skip(m + 1);
        assert forall|i: int| 0 <= i < left.len() implies K::faithful(#[trigger] left[i].0) && V::faithful(left[i].1) by {
            assert(left[i] == s[i]);
        }
        assert forall|i: int| 0 <= i < right.len() implies K::faithful(#[trigger] right[i].0) && V::faithful(right[i].1) by {
            assert(right[i] == s[i + m + 1]);
        }
        assert(entries_faithful::<K, V>(left));
        assert(entries_faithful::<K, V>(right));
        lemma_map_round_trip::<K, V>(left, r->fields[0]);
        lemma_map_round_trip::<K, V>(right, r->fields[3]);
        K::lemma_round_trip(s[m].0, r->fields[1]);
        V::lemma_round_trip(s[m].1, r->fields[2]);
        assert(left + seq![(s[m].0, s[m].1)] + right =~= s);
    } else {
        assert(s =~= Seq::<(K::Model, V::Model)>::empty());
    }
}

proof fn lemma_split_cost<K: OcamlRep, V: OcamlRep>(all: Seq<(K::Model, V::Model)>, start: int, size: int)
    requires
        0 <= start,
        0 < size,
        start + size <= all.len(),
    ensures
        ({
            let s = all.subrange(start, start + size);
            let half = size / 2;
            &&& s.take(half) =~= all.subrange(start, start + half)
            &&& s.skip(half + 1) =~= all.subrange(start + half + 1, start + size)
            &&& s[half] == all[start + half]
            &&& map_cost::<K, V>(s) == map_cost::<K, V>(s.take(half)) + 6 + K::cost(s[half].0) + V::cost(
                s[half].1,
            ) + map_cost::<K, V>(s.skip(half + 1))
        }),
{
    let s = all.subrange(start, start + size);
    let half = size / 2;
    let left = s.take(half);
    let mid = s[half];
    let right = s.skip(half + 1);
    assert(s =~= left + seq![mid] + right);
    lemma_map_cost_split::<K, V>(left + seq![mid], right);
    lemma_map_cost_split::<K, V>(left, seq![mid]);
    assert(seq![mid].drop_last() =~= Seq::<(K::Model, V::Model)>::empty());
    assert(seq![mid].last() == mid);
    assert(map_cost::<K, V>(seq![mid].drop_last()) == 0);
    assert(map_cost::<K, V>(seq![mid]) == 6 + K::cost(mid.0) + V::cost(mid.1));
    assert(s == left + seq![mid] + right);
}

proof fn lemma_height_small(n: nat)
    requires
        n >= 1,
        n <= usize::MAX,
    ensures
        1 <= tree_height(n) <= 64,
{
    lemma_tree_height(n);
    let h = tree_height(n);
    vstd::arithmetic::power2::lemma2_to64_rest();
    if h > 64 {
        lemma_pow2_monotone(64, (h - 1) as nat);
    }
}

/// Encoding each binding of `s` is defined.
pub open spec fn entries_encodable<K: OcamlRep, V: OcamlRep>(s: Seq<(K::Model, V::Model)>) -> bool {
    forall|i: int| 0 <= i < s.len() ==> K::encodable(#[trigger] s[i].0) && V::encodable(s[i].1)
}

#[verifier::spinoff_prover]
/// Build the tree over `entries[start..start + size]`, encoding each key and
/// value in order.
fn map_tree<K: OcamlRep, V: OcamlRep>(entries: &Vec<(K, V)>, start: usize, size: usize, arena: &mut Arena) -> (r: (Value, usize))
    requires
        start + size <= entries@.len(),
        old(arena).wf(),
        entries_encodable::<K, V>(models::<(K, V)>(entries@)),
        old(arena).has_room(map_cost::<K, V>(models::<(K, V)>(entries@).subrange(start as int, start + size))),
    ensures
        final(arena).wf(),
        final(arena).extends(old(arena)),
        final(arena).used() <= old(arena).used() + map_cost::<K, V>(models::<(K, V)>(entries@).subrange(start as int, start + size)),
        !(final(arena).denote_value(r.0) is Foreign),
        map_encodes::<K, V>(models::<(K, V)>(entries@).subrange(start as int, start + size), final(arena).denote_value(r.0)),
        r.1 == tree_height(size as nat),
    decreases size,
{
    if size == 0 {
        return (Value::from_int(0), 0);
    }
    let total = entries.len();
    let half = size / 2;
    proof {
        lemma_split_cost::<K, V>(models::<(K, V)>(entries@), start as int, size as int);
    }
    let (l, lh) = map_tree(entries, start, half, arena);
    let ghost a1 = *arena;
    proof {
        let j = start + half;
        assert(models::<(K, V)>(entries@)[j as int] == entries@[j as int].model());
    }
    let k = entries[start + half].0.to_ocamlrep(arena);
    let ghost a2 = *arena;
    let v = entries[start + half].1.to_ocamlrep(arena);
    let ghost a3 = *arena;
    let (r, rh) = map_tree(entries, start + half + 1, size - 1 - half, arena);
    let ghost a4 = *arena;
    proof {
        lemma_extends_denote(&a1, &a4, l);
        lemma_extends_denote(&a2, &a4, k);
        lemma_extends_denote(&a3, &a4, v);
    }
    proof {
        lemma_height_small(size as nat);
    }
    let height = if lh >= rh { lh } else { rh } + 1;
    proof {
        lemma_wrap_in_range(height as int);
    }
    let hv = Value::from_int(height as i64);
    let mut block = arena.block_with_size(5);
    arena.set_field(&mut block, 0, l);
    arena.set_field(&mut block, 1, k);
    arena.set_field(&mut block, 2, v);
    arena.set_field(&mut block, 3, r);
    arena.set_field(&mut block, 4, hv);
    let node = arena.build(block);
    proof {
        assert(block.spec_fields()[0] == l);
        assert(block.spec_fields()[1] == k);
        assert(block.spec_fields()[2] == v);
        assert(block.spec_fields()[3] == r);
        assert(block.spec_fields()[4] == hv);
    }
    (node, height)
}

/// Build the tree of a map from its bindings, which must come in ascending
/// order of keys, each key once. Returns the tree and its height.
pub fn sorted_iter_to_ocaml_map<K: OcamlRep, V: OcamlRep>(entries: &Vec<(K, V)>, arena: &mut Arena) -> (r: (Value, usize))
    requires
        old(arena).wf(),
        entries_encodable::<K, V>(models::<(K, V)>(entries@)),
        old(arena).has_room(map_cost::<K, V>(models::<(K, V)>(entries@))),
    ensures
        final(arena).wf(),
        final(arena).extends(old(arena)),
        final(arena).used() <= old(arena).used() + map_cost::<K, V>(models::<(K, V)>(entries@)),
        !(final(arena).denote_value(r.0) is Foreign),
        map_encodes::<K, V>(models::<(K, V)>(entries@), final(arena).denote_value(r.0)),
        r.1 == tree_height(entries@.len()),
{
    proof {
        assert(models::<(K, V)>(entries@).subrange(0, entries@.len() as int) =~= models::<(K, V)>(entries@));
    }
    map_tree(entries, 0, entries.len(), arena)
}

fn vec_from_ocaml_map_impl<K: FromOcamlRep, V: FromOcamlRep>(vec: &mut Vec<(K, V)>, value: Value, arena: &Arena, limit: usize) -> (r: Result<(), FromError>)
    requires
        arena.wf(),
    ensures
        match map_from_repr::<K, V>(denote(arena.mem(), value, limit as int)) {
            Ok(s) => r is Ok && models::<(K, V)>(final(vec)@) == models::<(K, V)>(old(vec)@) + s,
            Err(e) => r == Err::<(), FromError>(e),
        },
    decreases limit,
{
    if value.is_int() {
        let n = value.as_int().unwrap();
        if n != 0 {
            return Err(FromError::NullaryVariantTagOutOfRange { max: 0, actual: n });
        }
        proof {
            assert(models::<(K, V)>(vec@) + Seq::empty() =~= models::<(K, V)>(vec@));
        }
        return Ok(());
    }
    match crate::convert::expect_block_with_size_and_tag(value, arena, limit, 5, 0) {
        Some(e) => {
            return Err(e);
        },
        None => {},
    }
    let ghost d = denote(arena.mem(), value, limit as int);
    let inner = Arena::field_limit(value);
    let f0 = arena.field(value, limit, 0);
    let f1 = arena.field(value, limit, 1);
    let f2 = arena.field(value, limit, 2);
    let f3 = arena.field(value, limit, 3);
    let ghost v0 = models::<(K, V)>(vec@);
    match vec_from_ocaml_map_impl(vec, f0, arena, inner) {
        Err(e) => {
            return Err(e);
        },
        Ok(()) => {},
    }
    let k = match K::from_ocamlrep_below(f1, arena, inner) {
        Err(e) => {
            return Err(FromError::ErrorInField(1, Box::new(e)));
        },
        Ok(k) => k,
    };
    let v = match V::from_ocamlrep_below(f2, arena, inner) {
        Err(e) => {
            return Err(FromError::ErrorInField(2, Box::new(e)));
        },
        Ok(v) => v,
    };
    let ghost v1 = models::<(K, V)>(vec@);
    vec.push((k, v));
    proof {
        assert(models::<(K, V)>(vec@) =~= v1 + seq![(k.model(), v.model())]);
    }
    let ghost v2 = models::<(K, V)>(vec@);
    let res = vec_from_ocaml_map_impl(vec, f3, arena, inner);
    proof {
        if let Ok(right) = map_from_repr::<K, V>(d->fields[3]) {
            let left = map_from_repr::<K, V>(d->fields[0])->Ok_0;
            assert(v1 == v0 + left);
            assert(v0 + (left + seq![(k.model(), v.model())] + right) =~= v2 + right);
        }
    }
    res
}

/// Read back the bindings of a map tree, in order.
pub fn vec_from_ocaml_map<K: FromOcamlRep, V: FromOcamlRep>(value: Value, arena: &Arena) -> (r: Result<Vec<(K, V)>, FromError>)
    requires
        arena.wf(),
    ensures
        match r {
            Ok(v) => map_from_repr::<K, V>(arena.denote_value(value)) == Ok::<Seq<(K::Model, V::Model)>, FromError>(models::<(K, V)>(v@)),
            Err(e) => map_from_repr::<K, V>(arena.denote_value(value)) == Err::<Seq<(K::Model, V::Model)>, FromError>(e),
        },
{
    let mut vec: Vec<(K, V)> = Vec::new();
    let limit = arena.end_index();
    proof {
        assert(models::<(K, V)>(vec@) =~= Seq::empty());
    }
    match vec_from_ocaml_map_impl(&mut vec, value, arena, limit) {
        Err(e) => Err(e),
        Ok(()) => {
            proof {
                let s = map_from_repr::<K, V>(arena.denote_value(value))->Ok_0;
                assert(Seq::<(K::Model, V::Model)>::empty() + s =~= s);
            }
            Ok(vec)
        },
    }
}

/// `r` is the balanced tree (`{left, element, right, height}` nodes, empty
/// tree the immediate 0) over the elements `s`, in order.
pub open spec fn set_encodes<T: OcamlRep>(s: Seq<T::Model>, r: Repr) -> bool
    decreases s.len(),
{
    if s.len() == 0 {
        r == Repr::Int(0)
    } else {
        let m = s.len() / 2;
        &&& r is Block
        &&& r->Block_tag == 0
        &&& r->fields.len() == 4
        &&& set_encodes::<T>(s.take(m as int), r->fields[0])
        &&& T::encodes(s[m as int], r->fields[1])
        &&& set_encodes::<T>(s.skip(m as int + 1), r->fields[2])
        &&& r->fields[3] == Repr::Int(tree_height(s.len()) as int)
    }
}

pub open spec fn set_cost<T: OcamlRep>(s: Seq<T::Model>) -> nat
    decreases s.len(),
{
    if s.len() == 0 {
        0
    } else {
        set_cost::<T>(s.drop_last()) + 5 + T::cost(s.last())
    }
}

proof fn lemma_set_cost_split<T: OcamlRep>(a: Seq<T::Model>, b: Seq<T::Model>)
    ensures
        set_cost::<T>(a + b) == set_cost::<T>(a) + set_cost::<T>(b),
    decreases b.len(),
{
    if b.len() == 0 {
        assert(a + b =~= a);
    } else {
        lemma_set_cost_split::<T>(a, b.drop_last());
        assert((a + b).drop_last() =~= a + b.drop_last());
        assert((a + b).last() == b.last());
    }
}

proof fn lemma_set_split_cost<T: OcamlRep>(all: Seq<T::Model>, start: int, size: int)
    requires
        0 <= start,
        0 < size,
        start + size <= all.len(),
    ensures
        ({
            let s = all.subrange(start, start + size);
            let half = size / 2;
            &&& s.take(half) =~= all.subrange(start, start + half)
            &&& s.skip(half + 1) =~= all.subrange(start + half + 1, start + size)
            &&& s[half] == all[start + half]
            &&& set_cost::<T>(s) == set_cost::<T>(s.take(half)) + 5 + T::cost(s[half]) + set_cost::<T>(
                s.skip(half + 1),
            )
        }),
{
    let s = all.subrange(start, start + size);
    let half = size / 2;
    let left = s.take(half);
    let mid = s[half];
    let right = s.skip(half + 1);
    assert(s =~= left + seq![mid] + right);
    lemma_set_cost_split::<T>(left + seq![mid], right);
    lemma_set_cost_split::<T>(left, seq![mid]);
    assert(seq![mid].drop_last() =~= Seq::<T::Model>::empty());
    assert(seq![mid].last() == mid);
    assert(set_cost::<T>(seq![mid].drop_last()) == 0);
    assert(set_cost::<T>(seq![mid]) == 5 + T::cost(mid));
    assert(s == left + seq![mid] + right);
}

/// Reading `r` back as the elements of a balanced tree, in order.
pub open spec fn set_from_repr<T: OcamlRep>(r: Repr) -> Result<Seq<T::Model>, FromError>
    decreases r,
{
    match r {
        Repr::Int(n) => if n == 0 {
            Ok(Seq::empty())
        } else {
            Err(FromError::NullaryVariantTagOutOfRange { max: 0, actual: n as i64 })
        },
        Repr::Block { fields, .. } => match check_block(r, 4, 0) {
            Some(e) => Err(e),
            None => match set_from_repr::<T>(fields[0]) {
                Err(e) => Err(e),
                Ok(left) => match in_field(1, T::from_repr(fields[1])) {
                    Err(e) => Err(e),
                    Ok(x) => match set_from_repr::<T>(fields[2]) {
                        Err(e) => Err(e),
                        Ok(right) => Ok(left + seq![x] + right),
                    },
                },
            },
        },
        _ => match check_block(r, 4, 0) {
            Some(e) => Err(e),
            None => Err(FromError::ExpectedZeroTag(0)),
        },
    }
}

pub proof fn lemma_set_round_trip<T: OcamlRep>(s: Seq<T::Model>, r: Repr)
    requires
        forall|i: int| 0 <= i < s.len() ==> T::faithful(#[trigger] s[i]),
        set_encodes::<T>(s, r),
    ensures
        set_from_repr::<T>(r) == Ok::<Seq<T::Model>, FromError>(s),
    decreases s.len(),
{
    if s.len() > 0 {
        let m = (s.len() / 2) as int;
        let left = s.take(m);
        let right = s.skip(m + 1);
        assert forall|i: int| 0 <= i < left.len() implies T::faithful(#[trigger] left[i]) by {
            assert(left[i] == s[i]);
        }
        assert forall|i: int| 0 <= i < right.len() implies T::faithful(#[trigger] right[i]) by {
            assert(right[i] == s[i + m + 1]);
        }
        lemma_set_round_trip::<T>(left, r->fields[0]);
        lemma_set_round_trip::<T>(right, r->fields[2]);
        T::lemma_round_trip(s[m], r->fields[1]);
        assert(left + seq![s[m]] + right =~= s);
    } else {
        assert(s =~= Seq::<T::Model>::empty());
    }
}

/// Encoding each element of `s` is defined.
pub open spec fn elements_encodable<T: OcamlRep>(s: Seq<T::Model>) -> bool {
    forall|i: int| 0 <= i < s.len() ==> T::encodable(#[trigger] s[i])
}

#[verifier::spinoff_prover]
fn set_tree<T: OcamlRep>(items: &Vec<T>, start: usize, size: usize, arena: &mut Arena) -> (r: (Value, usize))
    requires
        start + size <= items@.len(),
        old(arena).wf(),
        elements_encodable::<T>(models::<T>(items@)),
        old(arena).has_room(set_cost::<T>(models::<T>(items@).subrange(start as int, start + size))),
    ensures
        final(arena).wf(),
        final(arena).extends(old(arena)),
        final(arena).used() <= old(arena).used() + set_cost::<T>(models::<T>(items@).subrange(start as int, start + size)),
        !(final(arena).denote_value(r.0) is Foreign),
        set_encodes::<T>(models::<T>(items@).subrange(start as int, start + size), final(arena).denote_value(r.0)),
        r.1 == tree_height(size as nat),
    decreases size,
{
    if size == 0 {
        return (Value::from_int(0), 0);
    }
    let total = items.len();
    let half = size / 2;
    proof {
        lemma_set_split_cost::<T>(models::<T>(items@), start as int, size as int);
    }
    let (l, lh) = set_tree(items, start, half, arena);
    let ghost a1 = *arena;
    proof {
        let j = start + half;
        assert(models::<T>(items@)[j as int] == items@[j as int].model());
    }
    let x = items[start + half].to_ocamlrep(arena);
    let ghost a2 = *arena;
    let (r, rh) = set_tree(items, start + half + 1, size - 1 - half, arena);
    let ghost a3 = *arena;
    proof {
        lemma_extends_denote(&a1, &a3, l);
        lemma_extends_denote(&a2, &a3, x);
        lemma_height_small(size as nat);
    }
    let height = if lh >= rh { lh } else { rh } + 1;
    proof {
        lemma_wrap_in_range(height as int);
    }
    let hv = Value::from_int(height as i64);
    let mut block = arena.block_with_size(4);
    arena.set_field(&mut block, 0, l);
    arena.set_field(&mut block, 1, x);
    arena.set_field(&mut block, 2, r);
    arena.set_field(&mut block, 3, hv);
    let node = arena.build(block);
    proof {
        assert(block.spec_fields()[0] == l);
        assert(block.spec_fields()[1] == x);
        assert(block.spec_fields()[2] == r);
        assert(block.spec_fields()[3] == hv);
    }
    (node, height)
}

/// Build the tree of a set from its elements, which must come in ascending
/// order, each once. Returns the tree and its height.
pub fn sorted_iter_to_ocaml_set<T: OcamlRep>(items: &Vec<T>, arena: &mut Arena) -> (r: (Value, usize))
    requires
        old(arena).wf(),
        elements_encodable::<T>(models::<T>(items@)),
        old(arena).has_room(set_cost::<T>(models::<T>(items@))),
    ensures
        final(arena).wf(),
        final(arena).extends(old(arena)),
        final(arena).used() <= old(arena).used() + set_cost::<T>(models::<T>(items@)),
        !(final(arena).denote_value(r.0) is Foreign),
        set_encodes::<T>(models::<T>(items@), final(arena).denote_value(r.0)),
        r.1 == tree_height(items@.len()),
{
    proof {
        assert(models::<T>(items@).subrange(0, items@.len() as int) =~= models::<T>(items@));
    }
    set_tree(items, 0, items.len(), arena)
}

fn vec_from_ocaml_set_impl<T: FromOcamlRep>(value: Value, vec: &mut Vec<T>, arena: &Arena, limit: usize) -> (r: Result<(), FromError>)
    requires
        arena.wf(),
    ensures
        match set_from_repr::<T>(denote(arena.mem(), value, limit as int)) {
            Ok(s) => r is Ok && models::<T>(final(vec)@) == models::<T>(old(vec)@) + s,
            Err(e) => r == Err::<(), FromError>(e),
        },
    decreases limit,
{
    if value.is_int() {
        let n = value.as_int().unwrap();
        if n != 0 {
            return Err(FromError::NullaryVariantTagOutOfRange { max: 0, actual: n });
        }
        proof {
            assert(models::<T>(vec@) + Seq::empty() =~= models::<T>(vec@));
        }
        return Ok(());
    }
    match crate::convert::expect_block_with_size_and_tag(value, arena, limit, 4, 0) {
        Some(e) => {
            return Err(e);
        },
        None => {},
    }
    let ghost d = denote(arena.mem(), value, limit as int);
    let inner = Arena::field_limit(value);
    let f0 = arena.field(value, limit, 0);
    let f1 = arena.field(value, limit, 1);
    let f2 = arena.field(value, limit, 2);
    let ghost v0 = models::<T>(vec@);
    match vec_from_ocaml_set_impl(f0, vec, arena, inner) {
        Err(e) => {
            return Err(e);
        },
        Ok(()) => {},
    }
    let x = match T::from_ocamlrep_below(f1, arena, inner) {
        Err(e) => {
            return Err(FromError::ErrorInField(1, Box::new(e)));
        },
        Ok(x) => x,
    };
    let ghost v1 = models::<T>(vec@);
    vec.push(x);
    proof {
        assert(models::<T>(vec@) =~= v1 + seq![x.model()]);
    }
    let ghost v2 = models::<T>(vec@);
    let res = vec_from_ocaml_set_impl(f2, vec, arena, inner);
    proof {
        if let Ok(right) = set_from_repr::<T>(d->fields[2]) {
            let left = set_from_repr::<T>(d->fields[0])->Ok_0;
            assert(v1 == v0 + left);
            assert(v0 + (left + seq![x.model()] + right) =~= v2 + right);
        }
    }
    res
}

/// Read back the elements of a set tree, in order.
pub fn vec_from_ocaml_set<T: FromOcamlRep>(value: Value, arena: &Arena) -> (r: Result<Vec<T>, FromError>)
    requires
        arena.wf(),
    ensures
        match r {
            Ok(v) => set_from_repr::<T>(arena.denote_value(value)) == Ok::<Seq<T::Model>, FromError>(models::<T>(v@)),
            Err(e) => set_from_repr::<T>(arena.denote_value(value)) == Err::<Seq<T::Model>, FromError>(e),
        },
{
    let mut vec: Vec<T> = Vec::new();
    let limit = arena.end_index();
    proof {
        assert(models::<T>(vec@) =~= Seq::empty());
    }
    match vec_from_ocaml_set_impl(value, &mut vec, arena, limit) {
        Err(e) => Err(e),
        Ok(()) => {
            proof {
                let s = set_from_repr::<T>(arena.denote_value(value))->Ok_0;
                assert(Seq::<T::Model>::empty() + s =~= s);
            }
            Ok(vec)
        },
    }
}

/// The tree of a map over `n` bindings records in its root the height `h`
/// with `2^(h-1) <= n < 2^h`, that is `h = ceil(log2(n + 1))`, and reading it
/// back in order gives the bindings it was built from.
pub proof fn lemma_map_tree_shape<K: OcamlRep, V: OcamlRep>(s: Seq<(K::Model, V::Model)>, r: Repr)
    requires
        map_encodes::<K, V>(s, r),
        entries_faithful::<K, V>(s),
    ensures
        s.len() == 0 ==> r == Repr::Int(0),
        s.len() > 0 ==> {
            &&& r->fields[4] == Repr::Int(tree_height(s.len()) as int)
            &&& pow2((tree_height(s.len()) - 1) as nat) <= s.len() < pow2(tree_height(s.len()))
        },
        map_from_repr::<K, V>(r) == Ok::<Seq<(K::Model, V::Model)>, FromError>(s),
{
    lemma_tree_height(s.len());
    lemma_map_round_trip::<K, V>(s, r);
}

/// The tree of a set over `n` elements records in its root the height `h`
/// with `2^(h-1) <= n < 2^h`, that is `h = ceil(log2(n + 1))`, and reading it
/// back in order gives the elements it was built from.
pub proof fn lemma_set_tree_shape<T: OcamlRep>(s: Seq<T::Model>, r: Repr)
    requires
        set_encodes::<T>(s, r),
        forall|i: int| 0 <= i < s.len() ==> T::faithful(#[trigger] s[i]),
    ensures
        s.len() == 0 ==> r == Repr::Int(0),
        s.len() > 0 ==> {
            &&& r->fields[3] == Repr::Int(tree_height(s.len()) as int)
            &&& pow2((tree_height(s.len()) - 1) as nat) <= s.len() < pow2(tree_height(s.len()))
        },
        set_from_repr::<T>(r) == Ok::<Seq<T::Model>, FromError>(s),
{
    lemma_tree_height(s.len());
    lemma_set_round_trip::<T>(s, r);
}

/// `m` with the bindings of `s` inserted in order (a later key replaces an
/// earlier one).
pub open spec fn insert_all<K, V>(m: Map<K, V>, s: Seq<(K, V)>) -> Map<K, V>
    decreases s.len(),
{
    if s.len() == 0 {
        m
    } else {
        insert_all(m, s.drop_last()).insert(s.last().0, s.last().1)
    }
}

/// `m` with the elements of `s` added.
pub open spec fn add_all<T>(m: Set<T>, s: Seq<T>) -> Set<T>
    decreases s.len(),
{
    if s.len() == 0 {
        m
    } else {
        add_all(m, s.drop_last()).insert(s.last())
    }
}

/// The items of `v` in reverse order.
fn reversed<T>(v: Vec<T>) -> (r: Vec<T>)
    ensures
        r@.len() == v@.len(),
        forall|j: int| 0 <= j < v@.len() ==> #[trigger] r@[j] == v@[v@.len() - 1 - j],
{
    let ghost es = v@;
    let mut v = v;
    let mut r: Vec<T> = Vec::new();
    while v.len() > 0
        invariant
            v@.len() + r@.len() == es.len(),
            v@ == es.take(v@.len() as int),
            forall|j: int| 0 <= j < r@.len() ==> #[trigger] r@[j] == es[es.len() - 1 - j],
        decreases v@.len(),
    {
        let x = v.pop().unwrap();
        r.push(x);
        proof {
            assert(v@ =~= es.take(v@.len() as int));
        }
    }
    r
}

/// Insert the bindings of `es`, in order, into `map`.
fn insert_bindings<K: Ord, V>(map: &mut BTreeMap<K, V>, es: Vec<(K, V)>)
    ensures
        obeys_cmp::<K>() ==> final(map)@ == insert_all(old(map)@, es@),
{
    let ghost all = es@;
    let mut rev = reversed(es);
    while rev.len() > 0
        invariant
            rev@.len() <= all.len(),
            forall|j: int| 0 <= j < rev@.len() ==> #[trigger] rev@[j] == all[all.len() - 1 - j],
            obeys_cmp::<K>() ==> map@ == insert_all(old(map)@, all.take(all.len() - rev@.len())),
        decreases rev@.len(),
    {
        let ghost i = all.len() - rev@.len();
        let (k, v) = rev.pop().unwrap();
        proof {
            assert(all.take(i + 1).drop_last() =~= all.take(i));
            assert(all.take(i + 1).last() == all[i]);
        }
        map.insert(k, v);
    }
    proof {
        assert(all.take(all.len() as int) =~= all);
    }
}

/// Insert the elements of `es`, in order, into `set`.
fn insert_elements<T: Ord>(set: &mut BTreeSet<T>, es: Vec<T>)
    ensures
        obeys_cmp::<T>() ==> final(set)@ == add_all(old(set)@, es@),
{
    let ghost all = es@;
    let mut rev = reversed(es);
    while rev.len() > 0
        invariant
            rev@.len() <= all.len(),
            forall|j: int| 0 <= j < rev@.len() ==> #[trigger] rev@[j] == all[all.len() - 1 - j],
            obeys_cmp::<T>() ==> set@ == add_all(old(set)@, all.take(all.len() - rev@.len())),
        decreases rev@.len(),
    {
        let ghost i = all.len() - rev@.len();
        let x = rev.pop().unwrap();
        proof {
            assert(all.take(i + 1).drop_last() =~= all.take(i));
            assert(all.take(i + 1).last() == all[i]);
        }
        set.insert(x);
    }
    proof {
        assert(all.take(all.len() as int) =~= all);
    }
}

/// Read a map tree back into `map`: its bindings are inserted in key order.
/// On an error `map` is left as it was.
pub fn btree_map_from_ocamlrep<K: FromOcamlRep + Ord, V: FromOcamlRep>(map: &mut BTreeMap<K, V>, value: Value, arena: &Arena) -> (r: Result<(), FromError>)
    requires
        arena.wf(),
    ensures
        match map_from_repr::<K, V>(arena.denote_value(value)) {
            Ok(s) => r is Ok && exists|es: Seq<(K, V)>|
                #![trigger models::<(K, V)>(es)]
                models::<(K, V)>(es) == s && (obeys_cmp::<K>() ==> final(map)@ == insert_all(old(map)@, es)),
            Err(e) => r == Err::<(), FromError>(e) && final(map)@ == old(map)@,
        },
{
    match vec_from_ocaml_map::<K, V>(value, arena) {
        Err(e) => Err(e),
        Ok(es) => {
            let ghost bindings = es@;
            insert_bindings(map, es);
            Ok(())
        },
    }
}

/// Read a set tree back into `set`: its elements are inserted in order. On an
/// error `set` is left as it was.
pub fn btree_set_from_ocamlrep<T: FromOcamlRep + Ord>(set: &mut BTreeSet<T>, value: Value, arena: &Arena) -> (r: Result<(), FromError>)
    requires
        arena.wf(),
    ensures
        match set_from_repr::<T>(arena.denote_value(value)) {
            Ok(s) => r is Ok && exists|es: Seq<T>|
                #![trigger models::<T>(es)]
                models::<T>(es) == s && (obeys_cmp::<T>() ==> final(set)@ == add_all(old(set)@, es)),
            Err(e) => r == Err::<(), FromError>(e) && final(set)@ == old(set)@,
        },
{
    match vec_from_ocaml_set::<T>(value, arena) {
        Err(e) => Err(e),
        Ok(es) => {
            let ghost elements = es@;
            insert_elements(set, es);
            Ok(())
        },
    }
}

proof fn lemma_set_encodes_ref<T: OcamlRep>(s: Seq<T::Model>, r: Repr)
    ensures
        set_encodes::<&T>(s, r) == set_encodes::<T>(s, r),
        set_cost::<&T>(s) == set_cost::<T>(s),
    decreases s.len(),
{
    if s.len() > 0 {
        let m = s.len() / 2;
        lemma_set_encodes_ref::<T>(s.take(m as int), r->fields[0]);
        lemma_set_encodes_ref::<T>(s.skip(m as int + 1), r->fields[2]);
        lemma_set_encodes_ref::<T>(s.drop_last(), r);
    }
}

/// The elements of `set`, in the order its iterator gives them (ascending).
pub open spec fn set_elements<T>(set: &BTreeSet<T>) -> Seq<T> {
    into_iter_btree_keys(spec_btree_keys_iter(set))
}

impl<T: OcamlRep + Ord> OcamlRep for BTreeSet<T> {
    type Model = Seq<T::Model>;

    /// The models of the elements, in ascending order.
    open spec fn model(&self) -> Seq<T::Model> {
        models::<T>(set_elements(self))
    }

    /// Encoding needs the elements' order to be the one `Ord` gives.
    open spec fn encodable(m: Seq<T::Model>) -> bool {
        key_obeys_cmp_spec::<T>() && elements_encodable::<T>(m)
    }

    open spec fn faithful(m: Seq<T::Model>) -> bool {
        forall|i: int| 0 <= i < m.len() ==> T::faithful(#[trigger] m[i])
    }

    open spec fn cost(m: Seq<T::Model>) -> nat {
        set_cost::<T>(m)
    }

    /// The balanced tree over the elements in ascending order.
    open spec fn encodes(m: Seq<T::Model>, r: Repr) -> bool {
        set_encodes::<T>(m, r)
    }

    open spec fn from_repr(r: Repr) -> Result<Seq<T::Model>, FromError> {
        set_from_repr::<T>(r)
    }

    proof fn lemma_round_trip(m: Seq<T::Model>, r: Repr) {
        lemma_set_round_trip::<T>(m, r);
    }

    fn to_ocamlrep(&self, arena: &mut Arena) -> (r: Value) {
        let ghost target = set_elements(self);
        let mut refs: Vec<&T> = Vec::new();
        for x in iter: self.iter()
            invariant
                refs@ == iter.seq().take(iter.index() as int),
                iter.seq().unref() == target,
                iter.index() == iter.seq().len() ==> refs@.unref() == target,
        {
            proof {
                assert(iter.seq().take(iter.index() as int).push(x) =~= iter.seq().take(iter.index() + 1));
            }
            refs.push(x);
        }
        proof {
            assert(set_elements(self) == refs@.unref());
        }
        proof {
            assert(models::<&T>(refs@) =~= models::<T>(set_elements(self)));
            lemma_set_encodes_ref::<T>(models::<&T>(refs@), Repr::Int(0));
        }
        let (tree, _height) = sorted_iter_to_ocaml_set(&refs, arena);
        proof {
            lemma_set_encodes_ref::<T>(models::<&T>(refs@), arena.denote_value(tree));
        }
        tree
    }
}

proof fn lemma_map_encodes_ref<K: OcamlRep, V: OcamlRep>(s: Seq<(K::Model, V::Model)>, r: Repr)
    ensures
        map_encodes::<&K, &V>(s, r) == map_encodes::<K, V>(s, r),
        map_cost::<&K, &V>(s) == map_cost::<K, V>(s),
    decreases s.len(),
{
    if s.len() > 0 {
        let m = s.len() / 2;
        lemma_map_encodes_ref::<K, V>(s.take(m as int), r->fields[0]);
        lemma_map_encodes_ref::<K, V>(s.skip(m as int + 1), r->fields[3]);
        lemma_map_encodes_ref::<K, V>(s.drop_last(), r);
    }
}

/// The bindings of `map`, in the order its iterator gives them (ascending
/// keys).
pub open spec fn map_bindings<K, V>(map: &BTreeMap<K, V>) -> Seq<(K, V)> {
    into_iter(spec_btree_map_iter(map))
}

impl<K: OcamlRep + Ord, V: OcamlRep> OcamlRep for BTreeMap<K, V> {
    type Model = Seq<(K::Model, V::Model)>;

    /// The models of the bindings, in ascending order of keys.
    open spec fn model(&self) -> Seq<(K::Model, V::Model)> {
        models::<(K, V)>(map_bindings(self))
    }

    /// Encoding needs the keys' order to be the one `Ord` gives.
    open spec fn encodable(m: Seq<(K::Model, V::Model)>) -> bool {
        key_obeys_cmp_spec::<K>() && entries_encodable::<K, V>(m)
    }

    open spec fn faithful(m: Seq<(K::Model, V::Model)>) -> bool {
        entries_faithful::<K, V>(m)
    }

    open spec fn cost(m: Seq<(K::Model, V::Model)>) -> nat {
        map_cost::<K, V>(m)
    }

    /// The balanced tree over the bindings in ascending order of keys.
    open spec fn encodes(m: Seq<(K::Model, V::Model)>, r: Repr) -> bool {
        map_encodes::<K, V>(m, r)
    }

    open spec fn from_repr(r: Repr) -> Result<Seq<(K::Model, V::Model)>, FromError> {
        map_from_repr::<K, V>(r)
    }

    proof fn lemma_round_trip(m: Seq<(K::Model, V::Model)>, r: Repr) {
        lemma_map_round_trip::<K, V>(m, r);
    }

    fn to_ocamlrep(&self, arena: &mut Arena) -> (r: Value) {
        let ghost target = map_bindings(self);
        let mut refs: Vec<(&K, &V)> = Vec::new();
        for x in iter: self.iter()
            invariant
                refs@ == iter.seq().take(iter.index() as int),
                iter.seq().unref() == target,
                iter.index() == iter.seq().len() ==> refs@.unref() == target,
        {
            proof {
                assert(iter.seq().take(iter.index() as int).push(x) =~= iter.seq().take(iter.index() + 1));
            }
            refs.push(x);
        }
        proof {
            assert(map_bindings(self) == refs@.unref());
            assert(models::<(&K, &V)>(refs@) =~= models::<(K, V)>(map_bindings(self)));
            lemma_map_encodes_ref::<K, V>(models::<(&K, &V)>(refs@), Repr::Int(0));
        }
        let (tree, _height) = sorted_iter_to_ocaml_map(&refs, arena);
        proof {
            lemma_map_encodes_ref::<K, V>(models::<(&K, &V)>(refs@), arena.denote_value(tree));
        }
        tree
    }
}

} // verus!
