use vstd::prelude::*;

use crate::arena::Arena;
use crate::convert::check_block;
use crate::error::FromError;
use crate::repr::{denote, Repr};
use crate::value::{Value, CUSTOM_TAG, DOUBLE_TAG};

verus! {

/// `r` is a boxed 64-bit integer: a custom block of two words, the address of
/// its operations table and the integer's bits.
pub open spec fn int64_encodes(x: i64, ops: u64, r: Repr) -> bool {
    &&& r is Raw
    &&& r->Raw_tag == CUSTOM_TAG
    &&& r->words == seq![ops, x as u64]
}

/// Reading `r` back as a boxed 64-bit integer.
pub open spec fn int64_from_repr(r: Repr) -> Result<i64, FromError> {
    match check_block(r, 2, CUSTOM_TAG) {
        Some(e) => Err(e),
        None => Ok(r->words[1] as i64),
    }
}

/// Encode `x` as a boxed 64-bit integer whose operations table is at `ops`.
pub fn int64_to_ocamlrep(x: i64, ops: u64, arena: &mut Arena) -> (r: Value)
    requires
        old(arena).wf(),
        old(arena).has_room(3),
    ensures
        final(arena).wf(),
        final(arena).extends(old(arena)),
        final(arena).used() == old(arena).used() + 3,
        !(final(arena).denote_value(r) is Foreign),
        int64_encodes(x, ops, final(arena).denote_value(r)),
{
    let mut block = arena.block_with_size_and_tag(2, CUSTOM_TAG);
    arena.set_field(&mut block, 0, Value(ops));
    arena.set_field(&mut block, 1, Value(x as u64));
    let r = arena.build(block);
    proof {
        assert(block.spec_fields().map_values(|v: Value| v.0) =~= seq![ops, x as u64]);
    }
    r
}

/// Read a boxed 64-bit integer back.
pub fn int64_from_ocamlrep(value: Value, arena: &Arena) -> (r: Result<i64, FromError>)
    requires
        arena.wf(),
    ensures
        r == int64_from_repr(arena.denote_value(value)),
{
    let limit = arena.end_index();
    match crate::convert::expect_block_with_size_and_tag(value, arena, limit, 2, CUSTOM_TAG) {
        Some(e) => Err(e),
        None => Ok(arena.field(value, limit, 1).0 as i64),
    }
}

pub proof fn lemma_int64_round_trip(x: i64, ops: u64, r: Repr)
    requires
        int64_encodes(x, ops, r),
    ensures
        int64_from_repr(r) == Ok::<i64, FromError>(x),
{
    assert((x as u64) as i64 == x) by (bit_vector);
}

/// `r` is a boxed float: a block of one word holding the float's bits.
pub open spec fn double_encodes(bits: u64, r: Repr) -> bool {
    &&& r is Raw
    &&& r->Raw_tag == DOUBLE_TAG
    &&& r->words == seq![bits]
}

/// Encode a float, given by its bits, as a boxed float.
pub fn double_to_ocamlrep(bits: u64, arena: &mut Arena) -> (r: Value)
    requires
        old(arena).wf(),
        old(arena).has_room(2),
    ensures
        final(arena).wf(),
        final(arena).extends(old(arena)),
        final(arena).used() == old(arena).used() + 2,
        !(final(arena).denote_value(r) is Foreign),
        double_encodes(bits, final(arena).denote_value(r)),
{
    let mut block = arena.block_with_size_and_tag(1, DOUBLE_TAG);
    arena.set_field(&mut block, 0, Value(bits));
    let r = arena.build(block);
    proof {
        assert(block.spec_fields().map_values(|v: Value| v.0) =~= seq![bits]);
    }
    r
}

/// Read a boxed float back, as its bits.
pub fn double_from_ocamlrep(value: Value, arena: &Arena) -> (r: Result<u64, FromError>)
    requires
        arena.wf(),
    ensures
        r == (match check_block(arena.denote_value(value), 1, DOUBLE_TAG) {
            Some(e) => Err(e),
            None => Ok(arena.denote_value(value)->words[0]),
        }),
{
    let limit = arena.end_index();
    match crate::convert::expect_block_with_size_and_tag(value, arena, limit, 1, DOUBLE_TAG) {
        Some(e) => Err(e),
        None => Ok(arena.field(value, limit, 0).0),
    }
}

} // verus!
