use vstd::prelude::*;

use crate::arena::{lemma_extends_denote, Arena};
use crate::error::FromError;
use crate::repr::{denote, repr_size, repr_tag, Repr};
use crate::value::{in_immediate_range, wrap_immediate, Value, NO_SCAN_TAG};

verus! {

/// The pointer bits of a block or of a foreign pointer.
pub open spec fn repr_bits(r: Repr) -> u64 {
    match r {
        Repr::Block { ptr, .. } => ptr,
        Repr::Raw { ptr, .. } => ptr,
        Repr::Foreign(b) => b,
        Repr::Int(_) => 0,
    }
}

/// Read `r` as an immediate integer.
pub open spec fn int_of(r: Repr) -> Result<int, FromError> {
    match r {
        Repr::Int(n) => Ok(n),
        _ => Err(FromError::ExpectedInt(repr_bits(r))),
    }
}

/// The error, if any, of reading `r` as a block of `size` fields with tag
/// `tag`: first that it is a block, then its size, then its tag. A pointer
/// that leads to no block below its limit cannot be followed; it is reported
/// as an unexpected pointer (`ExpectedInt`).
pub open spec fn check_block(r: Repr, size: nat, tag: u8) -> Option<FromError> {
    match r {
        Repr::Int(n) => Some(FromError::ExpectedBlock(n as i64)),
        Repr::Foreign(b) => Some(FromError::ExpectedInt(b)),
        _ => if repr_size(r) != size {
            Some(FromError::WrongBlockSize { expected: size as usize, actual: repr_size(r) as usize })
        } else if repr_tag(r) != tag {
            Some(FromError::ExpectedBlockTag { expected: tag, actual: repr_tag(r) })
        } else {
            None
        },
    }
}

/// The error, if any, of reading `r` as a tuple (tag 0) of `size` fields.
pub open spec fn check_tuple(r: Repr, size: nat) -> Option<FromError> {
    match r {
        Repr::Int(n) => Some(FromError::ExpectedBlock(n as i64)),
        Repr::Foreign(b) => Some(FromError::ExpectedInt(b)),
        _ => if repr_size(r) != size {
            Some(FromError::WrongBlockSize { expected: size as usize, actual: repr_size(r) as usize })
        } else if repr_tag(r) != 0 {
            Some(FromError::ExpectedZeroTag(repr_tag(r)))
        } else {
            None
        },
    }
}

/// A failure to read field `k` is reported as a failure in that field.
pub open spec fn in_field<M>(k: usize, res: Result<M, FromError>) -> Result<M, FromError> {
    match res {
        Ok(m) => Ok(m),
        Err(e) => Err(FromError::ErrorInField(k, Box::new(e))),
    }
}

/// Field `k` of a scanned block.
pub open spec fn field_of(r: Repr, k: int) -> Repr {
    r->fields[k]
}

/// A native type with a representation in the foreign runtime: how a value is
/// encoded, and how a representation is read back.
pub trait OcamlRep: Sized {
    type Model;

    /// The mathematical value of `self`.
    spec fn model(&self) -> Self::Model;

    /// Encoding `m` is defined (does not abort).
    spec fn encodable(m: Self::Model) -> bool;

    /// Encoding `m` loses nothing, so that reading it back gives `m`.
    spec fn faithful(m: Self::Model) -> bool;

    /// An upper bound on the words that encoding `m` hands out.
    spec fn cost(m: Self::Model) -> nat;

    /// `r` is the encoding of `m`.
    spec fn encodes(m: Self::Model, r: Repr) -> bool;

    /// What reading `r` back gives.
    spec fn from_repr(r: Repr) -> Result<Self::Model, FromError>;

    proof fn lemma_round_trip(m: Self::Model, r: Repr)
        requires
            Self::faithful(m),
            Self::encodes(m, r),
        ensures
            Self::from_repr(r) == Ok::<Self::Model, FromError>(m),
    ;

    /// Encode `self` into `arena`.
    fn to_ocamlrep(&self, arena: &mut Arena) -> (r: Value)
        requires
            old(arena).wf(),
            Self::encodable(self.model()),
            old(arena).has_room(Self::cost(self.model())),
        ensures
            final(arena).wf(),
            final(arena).extends(old(arena)),
            final(arena).used() <= old(arena).used() + Self::cost(self.model()),
            !(final(arena).denote_value(r) is Foreign),
            Self::encodes(self.model(), final(arena).denote_value(r)),
    ;
}

/// A type whose values can be read back from their representation.
pub trait FromOcamlRep: OcamlRep {
    /// Read `value` back, following pointers only to blocks below word
    /// `limit`.
    fn from_ocamlrep_below(value: Value, arena: &Arena, limit: usize) -> (r: Result<Self, FromError>)
        requires
            arena.wf(),
        ensures
            match r {
                Ok(x) => Self::from_repr(denote(arena.mem(), value, limit as int)) == Ok::<
                    Self::Model,
                    FromError,
                >(x.model()),
                Err(e) => Self::from_repr(denote(arena.mem(), value, limit as int)) == Err::<
                    Self::Model,
                    FromError,
                >(e),
            },
    ;
}

/// Reading back a value that encodes `m` gives `m`, for every type and every
/// value whose encoding loses nothing: with the contracts of `to_ocamlrep` and
/// `from_ocamlrep`, decoding what was encoded gives the encoded value back.
pub proof fn lemma_decode_encoded<T: OcamlRep>(m: T::Model, arena: &Arena, v: Value)
    requires
        T::faithful(m),
        T::encodes(m, arena.denote_value(v)),
    ensures
        T::from_repr(arena.denote_value(v)) == Ok::<T::Model, FromError>(m),
{
    T::lemma_round_trip(m, arena.denote_value(v));
}

/// Read `value` back as a `T` from `arena`.
pub fn from_ocamlrep<T: FromOcamlRep>(value: Value, arena: &Arena) -> (r: Result<T, FromError>)
    requires
        arena.wf(),
    ensures
        match r {
            Ok(x) => T::from_repr(arena.denote_value(value)) == Ok::<T::Model, FromError>(x.model()),
            Err(e) => T::from_repr(arena.denote_value(value)) == Err::<T::Model, FromError>(e),
        },
{
    let limit = arena.end_index();
    T::from_ocamlrep_below(value, arena, limit)
}

/// Read `value` as an immediate integer.
pub fn expect_int(value: Value, arena: &Arena, limit: usize) -> (r: Result<i64, FromError>)
    requires
        arena.wf(),
    ensures
        match r {
            Ok(n) => int_of(denote(arena.mem(), value, limit as int)) == Ok::<int, FromError>(n as int),
            Err(e) => int_of(denote(arena.mem(), value, limit as int)) == Err::<int, FromError>(e),
        },
{
    if value.is_int() {
        Ok(value.as_int().unwrap())
    } else {
        Err(FromError::ExpectedInt(value.0))
    }
}


/// Check that `value` points to a block of `size` fields with tag `tag`.
pub fn expect_block_with_size_and_tag(value: Value, arena: &Arena, limit: usize, size: usize, tag: u8) -> (r:
    Option<FromError>)
    requires
        arena.wf(),
    ensures
        r == check_block(denote(arena.mem(), value, limit as int), size as nat, tag),
        r.is_none() ==> crate::repr::is_block_repr(denote(arena.mem(), value, limit as int)),
{
    if value.is_int() {
        return Some(FromError::ExpectedBlock(value.as_int().unwrap()));
    }
    if !arena.fits_below(value, limit) {
        return Some(FromError::ExpectedInt(value.0));
    }
    let (sz, tg) = arena.block_header(value, limit);
    if sz != size {
        Some(FromError::WrongBlockSize { expected: size, actual: sz })
    } else if tg != tag {
        Some(FromError::ExpectedBlockTag { expected: tag, actual: tg })
    } else {
        None
    }
}

/// Read `r` as the immediate of a nullary variant numbered 0 to `max`.
pub open spec fn nullary_variant_of(r: Repr, max: usize) -> Result<int, FromError> {
    match int_of(r) {
        Err(e) => Err(e),
        Ok(n) => if 0 <= n <= max {
            Ok(n)
        } else {
            Err(FromError::NullaryVariantTagOutOfRange { max, actual: n as i64 })
        },
    }
}

/// Read `value` as the immediate of a nullary variant numbered 0 to `max`.
pub fn expect_nullary_variant(value: Value, arena: &Arena, limit: usize, max: usize) -> (r: Result<i64, FromError>)
    requires
        arena.wf(),
    ensures
        match r {
            Ok(n) => nullary_variant_of(denote(arena.mem(), value, limit as int), max) == Ok::<int, FromError>(n as int),
            Err(e) => nullary_variant_of(denote(arena.mem(), value, limit as int), max) == Err::<int, FromError>(e),
        },
{
    match expect_int(value, arena, limit) {
        Err(e) => Err(e),
        Ok(n) => if 0 <= n && (n as u64) <= (max as u64) {
            Ok(n)
        } else {
            Err(FromError::NullaryVariantTagOutOfRange { max, actual: n })
        },
    }
}

/// The error, if any, of reading `r` as a block (of any size and tag).
pub open spec fn check_any_block(r: Repr) -> Option<FromError> {
    match r {
        Repr::Int(n) => Some(FromError::ExpectedBlock(n as i64)),
        Repr::Foreign(b) => Some(FromError::ExpectedInt(b)),
        _ => None,
    }
}

/// Check that `value` points to a block lying below word `limit`.
pub fn expect_block(value: Value, arena: &Arena, limit: usize) -> (r: Option<FromError>)
    requires
        arena.wf(),
    ensures
        r == check_any_block(denote(arena.mem(), value, limit as int)),
        r.is_none() ==> crate::repr::is_block_repr(denote(arena.mem(), value, limit as int)),
{
    if value.is_int() {
        Some(FromError::ExpectedBlock(value.as_int().unwrap()))
    } else if !arena.fits_below(value, limit) {
        Some(FromError::ExpectedInt(value.0))
    } else {
        None
    }
}

/// Check that `value` points to a tuple (tag 0) of `size` fields.
pub fn expect_tuple(value: Value, arena: &Arena, limit: usize, size: usize) -> (r: Option<FromError>)
    requires
        arena.wf(),
    ensures
        r == check_tuple(denote(arena.mem(), value, limit as int), size as nat),
        r.is_none() ==> denote(arena.mem(), value, limit as int) is Block,
{
    if value.is_int() {
        return Some(FromError::ExpectedBlock(value.as_int().unwrap()));
    }
    if !arena.fits_below(value, limit) {
        return Some(FromError::ExpectedInt(value.0));
    }
    let (sz, tg) = arena.block_header(value, limit);
    if sz != size {
        Some(FromError::WrongBlockSize { expected: size, actual: sz })
    } else if tg != 0 {
        Some(FromError::ExpectedZeroTag(tg))
    } else {
        None
    }
}

impl OcamlRep for () {
    type Model = ();

    open spec fn model(&self) -> () {
        ()
    }

    open spec fn encodable(m: ()) -> bool {
        true
    }

    open spec fn faithful(m: ()) -> bool {
        true
    }

    open spec fn cost(m: ()) -> nat {
        0
    }

    open spec fn encodes(m: (), r: Repr) -> bool {
        r == Repr::Int(0)
    }

    open spec fn from_repr(r: Repr) -> Result<(), FromError> {
        match int_of(r) {
            Err(e) => Err(e),
            Ok(n) => if n == 0 {
                Ok(())
            } else {
                Err(FromError::ExpectedUnit(n as i64))
            },
        }
    }

    proof fn lemma_round_trip(m: (), r: Repr) {
    }

    fn to_ocamlrep(&self, arena: &mut Arena) -> (r: Value) {
        Value::from_int(0)
    }
}

impl FromOcamlRep for () {
    fn from_ocamlrep_below(value: Value, arena: &Arena, limit: usize) -> (r: Result<(), FromError>) {
        match expect_int(value, arena, limit) {
            Err(e) => Err(e),
            Ok(n) => if n == 0 {
                Ok(())
            } else {
                Err(FromError::ExpectedUnit(n))
            },
        }
    }
}

impl OcamlRep for bool {
    type Model = bool;

    open spec fn model(&self) -> bool {
        *self
    }

    open spec fn encodable(m: bool) -> bool {
        true
    }

    open spec fn faithful(m: bool) -> bool {
        true
    }

    open spec fn cost(m: bool) -> nat {
        0
    }

    open spec fn encodes(m: bool, r: Repr) -> bool {
        r == Repr::Int(if m { 1 } else { 0 })
    }

    open spec fn from_repr(r: Repr) -> Result<bool, FromError> {
        match int_of(r) {
            Err(e) => Err(e),
            Ok(n) => if n == 0 {
                Ok(false)
            } else if n == 1 {
                Ok(true)
            } else {
                Err(FromError::ExpectedBool(n as i64))
            },
        }
    }

    proof fn lemma_round_trip(m: bool, r: Repr) {
    }

    fn to_ocamlrep(&self, arena: &mut Arena) -> (r: Value) {
        Value::from_int(if *self { 1 } else { 0 })
    }
}

impl FromOcamlRep for bool {
    fn from_ocamlrep_below(value: Value, arena: &Arena, limit: usize) -> (r: Result<bool, FromError>) {
        match expect_int(value, arena, limit) {
            Err(e) => Err(e),
            Ok(n) => if n == 0 {
                Ok(false)
            } else if n == 1 {
                Ok(true)
            } else {
                Err(FromError::ExpectedBool(n))
            },
        }
    }
}

impl OcamlRep for i64 {
    type Model = i64;

    open spec fn model(&self) -> i64 {
        *self
    }

    open spec fn encodable(m: i64) -> bool {
        true
    }

    open spec fn faithful(m: i64) -> bool {
        in_immediate_range(m as int)
    }

    open spec fn cost(m: i64) -> nat {
        0
    }

    open spec fn encodes(m: i64, r: Repr) -> bool {
        r == Repr::Int(wrap_immediate(m as int))
    }

    open spec fn from_repr(r: Repr) -> Result<i64, FromError> {
        match int_of(r) {
            Err(e) => Err(e),
            Ok(n) => Ok(n as i64),
        }
    }

    proof fn lemma_round_trip(m: i64, r: Repr) {
        crate::value::lemma_wrap_in_range(m as int);
    }

    fn to_ocamlrep(&self, arena: &mut Arena) -> (r: Value) {
        Value::from_int(*self)
    }
}

impl FromOcamlRep for i64 {
    fn from_ocamlrep_below(value: Value, arena: &Arena, limit: usize) -> (r: Result<i64, FromError>) {
        expect_int(value, arena, limit)
    }
}

impl<T: OcamlRep> OcamlRep for Option<T> {
    type Model = Option<T::Model>;

    open spec fn model(&self) -> Option<T::Model> {
        match self {
            Some(x) => Some(x.model()),
            None => None,
        }
    }

    open spec fn encodable(m: Option<T::Model>) -> bool {
        match m {
            Some(x) => T::encodable(x),
            None => true,
        }
    }

    open spec fn faithful(m: Option<T::Model>) -> bool {
        match m {
            Some(x) => T::faithful(x),
            None => true,
        }
    }

    open spec fn cost(m: Option<T::Model>) -> nat {
        match m {
            Some(x) => 2 + T::cost(x),
            None => 0,
        }
    }

    /// `None` is the immediate 0; `Some(x)` a block of one field, tag 0.
    open spec fn encodes(m: Option<T::Model>, r: Repr) -> bool {
        match m {
            None => r == Repr::Int(0),
            Some(x) => {
                &&& r is Block
                &&& r->Block_tag == 0
                &&& r->fields.len() == 1
                &&& T::encodes(x, r->fields[0])
            },
        }
    }

    open spec fn from_repr(r: Repr) -> Result<Option<T::Model>, FromError> {
        match r {
            Repr::Int(n) => if n == 0 {
                Ok(None)
            } else {
                Err(FromError::NullaryVariantTagOutOfRange { max: 0, actual: n as i64 })
            },
            _ => match check_block(r, 1, 0) {
                Some(e) => Err(e),
                None => match in_field(0, T::from_repr(field_of(r, 0))) {
                    Ok(x) => Ok(Some(x)),
                    Err(e) => Err(e),
                },
            },
        }
    }

    proof fn lemma_round_trip(m: Option<T::Model>, r: Repr) {
        if let Some(x) = m {
            T::lemma_round_trip(x, r->fields[0]);
        }
    }

    fn to_ocamlrep(&self, arena: &mut Arena) -> (r: Value) {
        match self {
            None => Value::from_int(0),
            Some(x) => {
                let c = x.to_ocamlrep(arena);
                let ghost a1 = *arena;
                let mut block = arena.block_with_size(1);
                arena.set_field(&mut block, 0, c);
                let r = arena.build(block);
                proof {
                    assert(block.spec_fields()[0] == c);
                }
                r
            },
        }
    }
}

impl<T: FromOcamlRep> FromOcamlRep for Option<T> {
    fn from_ocamlrep_below(value: Value, arena: &Arena, limit: usize) -> (r: Result<
        Option<T>,
        FromError,
    >) {
        if value.is_int() {
            let n = value.as_int().unwrap();
            if n == 0 {
                Ok(None)
            } else {
                Err(FromError::NullaryVariantTagOutOfRange { max: 0, actual: n })
            }
        } else {
            match expect_block_with_size_and_tag(value, arena, limit, 1, 0) {
                Some(e) => Err(e),
                None => {
                    let c = arena.field(value, limit, 0);
                    let inner = Arena::field_limit(value);
                    match T::from_ocamlrep_below(c, arena, inner) {
                        Ok(x) => Ok(Some(x)),
                        Err(e) => Err(FromError::ErrorInField(0, Box::new(e))),
                    }
                },
            }
        }
    }
}

/// The list `s` is encoded by `r`: cons blocks `{head, tail}` (two fields,
/// tag 0) ending in the immediate 0.
pub open spec fn list_encodes<T: OcamlRep>(s: Seq<T::Model>, r: Repr) -> bool
    decreases s.len(),
{
    if s.len() == 0 {
        r == Repr::Int(0)
    } else {
        &&& r is Block
        &&& r->Block_tag == 0
        &&& r->fields.len() == 2
        &&& T::encodes(s[0], r->fields[0])
        &&& list_encodes::<T>(s.drop_first(), r->fields[1])
    }
}

pub open spec fn list_cost<T: OcamlRep>(s: Seq<T::Model>) -> nat
    decreases s.len(),
{
    if s.len() == 0 {
        0
    } else {
        3 + T::cost(s[0]) + list_cost::<T>(s.drop_first())
    }
}

/// `res` with `acc` put in front of the list it holds.
pub open spec fn prepend<M>(acc: Seq<M>, res: Result<Seq<M>, FromError>) -> Result<Seq<M>, FromError> {
    match res {
        Ok(t) => Ok(acc + t),
        Err(e) => Err(e),
    }
}

/// Reading `r` back as a list: walk the cons blocks, reading each head, and
/// require the immediate 0 at the end.
pub open spec fn list_from_repr<T: OcamlRep>(r: Repr) -> Result<Seq<T::Model>, FromError>
    decreases r,
{
    match r {
        Repr::Int(n) => if n == 0 {
            Ok(Seq::empty())
        } else {
            Err(FromError::ExpectedUnit(n as i64))
        },
        Repr::Block { fields, .. } => match check_tuple(r, 2) {
            Some(e) => Err(e),
            None => match in_field(0, T::from_repr(fields[0])) {
                Err(e) => Err(e),
                Ok(h) => prepend(seq![h], list_from_repr::<T>(fields[1])),
            },
        },
        _ => match check_tuple(r, 2) {
            Some(e) => Err(e),
            None => Err(FromError::ExpectedZeroTag(repr_tag(r))),
        },
    }
}

/// The error, if any, of walking the cons cells of `r` to the immediate 0
/// that ends a list, without reading the heads.
pub open spec fn spine_error(r: Repr) -> Option<FromError>
    decreases r,
{
    match r {
        Repr::Int(n) => if n == 0 {
            None
        } else {
            Some(FromError::ExpectedUnit(n as i64))
        },
        Repr::Block { fields, .. } => match check_tuple(r, 2) {
            Some(e) => Some(e),
            None => spine_error(fields[1]),
        },
        _ => match check_tuple(r, 2) {
            Some(e) => Some(e),
            None => Some(FromError::ExpectedZeroTag(repr_tag(r))),
        },
    }
}

/// Reading `r` back as a list in two passes: first the cons cells and the
/// end of the list, then the heads.
pub open spec fn slice_from_repr<T: OcamlRep>(r: Repr) -> Result<Seq<T::Model>, FromError> {
    match spine_error(r) {
        Some(e) => Err(e),
        None => list_from_repr::<T>(r),
    }
}

/// Relies on `bumpalo::Bump::alloc_slice_fill_iter`: it moves the items of
/// `v` into `bump`, in order, and returns them as a slice that lives as long
/// as `bump`. A `Vec`'s iterator reports its length exactly, so the call
/// aborts only when memory runs out.
#[verifier::external_body]
fn bump_slice<'a, T>(bump: &'a bumpalo::Bump, v: Vec<T>) -> (r: &'a [T])
    ensures
        r@ == v@,
{
    bump.alloc_slice_fill_iter(v)
}

/// Read a list back into a slice owned by `bump`. The cons cells and the end
/// of the list are checked before any head is read.
pub fn slice_from_ocamlrep_in<'a, T: FromOcamlRep>(value: Value, arena: &Arena, bump: &'a bumpalo::Bump) -> (r: Result<&'a [T], FromError>)
    requires
        arena.wf(),
    ensures
        match r {
            Ok(s) => slice_from_repr::<T>(arena.denote_value(value)) == Ok::<Seq<T::Model>, FromError>(models::<T>(s@)),
            Err(e) => slice_from_repr::<T>(arena.denote_value(value)) == Err::<Seq<T::Model>, FromError>(e),
        },
{
    let limit = arena.end_index();
    let ghost whole = spine_error(arena.denote_value(value));
    let mut hd = value;
    let mut hd_limit = limit;
    while !hd.is_int()
        invariant
            arena.wf(),
            whole == spine_error(arena.denote_value(value)),
            whole == spine_error(denote(arena.mem(), hd, hd_limit as int)),
        decreases hd_limit,
    {
        match expect_tuple(hd, arena, hd_limit, 2) {
            Some(e) => {
                return Err(e);
            },
            None => {},
        }
        let next = arena.field(hd, hd_limit, 1);
        hd_limit = Arena::field_limit(hd);
        hd = next;
    }
    let n = hd.as_int().unwrap();
    if n != 0 {
        return Err(FromError::ExpectedUnit(n));
    }
    match Vec::<T>::from_ocamlrep_below(value, arena, limit) {
        Err(e) => Err(e),
        Ok(v) => Ok(bump_slice(bump, v)),
    }
}

proof fn lemma_prepend_assoc<M>(a: Seq<M>, b: Seq<M>, r: Result<Seq<M>, FromError>)
    ensures
        prepend(a, prepend(b, r)) == prepend(a + b, r),
{
    if let Ok(t) = r {
        assert(a + (b + t) =~= (a + b) + t);
    }
}

/// The models of the elements of `s`.
pub open spec fn models<T: OcamlRep>(s: Seq<T>) -> Seq<T::Model> {
    s.map_values(|x: T| x.model())
}

proof fn lemma_list_round_trip<T: OcamlRep>(s: Seq<T::Model>, r: Repr)
    requires
        forall|i: int| 0 <= i < s.len() ==> T::faithful(#[trigger] s[i]),
        list_encodes::<T>(s, r),
    ensures
        list_from_repr::<T>(r) == Ok::<Seq<T::Model>, FromError>(s),
    decreases s.len(),
{
    if s.len() > 0 {
        T::lemma_round_trip(s[0], r->fields[0]);
        assert forall|i: int| 0 <= i < s.drop_first().len() implies T::faithful(
            #[trigger] s.drop_first()[i],
        ) by {
            assert(s.drop_first()[i] == s[i + 1]);
        }
        lemma_list_round_trip::<T>(s.drop_first(), r->fields[1]);
        assert(seq![s[0]] + s.drop_first() =~= s);
    } else {
        assert(s =~= Seq::<T::Model>::empty());
    }
}

proof fn lemma_list_cost_suffix<T: OcamlRep>(s: Seq<T::Model>, i: int)
    requires
        0 <= i <= s.len(),
    ensures
        list_cost::<T>(s.subrange(i, s.len() as int)) <= list_cost::<T>(s),
    decreases i,
{
    if i > 0 {
        lemma_list_cost_suffix::<T>(s, i - 1);
        let t = s.subrange(i - 1, s.len() as int);
        assert(t.drop_first() =~= s.subrange(i, s.len() as int));
    } else {
        assert(s.subrange(0, s.len() as int) =~= s);
    }
}

impl<T: OcamlRep> OcamlRep for Vec<T> {
    type Model = Seq<T::Model>;

    open spec fn model(&self) -> Seq<T::Model> {
        models::<T>(self@)
    }

    open spec fn encodable(m: Seq<T::Model>) -> bool {
        forall|i: int| 0 <= i < m.len() ==> T::encodable(#[trigger] m[i])
    }

    open spec fn faithful(m: Seq<T::Model>) -> bool {
        forall|i: int| 0 <= i < m.len() ==> T::faithful(#[trigger] m[i])
    }

    open spec fn cost(m: Seq<T::Model>) -> nat {
        list_cost::<T>(m)
    }

    open spec fn encodes(m: Seq<T::Model>, r: Repr) -> bool {
        list_encodes::<T>(m, r)
    }

    open spec fn from_repr(r: Repr) -> Result<Seq<T::Model>, FromError> {
        list_from_repr::<T>(r)
    }

    proof fn lemma_round_trip(m: Seq<T::Model>, r: Repr) {
        lemma_list_round_trip::<T>(m, r);
    }

    /// Fold from the right, consing each encoded element onto the list.
    #[verifier::spinoff_prover]
    fn to_ocamlrep(&self, arena: &mut Arena) -> (r: Value) {
        let ghost m = self.model();
        let ghost a0 = *arena;
        let n = self.len();
        let mut hd = Value::from_int(0);
        let mut i = n;
        proof {
            assert(m.subrange(n as int, n as int) =~= Seq::<T::Model>::empty());
        }
        while i > 0
            invariant
                n == self@.len(),
                m == self.model(),
                i <= n,
                Self::encodable(m),
                a0.wf(),
                a0.has_room(list_cost::<T>(m)),
                arena.wf(),
                arena.extends(&a0),
                arena.used() <= a0.used() + list_cost::<T>(m.subrange(i as int, n as int)),
                !(arena.denote_value(hd) is Foreign),
                list_encodes::<T>(m.subrange(i as int, n as int), arena.denote_value(hd)),
            decreases i,
        {
            let ghost a1 = *arena;
            let ghost tail = m.subrange(i as int, n as int);
            let ghost whole = m.subrange(i - 1, n as int);
            proof {
                assert(whole.drop_first() =~= tail);
                assert(whole[0] == m[i - 1]);
                lemma_list_cost_suffix::<T>(m, i - 1);
                assert(T::encodable(m[i - 1]));
            }
            let c = self[i - 1].to_ocamlrep(arena);
            let ghost a2 = *arena;
            proof {
                lemma_extends_denote(&a1, &a2, hd);
            }
            let mut block = arena.block_with_size(2);
            arena.set_field(&mut block, 0, c);
            arena.set_field(&mut block, 1, hd);
            let cell = arena.build(block);
            proof {
                assert(block.spec_fields()[0] == c);
                assert(block.spec_fields()[1] == hd);
                assert(list_encodes::<T>(whole, arena.denote_value(cell)));
            }
            hd = cell;
            i = i - 1;
        }
        proof {
            assert(m.subrange(0, n as int) =~= m);
        }
        hd
    }
}

impl<T: FromOcamlRep> FromOcamlRep for Vec<T> {
    #[verifier::spinoff_prover]
    fn from_ocamlrep_below(value: Value, arena: &Arena, limit: usize) -> (r: Result<Vec<T>, FromError>) {
        let ghost whole = list_from_repr::<T>(denote(arena.mem(), value, limit as int));
        let mut out: Vec<T> = Vec::new();
        let mut hd = value;
        let mut hd_limit = limit;
        while !hd.is_int()
            invariant
                arena.wf(),
                whole == list_from_repr::<T>(denote(arena.mem(), value, limit as int)),
                whole == prepend(models::<T>(out@), list_from_repr::<T>(denote(arena.mem(), hd, hd_limit as int))),
            decreases hd_limit,
        {
            match expect_tuple(hd, arena, hd_limit, 2) {
                Some(e) => {
                    proof {
                        let d = denote(arena.mem(), hd, hd_limit as int);
                        assert(!(d is Int));
                        assert(list_from_repr::<T>(d) == Err::<Seq<T::Model>, FromError>(e));
                        assert(whole == Err::<Seq<T::Model>, FromError>(e));
                    }
                    return Err(e);
                },
                None => {},
            }
            let c = arena.field(hd, hd_limit, 0);
            let next = arena.field(hd, hd_limit, 1);
            let inner = Arena::field_limit(hd);
            let ghost d = denote(arena.mem(), hd, hd_limit as int);
            match T::from_ocamlrep_below(c, arena, inner) {
                Ok(x) => {
                    let ghost before = models::<T>(out@);
                    out.push(x);
                    proof {
                        assert(models::<T>(out@) =~= before + seq![x.model()]);
                        lemma_prepend_assoc(before, seq![x.model()], list_from_repr::<T>(d->fields[1]));
                    }
                },
                Err(e) => {
                    proof {
                        assert(in_field(0, T::from_repr(d->fields[0])) == Err::<T::Model, FromError>(
                            FromError::ErrorInField(0, Box::new(e)),
                        ));
                        assert(whole == Err::<Seq<T::Model>, FromError>(FromError::ErrorInField(0, Box::new(e))));
                    }
                    return Err(FromError::ErrorInField(0, Box::new(e)));
                },
            }
            hd = next;
            hd_limit = inner;
        }
        let n = hd.as_int().unwrap();
        if n != 0 {
            return Err(FromError::ExpectedUnit(n));
        }
        proof {
            assert(models::<T>(out@) + Seq::<T::Model>::empty() =~= models::<T>(out@));
        }
        Ok(out)
    }
}

impl OcamlRep for isize {
    type Model = isize;

    open spec fn model(&self) -> isize {
        *self
    }

    open spec fn encodable(m: isize) -> bool {
        true
    }

    open spec fn faithful(m: isize) -> bool {
        in_immediate_range(m as int)
    }

    open spec fn cost(m: isize) -> nat {
        0
    }

    open spec fn encodes(m: isize, r: Repr) -> bool {
        r == Repr::Int(wrap_immediate(m as int))
    }

    open spec fn from_repr(r: Repr) -> Result<isize, FromError> {
        match int_of(r) {
            Err(e) => Err(e),
            Ok(n) => if isize::MIN <= n <= isize::MAX {
                Ok(n as isize)
            } else {
                Err(FromError::IntOutOfRange(arbitrary()))
            },
        }
    }

    proof fn lemma_round_trip(m: isize, r: Repr) {
        crate::value::lemma_wrap_in_range(m as int);
    }

    fn to_ocamlrep(&self, arena: &mut Arena) -> (r: Value) {
        Value::from_int(*self as i64)
    }
}

impl FromOcamlRep for isize {
    fn from_ocamlrep_below(value: Value, arena: &Arena, limit: usize) -> (r: Result<isize, FromError>) {
        match expect_int(value, arena, limit) {
            Err(e) => Err(e),
            Ok(n) => match isize::try_from(n) {
                Ok(x) => Ok(x),
                Err(e) => Err(FromError::IntOutOfRange(e)),
            },
        }
    }
}

impl<A: OcamlRep, B: OcamlRep> OcamlRep for (A, B) {
    type Model = (A::Model, B::Model);

    open spec fn model(&self) -> (A::Model, B::Model) {
        (self.0.model(), self.1.model())
    }

    open spec fn encodable(m: (A::Model, B::Model)) -> bool {
        A::encodable(m.0) && B::encodable(m.1)
    }

    open spec fn faithful(m: (A::Model, B::Model)) -> bool {
        A::faithful(m.0) && B::faithful(m.1)
    }

    open spec fn cost(m: (A::Model, B::Model)) -> nat {
        3 + A::cost(m.0) + B::cost(m.1)
    }

    /// A block of two fields, tag 0.
    open spec fn encodes(m: (A::Model, B::Model), r: Repr) -> bool {
        &&& r is Block
        &&& r->Block_tag == 0
        &&& r->fields.len() == 2
        &&& A::encodes(m.0, r->fields[0])
        &&& B::encodes(m.1, r->fields[1])
    }

    open spec fn from_repr(r: Repr) -> Result<(A::Model, B::Model), FromError> {
        match check_tuple(r, 2) {
            Some(e) => Err(e),
            None => match in_field(0, A::from_repr(field_of(r, 0))) {
                Err(e) => Err(e),
                Ok(x) => match in_field(1, B::from_repr(field_of(r, 1))) {
                    Err(e) => Err(e),
                    Ok(y) => Ok((x, y)),
                },
            },
        }
    }

    proof fn lemma_round_trip(m: (A::Model, B::Model), r: Repr) {
        A::lemma_round_trip(m.0, r->fields[0]);
        B::lemma_round_trip(m.1, r->fields[1]);
    }

    fn to_ocamlrep(&self, arena: &mut Arena) -> (r: Value) {
        let ghost a0 = *arena;
        let c0 = self.0.to_ocamlrep(arena);
        let ghost a1 = *arena;
        let c1 = self.1.to_ocamlrep(arena);
        let ghost a2 = *arena;
        proof {
            lemma_extends_denote(&a1, &a2, c0);
        }
        let mut block = arena.block_with_size(2);
        arena.set_field(&mut block, 0, c0);
        arena.set_field(&mut block, 1, c1);
        let r = arena.build(block);
        proof {
            assert(block.spec_fields()[0] == c0);
            assert(block.spec_fields()[1] == c1);
        }
        r
    }
}

impl<A: FromOcamlRep, B: FromOcamlRep> FromOcamlRep for (A, B) {
    fn from_ocamlrep_below(value: Value, arena: &Arena, limit: usize) -> (r: Result<(A, B), FromError>) {
        match expect_tuple(value, arena, limit, 2) {
            Some(e) => Err(e),
            None => {
                let inner = Arena::field_limit(value);
                let c0 = arena.field(value, limit, 0);
                let c1 = arena.field(value, limit, 1);
                match A::from_ocamlrep_below(c0, arena, inner) {
                    Err(e) => Err(FromError::ErrorInField(0, Box::new(e))),
                    Ok(x) => match B::from_ocamlrep_below(c1, arena, inner) {
                        Err(e) => Err(FromError::ErrorInField(1, Box::new(e))),
                        Ok(y) => Ok((x, y)),
                    },
                }
            },
        }
    }
}

/// Reading `r` back as a result: a block of one field, tag 0 for `Ok` and 1
/// for `Err`.
pub open spec fn result_from_repr<T: OcamlRep, E: OcamlRep>(r: Repr) -> Result<
    Result<T::Model, E::Model>,
    FromError,
> {
    match r {
        Repr::Int(n) => Err(FromError::ExpectedBlock(n as i64)),
        Repr::Foreign(b) => Err(FromError::ExpectedInt(b)),
        _ => if repr_tag(r) > 1 {
            Err(FromError::BlockTagOutOfRange { max: 1, actual: repr_tag(r) })
        } else if repr_size(r) != 1 {
            Err(FromError::WrongBlockSize { expected: 1, actual: repr_size(r) as usize })
        } else if repr_tag(r) == 0 {
            match in_field(0, T::from_repr(field_of(r, 0))) {
                Err(e) => Err(e),
                Ok(x) => Ok(Ok(x)),
            }
        } else {
            match in_field(0, E::from_repr(field_of(r, 0))) {
                Err(e) => Err(e),
                Ok(y) => Ok(Err(y)),
            }
        },
    }
}

impl<T: OcamlRep, E: OcamlRep> OcamlRep for Result<T, E> {
    type Model = Result<T::Model, E::Model>;

    open spec fn model(&self) -> Result<T::Model, E::Model> {
        match self {
            Ok(x) => Ok(x.model()),
            Err(y) => Err(y.model()),
        }
    }

    open spec fn encodable(m: Result<T::Model, E::Model>) -> bool {
        match m {
            Ok(x) => T::encodable(x),
            Err(y) => E::encodable(y),
        }
    }

    open spec fn faithful(m: Result<T::Model, E::Model>) -> bool {
        match m {
            Ok(x) => T::faithful(x),
            Err(y) => E::faithful(y),
        }
    }

    open spec fn cost(m: Result<T::Model, E::Model>) -> nat {
        match m {
            Ok(x) => 2 + T::cost(x),
            Err(y) => 2 + E::cost(y),
        }
    }

    /// A block of one field, tag 0 for `Ok` and 1 for `Err`.
    open spec fn encodes(m: Result<T::Model, E::Model>, r: Repr) -> bool {
        &&& r is Block
        &&& r->fields.len() == 1
        &&& match m {
            Ok(x) => r->Block_tag == 0 && T::encodes(x, r->fields[0]),
            Err(y) => r->Block_tag == 1 && E::encodes(y, r->fields[0]),
        }
    }

    open spec fn from_repr(r: Repr) -> Result<Result<T::Model, E::Model>, FromError> {
        result_from_repr::<T, E>(r)
    }

    proof fn lemma_round_trip(m: Result<T::Model, E::Model>, r: Repr) {
        match m {
            Ok(x) => T::lemma_round_trip(x, r->fields[0]),
            Err(y) => E::lemma_round_trip(y, r->fields[0]),
        }
    }

    fn to_ocamlrep(&self, arena: &mut Arena) -> (r: Value) {
        match self {
            Ok(x) => {
                let c = x.to_ocamlrep(arena);
                let mut block = arena.block_with_size(1);
                arena.set_field(&mut block, 0, c);
                let r = arena.build(block);
                proof {
                    assert(block.spec_fields()[0] == c);
                }
                r
            },
            Err(y) => {
                let c = y.to_ocamlrep(arena);
                let mut block = arena.block_with_size_and_tag(1, 1);
                arena.set_field(&mut block, 0, c);
                let r = arena.build(block);
                proof {
                    assert(block.spec_fields()[0] == c);
                }
                r
            },
        }
    }
}

impl<T: FromOcamlRep, E: FromOcamlRep> FromOcamlRep for Result<T, E> {
    fn from_ocamlrep_below(value: Value, arena: &Arena, limit: usize) -> (r: Result<Result<T, E>, FromError>) {
        if value.is_int() {
            return Err(FromError::ExpectedBlock(value.as_int().unwrap()));
        }
        if !arena.fits_below(value, limit) {
            return Err(FromError::ExpectedInt(value.0));
        }
        let (size, tag) = arena.block_header(value, limit);
        if tag > 1 {
            return Err(FromError::BlockTagOutOfRange { max: 1, actual: tag });
        }
        if size != 1 {
            return Err(FromError::WrongBlockSize { expected: 1, actual: size });
        }
        let inner = Arena::field_limit(value);
        let c = arena.field(value, limit, 0);
        if tag == 0 {
            match T::from_ocamlrep_below(c, arena, inner) {
                Err(e) => Err(FromError::ErrorInField(0, Box::new(e))),
                Ok(x) => Ok(Ok(x)),
            }
        } else {
            match E::from_ocamlrep_below(c, arena, inner) {
                Err(e) => Err(FromError::ErrorInField(0, Box::new(e))),
                Ok(y) => Ok(Err(y)),
            }
        }
    }
}

/// An integer in the range [-2^62, 2^62), which converts to the foreign
/// runtime's immediate integer without changing its value.
#[derive(PartialEq, Eq, PartialOrd, Ord, Debug)]
pub struct OCamlInt(i64);

impl OCamlInt {
    #[verifier::type_invariant]
    spec fn inv(&self) -> bool {
        in_immediate_range(self.0 as int)
    }

    pub closed spec fn spec_value(&self) -> i64 {
        self.0
    }

    /// The integer `i`, or `Expected63BitInt` when its two most significant
    /// bits differ (it lies outside [-2^62, 2^62)).
    pub fn try_new(i: i64) -> (r: Result<OCamlInt, FromError>)
        ensures
            in_immediate_range(i as int) ==> (r matches Ok(x) && x.spec_value() == i),
            !in_immediate_range(i as int) ==> r == Err::<OCamlInt, FromError>(FromError::Expected63BitInt(i)),
    {
        if -0x4000_0000_0000_0000 <= i && i < 0x4000_0000_0000_0000 {
            Ok(OCamlInt(i))
        } else {
            Err(FromError::Expected63BitInt(i))
        }
    }

    /// `i` with its most significant bit replaced by the next one, which
    /// brings it into range and keeps the order of values within it.
    pub fn new_erase_msb(i: i64) -> (r: OCamlInt)
        ensures
            r.spec_value() == wrap_immediate(i as int),
    {
        let v = Value::from_int(i).as_int().unwrap();
        OCamlInt(v)
    }

    pub fn get(&self) -> (r: i64)
        ensures
            r == self.spec_value(),
            in_immediate_range(r as int),
    {
        proof {
            use_type_invariant(self);
        }
        self.0
    }
}

impl OcamlRep for OCamlInt {
    type Model = i64;

    open spec fn model(&self) -> i64 {
        self.spec_value()
    }

    open spec fn encodable(m: i64) -> bool {
        true
    }

    open spec fn faithful(m: i64) -> bool {
        true
    }

    open spec fn cost(m: i64) -> nat {
        0
    }

    open spec fn encodes(m: i64, r: Repr) -> bool {
        r == Repr::Int(m as int)
    }

    open spec fn from_repr(r: Repr) -> Result<i64, FromError> {
        match int_of(r) {
            Err(e) => Err(e),
            Ok(n) => Ok(n as i64),
        }
    }

    proof fn lemma_round_trip(m: i64, r: Repr) {
    }

    fn to_ocamlrep(&self, arena: &mut Arena) -> (r: Value) {
        let i = self.get();
        proof {
            crate::value::lemma_wrap_in_range(i as int);
        }
        Value::from_int(i)
    }
}

impl FromOcamlRep for OCamlInt {
    fn from_ocamlrep_below(value: Value, arena: &Arena, limit: usize) -> (r: Result<OCamlInt, FromError>) {
        if value.is_int() {
            let n = value.as_int().unwrap();
            Ok(OCamlInt(n))
        } else {
            Err(FromError::ExpectedInt(value.0))
        }
    }
}

impl<'r, T: OcamlRep> OcamlRep for &'r T {
    type Model = T::Model;

    open spec fn model(&self) -> T::Model {
        (**self).model()
    }

    open spec fn encodable(m: T::Model) -> bool {
        T::encodable(m)
    }

    open spec fn faithful(m: T::Model) -> bool {
        T::faithful(m)
    }

    open spec fn cost(m: T::Model) -> nat {
        T::cost(m)
    }

    /// A reference is encoded as what it refers to.
    open spec fn encodes(m: T::Model, r: Repr) -> bool {
        T::encodes(m, r)
    }

    open spec fn from_repr(r: Repr) -> Result<T::Model, FromError> {
        T::from_repr(r)
    }

    proof fn lemma_round_trip(m: T::Model, r: Repr) {
        T::lemma_round_trip(m, r);
    }

    fn to_ocamlrep(&self, arena: &mut Arena) -> (r: Value) {
        (**self).to_ocamlrep(arena)
    }
}

impl<T: OcamlRep> OcamlRep for Box<T> {
    type Model = T::Model;

    open spec fn model(&self) -> T::Model {
        (**self).model()
    }

    open spec fn encodable(m: T::Model) -> bool {
        T::encodable(m)
    }

    open spec fn faithful(m: T::Model) -> bool {
        T::faithful(m)
    }

    open spec fn cost(m: T::Model) -> nat {
        T::cost(m)
    }

    /// A box is encoded as what it holds.
    open spec fn encodes(m: T::Model, r: Repr) -> bool {
        T::encodes(m, r)
    }

    open spec fn from_repr(r: Repr) -> Result<T::Model, FromError> {
        T::from_repr(r)
    }

    proof fn lemma_round_trip(m: T::Model, r: Repr) {
        T::lemma_round_trip(m, r);
    }

    fn to_ocamlrep(&self, arena: &mut Arena) -> (r: Value) {
        (**self).to_ocamlrep(arena)
    }
}

impl<T: FromOcamlRep> FromOcamlRep for Box<T> {
    fn from_ocamlrep_below(value: Value, arena: &Arena, limit: usize) -> (r: Result<Box<T>, FromError>) {
        match T::from_ocamlrep_below(value, arena, limit) {
            Ok(x) => Ok(Box::new(x)),
            Err(e) => Err(e),
        }
    }
}

impl<T: OcamlRep> OcamlRep for std::rc::Rc<T> {
    type Model = T::Model;

    open spec fn model(&self) -> T::Model {
        (**self).model()
    }

    open spec fn encodable(m: T::Model) -> bool {
        T::encodable(m)
    }

    open spec fn faithful(m: T::Model) -> bool {
        T::faithful(m)
    }

    open spec fn cost(m: T::Model) -> nat {
        T::cost(m)
    }

    /// An `Rc` is encoded as what it holds; values reached through several
    /// `Rc`s are shared only through `Arena::memoized`.
    open spec fn encodes(m: T::Model, r: Repr) -> bool {
        T::encodes(m, r)
    }

    open spec fn from_repr(r: Repr) -> Result<T::Model, FromError> {
        T::from_repr(r)
    }

    proof fn lemma_round_trip(m: T::Model, r: Repr) {
        T::lemma_round_trip(m, r);
    }

    fn to_ocamlrep(&self, arena: &mut Arena) -> (r: Value) {
        (**self).to_ocamlrep(arena)
    }
}

impl<T: FromOcamlRep> FromOcamlRep for std::rc::Rc<T> {
    fn from_ocamlrep_below(value: Value, arena: &Arena, limit: usize) -> (r: Result<std::rc::Rc<T>, FromError>) {
        match T::from_ocamlrep_below(value, arena, limit) {
            Ok(x) => Ok(std::rc::Rc::new(x)),
            Err(e) => Err(e),
        }
    }
}

impl<T: OcamlRep> OcamlRep for std::sync::Arc<T> {
    type Model = T::Model;

    open spec fn model(&self) -> T::Model {
        (**self).model()
    }

    open spec fn encodable(m: T::Model) -> bool {
        T::encodable(m)
    }

    open spec fn faithful(m: T::Model) -> bool {
        T::faithful(m)
    }

    open spec fn cost(m: T::Model) -> nat {
        T::cost(m)
    }

    /// An `Arc` is encoded as what it holds; values reached through several
    /// `Arc`s are shared only through `Arena::memoized`.
    open spec fn encodes(m: T::Model, r: Repr) -> bool {
        T::encodes(m, r)
    }

    open spec fn from_repr(r: Repr) -> Result<T::Model, FromError> {
        T::from_repr(r)
    }

    proof fn lemma_round_trip(m: T::Model, r: Repr) {
        T::lemma_round_trip(m, r);
    }

    fn to_ocamlrep(&self, arena: &mut Arena) -> (r: Value) {
        (**self).to_ocamlrep(arena)
    }
}

impl<T: FromOcamlRep> FromOcamlRep for std::sync::Arc<T> {
    fn from_ocamlrep_below(value: Value, arena: &Arena, limit: usize) -> (r: Result<std::sync::Arc<T>, FromError>) {
        match T::from_ocamlrep_below(value, arena, limit) {
            Ok(x) => Ok(std::sync::Arc::new(x)),
            Err(e) => Err(e),
        }
    }
}

impl OcamlRep for i32 {
    type Model = i32;

    open spec fn model(&self) -> i32 {
        *self
    }

    open spec fn encodable(m: i32) -> bool {
        true
    }

    open spec fn faithful(m: i32) -> bool {
        in_immediate_range(m as int)
    }

    open spec fn cost(m: i32) -> nat {
        0
    }

    open spec fn encodes(m: i32, r: Repr) -> bool {
        r == Repr::Int(wrap_immediate(m as int))
    }

    open spec fn from_repr(r: Repr) -> Result<i32, FromError> {
        match int_of(r) {
            Err(e) => Err(e),
            Ok(n) => if i32::MIN <= n <= i32::MAX {
                Ok(n as i32)
            } else {
                Err(FromError::IntOutOfRange(arbitrary()))
            },
        }
    }

    proof fn lemma_round_trip(m: i32, r: Repr) {
        crate::value::lemma_wrap_in_range(m as int);
    }

    fn to_ocamlrep(&self, arena: &mut Arena) -> (r: Value) {
        Value::from_int(*self as i64)
    }
}

impl FromOcamlRep for i32 {
    fn from_ocamlrep_below(value: Value, arena: &Arena, limit: usize) -> (r: Result<i32, FromError>) {
        match expect_int(value, arena, limit) {
            Err(e) => Err(e),
            Ok(n) => match i32::try_from(n) {
                Ok(x) => Ok(x),
                Err(e) => Err(FromError::IntOutOfRange(e)),
            },
        }
    }
}

impl OcamlRep for u32 {
    type Model = u32;

    open spec fn model(&self) -> u32 {
        *self
    }

    open spec fn encodable(m: u32) -> bool {
        true
    }

    open spec fn faithful(m: u32) -> bool {
        in_immediate_range(m as int)
    }

    open spec fn cost(m: u32) -> nat {
        0
    }

    open spec fn encodes(m: u32, r: Repr) -> bool {
        r == Repr::Int(wrap_immediate(m as int))
    }

    open spec fn from_repr(r: Repr) -> Result<u32, FromError> {
        match int_of(r) {
            Err(e) => Err(e),
            Ok(n) => if u32::MIN <= n <= u32::MAX {
                Ok(n as u32)
            } else {
                Err(FromError::IntOutOfRange(arbitrary()))
            },
        }
    }

    proof fn lemma_round_trip(m: u32, r: Repr) {
        crate::value::lemma_wrap_in_range(m as int);
    }

    fn to_ocamlrep(&self, arena: &mut Arena) -> (r: Value) {
        Value::from_int(*self as i64)
    }
}

impl FromOcamlRep for u32 {
    fn from_ocamlrep_below(value: Value, arena: &Arena, limit: usize) -> (r: Result<u32, FromError>) {
        match expect_int(value, arena, limit) {
            Err(e) => Err(e),
            Ok(n) => match u32::try_from(n) {
                Ok(x) => Ok(x),
                Err(e) => Err(FromError::IntOutOfRange(e)),
            },
        }
    }
}

impl OcamlRep for usize {
    type Model = usize;

    open spec fn model(&self) -> usize {
        *self
    }

    /// Only values up to `i64::MAX` can be encoded.
    open spec fn encodable(m: usize) -> bool {
        m as int <= i64::MAX
    }

    open spec fn faithful(m: usize) -> bool {
        in_immediate_range(m as int)
    }

    open spec fn cost(m: usize) -> nat {
        0
    }

    open spec fn encodes(m: usize, r: Repr) -> bool {
        r == Repr::Int(wrap_immediate(m as int))
    }

    open spec fn from_repr(r: Repr) -> Result<usize, FromError> {
        match int_of(r) {
            Err(e) => Err(e),
            Ok(n) => if usize::MIN <= n <= usize::MAX {
                Ok(n as usize)
            } else {
                Err(FromError::IntOutOfRange(arbitrary()))
            },
        }
    }

    proof fn lemma_round_trip(m: usize, r: Repr) {
        crate::value::lemma_wrap_in_range(m as int);
    }

    fn to_ocamlrep(&self, arena: &mut Arena) -> (r: Value) {
        Value::from_int(*self as i64)
    }
}

impl FromOcamlRep for usize {
    fn from_ocamlrep_below(value: Value, arena: &Arena, limit: usize) -> (r: Result<usize, FromError>) {
        match expect_int(value, arena, limit) {
            Err(e) => Err(e),
            Ok(n) => match usize::try_from(n) {
                Ok(x) => Ok(x),
                Err(e) => Err(FromError::IntOutOfRange(e)),
            },
        }
    }
}

impl OcamlRep for u64 {
    type Model = u64;

    open spec fn model(&self) -> u64 {
        *self
    }

    /// Only values up to `i64::MAX` can be encoded.
    open spec fn encodable(m: u64) -> bool {
        m as int <= i64::MAX
    }

    open spec fn faithful(m: u64) -> bool {
        in_immediate_range(m as int)
    }

    open spec fn cost(m: u64) -> nat {
        0
    }

    open spec fn encodes(m: u64, r: Repr) -> bool {
        r == Repr::Int(wrap_immediate(m as int))
    }

    open spec fn from_repr(r: Repr) -> Result<u64, FromError> {
        match int_of(r) {
            Err(e) => Err(e),
            Ok(n) => if u64::MIN <= n <= u64::MAX {
                Ok(n as u64)
            } else {
                Err(FromError::IntOutOfRange(arbitrary()))
            },
        }
    }

    proof fn lemma_round_trip(m: u64, r: Repr) {
        crate::value::lemma_wrap_in_range(m as int);
    }

    fn to_ocamlrep(&self, arena: &mut Arena) -> (r: Value) {
        Value::from_int(*self as i64)
    }
}

impl FromOcamlRep for u64 {
    fn from_ocamlrep_below(value: Value, arena: &Arena, limit: usize) -> (r: Result<u64, FromError>) {
        match expect_int(value, arena, limit) {
            Err(e) => Err(e),
            Ok(n) => match u64::try_from(n) {
                Ok(x) => Ok(x),
                Err(e) => Err(FromError::IntOutOfRange(e)),
            },
        }
    }
}

impl<A: OcamlRep, B: OcamlRep, C: OcamlRep> OcamlRep for (A, B, C) {
    type Model = (A::Model, B::Model, C::Model);

    open spec fn model(&self) -> (A::Model, B::Model, C::Model) {
        (self.0.model(), self.1.model(), self.2.model())
    }

    open spec fn encodable(m: (A::Model, B::Model, C::Model)) -> bool {
        A::encodable(m.0) && B::encodable(m.1) && C::encodable(m.2)
    }

    open spec fn faithful(m: (A::Model, B::Model, C::Model)) -> bool {
        A::faithful(m.0) && B::faithful(m.1) && C::faithful(m.2)
    }

    open spec fn cost(m: (A::Model, B::Model, C::Model)) -> nat {
        4 + A::cost(m.0) + B::cost(m.1) + C::cost(m.2)
    }

    /// A block of 3 fields, tag 0.
    open spec fn encodes(m: (A::Model, B::Model, C::Model), r: Repr) -> bool {
        &&& r is Block
        &&& r->Block_tag == 0
        &&& r->fields.len() == 3
        &&& A::encodes(m.0, r->fields[0])
        &&& B::encodes(m.1, r->fields[1])
        &&& C::encodes(m.2, r->fields[2])
    }

    open spec fn from_repr(r: Repr) -> Result<(A::Model, B::Model, C::Model), FromError> {
        match check_tuple(r, 3) {
            Some(e) => Err(e),
            None => match in_field(0, A::from_repr(field_of(r, 0))) {
                Err(e) => Err(e),
                Ok(x0) => match in_field(1, B::from_repr(field_of(r, 1))) {
                Err(e) => Err(e),
                Ok(x1) => match in_field(2, C::from_repr(field_of(r, 2))) {
                Err(e) => Err(e),
                Ok(x2) => Ok((x0, x1, x2)),
            },
            },
            },
        }
    }

    proof fn lemma_round_trip(m: (A::Model, B::Model, C::Model), r: Repr) {
        A::lemma_round_trip(m.0, r->fields[0]);
        B::lemma_round_trip(m.1, r->fields[1]);
        C::lemma_round_trip(m.2, r->fields[2]);
    }

    #[verifier::spinoff_prover]
    #[verifier::rlimit(50)]
    fn to_ocamlrep(&self, arena: &mut Arena) -> (r: Value) {
        let ghost a0 = *arena;
        let c0 = self.0.to_ocamlrep(arena);
        let ghost a1 = *arena;
        let c1 = self.1.to_ocamlrep(arena);
        let ghost a2 = *arena;
        let c2 = self.2.to_ocamlrep(arena);
        let ghost a3 = *arena;
        proof {
            lemma_extends_denote(&a1, &a3, c0);
            lemma_extends_denote(&a2, &a3, c1);
        }
        let mut block = arena.block_with_size(3);
        arena.set_field(&mut block, 0, c0);
        arena.set_field(&mut block, 1, c1);
        arena.set_field(&mut block, 2, c2);
        let r = arena.build(block);
        proof {
            assert(block.spec_fields()[0] == c0);
            assert(block.spec_fields()[1] == c1);
            assert(block.spec_fields()[2] == c2);
        }
        r
    }
}

impl<A: FromOcamlRep, B: FromOcamlRep, C: FromOcamlRep> FromOcamlRep for (A, B, C) {
    #[verifier::spinoff_prover]
    fn from_ocamlrep_below(value: Value, arena: &Arena, limit: usize) -> (r: Result<(A, B, C), FromError>) {
        match expect_tuple(value, arena, limit, 3) {
            Some(e) => Err(e),
            None => {
                let inner = Arena::field_limit(value);
                let c0 = arena.field(value, limit, 0);
                let c1 = arena.field(value, limit, 1);
                let c2 = arena.field(value, limit, 2);
                match A::from_ocamlrep_below(c0, arena, inner) {
                    Err(e) => Err(FromError::ErrorInField(0, Box::new(e))),
                    Ok(x0) => match B::from_ocamlrep_below(c1, arena, inner) {
                    Err(e) => Err(FromError::ErrorInField(1, Box::new(e))),
                    Ok(x1) => match C::from_ocamlrep_below(c2, arena, inner) {
                    Err(e) => Err(FromError::ErrorInField(2, Box::new(e))),
                    Ok(x2) => Ok((x0, x1, x2)),
                },
                },
                }
            },
        }
    }
}

impl<A: OcamlRep, B: OcamlRep, C: OcamlRep, D: OcamlRep> OcamlRep for (A, B, C, D) {
    type Model = (A::Model, B::Model, C::Model, D::Model);

    open spec fn model(&self) -> (A::Model, B::Model, C::Model, D::Model) {
        (self.0.model(), self.1.model(), self.2.model(), self.3.model())
    }

    open spec fn encodable(m: (A::Model, B::Model, C::Model, D::Model)) -> bool {
        A::encodable(m.0) && B::encodable(m.1) && C::encodable(m.2) && D::encodable(m.3)
    }

    open spec fn faithful(m: (A::Model, B::Model, C::Model, D::Model)) -> bool {
        A::faithful(m.0) && B::faithful(m.1) && C::faithful(m.2) && D::faithful(m.3)
    }

    open spec fn cost(m: (A::Model, B::Model, C::Model, D::Model)) -> nat {
        5 + A::cost(m.0) + B::cost(m.1) + C::cost(m.2) + D::cost(m.3)
    }

    /// A block of 4 fields, tag 0.
    open spec fn encodes(m: (A::Model, B::Model, C::Model, D::Model), r: Repr) -> bool {
        &&& r is Block
        &&& r->Block_tag == 0
        &&& r->fields.len() == 4
        &&& A::encodes(m.0, r->fields[0])
        &&& B::encodes(m.1, r->fields[1])
        &&& C::encodes(m.2, r->fields[2])
        &&& D::encodes(m.3, r->fields[3])
    }

    open spec fn from_repr(r: Repr) -> Result<(A::Model, B::Model, C::Model, D::Model), FromError> {
        match check_tuple(r, 4) {
            Some(e) => Err(e),
            None => match in_field(0, A::from_repr(field_of(r, 0))) {
                Err(e) => Err(e),
                Ok(x0) => match in_field(1, B::from_repr(field_of(r, 1))) {
                Err(e) => Err(e),
                Ok(x1) => match in_field(2, C::from_repr(field_of(r, 2))) {
                Err(e) => Err(e),
                Ok(x2) => match in_field(3, D::from_repr(field_of(r, 3))) {
                Err(e) => Err(e),
                Ok(x3) => Ok((x0, x1, x2, x3)),
            },
            },
            },
            },
        }
    }

    proof fn lemma_round_trip(m: (A::Model, B::Model, C::Model, D::Model), r: Repr) {
        A::lemma_round_trip(m.0, r->fields[0]);
        B::lemma_round_trip(m.1, r->fields[1]);
        C::lemma_round_trip(m.2, r->fields[2]);
        D::lemma_round_trip(m.3, r->fields[3]);
    }

    #[verifier::spinoff_prover]
    #[verifier::rlimit(50)]
    fn to_ocamlrep(&self, arena: &mut Arena) -> (r: Value) {
        let ghost a0 = *arena;
        let c0 = self.0.to_ocamlrep(arena);
        let ghost a1 = *arena;
        let c1 = self.1.to_ocamlrep(arena);
        let ghost a2 = *arena;
        let c2 = self.2.to_ocamlrep(arena);
        let ghost a3 = *arena;
        let c3 = self.3.to_ocamlrep(arena);
        let ghost a4 = *arena;
        proof {
            lemma_extends_denote(&a1, &a4, c0);
            lemma_extends_denote(&a2, &a4, c1);
            lemma_extends_denote(&a3, &a4, c2);
        }
        let mut block = arena.block_with_size(4);
        arena.set_field(&mut block, 0, c0);
        arena.set_field(&mut block, 1, c1);
        arena.set_field(&mut block, 2, c2);
        arena.set_field(&mut block, 3, c3);
        let r = arena.build(block);
        proof {
            assert(block.spec_fields()[0] == c0);
            assert(block.spec_fields()[1] == c1);
            assert(block.spec_fields()[2] == c2);
            assert(block.spec_fields()[3] == c3);
        }
        r
    }
}

impl<A: FromOcamlRep, B: FromOcamlRep, C: FromOcamlRep, D: FromOcamlRep> FromOcamlRep for (A, B, C, D) {
    #[verifier::spinoff_prover]
    fn from_ocamlrep_below(value: Value, arena: &Arena, limit: usize) -> (r: Result<(A, B, C, D), FromError>) {
        match expect_tuple(value, arena, limit, 4) {
            Some(e) => Err(e),
            None => {
                let inner = Arena::field_limit(value);
                let c0 = arena.field(value, limit, 0);
                let c1 = arena.field(value, limit, 1);
                let c2 = arena.field(value, limit, 2);
                let c3 = arena.field(value, limit, 3);
                match A::from_ocamlrep_below(c0, arena, inner) {
                    Err(e) => Err(FromError::ErrorInField(0, Box::new(e))),
                    Ok(x0) => match B::from_ocamlrep_below(c1, arena, inner) {
                    Err(e) => Err(FromError::ErrorInField(1, Box::new(e))),
                    Ok(x1) => match C::from_ocamlrep_below(c2, arena, inner) {
                    Err(e) => Err(FromError::ErrorInField(2, Box::new(e))),
                    Ok(x2) => match D::from_ocamlrep_below(c3, arena, inner) {
                    Err(e) => Err(FromError::ErrorInField(3, Box::new(e))),
                    Ok(x3) => Ok((x0, x1, x2, x3)),
                },
                },
                },
                }
            },
        }
    }
}

impl<A: OcamlRep, B: OcamlRep, C: OcamlRep, D: OcamlRep, E: OcamlRep> OcamlRep for (A, B, C, D, E) {
    type Model = (A::Model, B::Model, C::Model, D::Model, E::Model);

    open spec fn model(&self) -> (A::Model, B::Model, C::Model, D::Model, E::Model) {
        (self.0.model(), self.1.model(), self.2.model(), self.3.model(), self.4.model())
    }

    open spec fn encodable(m: (A::Model, B::Model, C::Model, D::Model, E::Model)) -> bool {
        A::encodable(m.0) && B::encodable(m.1) && C::encodable(m.2) && D::encodable(m.3) && E::encodable(m.4)
    }

    open spec fn faithful(m: (A::Model, B::Model, C::Model, D::Model, E::Model)) -> bool {
        A::faithful(m.0) && B::faithful(m.1) && C::faithful(m.2) && D::faithful(m.3) && E::faithful(m.4)
    }

    open spec fn cost(m: (A::Model, B::Model, C::Model, D::Model, E::Model)) -> nat {
        6 + A::cost(m.0) + B::cost(m.1) + C::cost(m.2) + D::cost(m.3) + E::cost(m.4)
    }

    /// A block of 5 fields, tag 0.
    open spec fn encodes(m: (A::Model, B::Model, C::Model, D::Model, E::Model), r: Repr) -> bool {
        &&& r is Block
        &&& r->Block_tag == 0
        &&& r->fields.len() == 5
        &&& A::encodes(m.0, r->fields[0])
        &&& B::encodes(m.1, r->fields[1])
        &&& C::encodes(m.2, r->fields[2])
        &&& D::encodes(m.3, r->fields[3])
        &&& E::encodes(m.4, r->fields[4])
    }

    open spec fn from_repr(r: Repr) -> Result<(A::Model, B::Model, C::Model, D::Model, E::Model), FromError> {
        match check_tuple(r, 5) {
            Some(e) => Err(e),
            None => match in_field(0, A::from_repr(field_of(r, 0))) {
                Err(e) => Err(e),
                Ok(x0) => match in_field(1, B::from_repr(field_of(r, 1))) {
                Err(e) => Err(e),
                Ok(x1) => match in_field(2, C::from_repr(field_of(r, 2))) {
                Err(e) => Err(e),
                Ok(x2) => match in_field(3, D::from_repr(field_of(r, 3))) {
                Err(e) => Err(e),
                Ok(x3) => match in_field(4, E::from_repr(field_of(r, 4))) {
                Err(e) => Err(e),
                Ok(x4) => Ok((x0, x1, x2, x3, x4)),
            },
            },
            },
            },
            },
        }
    }

    proof fn lemma_round_trip(m: (A::Model, B::Model, C::Model, D::Model, E::Model), r: Repr) {
        A::lemma_round_trip(m.0, r->fields[0]);
        B::lemma_round_trip(m.1, r->fields[1]);
        C::lemma_round_trip(m.2, r->fields[2]);
        D::lemma_round_trip(m.3, r->fields[3]);
        E::lemma_round_trip(m.4, r->fields[4]);
    }

    #[verifier::spinoff_prover]
    #[verifier::rlimit(50)]
    fn to_ocamlrep(&self, arena: &mut Arena) -> (r: Value) {
        let ghost a0 = *arena;
        let c0 = self.0.to_ocamlrep(arena);
        let ghost a1 = *arena;
        let c1 = self.1.to_ocamlrep(arena);
        let ghost a2 = *arena;
        let c2 = self.2.to_ocamlrep(arena);
        let ghost a3 = *arena;
        let c3 = self.3.to_ocamlrep(arena);
        let ghost a4 = *arena;
        let c4 = self.4.to_ocamlrep(arena);
        let ghost a5 = *arena;
        proof {
            lemma_extends_denote(&a1, &a5, c0);
            lemma_extends_denote(&a2, &a5, c1);
            lemma_extends_denote(&a3, &a5, c2);
            lemma_extends_denote(&a4, &a5, c3);
        }
        let mut block = arena.block_with_size(5);
        arena.set_field(&mut block, 0, c0);
        arena.set_field(&mut block, 1, c1);
        arena.set_field(&mut block, 2, c2);
        arena.set_field(&mut block, 3, c3);
        arena.set_field(&mut block, 4, c4);
        let r = arena.build(block);
        proof {
            assert(block.spec_fields()[0] == c0);
            assert(block.spec_fields()[1] == c1);
            assert(block.spec_fields()[2] == c2);
            assert(block.spec_fields()[3] == c3);
            assert(block.spec_fields()[4] == c4);
        }
        r
    }
}

impl<A: FromOcamlRep, B: FromOcamlRep, C: FromOcamlRep, D: FromOcamlRep, E: FromOcamlRep> FromOcamlRep for (A, B, C, D, E) {
    #[verifier::spinoff_prover]
    fn from_ocamlrep_below(value: Value, arena: &Arena, limit: usize) -> (r: Result<(A, B, C, D, E), FromError>) {
        match expect_tuple(value, arena, limit, 5) {
            Some(e) => Err(e),
            None => {
                let inner = Arena::field_limit(value);
                let c0 = arena.field(value, limit, 0);
                let c1 = arena.field(value, limit, 1);
                let c2 = arena.field(value, limit, 2);
                let c3 = arena.field(value, limit, 3);
                let c4 = arena.field(value, limit, 4);
                match A::from_ocamlrep_below(c0, arena, inner) {
                    Err(e) => Err(FromError::ErrorInField(0, Box::new(e))),
                    Ok(x0) => match B::from_ocamlrep_below(c1, arena, inner) {
                    Err(e) => Err(FromError::ErrorInField(1, Box::new(e))),
                    Ok(x1) => match C::from_ocamlrep_below(c2, arena, inner) {
                    Err(e) => Err(FromError::ErrorInField(2, Box::new(e))),
                    Ok(x2) => match D::from_ocamlrep_below(c3, arena, inner) {
                    Err(e) => Err(FromError::ErrorInField(3, Box::new(e))),
                    Ok(x3) => match E::from_ocamlrep_below(c4, arena, inner) {
                    Err(e) => Err(FromError::ErrorInField(4, Box::new(e))),
                    Ok(x4) => Ok((x0, x1, x2, x3, x4)),
                },
                },
                },
                },
                }
            },
        }
    }
}

impl<A: OcamlRep, B: OcamlRep, C: OcamlRep, D: OcamlRep, E: OcamlRep, F: OcamlRep> OcamlRep for (A, B, C, D, E, F) {
    type Model = (A::Model, B::Model, C::Model, D::Model, E::Model, F::Model);

    open spec fn model(&self) -> (A::Model, B::Model, C::Model, D::Model, E::Model, F::Model) {
        (self.0.model(), self.1.model(), self.2.model(), self.3.model(), self.4.model(), self.5.model())
    }

    open spec fn encodable(m: (A::Model, B::Model, C::Model, D::Model, E::Model, F::Model)) -> bool {
        A::encodable(m.0) && B::encodable(m.1) && C::encodable(m.2) && D::encodable(m.3) && E::encodable(m.4) && F::encodable(m.5)
    }

    open spec fn faithful(m: (A::Model, B::Model, C::Model, D::Model, E::Model, F::Model)) -> bool {
        A::faithful(m.0) && B::faithful(m.1) && C::faithful(m.2) && D::faithful(m.3) && E::faithful(m.4) && F::faithful(m.5)
    }

    open spec fn cost(m: (A::Model, B::Model, C::Model, D::Model, E::Model, F::Model)) -> nat {
        7 + A::cost(m.0) + B::cost(m.1) + C::cost(m.2) + D::cost(m.3) + E::cost(m.4) + F::cost(m.5)
    }

    /// A block of 6 fields, tag 0.
    open spec fn encodes(m: (A::Model, B::Model, C::Model, D::Model, E::Model, F::Model), r: Repr) -> bool {
        &&& r is Block
        &&& r->Block_tag == 0
        &&& r->fields.len() == 6
        &&& A::encodes(m.0, r->fields[0])
        &&& B::encodes(m.1, r->fields[1])
        &&& C::encodes(m.2, r->fields[2])
        &&& D::encodes(m.3, r->fields[3])
        &&& E::encodes(m.4, r->fields[4])
        &&& F::encodes(m.5, r->fields[5])
    }

    open spec fn from_repr(r: Repr) -> Result<(A::Model, B::Model, C::Model, D::Model, E::Model, F::Model), FromError> {
        match check_tuple(r, 6) {
            Some(e) => Err(e),
            None => match in_field(0, A::from_repr(field_of(r, 0))) {
                Err(e) => Err(e),
                Ok(x0) => match in_field(1, B::from_repr(field_of(r, 1))) {
                Err(e) => Err(e),
                Ok(x1) => match in_field(2, C::from_repr(field_of(r, 2))) {
                Err(e) => Err(e),
                Ok(x2) => match in_field(3, D::from_repr(field_of(r, 3))) {
                Err(e) => Err(e),
                Ok(x3) => match in_field(4, E::from_repr(field_of(r, 4))) {
                Err(e) => Err(e),
                Ok(x4) => match in_field(5, F::from_repr(field_of(r, 5))) {
                Err(e) => Err(e),
                Ok(x5) => Ok((x0, x1, x2, x3, x4, x5)),
            },
            },
            },
            },
            },
            },
        }
    }

    proof fn lemma_round_trip(m: (A::Model, B::Model, C::Model, D::Model, E::Model, F::Model), r: Repr) {
        A::lemma_round_trip(m.0, r->fields[0]);
        B::lemma_round_trip(m.1, r->fields[1]);
        C::lemma_round_trip(m.2, r->fields[2]);
        D::lemma_round_trip(m.3, r->fields[3]);
        E::lemma_round_trip(m.4, r->fields[4]);
        F::lemma_round_trip(m.5, r->fields[5]);
    }

    #[verifier::spinoff_prover]
    #[verifier::rlimit(50)]
    fn to_ocamlrep(&self, arena: &mut Arena) -> (r: Value) {
        let ghost a0 = *arena;
        let c0 = self.0.to_ocamlrep(arena);
        let ghost a1 = *arena;
        let c1 = self.1.to_ocamlrep(arena);
        let ghost a2 = *arena;
        let c2 = self.2.to_ocamlrep(arena);
        let ghost a3 = *arena;
        let c3 = self.3.to_ocamlrep(arena);
        let ghost a4 = *arena;
        let c4 = self.4.to_ocamlrep(arena);
        let ghost a5 = *arena;
        let c5 = self.5.to_ocamlrep(arena);
        let ghost a6 = *arena;
        proof {
            lemma_extends_denote(&a1, &a6, c0);
            lemma_extends_denote(&a2, &a6, c1);
            lemma_extends_denote(&a3, &a6, c2);
            lemma_extends_denote(&a4, &a6, c3);
            lemma_extends_denote(&a5, &a6, c4);
        }
        let mut block = arena.block_with_size(6);
        arena.set_field(&mut block, 0, c0);
        arena.set_field(&mut block, 1, c1);
        arena.set_field(&mut block, 2, c2);
        arena.set_field(&mut block, 3, c3);
        arena.set_field(&mut block, 4, c4);
        arena.set_field(&mut block, 5, c5);
        let r = arena.build(block);
        proof {
            assert(block.spec_fields()[0] == c0);
            assert(block.spec_fields()[1] == c1);
            assert(block.spec_fields()[2] == c2);
            assert(block.spec_fields()[3] == c3);
            assert(block.spec_fields()[4] == c4);
            assert(block.spec_fields()[5] == c5);
        }
        r
    }
}

impl<A: FromOcamlRep, B: FromOcamlRep, C: FromOcamlRep, D: FromOcamlRep, E: FromOcamlRep, F: FromOcamlRep> FromOcamlRep for (A, B, C, D, E, F) {
    #[verifier::spinoff_prover]
    fn from_ocamlrep_below(value: Value, arena: &Arena, limit: usize) -> (r: Result<(A, B, C, D, E, F), FromError>) {
        match expect_tuple(value, arena, limit, 6) {
            Some(e) => Err(e),
            None => {
                let inner = Arena::field_limit(value);
                let c0 = arena.field(value, limit, 0);
                let c1 = arena.field(value, limit, 1);
                let c2 = arena.field(value, limit, 2);
                let c3 = arena.field(value, limit, 3);
                let c4 = arena.field(value, limit, 4);
                let c5 = arena.field(value, limit, 5);
                match A::from_ocamlrep_below(c0, arena, inner) {
                    Err(e) => Err(FromError::ErrorInField(0, Box::new(e))),
                    Ok(x0) => match B::from_ocamlrep_below(c1, arena, inner) {
                    Err(e) => Err(FromError::ErrorInField(1, Box::new(e))),
                    Ok(x1) => match C::from_ocamlrep_below(c2, arena, inner) {
                    Err(e) => Err(FromError::ErrorInField(2, Box::new(e))),
                    Ok(x2) => match D::from_ocamlrep_below(c3, arena, inner) {
                    Err(e) => Err(FromError::ErrorInField(3, Box::new(e))),
                    Ok(x3) => match E::from_ocamlrep_below(c4, arena, inner) {
                    Err(e) => Err(FromError::ErrorInField(4, Box::new(e))),
                    Ok(x4) => match F::from_ocamlrep_below(c5, arena, inner) {
                    Err(e) => Err(FromError::ErrorInField(5, Box::new(e))),
                    Ok(x5) => Ok((x0, x1, x2, x3, x4, x5)),
                },
                },
                },
                },
                },
                }
            },
        }
    }
}

impl<A: OcamlRep, B: OcamlRep, C: OcamlRep, D: OcamlRep, E: OcamlRep, F: OcamlRep, G: OcamlRep> OcamlRep for (A, B, C, D, E, F, G) {
    type Model = (A::Model, B::Model, C::Model, D::Model, E::Model, F::Model, G::Model);

    open spec fn model(&self) -> (A::Model, B::Model, C::Model, D::Model, E::Model, F::Model, G::Model) {
        (self.0.model(), self.1.model(), self.2.model(), self.3.model(), self.4.model(), self.5.model(), self.6.model())
    }

    open spec fn encodable(m: (A::Model, B::Model, C::Model, D::Model, E::Model, F::Model, G::Model)) -> bool {
        A::encodable(m.0) && B::encodable(m.1) && C::encodable(m.2) && D::encodable(m.3) && E::encodable(m.4) && F::encodable(m.5) && G::encodable(m.6)
    }

    open spec fn faithful(m: (A::Model, B::Model, C::Model, D::Model, E::Model, F::Model, G::Model)) -> bool {
        A::faithful(m.0) && B::faithful(m.1) && C::faithful(m.2) && D::faithful(m.3) && E::faithful(m.4) && F::faithful(m.5) && G::faithful(m.6)
    }

    open spec fn cost(m: (A::Model, B::Model, C::Model, D::Model, E::Model, F::Model, G::Model)) -> nat {
        8 + A::cost(m.0) + B::cost(m.1) + C::cost(m.2) + D::cost(m.3) + E::cost(m.4) + F::cost(m.5) + G::cost(m.6)
    }

    /// A block of 7 fields, tag 0.
    open spec fn encodes(m: (A::Model, B::Model, C::Model, D::Model, E::Model, F::Model, G::Model), r: Repr) -> bool {
        &&& r is Block
        &&& r->Block_tag == 0
        &&& r->fields.len() == 7
        &&& A::encodes(m.0, r->fields[0])
        &&& B::encodes(m.1, r->fields[1])
        &&& C::encodes(m.2, r->fields[2])
        &&& D::encodes(m.3, r->fields[3])
        &&& E::encodes(m.4, r->fields[4])
        &&& F::encodes(m.5, r->fields[5])
        &&& G::encodes(m.6, r->fields[6])
    }

    open spec fn from_repr(r: Repr) -> Result<(A::Model, B::Model, C::Model, D::Model, E::Model, F::Model, G::Model), FromError> {
        match check_tuple(r, 7) {
            Some(e) => Err(e),
            None => match in_field(0, A::from_repr(field_of(r, 0))) {
                Err(e) => Err(e),
                Ok(x0) => match in_field(1, B::from_repr(field_of(r, 1))) {
                Err(e) => Err(e),
                Ok(x1) => match in_field(2, C::from_repr(field_of(r, 2))) {
                Err(e) => Err(e),
                Ok(x2) => match in_field(3, D::from_repr(field_of(r, 3))) {
                Err(e) => Err(e),
                Ok(x3) => match in_field(4, E::from_repr(field_of(r, 4))) {
                Err(e) => Err(e),
                Ok(x4) => match in_field(5, F::from_repr(field_of(r, 5))) {
                Err(e) => Err(e),
                Ok(x5) => match in_field(6, G::from_repr(field_of(r, 6))) {
                Err(e) => Err(e),
                Ok(x6) => Ok((x0, x1, x2, x3, x4, x5, x6)),
            },
            },
            },
            },
            },
            },
            },
        }
    }

    proof fn lemma_round_trip(m: (A::Model, B::Model, C::Model, D::Model, E::Model, F::Model, G::Model), r: Repr) {
        A::lemma_round_trip(m.0, r->fields[0]);
        B::lemma_round_trip(m.1, r->fields[1]);
        C::lemma_round_trip(m.2, r->fields[2]);
        D::lemma_round_trip(m.3, r->fields[3]);
        E::lemma_round_trip(m.4, r->fields[4]);
        F::lemma_round_trip(m.5, r->fields[5]);
        G::lemma_round_trip(m.6, r->fields[6]);
    }

    #[verifier::spinoff_prover]
    #[verifier::rlimit(50)]
    fn to_ocamlrep(&self, arena: &mut Arena) -> (r: Value) {
        let ghost a0 = *arena;
        let c0 = self.0.to_ocamlrep(arena);
        let ghost a1 = *arena;
        let c1 = self.1.to_ocamlrep(arena);
        let ghost a2 = *arena;
        let c2 = self.2.to_ocamlrep(arena);
        let ghost a3 = *arena;
        let c3 = self.3.to_ocamlrep(arena);
        let ghost a4 = *arena;
        let c4 = self.4.to_ocamlrep(arena);
        let ghost a5 = *arena;
        let c5 = self.5.to_ocamlrep(arena);
        let ghost a6 = *arena;
        let c6 = self.6.to_ocamlrep(arena);
        let ghost a7 = *arena;
        proof {
            lemma_extends_denote(&a1, &a7, c0);
            lemma_extends_denote(&a2, &a7, c1);
            lemma_extends_denote(&a3, &a7, c2);
            lemma_extends_denote(&a4, &a7, c3);
            lemma_extends_denote(&a5, &a7, c4);
            lemma_extends_denote(&a6, &a7, c5);
        }
        let mut block = arena.block_with_size(7);
        arena.set_field(&mut block, 0, c0);
        arena.set_field(&mut block, 1, c1);
        arena.set_field(&mut block, 2, c2);
        arena.set_field(&mut block, 3, c3);
        arena.set_field(&mut block, 4, c4);
        arena.set_field(&mut block, 5, c5);
        arena.set_field(&mut block, 6, c6);
        let r = arena.build(block);
        proof {
            assert(block.spec_fields()[0] == c0);
            assert(block.spec_fields()[1] == c1);
            assert(block.spec_fields()[2] == c2);
            assert(block.spec_fields()[3] == c3);
            assert(block.spec_fields()[4] == c4);
            assert(block.spec_fields()[5] == c5);
            assert(block.spec_fields()[6] == c6);
        }
        r
    }
}

impl<A: FromOcamlRep, B: FromOcamlRep, C: FromOcamlRep, D: FromOcamlRep, E: FromOcamlRep, F: FromOcamlRep, G: FromOcamlRep> FromOcamlRep for (A, B, C, D, E, F, G) {
    #[verifier::spinoff_prover]
    fn from_ocamlrep_below(value: Value, arena: &Arena, limit: usize) -> (r: Result<(A, B, C, D, E, F, G), FromError>) {
        match expect_tuple(value, arena, limit, 7) {
            Some(e) => Err(e),
            None => {
                let inner = Arena::field_limit(value);
                let c0 = arena.field(value, limit, 0);
                let c1 = arena.field(value, limit, 1);
                let c2 = arena.field(value, limit, 2);
                let c3 = arena.field(value, limit, 3);
                let c4 = arena.field(value, limit, 4);
                let c5 = arena.field(value, limit, 5);
                let c6 = arena.field(value, limit, 6);
                match A::from_ocamlrep_below(c0, arena, inner) {
                    Err(e) => Err(FromError::ErrorInField(0, Box::new(e))),
                    Ok(x0) => match B::from_ocamlrep_below(c1, arena, inner) {
                    Err(e) => Err(FromError::ErrorInField(1, Box::new(e))),
                    Ok(x1) => match C::from_ocamlrep_below(c2, arena, inner) {
                    Err(e) => Err(FromError::ErrorInField(2, Box::new(e))),
                    Ok(x2) => match D::from_ocamlrep_below(c3, arena, inner) {
                    Err(e) => Err(FromError::ErrorInField(3, Box::new(e))),
                    Ok(x3) => match E::from_ocamlrep_below(c4, arena, inner) {
                    Err(e) => Err(FromError::ErrorInField(4, Box::new(e))),
                    Ok(x4) => match F::from_ocamlrep_below(c5, arena, inner) {
                    Err(e) => Err(FromError::ErrorInField(5, Box::new(e))),
                    Ok(x5) => match G::from_ocamlrep_below(c6, arena, inner) {
                    Err(e) => Err(FromError::ErrorInField(6, Box::new(e))),
                    Ok(x6) => Ok((x0, x1, x2, x3, x4, x5, x6)),
                },
                },
                },
                },
                },
                },
                }
            },
        }
    }
}

impl<A: OcamlRep, B: OcamlRep, C: OcamlRep, D: OcamlRep, E: OcamlRep, F: OcamlRep, G: OcamlRep, H: OcamlRep> OcamlRep for (A, B, C, D, E, F, G, H) {
    type Model = (A::Model, B::Model, C::Model, D::Model, E::Model, F::Model, G::Model, H::Model);

    open spec fn model(&self) -> (A::Model, B::Model, C::Model, D::Model, E::Model, F::Model, G::Model, H::Model) {
        (self.0.model(), self.1.model(), self.2.model(), self.3.model(), self.4.model(), self.5.model(), self.6.model(), self.7.model())
    }

    open spec fn encodable(m: (A::Model, B::Model, C::Model, D::Model, E::Model, F::Model, G::Model, H::Model)) -> bool {
        A::encodable(m.0) && B::encodable(m.1) && C::encodable(m.2) && D::encodable(m.3) && E::encodable(m.4) && F::encodable(m.5) && G::encodable(m.6) && H::encodable(m.7)
    }

    open spec fn faithful(m: (A::Model, B::Model, C::Model, D::Model, E::Model, F::Model, G::Model, H::Model)) -> bool {
        A::faithful(m.0) && B::faithful(m.1) && C::faithful(m.2) && D::faithful(m.3) && E::faithful(m.4) && F::faithful(m.5) && G::faithful(m.6) && H::faithful(m.7)
    }

    open spec fn cost(m: (A::Model, B::Model, C::Model, D::Model, E::Model, F::Model, G::Model, H::Model)) -> nat {
        9 + A::cost(m.0) + B::cost(m.1) + C::cost(m.2) + D::cost(m.3) + E::cost(m.4) + F::cost(m.5) + G::cost(m.6) + H::cost(m.7)
    }

    /// A block of 8 fields, tag 0.
    open spec fn encodes(m: (A::Model, B::Model, C::Model, D::Model, E::Model, F::Model, G::Model, H::Model), r: Repr) -> bool {
        &&& r is Block
        &&& r->Block_tag == 0
        &&& r->fields.len() == 8
        &&& A::encodes(m.0, r->fields[0])
        &&& B::encodes(m.1, r->fields[1])
        &&& C::encodes(m.2, r->fields[2])
        &&& D::encodes(m.3, r->fields[3])
        &&& E::encodes(m.4, r->fields[4])
        &&& F::encodes(m.5, r->fields[5])
        &&& G::encodes(m.6, r->fields[6])
        &&& H::encodes(m.7, r->fields[7])
    }

    open spec fn from_repr(r: Repr) -> Result<(A::Model, B::Model, C::Model, D::Model, E::Model, F::Model, G::Model, H::Model), FromError> {
        match check_tuple(r, 8) {
            Some(e) => Err(e),
            None => match in_field(0, A::from_repr(field_of(r, 0))) {
                Err(e) => Err(e),
                Ok(x0) => match in_field(1, B::from_repr(field_of(r, 1))) {
                Err(e) => Err(e),
                Ok(x1) => match in_field(2, C::from_repr(field_of(r, 2))) {
                Err(e) => Err(e),
                Ok(x2) => match in_field(3, D::from_repr(field_of(r, 3))) {
                Err(e) => Err(e),
                Ok(x3) => match in_field(4, E::from_repr(field_of(r, 4))) {
                Err(e) => Err(e),
                Ok(x4) => match in_field(5, F::from_repr(field_of(r, 5))) {
                Err(e) => Err(e),
                Ok(x5) => match in_field(6, G::from_repr(field_of(r, 6))) {
                Err(e) => Err(e),
                Ok(x6) => match in_field(7, H::from_repr(field_of(r, 7))) {
                Err(e) => Err(e),
                Ok(x7) => Ok((x0, x1, x2, x3, x4, x5, x6, x7)),
            },
            },
            },
            },
            },
            },
            },
            },
        }
    }

    proof fn lemma_round_trip(m: (A::Model, B::Model, C::Model, D::Model, E::Model, F::Model, G::Model, H::Model), r: Repr) {
        A::lemma_round_trip(m.0, r->fields[0]);
        B::lemma_round_trip(m.1, r->fields[1]);
        C::lemma_round_trip(m.2, r->fields[2]);
        D::lemma_round_trip(m.3, r->fields[3]);
        E::lemma_round_trip(m.4, r->fields[4]);
        F::lemma_round_trip(m.5, r->fields[5]);
        G::lemma_round_trip(m.6, r->fields[6]);
        H::lemma_round_trip(m.7, r->fields[7]);
    }

    #[verifier::spinoff_prover]
    #[verifier::rlimit(50)]
    fn to_ocamlrep(&self, arena: &mut Arena) -> (r: Value) {
        let ghost a0 = *arena;
        let c0 = self.0.to_ocamlrep(arena);
        let ghost a1 = *arena;
        let c1 = self.1.to_ocamlrep(arena);
        let ghost a2 = *arena;
        let c2 = self.2.to_ocamlrep(arena);
        let ghost a3 = *arena;
        let c3 = self.3.to_ocamlrep(arena);
        let ghost a4 = *arena;
        let c4 = self.4.to_ocamlrep(arena);
        let ghost a5 = *arena;
        let c5 = self.5.to_ocamlrep(arena);
        let ghost a6 = *arena;
        let c6 = self.6.to_ocamlrep(arena);
        let ghost a7 = *arena;
        let c7 = self.7.to_ocamlrep(arena);
        let ghost a8 = *arena;
        proof {
            lemma_extends_denote(&a1, &a8, c0);
            lemma_extends_denote(&a2, &a8, c1);
            lemma_extends_denote(&a3, &a8, c2);
            lemma_extends_denote(&a4, &a8, c3);
            lemma_extends_denote(&a5, &a8, c4);
            lemma_extends_denote(&a6, &a8, c5);
            lemma_extends_denote(&a7, &a8, c6);
        }
        let mut block = arena.block_with_size(8);
        arena.set_field(&mut block, 0, c0);
        arena.set_field(&mut block, 1, c1);
        arena.set_field(&mut block, 2, c2);
        arena.set_field(&mut block, 3, c3);
        arena.set_field(&mut block, 4, c4);
        arena.set_field(&mut block, 5, c5);
        arena.set_field(&mut block, 6, c6);
        arena.set_field(&mut block, 7, c7);
        let r = arena.build(block);
        proof {
            assert(block.spec_fields()[0] == c0);
            assert(block.spec_fields()[1] == c1);
            assert(block.spec_fields()[2] == c2);
            assert(block.spec_fields()[3] == c3);
            assert(block.spec_fields()[4] == c4);
            assert(block.spec_fields()[5] == c5);
            assert(block.spec_fields()[6] == c6);
            assert(block.spec_fields()[7] == c7);
        }
        r
    }
}

impl<A: FromOcamlRep, B: FromOcamlRep, C: FromOcamlRep, D: FromOcamlRep, E: FromOcamlRep, F: FromOcamlRep, G: FromOcamlRep, H: FromOcamlRep> FromOcamlRep for (A, B, C, D, E, F, G, H) {
    #[verifier::spinoff_prover]
    fn from_ocamlrep_below(value: Value, arena: &Arena, limit: usize) -> (r: Result<(A, B, C, D, E, F, G, H), FromError>) {
        match expect_tuple(value, arena, limit, 8) {
            Some(e) => Err(e),
            None => {
                let inner = Arena::field_limit(value);
                let c0 = arena.field(value, limit, 0);
                let c1 = arena.field(value, limit, 1);
                let c2 = arena.field(value, limit, 2);
                let c3 = arena.field(value, limit, 3);
                let c4 = arena.field(value, limit, 4);
                let c5 = arena.field(value, limit, 5);
                let c6 = arena.field(value, limit, 6);
                let c7 = arena.field(value, limit, 7);
                match A::from_ocamlrep_below(c0, arena, inner) {
                    Err(e) => Err(FromError::ErrorInField(0, Box::new(e))),
                    Ok(x0) => match B::from_ocamlrep_below(c1, arena, inner) {
                    Err(e) => Err(FromError::ErrorInField(1, Box::new(e))),
                    Ok(x1) => match C::from_ocamlrep_below(c2, arena, inner) {
                    Err(e) => Err(FromError::ErrorInField(2, Box::new(e))),
                    Ok(x2) => match D::from_ocamlrep_below(c3, arena, inner) {
                    Err(e) => Err(FromError::ErrorInField(3, Box::new(e))),
                    Ok(x3) => match E::from_ocamlrep_below(c4, arena, inner) {
                    Err(e) => Err(FromError::ErrorInField(4, Box::new(e))),
                    Ok(x4) => match F::from_ocamlrep_below(c5, arena, inner) {
                    Err(e) => Err(FromError::ErrorInField(5, Box::new(e))),
                    Ok(x5) => match G::from_ocamlrep_below(c6, arena, inner) {
                    Err(e) => Err(FromError::ErrorInField(6, Box::new(e))),
                    Ok(x6) => match H::from_ocamlrep_below(c7, arena, inner) {
                    Err(e) => Err(FromError::ErrorInField(7, Box::new(e))),
                    Ok(x7) => Ok((x0, x1, x2, x3, x4, x5, x6, x7)),
                },
                },
                },
                },
                },
                },
                },
                }
            },
        }
    }
}

impl OcamlRep for char {
    /// A character is modelled by its code.
    type Model = u32;

    open spec fn model(&self) -> u32 {
        *self as u32
    }

    /// Only the characters with codes 0 to 255 have a representation.
    open spec fn encodable(m: u32) -> bool {
        m <= 255
    }

    open spec fn faithful(m: u32) -> bool {
        m <= 255
    }

    open spec fn cost(m: u32) -> nat {
        0
    }

    open spec fn encodes(m: u32, r: Repr) -> bool {
        r == Repr::Int(m as int)
    }

    open spec fn from_repr(r: Repr) -> Result<u32, FromError> {
        match int_of(r) {
            Err(e) => Err(e),
            Ok(n) => if 0 <= n <= 255 {
                Ok(n as u32)
            } else {
                Err(FromError::ExpectedChar(n as i64))
            },
        }
    }

    proof fn lemma_round_trip(m: u32, r: Repr) {
    }

    fn to_ocamlrep(&self, arena: &mut Arena) -> (r: Value) {
        let code = *self as u32;
        proof {
            crate::value::lemma_wrap_in_range(code as int);
        }
        Value::from_int(code as i64)
    }
}

impl FromOcamlRep for char {
    fn from_ocamlrep_below(value: Value, arena: &Arena, limit: usize) -> (r: Result<char, FromError>) {
        match expect_int(value, arena, limit) {
            Err(e) => Err(e),
            Ok(n) => if 0 <= n && n <= 255 {
                Ok((n as u8) as char)
            } else {
                Err(FromError::ExpectedChar(n))
            },
        }
    }
}

} // verus!
