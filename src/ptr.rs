use vstd::prelude::*;

use crate::error::FromError;
use crate::value::Value;

verus! {

/// A pointer to a value that the foreign runtime's collector may manage,
/// kept as its (never zero) address. The value must stay rooted, or the
/// collector must not run, while this pointer is in use.
#[derive(Clone, Copy, PartialEq, Eq, Hash, Debug)]
pub struct UnsafeOcamlPtr(u64);

impl UnsafeOcamlPtr {
    pub closed spec fn spec_addr(self) -> u64 {
        self.0
    }

    pub fn new(ptr: u64) -> (r: UnsafeOcamlPtr)
        requires
            ptr != 0,
        ensures
            r.spec_addr() == ptr,
    {
        UnsafeOcamlPtr(ptr)
    }

    pub fn as_usize(self) -> (r: u64)
        ensures
            r == self.spec_addr(),
    {
        self.0
    }

    /// Whether the word is an immediate integer (only the low bit is read).
    pub fn is_int(self) -> (r: bool)
        ensures
            r == (self.spec_addr() % 2 == 1),
    {
        self.0 % 2 == 1
    }

    pub fn is_block(self) -> (r: bool)
        ensures
            r == (self.spec_addr() % 2 == 0),
    {
        self.0 % 2 == 0
    }

    /// The pointer as a value.
    pub fn as_value(self) -> (r: Value)
        ensures
            r.0 == self.spec_addr(),
    {
        Value(self.0)
    }

    /// The pointer that `value` holds; an immediate is `ExpectedBlock`, and
    /// the null pointer leads nowhere.
    pub fn from_value(value: Value) -> (r: Result<UnsafeOcamlPtr, FromError>)
        ensures
            value.spec_is_int() ==> r == Err::<UnsafeOcamlPtr, FromError>(
                FromError::ExpectedBlock(value.spec_int_value() as i64),
            ),
            !value.spec_is_int() && value.0 == 0 ==> r == Err::<UnsafeOcamlPtr, FromError>(
                FromError::ExpectedInt(0),
            ),
            !value.spec_is_int() && value.0 != 0 ==> (r matches Ok(p) && p.spec_addr() == value.0),
    {
        if value.is_int() {
            Err(FromError::ExpectedBlock(value.as_int().unwrap()))
        } else if value.0 == 0 {
            Err(FromError::ExpectedInt(0))
        } else {
            Ok(UnsafeOcamlPtr(value.0))
        }
    }
}

/// The address of data outside the foreign runtime's heap, carried through as
/// an opaque value (the foreign side sees an abstract type).
#[derive(Clone, Copy, PartialEq, Eq, Hash, Debug)]
pub struct NakedPtr(u64);

impl NakedPtr {
    pub closed spec fn spec_addr(self) -> u64 {
        self.0
    }

    pub fn new(ptr: u64) -> (r: NakedPtr)
        ensures
            r.spec_addr() == ptr,
    {
        NakedPtr(ptr)
    }

    pub fn as_ptr(self) -> (r: u64)
        ensures
            r == self.spec_addr(),
    {
        self.0
    }

    /// The pointer as a value.
    pub fn to_value(self) -> (r: Value)
        ensures
            r.0 == self.spec_addr(),
    {
        Value(self.0)
    }

    /// The address that `value` holds; an immediate is `ExpectedBlock`.
    pub fn from_value(value: Value) -> (r: Result<NakedPtr, FromError>)
        ensures
            value.spec_is_int() ==> r == Err::<NakedPtr, FromError>(
                FromError::ExpectedBlock(value.spec_int_value() as i64),
            ),
            !value.spec_is_int() ==> (r matches Ok(p) && p.spec_addr() == value.0),
    {
        if value.is_int() {
            Err(FromError::ExpectedBlock(value.as_int().unwrap()))
        } else {
            Ok(NakedPtr(value.0))
        }
    }
}

/// Whether a word returned by the foreign runtime is an exception result
/// (its two low bits are `10`).
pub fn is_exception_result(v: u64) -> (r: bool)
    ensures
        r == (v % 4 == 2),
{
    proof {
        assert(v & 3 == v % 4) by (bit_vector);
    }
    v & 3 == 2
}

} // verus!
