use vstd::prelude::*;

verus! {

#[verifier::external_type_specification]
#[verifier::external_body]
pub struct ExUtf8Error(std::str::Utf8Error);

/// Why a value could not be read back as a native value of the expected
/// type. Each variant names the shape that was expected and what was found.
#[derive(Debug, PartialEq)]
pub enum FromError {
    BadUtf8(std::str::Utf8Error),
    BlockTagOutOfRange { max: u8, actual: u8 },
    ErrorInField(usize, Box<FromError>),
    ExpectedBlock(i64),
    ExpectedBlockTag { expected: u8, actual: u8 },
    ExpectedBool(i64),
    ExpectedChar(i64),
    ExpectedInt(u64),
    Expected63BitInt(i64),
    ExpectedUnit(i64),
    ExpectedZeroTag(u8),
    IntOutOfRange(std::num::TryFromIntError),
    NullaryVariantTagOutOfRange { max: usize, actual: i64 },
    WrongBlockSize { expected: usize, actual: usize },
    UnexpectedCustomOps { expected: u64, actual: u64 },
}

} // verus!
