use ocamlrep::boxed::double_from_ocamlrep;
use ocamlrep::boxed::double_to_ocamlrep;
use ocamlrep::boxed::int64_from_ocamlrep;
use ocamlrep::boxed::int64_to_ocamlrep;
use ocamlrep::bytes::bytes_from_ocamlrep_in;
use ocamlrep::bytes::str_from_ocamlrep_in;
use ocamlrep::bytes_to_ocamlrep;
use ocamlrep::ptr::is_exception_result;
use ocamlrep::ptr::NakedPtr;
use ocamlrep::ptr::UnsafeOcamlPtr;
use ocamlrep::str_to_ocamlrep;
use ocamlrep::Arena;
use ocamlrep::FromError;
use ocamlrep::Value;

#[test]
fn int64_is_a_custom_block() {
    let mut arena = Arena::new(1);
    let v = int64_to_ocamlrep(-3, 0x1000, &mut arena);
    let block = arena.as_block(v).unwrap();
    assert_eq!(block.tag(), 255);
    assert_eq!(block.size(), 2);
    assert_eq!(block.field(0).to_bits(), 0x1000);
    assert_eq!(block.field(1).to_bits(), (-3i64) as u64);
    assert_eq!(int64_from_ocamlrep(v, &arena), Ok(-3));
    assert_eq!(int64_from_ocamlrep(Value::from_int(3), &arena), Err(FromError::ExpectedBlock(3)));
}

#[test]
fn float_is_a_double_block() {
    let mut arena = Arena::new(2);
    let bits = 1.5f64.to_bits();
    let v = double_to_ocamlrep(bits, &mut arena);
    let block = arena.as_block(v).unwrap();
    assert_eq!(block.tag(), 253);
    assert_eq!(block.size(), 1);
    assert_eq!(double_from_ocamlrep(v, &arena), Ok(bits));
    let s = str_to_ocamlrep("x", &mut arena);
    assert_eq!(
        double_from_ocamlrep(s, &arena),
        Err(FromError::ExpectedBlockTag { expected: 253, actual: 252 })
    );
}

#[test]
fn strings_read_into_a_bump() {
    let bump = bumpalo::Bump::new();
    let mut arena = Arena::new(3);
    let v = str_to_ocamlrep("in the bump", &mut arena);
    assert_eq!(str_from_ocamlrep_in(v, &arena, &bump), Ok("in the bump"));
    let b = bytes_to_ocamlrep(&[0, 1, 255], &mut arena);
    assert_eq!(bytes_from_ocamlrep_in(b, &arena, &bump), Ok(&[0u8, 1, 255][..]));
    let expected = std::str::from_utf8(&[0, 1, 255]).unwrap_err();
    assert_eq!(str_from_ocamlrep_in(b, &arena, &bump), Err(FromError::BadUtf8(expected)));
}

#[test]
fn pointers_pass_through() {
    let p = UnsafeOcamlPtr::new(0x7000);
    assert_eq!(p.as_usize(), 0x7000);
    assert!(p.is_block());
    assert!(!p.is_int());
    assert_eq!(p.as_value().to_bits(), 0x7000);
    assert_eq!(UnsafeOcamlPtr::from_value(Value::from_int(2)), Err(FromError::ExpectedBlock(2)));
    assert_eq!(UnsafeOcamlPtr::from_value(Value::from_bits(0x7000)), Ok(p));
    let n = NakedPtr::new(0x1234);
    assert_eq!(n.as_ptr(), 0x1234);
    assert_eq!(NakedPtr::from_value(n.to_value()), Ok(n));
    assert_eq!(NakedPtr::from_value(Value::from_int(5)), Err(FromError::ExpectedBlock(5)));
}

#[test]
fn exception_results() {
    assert!(is_exception_result(2));
    assert!(is_exception_result(6));
    assert!(!is_exception_result(1));
    assert!(!is_exception_result(8));
}
