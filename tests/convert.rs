use std::collections::BTreeMap;
use std::collections::BTreeSet;

use ocamlrep::bytes_from_ocamlrep;
use ocamlrep::bytes_to_ocamlrep;
use ocamlrep::from_ocamlrep;
use ocamlrep::sorted_iter_to_ocaml_map;
use ocamlrep::sorted_iter_to_ocaml_set;
use ocamlrep::str_from_ocamlrep;
use ocamlrep::str_to_ocamlrep;
use ocamlrep::vec_from_ocaml_map;
use ocamlrep::vec_from_ocaml_set;
use ocamlrep::Arena;
use ocamlrep::FromError;
use ocamlrep::OCamlInt;
use ocamlrep::FromOcamlRep;
use ocamlrep::OcamlRep;
use ocamlrep::Value;

fn round_trip<T: FromOcamlRep + PartialEq + std::fmt::Debug>(x: T) {
    let mut arena = Arena::new(1);
    let v = x.to_ocamlrep(&mut arena);
    let back: T = from_ocamlrep(v, &arena).unwrap();
    assert_eq!(back, x);
}

#[test]
fn primitives_round_trip() {
    round_trip(());
    round_trip(true);
    round_trip(false);
    round_trip(0i64);
    round_trip(-5i64);
    round_trip((1i64 << 62) - 1);
    round_trip(-(1i64 << 62));
    round_trip(17isize);
}

#[test]
fn composites_round_trip() {
    round_trip(Some(5i64));
    round_trip(None::<i64>);
    round_trip(Some(None::<i64>));
    round_trip(Some(Some(5i64)));
    round_trip(vec![1i64, 2, 3]);
    round_trip(Vec::<i64>::new());
    round_trip(vec![vec![1i64], vec![], vec![2, 3]]);
    round_trip((4i64, String::from("four")));
    round_trip(Ok::<i64, String>(3));
    round_trip(Err::<i64, String>(String::from("no")));
    round_trip(Box::new(9i64));
    round_trip(vec![(1i64, true), (2, false)]);
}

#[test]
fn strings_round_trip_around_word_padding() {
    for s in ["", "a", "ab", "abcde", "abcdefg", "abcdefgh", "h\u{e9}llo w\u{f6}rld"] {
        round_trip(String::from(s));
        let mut arena = Arena::new(2);
        let v = str_to_ocamlrep(s, &mut arena);
        assert_eq!(str_from_ocamlrep(v, &arena).unwrap(), s);
    }
}

#[test]
fn byte_string_layout() {
    let mut arena = Arena::new(3);
    // Seven bytes fill one word with a zero padding count.
    let v = bytes_to_ocamlrep(b"abcdefg", &mut arena);
    let block = arena.as_block(v).unwrap();
    assert_eq!(block.tag(), 252);
    assert_eq!(block.size(), 1);
    assert_eq!(block.field(0).to_bits() >> 56, 0);
    // Eight bytes need a second word, padded with seven.
    let v = bytes_to_ocamlrep(b"abcdefgh", &mut arena);
    let block = arena.as_block(v).unwrap();
    assert_eq!(block.size(), 2);
    assert_eq!(block.field(0).to_bits(), u64::from_le_bytes(*b"abcdefgh"));
    assert_eq!(block.field(1).to_bits() >> 56, 7);
    assert_eq!(bytes_from_ocamlrep(v, &arena).unwrap(), b"abcdefgh".to_vec());
    // The empty string is one word of padding.
    let v = bytes_to_ocamlrep(b"", &mut arena);
    let block = arena.as_block(v).unwrap();
    assert_eq!(block.size(), 1);
    assert_eq!(block.field(0).to_bits(), 7 << 56);
}

#[test]
fn some_list_layout() {
    let mut arena = Arena::new(4);
    let v = Some(vec![1i64, 2, 3]).to_ocamlrep(&mut arena);
    let some = arena.as_block(v).unwrap();
    assert_eq!(some.size(), 1);
    assert_eq!(some.tag(), 0);
    let mut cell = some.field(0);
    for expected in [1i64, 2, 3] {
        let cons = arena.as_block(cell).unwrap();
        assert_eq!(cons.size(), 2);
        assert_eq!(cons.tag(), 0);
        assert_eq!(cons.field(0).as_int(), Some(expected));
        cell = cons.field(1);
    }
    assert_eq!(cell.as_int(), Some(0));
}

#[test]
fn map_of_three_strings_round_trips_in_key_order() {
    let mut source = BTreeMap::new();
    source.insert(String::from("b"), 2i64);
    source.insert(String::from("c"), 3i64);
    source.insert(String::from("a"), 1i64);
    let entries: Vec<(String, i64)> = source.into_iter().collect();
    let mut arena = Arena::new(5);
    let (tree, height) = sorted_iter_to_ocaml_map(&entries, &mut arena);
    assert_eq!(height, 2);
    let back: Vec<(String, i64)> = vec_from_ocaml_map(tree, &arena).unwrap();
    assert_eq!(
        back,
        vec![(String::from("a"), 1), (String::from("b"), 2), (String::from("c"), 3)]
    );
    let root = arena.as_block(tree).unwrap();
    assert_eq!(root.size(), 5);
    assert_eq!(str_from_ocamlrep(root.field(1), &arena).unwrap(), "b");
    assert_eq!(root.field(4).as_int(), Some(2));
}

#[test]
fn set_tree_heights_are_balanced() {
    for n in 0..40i64 {
        let items: Vec<i64> = (0..n).collect();
        let mut arena = Arena::new(6);
        let (tree, height) = sorted_iter_to_ocaml_set(&items, &mut arena);
        let expected = 64 - (n as u64).leading_zeros() as usize;
        assert_eq!(height, expected);
        let back: Vec<i64> = vec_from_ocaml_set(tree, &arena).unwrap();
        assert_eq!(back, items);
        if n == 0 {
            assert_eq!(tree.as_int(), Some(0));
        } else {
            let root = arena.as_block(tree).unwrap();
            assert_eq!(root.size(), 4);
            assert_eq!(root.field(3).as_int(), Some(expected as i64));
        }
    }
}

#[test]
fn empty_map_is_immediate_zero() {
    let mut arena = Arena::new(7);
    let entries: Vec<(i64, i64)> = Vec::new();
    let (tree, height) = sorted_iter_to_ocaml_map(&entries, &mut arena);
    assert_eq!(height, 0);
    assert_eq!(tree.as_int(), Some(0));
    let back: Vec<(i64, i64)> = vec_from_ocaml_map(tree, &arena).unwrap();
    assert!(back.is_empty());
}

#[test]
fn memoized_source_is_shared_within_a_root() {
    let mut arena = Arena::new(8);
    let s = String::from("shared");
    arena.start_root();
    let first = arena.memoized(4096, 6, &s);
    let second = arena.memoized(4096, 6, &s);
    let other = arena.memoized(8192, 6, &s);
    arena.finish_root();
    assert_eq!(first.to_bits(), second.to_bits());
    assert_ne!(first.to_bits(), other.to_bits());
    assert_eq!(str_from_ocamlrep(first, &arena).unwrap(), "shared");
    // Outside a root conversion nothing is remembered.
    let third = arena.memoized(4096, 6, &s);
    assert_ne!(first.to_bits(), third.to_bits());
}

#[test]
fn add_root_encodes() {
    let mut arena = Arena::new(9);
    let v = arena.add_root(&vec![String::from("x"), String::from("y")]);
    let back: Vec<String> = from_ocamlrep(v, &arena).unwrap();
    assert_eq!(back, vec![String::from("x"), String::from("y")]);
    let w = arena.add(&7i64);
    assert_eq!(w.as_int(), Some(7));
}

#[test]
fn result_tag_out_of_range() {
    let mut arena = Arena::new(10);
    let mut block = arena.block_with_size_and_tag(1, 2);
    arena.set_field(&mut block, 0, Value::from_int(0));
    let v = arena.build(block);
    let r: Result<Result<i64, i64>, FromError> = from_ocamlrep(v, &arena);
    assert_eq!(r, Err(FromError::BlockTagOutOfRange { max: 1, actual: 2 }));
}

#[test]
fn nullary_tag_out_of_range() {
    let arena = Arena::new(11);
    let r: Result<Option<i64>, FromError> = from_ocamlrep(Value::from_int(1), &arena);
    assert_eq!(r, Err(FromError::NullaryVariantTagOutOfRange { max: 0, actual: 1 }));
}

#[test]
fn tuple_of_wrong_size() {
    let mut arena = Arena::new(12);
    let block = arena.block_with_size(3);
    let v = arena.build(block);
    let r: Result<(i64, i64), FromError> = from_ocamlrep(v, &arena);
    assert_eq!(r, Err(FromError::WrongBlockSize { expected: 2, actual: 3 }));
}

#[test]
fn invalid_utf8_is_reported() {
    let mut arena = Arena::new(13);
    let bad: &[u8] = &[0x66, 0xff, 0x6f];
    let v = bytes_to_ocamlrep(bad, &mut arena);
    let expected = std::str::from_utf8(bad).unwrap_err();
    assert_eq!(str_from_ocamlrep(v, &arena), Err(FromError::BadUtf8(expected)));
    let r: Result<String, FromError> = from_ocamlrep(v, &arena);
    assert_eq!(r, Err(FromError::BadUtf8(expected)));
}

#[test]
fn scalar_errors() {
    let mut arena = Arena::new(14);
    let r: Result<bool, FromError> = from_ocamlrep(Value::from_int(2), &arena);
    assert_eq!(r, Err(FromError::ExpectedBool(2)));
    let r: Result<(), FromError> = from_ocamlrep(Value::from_int(3), &arena);
    assert_eq!(r, Err(FromError::ExpectedUnit(3)));
    let v = Some(1i64).to_ocamlrep(&mut arena);
    let r: Result<i64, FromError> = from_ocamlrep(v, &arena);
    assert_eq!(r, Err(FromError::ExpectedInt(v.to_bits())));
    let r: Result<Option<i64>, FromError> = from_ocamlrep(Value::from_int(0), &arena);
    assert_eq!(r, Ok(None));
    let r: Result<(i64, i64), FromError> = from_ocamlrep(Value::from_int(4), &arena);
    assert_eq!(r, Err(FromError::ExpectedBlock(4)));
}

#[test]
fn error_in_field_and_list_end() {
    let mut arena = Arena::new(15);
    let v = vec![true].to_ocamlrep(&mut arena);
    let r: Result<Vec<(i64, i64)>, FromError> = from_ocamlrep(v, &arena);
    assert_eq!(
        r,
        Err(FromError::ErrorInField(0, Box::new(FromError::ExpectedBlock(1))))
    );
    let mut cell = arena.block_with_size(2);
    arena.set_field(&mut cell, 0, Value::from_int(1));
    arena.set_field(&mut cell, 1, Value::from_int(5));
    let bad_end = arena.build(cell);
    let r: Result<Vec<i64>, FromError> = from_ocamlrep(bad_end, &arena);
    assert_eq!(r, Err(FromError::ExpectedUnit(5)));
    let s = String::from("x").to_ocamlrep(&mut arena);
    let r: Result<Vec<i64>, FromError> = from_ocamlrep(s, &arena);
    assert_eq!(r, Err(FromError::WrongBlockSize { expected: 2, actual: 1 }));
}

#[test]
fn ocaml_int_range() {
    assert!(OCamlInt::try_new((1 << 62) - 1).is_ok());
    assert!(OCamlInt::try_new(-(1 << 62)).is_ok());
    assert_eq!(OCamlInt::try_new(1 << 62), Err(FromError::Expected63BitInt(1 << 62)));
    assert_eq!(
        OCamlInt::try_new(-(1 << 62) - 1),
        Err(FromError::Expected63BitInt(-(1 << 62) - 1))
    );
    assert_eq!(OCamlInt::new_erase_msb(5).get(), 5);
    assert_eq!(OCamlInt::new_erase_msb(1 << 62).get(), -(1 << 62));
    assert_eq!(OCamlInt::new_erase_msb(-1).get(), -1);
    assert_eq!(OCamlInt::new_erase_msb(i64::MIN).get(), 0);
    let mut arena = Arena::new(16);
    let x = OCamlInt::try_new(-12).unwrap();
    let v = x.to_ocamlrep(&mut arena);
    let back: OCamlInt = from_ocamlrep(v, &arena).unwrap();
    assert_eq!(back, x);
}

#[test]
fn pointer_that_leads_nowhere() {
    let arena = Arena::new(17);
    let r: Result<Option<i64>, FromError> = from_ocamlrep(Value::from_bits(1 << 20), &arena);
    assert_eq!(r, Err(FromError::ExpectedInt(1 << 20)));
}

#[test]
fn wide_tuples_round_trip() {
    round_trip((1i64, 2i64, 3i64));
    round_trip((1i64, true, String::from("c"), 4i64));
    round_trip((1i64, 2i64, 3i64, 4i64, 5i64));
    round_trip((1i64, 2i64, 3i64, 4i64, 5i64, 6i64));
    round_trip((1i64, 2i64, 3i64, 4i64, 5i64, 6i64, 7i64));
    round_trip((1i64, 2i64, 3i64, 4i64, 5i64, 6i64, 7i64, Some(8i64)));
    let mut arena = Arena::new(18);
    let v = (1i64, 2i64, 3i64, 4i64, 5i64, 6i64, 7i64, 8i64).to_ocamlrep(&mut arena);
    let block = arena.as_block(v).unwrap();
    assert_eq!(block.size(), 8);
    assert_eq!(block.field(7).as_int(), Some(8));
    let r: Result<(i64, i64, i64), FromError> = from_ocamlrep(v, &arena);
    assert_eq!(r, Err(FromError::WrongBlockSize { expected: 3, actual: 8 }));
}

#[test]
fn narrower_integers() {
    round_trip(7u32);
    round_trip(-7i32);
    round_trip(9usize);
    round_trip(11u64);
    let arena = Arena::new(19);
    let r: Result<u32, FromError> = from_ocamlrep(Value::from_int(-1), &arena);
    let expected = u32::try_from(-1i64).unwrap_err();
    assert_eq!(r, Err(FromError::IntOutOfRange(expected)));
    let r: Result<i32, FromError> = from_ocamlrep(Value::from_int(1 << 40), &arena);
    assert!(matches!(r, Err(FromError::IntOutOfRange(_))));
}

#[test]
fn shared_pointers_round_trip() {
    round_trip(std::rc::Rc::new(vec![1i64, 2]));
    round_trip(std::sync::Arc::new(String::from("arc")));
}

#[test]
fn latin1_chars() {
    round_trip('a');
    round_trip('\u{ff}');
    round_trip('\0');
    let mut arena = Arena::new(20);
    assert_eq!('A'.to_ocamlrep(&mut arena).as_int(), Some(65));
    let r: Result<char, FromError> = from_ocamlrep(Value::from_int(256), &arena);
    assert_eq!(r, Err(FromError::ExpectedChar(256)));
    let r: Result<char, FromError> = from_ocamlrep(Value::from_int(-1), &arena);
    assert_eq!(r, Err(FromError::ExpectedChar(-1)));
}

#[test]
fn variant_helpers() {
    let mut arena = Arena::new(21);
    let limit = arena.end_index();
    assert_eq!(ocamlrep::convert::expect_nullary_variant(Value::from_int(2), &arena, limit, 3), Ok(2));
    assert_eq!(
        ocamlrep::convert::expect_nullary_variant(Value::from_int(4), &arena, limit, 3),
        Err(FromError::NullaryVariantTagOutOfRange { max: 3, actual: 4 })
    );
    let v = Some(1i64).to_ocamlrep(&mut arena);
    let limit = arena.end_index();
    assert_eq!(ocamlrep::convert::expect_block(v, &arena, limit), None);
    assert_eq!(
        ocamlrep::convert::expect_block(Value::from_int(-2), &arena, limit),
        Some(FromError::ExpectedBlock(-2))
    );
}

#[test]
fn btree_map_encoding_sorts_keys() {
    let mut source = BTreeMap::new();
    source.insert(String::from("c"), 3i64);
    source.insert(String::from("a"), 1i64);
    source.insert(String::from("b"), 2i64);
    let mut arena = Arena::new(40);
    let tree = source.to_ocamlrep(&mut arena);
    let back: Vec<(String, i64)> = vec_from_ocaml_map(tree, &arena).unwrap();
    assert_eq!(
        back,
        vec![(String::from("a"), 1), (String::from("b"), 2), (String::from("c"), 3)]
    );
    let mut decoded = BTreeMap::new();
    ocamlrep::tree::btree_map_from_ocamlrep(&mut decoded, tree, &arena).unwrap();
    assert_eq!(decoded, source);
    let root = arena.as_block(tree).unwrap();
    assert_eq!(root.field(4).as_int(), Some(2));
}

#[test]
fn btree_set_round_trips() {
    let source: BTreeSet<i64> = [5, -1, 3, 9, 0].into_iter().collect();
    let mut arena = Arena::new(41);
    let tree = source.to_ocamlrep(&mut arena);
    let back: Vec<i64> = vec_from_ocaml_set(tree, &arena).unwrap();
    assert_eq!(back, vec![-1, 0, 3, 5, 9]);
    let mut decoded = BTreeSet::new();
    ocamlrep::tree::btree_set_from_ocamlrep(&mut decoded, tree, &arena).unwrap();
    assert_eq!(decoded, source);
    let mut untouched: BTreeSet<i64> = BTreeSet::new();
    let r = ocamlrep::tree::btree_set_from_ocamlrep(&mut untouched, Value::from_int(3), &arena);
    assert_eq!(r, Err(FromError::NullaryVariantTagOutOfRange { max: 0, actual: 3 }));
    assert!(untouched.is_empty());
}

#[test]
fn references_encode_their_target() {
    let x = 12i64;
    let mut arena = Arena::new(42);
    let v = (&x).to_ocamlrep(&mut arena);
    assert_eq!(v.as_int(), Some(12));
}

#[test]
fn list_read_into_a_bump() {
    let bump = bumpalo::Bump::new();
    let mut arena = Arena::new(43);
    let v = vec![4i64, 5, 6].to_ocamlrep(&mut arena);
    let s: &[i64] = ocamlrep::convert::slice_from_ocamlrep_in(v, &arena, &bump).unwrap();
    assert_eq!(s, &[4, 5, 6]);
    // A bad end of list is reported before a bad head.
    let mut cell = arena.block_with_size(2);
    arena.set_field(&mut cell, 0, Value::from_bits(0x10_0000));
    arena.set_field(&mut cell, 1, Value::from_int(7));
    let bad = arena.build(cell);
    let r: Result<&[i64], FromError> = ocamlrep::convert::slice_from_ocamlrep_in(bad, &arena, &bump);
    assert_eq!(r, Err(FromError::ExpectedUnit(7)));
    let r: Result<Vec<i64>, FromError> = from_ocamlrep(bad, &arena);
    assert_eq!(r, Err(FromError::ErrorInField(0, Box::new(FromError::ExpectedInt(0x10_0000)))));
}

#[test]
fn arenas_keep_their_generation() {
    let a = Arena::new(100);
    let b = Arena::with_capacity(64, 101);
    assert_eq!(a.generation(), 100);
    assert_eq!(b.generation(), 101);
}

#[test]
fn clones_of_an_rc_are_shared_within_a_root() {
    let r1 = std::rc::Rc::new(vec![1i64, 2, 3]);
    let r2 = std::rc::Rc::clone(&r1);
    let other = std::rc::Rc::new(vec![1i64, 2, 3]);
    let mut arena = Arena::new(50);
    arena.start_root();
    let v1 = arena.add_rc(&r1);
    let v2 = arena.add_rc(&r2);
    let v3 = arena.add_rc(&other);
    arena.finish_root();
    assert_eq!(v1.to_bits(), v2.to_bits());
    assert_ne!(v1.to_bits(), v3.to_bits());
    let back: Vec<i64> = from_ocamlrep(v2, &arena).unwrap();
    assert_eq!(back, vec![1, 2, 3]);
    let a1 = std::sync::Arc::new(String::from("arc"));
    let a2 = std::sync::Arc::clone(&a1);
    arena.start_root();
    let w1 = arena.add_arc(&a1);
    let w2 = arena.add_arc(&a2);
    arena.finish_root();
    assert_eq!(w1.to_bits(), w2.to_bits());
}

#[test]
fn two_references_to_one_string_share_bits() {
    let s = String::from("shared text");
    let (first, second) = (&s, &s);
    let mut arena = Arena::new(51);
    arena.start_root();
    let v1 = arena.add_str_shared(first);
    let v2 = arena.add_str_shared(second);
    arena.finish_root();
    assert_eq!(v1.to_bits(), v2.to_bits());
    assert_eq!(str_from_ocamlrep(v1, &arena).unwrap(), "shared text");
}
