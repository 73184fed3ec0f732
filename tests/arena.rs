use std::time::Instant;

use ocamlrep::bytes_from_ocamlrep;
use ocamlrep::export::export_plan;
use ocamlrep::export::Field;
use ocamlrep::Arena;
use ocamlrep::Block;
use ocamlrep::Value;

fn alloc_block(arena: &mut Arena, size: usize) -> Block {
    let block = arena.block_with_size(size);
    let value = arena.build(block);
    arena.as_block(value).unwrap()
}

#[test]
fn test_alloc_byte_string_with_len() {
    let mut arena = Arena::with_capacity(1000, 0);

    let msg: &[u8] = b"Hello world!";
    let mut w = arena.byte_string_with_len(msg.len());
    let bytes_written = w.write(msg);
    assert!(bytes_written == msg.len());

    let value: Value = arena.build_byte_string(w);
    assert_eq!(bytes_from_ocamlrep(value, &arena).unwrap(), msg);
}

#[test]
fn test_alloc_block_of_three_fields() {
    let mut arena = Arena::with_capacity(1000, 0);

    let mut block = arena.block_with_size(3);
    arena.set_field(&mut block, 0, Value::from_int(1));
    arena.set_field(&mut block, 1, Value::from_int(2));
    arena.set_field(&mut block, 2, Value::from_int(3));
    let value = arena.build(block);
    let block = arena.as_block(value).unwrap();

    assert_eq!(block.size(), 3);
    assert_eq!(block.field(0).as_int().unwrap(), 1);
    assert_eq!(block.field(1).as_int().unwrap(), 2);
    assert_eq!(block.field(2).as_int().unwrap(), 3);
}

#[test]
fn test_large_allocs() {
    let mut arena = Arena::with_capacity(1000, 0);

    let max = alloc_block(&mut arena, 1000);
    assert_eq!(max.size(), 1000);

    let two_thousand = alloc_block(&mut arena, 2000);
    assert_eq!(two_thousand.size(), 2000);

    let four_thousand = alloc_block(&mut arena, 4000);
    assert_eq!(four_thousand.size(), 4000);
}

#[test]
fn perf_test() {
    let mut arena = Arena::with_capacity(10_000, 0);

    println!("Benchmarks for allocating [1] 200,000 times");
    let now = Instant::now();
    for _ in 0..200_000 {
        let _ = vec![0; 1].into_boxed_slice();
    }
    println!("Alloc: {:?}", now.elapsed());

    let now = Instant::now();
    for _ in 0..200_000 {
        alloc_block(&mut arena, 1);
    }
    println!("Arena: {:?}", now.elapsed());

    println!("Benchmarks for allocating [5] 200,000 times");
    let now = Instant::now();
    for _ in 0..200_000 {
        let _ = vec![0; 5].into_boxed_slice();
    }
    println!("Alloc: {:?}", now.elapsed());

    let now = Instant::now();
    for _ in 0..200_000 {
        alloc_block(&mut arena, 5);
    }
    println!("Arena: {:?}", now.elapsed());

    println!("Benchmarks for allocating [10] 200,000 times");
    let now = Instant::now();
    for _ in 0..200_000 {
        let _ = vec![0; 10].into_boxed_slice();
    }
    println!("Alloc: {:?}", now.elapsed());

    let now = Instant::now();
    for _ in 0..200_000 {
        alloc_block(&mut arena, 10);
    }
    println!("Arena: {:?}", now.elapsed());
}

#[test]
fn growth_keeps_earlier_blocks() {
    let mut arena = Arena::with_capacity(16, 0);
    let mut first = arena.block_with_size(1);
    arena.set_field(&mut first, 0, Value::from_int(42));
    let first = arena.build(first);
    // Far larger than the first chunk: a new chunk is opened.
    let _big = alloc_block(&mut arena, 100);
    let _bigger = alloc_block(&mut arena, 1000);
    let block = arena.as_block(first).unwrap();
    assert_eq!(block.size(), 1);
    assert_eq!(block.field(0).as_int(), Some(42));
}

#[test]
fn immediates_round_trip_through_bits() {
    assert_eq!(Value::from_int(0).to_bits(), 1);
    assert_eq!(Value::from_int(1).to_bits(), 3);
    assert_eq!(Value::from_int(-1).to_bits(), u64::MAX);
    assert_eq!(Value::from_int(-1).as_int(), Some(-1));
    assert_eq!(Value::from_int(i64::MAX).as_int(), Some(-1));
    assert_eq!(Value::from_int((1 << 62) - 1).as_int(), Some((1 << 62) - 1));
    assert_eq!(Value::from_int(-(1 << 62)).as_int(), Some(-(1 << 62)));
    assert!(Value::from_bits(8).is_block());
    assert_eq!(Value::from_bits(8).as_int(), None);
}

#[test]
fn generation_is_kept() {
    let arena = Arena::with_capacity(64, 7);
    assert_eq!(arena.generation(), 7);
}

#[test]
fn export_plan_orders_and_shares_blocks() {
    let mut arena = Arena::new(1);
    let mut leaf = arena.block_with_size(1);
    arena.set_field(&mut leaf, 0, Value::from_int(9));
    let leaf = arena.build(leaf);
    let mut pair = arena.block_with_size(3);
    arena.set_field(&mut pair, 0, leaf);
    arena.set_field(&mut pair, 1, leaf);
    arena.set_field(&mut pair, 2, Value::from_int(4));
    let pair = arena.build(pair);
    let (plan, root) = export_plan(&arena, pair);
    assert_eq!(plan.len(), 2);
    assert_eq!(root, Field::Earlier(1));
    assert_eq!(plan[0].fields, vec![Field::Word(Value::from_int(9).to_bits())]);
    assert_eq!(
        plan[1].fields,
        vec![Field::Earlier(0), Field::Earlier(0), Field::Word(Value::from_int(4).to_bits())]
    );
    let (plan, root) = export_plan(&arena, Value::from_int(3));
    assert!(plan.is_empty());
    assert_eq!(root, Field::Word(Value::from_int(3).to_bits()));
}
