use pumpkin_wire::component::DataComponent;
use pumpkin_wire::hash::{ItemComponentHash, OptionalItemStackHash};
use pumpkin_wire::item::{ComponentData, ItemStack};
use pumpkin_wire::text::i32_to_decimal;
use pumpkin_wire::wire::{ByteReader, ReadingError, VarInt, put_bool, put_i32, put_var_int};

fn var_int_bytes(v: i32) -> Vec<u8> {
    let mut b = Vec::new();
    put_var_int(&mut b, &VarInt(v));
    b
}

#[test]
fn var_int_known_encodings() {
    assert_eq!(var_int_bytes(0), vec![0]);
    assert_eq!(var_int_bytes(1), vec![1]);
    assert_eq!(var_int_bytes(127), vec![0x7f]);
    assert_eq!(var_int_bytes(128), vec![0x80, 0x01]);
    assert_eq!(var_int_bytes(300), vec![0xac, 0x02]);
    assert_eq!(var_int_bytes(2097151), vec![0xff, 0xff, 0x7f]);
    assert_eq!(var_int_bytes(i32::MAX), vec![0xff, 0xff, 0xff, 0xff, 0x07]);
    assert_eq!(var_int_bytes(-1), vec![0xff, 0xff, 0xff, 0xff, 0x0f]);
    assert_eq!(var_int_bytes(i32::MIN), vec![0x80, 0x80, 0x80, 0x80, 0x08]);
}

#[test]
fn var_int_round_trip() {
    for v in [0, 1, -1, 63, 64, 127, 128, 255, 25565, 2097151, i32::MAX, i32::MIN, -12345] {
        let mut b = var_int_bytes(v);
        b.push(0xaa);
        let mut r = ByteReader::new(b);
        assert_eq!(r.get_var_int().unwrap(), VarInt(v));
        assert_eq!(r.remaining(), 1);
    }
}

#[test]
fn var_int_errors() {
    let mut r = ByteReader::new(vec![0x80, 0x80, 0x80, 0x80, 0x80, 0x01]);
    assert!(matches!(r.get_var_int(), Err(ReadingError::TooLarge(_))));
    let mut r = ByteReader::new(vec![0x80, 0x80]);
    assert!(matches!(r.get_var_int(), Err(ReadingError::Incomplete(_))));
    let mut r = ByteReader::new(vec![]);
    assert!(matches!(r.get_var_int(), Err(ReadingError::Incomplete(_))));
}

#[test]
fn i32_and_bool_round_trip() {
    let mut b = Vec::new();
    put_i32(&mut b, -2);
    put_i32(&mut b, 0x01020304);
    put_bool(&mut b, true);
    put_bool(&mut b, false);
    assert_eq!(b, vec![0xff, 0xff, 0xff, 0xfe, 1, 2, 3, 4, 1, 0]);
    let mut r = ByteReader::new(b);
    assert_eq!(r.get_i32().unwrap(), -2);
    assert_eq!(r.get_i32().unwrap(), 0x01020304);
    assert!(r.get_bool().unwrap());
    assert!(!r.get_bool().unwrap());
    assert!(matches!(r.get_bool(), Err(ReadingError::Incomplete(_))));
    let mut short = ByteReader::new(vec![1, 2, 3]);
    assert!(matches!(short.get_i32(), Err(ReadingError::Incomplete(_))));
}

#[test]
fn read_bytes_takes_exactly_n() {
    let mut r = ByteReader::new(vec![1, 2, 3, 4]);
    assert_eq!(r.read_bytes(3).unwrap(), vec![1, 2, 3]);
    assert_eq!(r.position(), 3);
    assert!(r.read_bytes(2).is_err());
}

fn sample_hash() -> ItemComponentHash {
    ItemComponentHash {
        added: vec![(VarInt(69), -559038737), (VarInt(6), 42)],
        removed: vec![VarInt(3), VarInt(300)],
    }
}

#[test]
fn component_hash_round_trip() {
    let h = sample_hash();
    let mut b = Vec::new();
    h.write(&mut b).unwrap();
    assert_eq!(
        b,
        vec![2, 69, 0xde, 0xad, 0xbe, 0xef, 6, 0, 0, 0, 42, 2, 3, 0xac, 0x02]
    );
    b.push(9);
    let mut r = ByteReader::new(b);
    let back = ItemComponentHash::read(&mut r).unwrap();
    assert_eq!(back.added, h.added);
    assert_eq!(back.removed, h.removed);
    assert_eq!(r.remaining(), 1);
}

#[test]
fn component_hash_length_bounds() {
    let mut r = ByteReader::new(var_int_bytes(257));
    assert!(matches!(ItemComponentHash::read(&mut r), Err(ReadingError::Message(_))));
    let mut r = ByteReader::new(var_int_bytes(-1));
    assert!(matches!(ItemComponentHash::read(&mut r), Err(ReadingError::Message(_))));
    let mut b = vec![0];
    b.extend(var_int_bytes(300));
    let mut r = ByteReader::new(b);
    assert!(matches!(ItemComponentHash::read(&mut r), Err(ReadingError::Message(_))));
    let mut r = ByteReader::new(vec![1, 5, 0, 0]);
    assert!(matches!(ItemComponentHash::read(&mut r), Err(ReadingError::Incomplete(_))));
}

fn hashed(item: i32, count: i32, h: &ItemComponentHash) -> OptionalItemStackHash {
    let mut b = vec![1];
    b.extend(var_int_bytes(item));
    b.extend(var_int_bytes(count));
    h.write(&mut b).unwrap();
    OptionalItemStackHash::read(&mut ByteReader::new(b)).unwrap()
}

#[test]
fn optional_hash_round_trip() {
    let none = OptionalItemStackHash(None);
    let mut b = Vec::new();
    none.write(&mut b).unwrap();
    assert_eq!(b, vec![0]);
    assert!(OptionalItemStackHash::read(&mut ByteReader::new(b)).unwrap().0.is_none());

    let some = hashed(1242, 64, &sample_hash());
    let mut b = Vec::new();
    some.write(&mut b).unwrap();
    let mut expected = vec![1, 0xda, 0x09, 64];
    sample_hash().write(&mut expected).unwrap();
    assert_eq!(b, expected);
    let again = OptionalItemStackHash::read(&mut ByteReader::new(b.clone())).unwrap();
    let mut b2 = Vec::new();
    again.write(&mut b2).unwrap();
    assert_eq!(b, b2);
}

fn stack_with_patch() -> ItemStack {
    let mut s = ItemStack::new(64, 1242);
    s.patch.push((DataComponent(69), Some(ComponentData { payload: vec![3, 0], checksum: -559038737 })));
    s.patch.push((DataComponent(6), Some(ComponentData { payload: vec![], checksum: 42 })));
    s.patch.push((DataComponent(3), None));
    s
}

#[test]
fn hash_equals_matches_the_described_stack() {
    let h = ItemComponentHash {
        added: vec![(VarInt(69), -559038737), (VarInt(6), 42)],
        removed: vec![VarInt(3)],
    };
    let stack = stack_with_patch();
    assert!(hashed(1242, 64, &h).hash_equals(&stack));
    assert!(!hashed(1243, 64, &h).hash_equals(&stack));
    assert!(!hashed(1242, 63, &h).hash_equals(&stack));
    let wrong_checksum = ItemComponentHash {
        added: vec![(VarInt(69), 1), (VarInt(6), 42)],
        removed: vec![VarInt(3)],
    };
    assert!(!hashed(1242, 64, &wrong_checksum).hash_equals(&stack));
    let wrong_removed = ItemComponentHash {
        added: vec![(VarInt(69), -559038737), (VarInt(6), 42)],
        removed: vec![VarInt(4)],
    };
    assert!(!hashed(1242, 64, &wrong_removed).hash_equals(&stack));
    let too_few = ItemComponentHash { added: vec![(VarInt(69), -559038737)], removed: vec![VarInt(3)] };
    assert!(!hashed(1242, 64, &too_few).hash_equals(&stack));
    assert!(OptionalItemStackHash(None).hash_equals(&ItemStack::empty()));
    assert!(!OptionalItemStackHash(None).hash_equals(&stack));
}

#[test]
fn decimal_text() {
    assert_eq!(i32_to_decimal(0), "0");
    assert_eq!(i32_to_decimal(7), "7");
    assert_eq!(i32_to_decimal(-45), "-45");
    assert_eq!(i32_to_decimal(1234567890), "1234567890");
    assert_eq!(i32_to_decimal(i32::MIN), "-2147483648");
    assert_eq!(i32_to_decimal(i32::MAX), "2147483647");
}

fn message_of<T: std::fmt::Debug>(r: Result<T, ReadingError>) -> String {
    match r {
        Err(ReadingError::Message(m)) => m,
        other => panic!("expected a message error, got {:?}", other),
    }
}

#[test]
fn hash_list_lengths_are_refused_with_their_text() {
    let mut r = ByteReader::new(vec![0x81, 0x02, 0xee]);
    assert_eq!(message_of(ItemComponentHash::read(&mut r)), "added_length out of bounds");
    assert_eq!(r.remaining(), 1);
    let mut r = ByteReader::new(vec![0, 0xff, 0xff, 0xff, 0xff, 0x0f, 0xee]);
    assert_eq!(message_of(ItemComponentHash::read(&mut r)), "removed_length out of bounds");
    assert_eq!(r.remaining(), 1);
}

#[test]
fn hashed_slot_passes_the_patch_error_on() {
    let mut r = ByteReader::new(vec![1, 5, 3, 0x81, 0x02, 0xee]);
    assert_eq!(message_of(OptionalItemStackHash::read(&mut r)), "added_length out of bounds");
    assert_eq!(r.remaining(), 1);
    let mut r = ByteReader::new(vec![1, 5]);
    match OptionalItemStackHash::read(&mut r) {
        Err(ReadingError::Incomplete(m)) => assert_eq!(m, "unexpected end of input"),
        other => panic!("expected end of input, got {:?}", other),
    }
    assert_eq!(r.remaining(), 0);
}

#[test]
fn hash_equals_answers_without_counting_on_a_mismatch() {
    let mut big = ItemStack::new(64, 1242);
    for _ in 0..300 {
        big.patch.push((DataComponent(3), None));
    }
    let h = ItemComponentHash { added: vec![], removed: vec![] };
    assert!(!hashed(1243, 64, &h).hash_equals(&big));
    assert!(!hashed(1242, 63, &h).hash_equals(&big));
    assert!(!OptionalItemStackHash(None).hash_equals(&big));
}

#[test]
fn var_int_failures_leave_the_reader_where_they_stop() {
    let mut r = ByteReader::new(vec![0x80, 0x80, 0x80, 0x80, 0x80, 0x01]);
    match r.get_var_int() {
        Err(ReadingError::TooLarge(m)) => assert_eq!(m, "VarInt"),
        other => panic!("expected too large, got {:?}", other),
    }
    assert_eq!(r.remaining(), 1);
    let mut r = ByteReader::new(vec![0x80, 0x80]);
    assert!(matches!(r.get_var_int(), Err(ReadingError::Incomplete(_))));
    assert_eq!(r.remaining(), 0);
    let mut r = ByteReader::new(vec![1, 2, 3]);
    assert!(matches!(r.get_i32(), Err(ReadingError::Incomplete(_))));
    assert_eq!(r.remaining(), 3);
}
