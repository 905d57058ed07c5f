use nbt::NbtError;
use nbt::NBT;

fn entry(name: &[u8], v: NBT) -> (Vec<u8>, NBT) {
    (name.to_vec(), v)
}

#[test]
fn body_byte_entry() {
    // tag Byte, name "b", value 5, then the end marker the fixture appends
    let bytes = vec![0x01u8, 0x00, 0x01, b'b', 0x05, 0x00];
    let mut src = nbt::ReadWrapper::from(bytes.clone());
    let v = src.read_compound(16).unwrap();
    assert_eq!(v, NBT::Compound(vec![entry(b"b", NBT::Byte(5))]));
    // the document encoding is the root frame followed by the same bytes
    let mut expected = vec![10u8, 0, 0];
    expected.extend_from_slice(&bytes);
    assert_eq!(v.dump().unwrap(), expected);
}

#[test]
fn short_doc_roundtrip() {
    let v = NBT::Compound(vec![entry(b"s", NBT::Short(300))]);
    let bytes = v.dump().unwrap();
    assert_eq!(bytes, vec![10u8, 0, 0, 2, 0, 1, b's', 0x01, 0x2C, 0]);
    let back = NBT::load(bytes).unwrap();
    assert_eq!(back, v);
}

#[test]
fn int_list_roundtrip() {
    let v = NBT::Compound(vec![entry(
        b"nums",
        NBT::List(3, vec![NBT::Int(1), NBT::Int(2), NBT::Int(3)]),
    )]);
    let bytes = v.dump().unwrap();
    let expected = vec![
        10u8, 0, 0, // root compound, empty name
        9, 0, 4, b'n', b'u', b'm', b's', // list entry named "nums"
        3, 0, 0, 0, 3, // element tag Int, count 3
        0, 0, 0, 1, 0, 0, 0, 2, 0, 0, 0, 3, // three big-endian ints
        0, // end marker
    ];
    assert_eq!(bytes, expected);
    assert_eq!(NBT::load(bytes).unwrap(), v);
}

#[test]
fn byte_array_roundtrip() {
    let v = NBT::Compound(vec![entry(
        b"data",
        NBT::ByteArray(vec![0xAA, 0xBB, 0xCC, 0xDD]),
    )]);
    let bytes = v.dump().unwrap();
    let expected = vec![
        10u8, 0, 0, 7, 0, 4, b'd', b'a', b't', b'a', 0, 0, 0, 4, 0xAA, 0xBB, 0xCC, 0xDD, 0,
    ];
    assert_eq!(bytes, expected);
    assert_eq!(NBT::load(bytes).unwrap(), v);
}

#[test]
fn scalars_roundtrip() {
    let v = NBT::Compound(vec![
        entry(b"b", NBT::Byte(0xFF)),
        entry(b"s", NBT::Short(-300)),
        entry(b"i", NBT::Int(-2_000_000_000)),
        entry(b"l", NBT::Long(i64::MIN)),
        entry(b"f", NBT::Float(0x3F80_0000)),
        entry(b"d", NBT::Double(0x3FF0_0000_0000_0000)),
        entry(b"t", NBT::Str(b"hello".to_vec())),
    ]);
    let bytes = v.dump().unwrap();
    assert_eq!(NBT::load(bytes).unwrap(), v);
}

#[test]
fn named_roundtrip_preserves_root_name() {
    let v = NBT::Compound(vec![entry(b"x", NBT::Byte(1))]);
    let bytes = v.dump_named(b"root", 64).unwrap();
    assert_eq!(bytes[0], 10);
    assert_eq!(&bytes[1..3], &[0, 4]);
    assert_eq!(&bytes[3..7], b"root");
    let (name, back) = NBT::load_named(bytes.clone(), 64).unwrap();
    assert_eq!(name, b"root".to_vec());
    assert_eq!(back, v);
    // and re-encoding reproduces the bytes exactly
    assert_eq!(back.dump_named(&name, 64).unwrap(), bytes);
}

#[test]
fn unknown_tag_is_rejected() {
    // root frame, then an entry whose tag id is 0xFF
    let bytes = vec![10u8, 0, 0, 0xFF, 0, 0];
    assert_eq!(NBT::load(bytes), Err(NbtError::UnknownTag));
}

#[test]
fn end_marker_as_root_is_rejected() {
    let bytes = vec![0u8, 0, 0];
    assert_eq!(NBT::load(bytes), Err(NbtError::UnknownTag));
}

#[test]
fn non_compound_root_is_rejected() {
    // a named Byte where the root compound belongs
    let bytes = vec![1u8, 0, 0, 5];
    assert_eq!(NBT::load(bytes), Err(NbtError::TypeMismatch));
}

#[test]
fn duplicate_key_is_rejected() {
    let bytes = vec![
        10u8, 0, 0, 1, 0, 1, b'x', 5, 1, 0, 1, b'x', 6, 0,
    ];
    assert_eq!(NBT::load(bytes), Err(NbtError::DuplicateKey));
}

#[test]
fn invalid_text_in_string_payload() {
    let bytes = vec![10u8, 0, 0, 8, 0, 1, b's', 0, 1, 0xFF, 0];
    assert_eq!(NBT::load(bytes), Err(NbtError::InvalidText));
}

#[test]
fn invalid_text_in_name() {
    let bytes = vec![10u8, 0, 0, 1, 0, 1, 0xFF, 5, 0];
    assert_eq!(NBT::load(bytes), Err(NbtError::InvalidText));
}

#[test]
fn every_proper_prefix_is_truncated() {
    let v = NBT::Compound(vec![
        entry(b"s", NBT::Short(300)),
        entry(b"t", NBT::Str(b"hi".to_vec())),
        entry(b"a", NBT::ByteArray(vec![1, 2, 3])),
        entry(b"l", NBT::List(1, vec![NBT::Byte(9)])),
    ]);
    let bytes = v.dump().unwrap();
    assert_eq!(NBT::load(bytes.clone()).unwrap(), v);
    for j in 0..bytes.len() {
        let cut = bytes[..j].to_vec();
        assert_eq!(NBT::load(cut), Err(NbtError::Truncated));
    }
}

#[test]
fn deep_nesting_roundtrips() {
    let mut v = NBT::Compound(vec![entry(b"leaf", NBT::Byte(1))]);
    for _ in 0..99 {
        v = NBT::Compound(vec![entry(b"a", v)]);
    }
    let bytes = v.dump().unwrap();
    assert_eq!(NBT::load(bytes).unwrap(), v);
}

#[test]
fn nesting_beyond_the_limit_is_rejected() {
    // 513 nested compounds exceed the default limit of 512
    let mut v = NBT::Compound(vec![]);
    for _ in 0..512 {
        v = NBT::Compound(vec![entry(b"a", v)]);
    }
    assert_eq!(v.dump(), Err(NbtError::DepthLimit));
    // the same document built by hand is rejected by the decoder too
    let mut bytes = vec![10u8, 0, 0];
    for _ in 0..512 {
        bytes.extend_from_slice(&[10, 0, 1, b'a']);
    }
    for _ in 0..513 {
        bytes.push(0);
    }
    assert_eq!(NBT::load(bytes), Err(NbtError::DepthLimit));
}

#[test]
fn nesting_at_the_limit_is_accepted() {
    let mut v = NBT::Compound(vec![]);
    for _ in 0..99 {
        v = NBT::Compound(vec![entry(b"a", v)]);
    }
    let bytes = v.dump_named(b"", 100).unwrap();
    let (_, back) = NBT::load_named(bytes, 100).unwrap();
    assert_eq!(back, v);
}

#[test]
fn heterogeneous_list_is_rejected() {
    let v = NBT::Compound(vec![entry(
        b"l",
        NBT::List(1, vec![NBT::Byte(1), NBT::Short(2)]),
    )]);
    assert_eq!(v.dump(), Err(NbtError::HeterogeneousList));
}

#[test]
fn list_with_wrong_declared_tag_is_rejected() {
    let v = NBT::Compound(vec![entry(b"l", NBT::List(3, vec![NBT::Byte(1)]))]);
    assert_eq!(v.dump(), Err(NbtError::HeterogeneousList));
}

#[test]
fn empty_list_keeps_its_declared_tag() {
    let bytes = vec![
        10u8, 0, 0, 9, 0, 1, b'e', 2, 0, 0, 0, 0, 0,
    ];
    let v = NBT::load(bytes.clone()).unwrap();
    assert_eq!(v, NBT::Compound(vec![entry(b"e", NBT::List(2, vec![]))]));
    assert_eq!(v.dump().unwrap(), bytes);
}

#[test]
fn empty_list_of_end_tag_decodes() {
    let bytes = vec![10u8, 0, 0, 9, 0, 1, b'e', 0, 0, 0, 0, 0, 0];
    let v = NBT::load(bytes.clone()).unwrap();
    assert_eq!(v, NBT::Compound(vec![entry(b"e", NBT::List(0, vec![]))]));
    assert_eq!(v.dump().unwrap(), bytes);
}

#[test]
fn nonempty_list_of_end_tag_is_rejected() {
    let bytes = vec![10u8, 0, 0, 9, 0, 1, b'e', 0, 0, 0, 0, 1, 0];
    assert_eq!(NBT::load(bytes), Err(NbtError::UnknownTag));
}

#[test]
fn nested_lists_roundtrip() {
    let inner1 = NBT::List(3, vec![NBT::Int(1), NBT::Int(2)]);
    let inner2 = NBT::List(3, vec![NBT::Int(3)]);
    let v = NBT::Compound(vec![entry(b"ll", NBT::List(9, vec![inner1, inner2]))]);
    let bytes = v.dump().unwrap();
    assert_eq!(NBT::load(bytes).unwrap(), v);
}

#[test]
fn trailing_bytes_are_left_unread() {
    let bytes = vec![10u8, 0, 0, 0, 99, 98, 97];
    let v = NBT::load(bytes).unwrap();
    assert_eq!(v, NBT::Compound(vec![]));
}

#[test]
fn dump_of_non_compound_is_rejected() {
    assert_eq!(NBT::Byte(1).dump(), Err(NbtError::TypeMismatch));
    assert_eq!(
        NBT::List(1, vec![NBT::Byte(1)]).dump(),
        Err(NbtError::TypeMismatch)
    );
}

#[test]
fn empty_input_is_truncated() {
    assert_eq!(NBT::load(vec![]), Err(NbtError::Truncated));
}
