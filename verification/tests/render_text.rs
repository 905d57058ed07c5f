use nbt::NBT;

fn text(v: &NBT) -> String {
    String::from_utf8(v.render()).unwrap()
}

#[test]
fn scalars_render() {
    assert_eq!(text(&NBT::Byte(0xAB)), "0xAB");
    assert_eq!(text(&NBT::Byte(5)), "0x05");
    assert_eq!(text(&NBT::Short(300)), "300");
    assert_eq!(text(&NBT::Short(-5)), "-5");
    assert_eq!(text(&NBT::Int(0)), "0");
    assert_eq!(text(&NBT::Long(i64::MIN)), "-9223372036854775808");
    assert_eq!(text(&NBT::Long(i64::MAX)), "9223372036854775807");
    assert_eq!(text(&NBT::Float(0x3F80_0000)), "f32:0x3F800000");
    assert_eq!(
        text(&NBT::Double(0x3FF0_0000_0000_0000)),
        "f64:0x3FF0000000000000"
    );
    assert_eq!(text(&NBT::Str(b"hi".to_vec())), "\"hi\"");
    assert_eq!(text(&NBT::ByteArray(vec![1, 2, 3, 4])), "(4) bytes");
}

#[test]
fn scalar_list_renders_inline() {
    let v = NBT::List(3, vec![NBT::Int(1), NBT::Int(2), NBT::Int(3)]);
    assert_eq!(text(&v), "(3) entries [1, 2, 3]");
    assert_eq!(text(&NBT::List(1, vec![])), "(0) entries []");
}

#[test]
fn compound_renders_indented() {
    let v = NBT::Compound(vec![
        (b"k".to_vec(), NBT::Byte(5)),
        (b"s".to_vec(), NBT::Str(b"x".to_vec())),
    ]);
    assert_eq!(text(&v), "(2) entries {\n  k: 0x05\n  s: \"x\"\n}");
}

#[test]
fn nested_compound_renders_deeper() {
    let inner = NBT::Compound(vec![(b"b".to_vec(), NBT::Byte(1))]);
    let v = NBT::Compound(vec![(b"in".to_vec(), inner)]);
    assert_eq!(
        text(&v),
        "(1) entries {\n  in: (1) entries {\n    b: 0x01\n  }\n}"
    );
}

#[test]
fn list_of_compounds_renders_expanded() {
    let c1 = NBT::Compound(vec![(b"a".to_vec(), NBT::Byte(1))]);
    let c2 = NBT::Compound(vec![]);
    let v = NBT::List(10, vec![c1, c2]);
    assert_eq!(
        text(&v),
        "(2) entries [\n  (1) entries {\n    a: 0x01\n  },\n  (0) entries {\n  },\n]"
    );
}
