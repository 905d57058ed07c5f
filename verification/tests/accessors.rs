use nbt::NbtError;
use nbt::ReadWrapper;
use nbt::NBT;

fn sample() -> NBT {
    NBT::Compound(vec![
        (b"b".to_vec(), NBT::Byte(5)),
        (b"s".to_vec(), NBT::Str(b"hi".to_vec())),
    ])
}

#[test]
fn get_finds_an_entry() {
    let v = sample();
    assert_eq!(v.get(b"b"), Some(&NBT::Byte(5)));
    assert_eq!(v.get(b"s"), Some(&NBT::Str(b"hi".to_vec())));
    assert_eq!(v.get(b"missing"), None);
    assert_eq!(NBT::Byte(1).get(b"b"), None);
}

#[test]
fn get_finds_the_first_of_equal_names() {
    // trees built by hand may repeat a name; lookup takes the first
    let v = NBT::Compound(vec![
        (b"x".to_vec(), NBT::Byte(1)),
        (b"x".to_vec(), NBT::Byte(2)),
    ]);
    assert_eq!(v.get(b"x"), Some(&NBT::Byte(1)));
}

#[test]
fn get_mut_updates_in_place() {
    let mut v = sample();
    match v.get_mut(b"b") {
        Some(slot) => {
            *slot = NBT::Byte(9);
        },
        None => panic!("entry not found"),
    }
    assert_eq!(v.get(b"b"), Some(&NBT::Byte(9)));
    assert_eq!(v.get(b"s"), Some(&NBT::Str(b"hi".to_vec())));
    assert_eq!(v.get_mut(b"missing"), None);
    assert_eq!(NBT::Byte(1).get_mut(b"b"), None);
}

#[test]
fn as_compound_narrows() {
    let v = sample();
    let m = v.as_compound().unwrap();
    assert_eq!(m.len(), 2);
    assert_eq!(m[0].0, b"b".to_vec());
    assert_eq!(NBT::Byte(1).as_compound().err(), Some(NbtError::TypeMismatch));
}

#[test]
fn as_mut_compound_narrows() {
    let mut v = sample();
    {
        let m = v.as_mut_compound().unwrap();
        m.push((b"n".to_vec(), NBT::Int(7)));
    }
    assert_eq!(v.get(b"n"), Some(&NBT::Int(7)));
    let mut w = NBT::Byte(1);
    assert_eq!(w.as_mut_compound().err(), Some(NbtError::TypeMismatch));
}

#[test]
fn as_list_narrows() {
    let v = NBT::List(3, vec![NBT::Int(1), NBT::Int(2)]);
    let items = v.as_list().unwrap();
    assert_eq!(items.len(), 2);
    assert_eq!(items[1], NBT::Int(2));
    assert_eq!(sample().as_list().err(), Some(NbtError::TypeMismatch));
}

#[test]
fn is_compound_and_tag_ids() {
    assert!(sample().is_compound());
    assert!(!NBT::Byte(0).is_compound());
    assert_eq!(NBT::get_type_id(&NBT::Byte(0)), 1);
    assert_eq!(NBT::get_type_id(&NBT::Short(0)), 2);
    assert_eq!(NBT::get_type_id(&NBT::Int(0)), 3);
    assert_eq!(NBT::get_type_id(&NBT::Long(0)), 4);
    assert_eq!(NBT::get_type_id(&NBT::Float(0)), 5);
    assert_eq!(NBT::get_type_id(&NBT::Double(0)), 6);
    assert_eq!(NBT::get_type_id(&NBT::ByteArray(vec![])), 7);
    assert_eq!(NBT::get_type_id(&NBT::Str(vec![])), 8);
    assert_eq!(NBT::get_type_id(&NBT::List(1, vec![])), 9);
    assert_eq!(NBT::get_type_id(&NBT::Compound(vec![])), 10);
}

#[test]
fn shape_checks() {
    let v = sample();
    assert!(v.sizes_ok());
    assert!(v.hom_check());
    assert!(v.depth_within(1));
    assert!(!v.depth_within(0));
    let het = NBT::List(1, vec![NBT::Byte(1), NBT::Short(2)]);
    assert!(!het.hom_check());
    assert!(NBT::List(1, vec![NBT::Byte(1)]).hom_check());
}

#[test]
fn read_n_consumes_exactly() {
    let mut src = ReadWrapper::from(vec![1, 2, 3, 4]);
    assert_eq!(src.read_n(2).unwrap(), vec![1, 2]);
    assert_eq!(src.read_n(1).unwrap(), vec![3]);
    assert_eq!(src.read_n(2), Err(NbtError::Truncated));
    assert_eq!(src.read_n(1).unwrap(), vec![4]);
}

#[test]
fn read_name_reads_a_frame() {
    let mut src = ReadWrapper::from(vec![0, 2, b'h', b'i', 9]);
    assert_eq!(src.read_name().unwrap(), b"hi".to_vec());
    let mut empty = ReadWrapper::from(vec![0, 0]);
    assert_eq!(empty.read_name().unwrap(), Vec::<u8>::new());
    let mut bad = ReadWrapper::from(vec![0, 1, 0xFF]);
    assert_eq!(bad.read_name(), Err(NbtError::InvalidText));
    let mut short = ReadWrapper::from(vec![0, 5, b'a']);
    assert_eq!(short.read_name(), Err(NbtError::Truncated));
}

#[test]
fn read_plain_nbt_reads_scalars() {
    let mut src = ReadWrapper::from(vec![0x01, 0x2C]);
    assert_eq!(src.read_plain_nbt(2).unwrap(), NBT::Short(300));
    let mut src2 = ReadWrapper::from(vec![0, 0, 0, 2, 7, 8]);
    assert_eq!(
        src2.read_plain_nbt(7).unwrap(),
        NBT::ByteArray(vec![7, 8])
    );
    let mut src3 = ReadWrapper::from(vec![0xFF, 0xFF, 0xFF, 0xFF]);
    assert_eq!(src3.read_plain_nbt(3).unwrap(), NBT::Int(-1));
}

#[test]
fn read_list_reads_a_body() {
    let mut src = ReadWrapper::from(vec![1, 0, 0, 0, 2, 7, 9]);
    assert_eq!(
        src.read_list(4).unwrap(),
        NBT::List(1, vec![NBT::Byte(7), NBT::Byte(9)])
    );
}

#[test]
fn new_is_callable() {
    NBT::new();
}
