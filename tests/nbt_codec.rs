use anvil_region::error::AnvilError;
use anvil_region::nbt::{PyNbtCompound, PyNbtFile, PyNbtValue};

fn s(text: &str) -> Vec<u8> {
    text.as_bytes().to_vec()
}

fn compound(members: Vec<(&str, PyNbtValue)>) -> PyNbtValue {
    PyNbtValue::Compound(members.into_iter().map(|(k, v)| (s(k), v)).collect())
}

fn sample_document() -> PyNbtFile {
    PyNbtFile {
        name: s("root"),
        root: compound(vec![
            ("b", PyNbtValue::Byte(-3)),
            ("s", PyNbtValue::Short(-2)),
            ("i", PyNbtValue::Int(123456)),
            ("l", PyNbtValue::Long(-1)),
            ("f", PyNbtValue::Float(0x3f80_0000)),
            ("d", PyNbtValue::Double(0x3ff0_0000_0000_0000)),
            ("ba", PyNbtValue::ByteArray(vec![1, -1, 7])),
            ("str", PyNbtValue::String(s("héllo"))),
            ("list", PyNbtValue::List(3, vec![PyNbtValue::Int(1), PyNbtValue::Int(2)])),
            ("empty", PyNbtValue::List(0, vec![])),
            ("nested", compound(vec![("x", PyNbtValue::Int(9))])),
            ("ia", PyNbtValue::IntArray(vec![-5, 6])),
            ("la", PyNbtValue::LongArray(vec![i64::MIN, 42])),
        ]),
    }
}

#[test]
fn decode_minimal_document() {
    let bytes = vec![10u8, 0, 0, 0];
    let doc = PyNbtFile::from_bytes(&bytes).unwrap();
    assert!(doc.name.is_empty());
    assert!(matches!(doc.root, PyNbtValue::Compound(ref es) if es.is_empty()));
}

#[test]
fn decode_named_int_member() {
    // root "r" { "x": Int 258 }
    let bytes = vec![10u8, 0, 1, b'r', 3, 0, 1, b'x', 0, 0, 1, 2, 0];
    let doc = PyNbtFile::from_bytes(&bytes).unwrap();
    assert_eq!(doc.name, b"r".to_vec());
    match &doc.root {
        PyNbtValue::Compound(es) => {
            assert_eq!(es.len(), 1);
            assert_eq!(es[0].0, b"x".to_vec());
            assert!(matches!(es[0].1, PyNbtValue::Int(258)));
        }
        _ => panic!("root is not a compound"),
    }
}

#[test]
fn encode_then_decode_is_identity() {
    let doc = sample_document();
    let bytes = doc.encode();
    let back = PyNbtFile::from_bytes(&bytes).unwrap();
    assert_eq!(format!("{:?}", back), format!("{:?}", doc));
    assert_eq!(back.encode(), bytes);
}

#[test]
fn encode_exact_bytes() {
    let doc = PyNbtFile { name: s("a"), root: compound(vec![("s", PyNbtValue::Short(0x0102))]) };
    assert_eq!(doc.encode(), vec![10u8, 0, 1, b'a', 2, 0, 1, b's', 1, 2, 0]);
}

#[test]
fn decode_rejects_bad_root_tag() {
    assert_eq!(PyNbtFile::from_bytes(&[3u8, 0, 0]).unwrap_err(), AnvilError::MalformedTag);
}

#[test]
fn decode_rejects_unknown_member_tag() {
    let bytes = vec![10u8, 0, 0, 13, 0, 1, b'x', 0];
    assert_eq!(PyNbtFile::from_bytes(&bytes).unwrap_err(), AnvilError::MalformedTag);
}

#[test]
fn decode_reports_truncation() {
    assert_eq!(PyNbtFile::from_bytes(&[]).unwrap_err(), AnvilError::TruncatedInput);
    // the compound never ends
    assert_eq!(PyNbtFile::from_bytes(&[10u8, 0, 0]).unwrap_err(), AnvilError::TruncatedInput);
    // an int with two of its four bytes
    let bytes = vec![10u8, 0, 0, 3, 0, 1, b'x', 0, 0];
    assert_eq!(PyNbtFile::from_bytes(&bytes).unwrap_err(), AnvilError::TruncatedInput);
    // an int array that declares more elements than remain
    let bytes = vec![10u8, 0, 0, 11, 0, 1, b'a', 0, 0, 0, 2, 0, 0, 0, 1, 0];
    assert_eq!(PyNbtFile::from_bytes(&bytes).unwrap_err(), AnvilError::TruncatedInput);
}

#[test]
fn decode_rejects_invalid_utf8() {
    let bytes = vec![10u8, 0, 0, 8, 0, 1, b's', 0, 2, 0xff, 0xfe, 0];
    assert_eq!(PyNbtFile::from_bytes(&bytes).unwrap_err(), AnvilError::InvalidUtf8);
    let bytes = vec![10u8, 0, 1, 0xc3, 0];
    assert_eq!(PyNbtFile::from_bytes(&bytes).unwrap_err(), AnvilError::InvalidUtf8);
}

#[test]
fn decode_rejects_negative_list_length() {
    let bytes = vec![10u8, 0, 0, 9, 0, 1, b'l', 3, 0xff, 0xff, 0xff, 0xff, 0];
    assert_eq!(PyNbtFile::from_bytes(&bytes).unwrap_err(), AnvilError::MalformedTag);
}

#[test]
fn decode_ignores_trailing_bytes() {
    let bytes = vec![10u8, 0, 0, 0, 99, 98];
    assert!(PyNbtFile::from_bytes(&bytes).is_ok());
}

#[test]
fn repeated_name_lookup_takes_last() {
    let v = compound(vec![("k", PyNbtValue::Int(1)), ("k", PyNbtValue::Int(2))]);
    let got = anvil_region::nbt::get_member(&v, b"k");
    assert!(matches!(got, Some(PyNbtValue::Int(2))));
    assert!(anvil_region::nbt::get_member(&v, b"missing").is_none());
}

#[test]
fn compound_set_replaces_or_appends() {
    let mut es = vec![(s("a"), PyNbtValue::Int(1)), (s("b"), PyNbtValue::Int(2))];
    anvil_region::nbt::compound_set(&mut es, s("a"), PyNbtValue::Int(10));
    assert_eq!(es.len(), 2);
    assert_eq!(es[0].0, s("a"));
    assert!(matches!(es[0].1, PyNbtValue::Int(10)));
    anvil_region::nbt::compound_set(&mut es, s("c"), PyNbtValue::Byte(3));
    assert_eq!(anvil_region::nbt::compound_keys(&es), vec![s("a"), s("b"), s("c")]);
    assert!(anvil_region::nbt::compound_contains(&es, b"c"));
    assert!(!anvil_region::nbt::compound_contains(&es, b"d"));
    assert!(matches!(anvil_region::nbt::compound_get(&es, b"b"), Some(PyNbtValue::Int(2))));
}

#[test]
fn compound_and_file_helpers() {
    let mut c = PyNbtCompound::new();
    c.set(s("name"), PyNbtValue::new_string(s("stone")));
    c.set(s("count"), PyNbtValue::new_byte(3));
    c.set(s("name"), PyNbtValue::new_string(s("dirt")));
    assert_eq!(c.keys(), vec![s("name"), s("count")]);
    assert!(c.contains(b"count"));
    assert!(matches!(c.get(b"name"), Some(PyNbtValue::String(v)) if v == &s("dirt")));
    let v = PyNbtValue::new_compound(c);
    let file = PyNbtFile { name: s("level"), root: v };
    assert!(matches!(file.get(b"count"), Some(PyNbtValue::Byte(3))));
    let back = PyNbtFile::from_bytes(&file.encode()).unwrap();
    assert_eq!(back.name, s("level"));
    assert!(matches!(back.get(b"name"), Some(PyNbtValue::String(v)) if v == &s("dirt")));
    let empty = PyNbtFile::new(s("x"));
    assert_eq!(empty.encode(), vec![10u8, 0, 1, b'x', 0]);
}
