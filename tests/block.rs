use std::collections::hash_map::DefaultHasher;
use std::hash::{Hash, Hasher};

use anvil_region::block::{RustBlock, LegacyTable, RustOldBlock};
use anvil_region::error::AnvilError;
use anvil_region::nbt::PyNbtValue;

fn s(text: &str) -> Vec<u8> {
    text.as_bytes().to_vec()
}

fn hash_of(b: &RustBlock) -> u64 {
    let mut h = DefaultHasher::new();
    b.hash(&mut h);
    h.finish()
}

fn props(pairs: &[(&str, &str)]) -> Vec<(Vec<u8>, Vec<u8>)> {
    pairs.iter().map(|(k, v)| (s(k), s(v))).collect()
}

#[test]
fn from_name_splits_on_the_colon() {
    let b = RustBlock::from_name(b"minecraft:stone", None).unwrap();
    assert_eq!(b.namespace, s("minecraft"));
    assert_eq!(b.id, s("stone"));
    assert!(b.properties.is_empty());
    assert_eq!(b.name(), s("minecraft:stone"));
}

#[test]
fn from_name_needs_exactly_one_colon() {
    assert_eq!(RustBlock::from_name(b"stone", None).unwrap_err(), AnvilError::InvalidFormat);
    assert_eq!(RustBlock::from_name(b"a:b:c", None).unwrap_err(), AnvilError::InvalidFormat);
    let b = RustBlock::from_name(b":", None).unwrap();
    assert!(b.namespace.is_empty() && b.id.is_empty());
}

#[test]
fn bare_id_defaults_to_minecraft() {
    let b = RustBlock::new(s("dirt"), None, None);
    assert_eq!(b.name(), s("minecraft:dirt"));
    let b = RustBlock::new(s("mod"), Some(s("ore")), None);
    assert_eq!(b.name(), s("mod:ore"));
}

#[test]
fn property_order_does_not_matter() {
    let a = RustBlock::from_name(b"minecraft:stairs", Some(props(&[("facing", "north"), ("half", "top"), ("shape", "straight")]))).unwrap();
    let b = RustBlock::from_name(b"minecraft:stairs", Some(props(&[("shape", "straight"), ("facing", "north"), ("half", "top")]))).unwrap();
    assert_eq!(a, b);
    assert_eq!(hash_of(&a), hash_of(&b));
    assert_eq!(a.properties, props(&[("facing", "north"), ("half", "top"), ("shape", "straight")]));
    let c = RustBlock::from_name(b"minecraft:stairs", Some(props(&[("facing", "south"), ("half", "top"), ("shape", "straight")]))).unwrap();
    assert_ne!(a, c);
}

#[test]
fn repeated_property_keeps_last_value() {
    let b = RustBlock::new(s("lever"), None, Some(props(&[("powered", "false"), ("face", "wall"), ("powered", "true")])));
    assert_eq!(b.properties, props(&[("face", "wall"), ("powered", "true")]));
}

#[test]
fn old_block_converts_through_table() {
    let mut table = LegacyTable::new();
    table.insert(1, 0, s("minecraft:stone"));
    table.insert(1, 1, s("minecraft:granite"));
    let converted = RustOldBlock::new(1, 0).convert(&table).unwrap();
    assert_eq!(converted, RustBlock::from_name(b"minecraft:stone", None).unwrap());
    assert_eq!(RustBlock::from_numeric_id(&table, 1, 1).unwrap().id, s("granite"));
    assert_eq!(
        RustOldBlock::new(2, 0).convert(&table).unwrap_err(),
        AnvilError::UnknownLegacyId { id: 2, data: 0 }
    );
}

#[test]
fn later_table_entry_wins() {
    let mut table = LegacyTable::new();
    table.insert(5, 0, s("minecraft:oak_planks"));
    table.insert(5, 0, s("minecraft:spruce_planks"));
    assert_eq!(table.lookup(5, 0), Some(&s("minecraft:spruce_planks")));
    assert_eq!(table.lookup(5, 1), None);
}

#[test]
fn from_palette_reads_name_and_properties() {
    let entry = PyNbtValue::Compound(vec![
        (s("Name"), PyNbtValue::String(s("minecraft:oak_log"))),
        (s("Properties"), PyNbtValue::Compound(vec![(s("axis"), PyNbtValue::String(s("y")))])),
    ]);
    let b = RustBlock::from_palette(&entry).unwrap();
    assert_eq!(b.name(), s("minecraft:oak_log"));
    assert_eq!(b.properties, props(&[("axis", "y")]));
    let bare = PyNbtValue::Compound(vec![(s("Name"), PyNbtValue::String(s("minecraft:air")))]);
    assert!(RustBlock::from_palette(&bare).unwrap().properties.is_empty());
}

#[test]
fn from_palette_failures() {
    let missing = PyNbtValue::Compound(vec![]);
    assert_eq!(RustBlock::from_palette(&missing).unwrap_err(), AnvilError::InvalidChunkData);
    let bad_prop = PyNbtValue::Compound(vec![
        (s("Name"), PyNbtValue::String(s("minecraft:oak_log"))),
        (s("Properties"), PyNbtValue::Compound(vec![(s("axis"), PyNbtValue::Int(1))])),
    ]);
    assert_eq!(RustBlock::from_palette(&bad_prop).unwrap_err(), AnvilError::InvalidChunkData);
    let bad_name = PyNbtValue::Compound(vec![(s("Name"), PyNbtValue::String(s("oak_log")))]);
    assert_eq!(RustBlock::from_palette(&bad_name).unwrap_err(), AnvilError::InvalidFormat);
}
