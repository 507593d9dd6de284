use anvil_region::block::{RustBlock, LegacyTable};
use anvil_region::chunk::{format_era, unpack_index, RustChunk, FormatEra};
use anvil_region::error::AnvilError;
use anvil_region::nbt::{PyNbtFile, PyNbtValue};

fn s(text: &str) -> Vec<u8> {
    text.as_bytes().to_vec()
}

fn compound(members: Vec<(&str, PyNbtValue)>) -> PyNbtValue {
    PyNbtValue::Compound(members.into_iter().map(|(k, v)| (s(k), v)).collect())
}

fn palette_entry(name: &str) -> PyNbtValue {
    compound(vec![("Name", PyNbtValue::String(s(name)))])
}

/// A root-layout chunk with sections at heights 0 and 2; in section 0 the block at
/// x = 1 is stone and the rest air.
fn modern_chunk() -> RustChunk {
    let section = |y: i8, with_stone: bool| {
        compound(vec![
            ("Y", PyNbtValue::Byte(y)),
            (
                "block_states",
                compound(vec![
                    (
                        "palette",
                        PyNbtValue::List(10, vec![palette_entry("minecraft:air"), palette_entry("minecraft:stone")]),
                    ),
                    ("data", PyNbtValue::LongArray(vec![if with_stone { 0x10 } else { 0 }; 256])),
                ]),
            ),
        ])
    };
    let entity = compound(vec![
        ("id", PyNbtValue::String(s("minecraft:chest"))),
        ("x", PyNbtValue::Int(1)),
        ("y", PyNbtValue::Int(2)),
        ("z", PyNbtValue::Int(3)),
    ]);
    let doc = PyNbtFile {
        name: vec![],
        root: compound(vec![
            ("DataVersion", PyNbtValue::Int(3000)),
            ("xPos", PyNbtValue::Int(5)),
            ("zPos", PyNbtValue::Int(-7)),
            ("sections", PyNbtValue::List(10, vec![section(0, true), section(2, false)])),
            ("block_entities", PyNbtValue::List(10, vec![entity])),
        ]),
    };
    RustChunk::new(doc).unwrap()
}

fn legacy_chunk() -> RustChunk {
    let mut blocks = vec![0i8; 4096];
    blocks[1] = 1;
    let mut data = vec![0i8; 2048];
    data[0] = 0x10;
    let doc = PyNbtFile {
        name: vec![],
        root: compound(vec![(
            "Level",
            compound(vec![
                ("xPos", PyNbtValue::Int(3)),
                ("zPos", PyNbtValue::Int(4)),
                (
                    "Sections",
                    PyNbtValue::List(
                        10,
                        vec![compound(vec![
                            ("Y", PyNbtValue::Byte(0)),
                            ("Blocks", PyNbtValue::ByteArray(blocks)),
                            ("Data", PyNbtValue::ByteArray(data)),
                        ])],
                    ),
                ),
                ("TileEntities", PyNbtValue::List(0, vec![])),
            ]),
        )]),
    };
    RustChunk::new(doc).unwrap()
}

fn air() -> RustBlock {
    RustBlock::from_name(b"minecraft:air", None).unwrap()
}

fn stone() -> RustBlock {
    RustBlock::from_name(b"minecraft:stone", None).unwrap()
}

#[test]
fn modern_chunk_fields() {
    let c = modern_chunk();
    assert_eq!(c.version, Some(3000));
    assert_eq!((c.x, c.z), (5, -7));
    assert_eq!((c.lowest_y, c.highest_y), (Some(0), Some(2)));
    assert_eq!(c.sections.len(), 2);
    assert_eq!(c.block_entities().len(), 1);
    assert_eq!(c.tile_entities().len(), 1);
}

#[test]
fn modern_block_lookup() {
    let c = modern_chunk();
    let table = LegacyTable::new();
    assert_eq!(c.get_block(0, 0, 0, None, &table).unwrap(), air());
    assert_eq!(c.get_block(1, 0, 0, None, &table).unwrap(), stone());
    assert_eq!(c.get_block(1, 16, 0, None, &table).unwrap(), air());
    assert_eq!(c.get_block(1, 32, 0, None, &table).unwrap(), air());
    assert_eq!(c.get_block(1, 5, 0, Some(0), &table).unwrap(), stone());
    assert_eq!(c.get_block(2, 5, 0, Some(0), &table).unwrap(), air());
}

#[test]
fn coordinates_out_of_bounds() {
    let c = modern_chunk();
    let table = LegacyTable::new();
    for (x, y, z) in [(-1, 0, 0), (16, 0, 0), (0, 0, -1), (0, 0, 16), (0, -1, 0), (0, 48, 0)] {
        assert_eq!(
            c.get_block(x, y, z, None, &table).unwrap_err(),
            AnvilError::OutOfBoundsCoordinates { x, y, z }
        );
    }
    assert!(c.get_block(0, 47, 15, None, &table).is_ok());
    assert_eq!(
        c.get_block(0, 3, 0, Some(3), &table).unwrap_err(),
        AnvilError::OutOfBoundsCoordinates { x: 0, y: 3, z: 0 }
    );
}

#[test]
fn sections_by_height() {
    let c = modern_chunk();
    assert_eq!(c.get_section(0).unwrap().unwrap().y, 0);
    assert!(c.get_section(1).unwrap().is_none());
    assert_eq!(
        c.get_section(3).err(),
        Some(AnvilError::OutOfBoundsCoordinates { x: 0, y: 3, z: 0 })
    );
}

#[test]
fn stream_walks_section_in_order() {
    let c = modern_chunk();
    let table = LegacyTable::new();
    let mut st = c.stream_blocks(0, Some(0)).unwrap();
    assert_eq!(st.next(&c, &table).unwrap().unwrap(), air());
    assert_eq!(st.next(&c, &table).unwrap().unwrap(), stone());
    let mut count = 2;
    while let Some(b) = st.next(&c, &table) {
        b.unwrap();
        count += 1;
    }
    assert_eq!(count, 4096);
    let mut restarted = c.stream_blocks(1, None).unwrap();
    assert_eq!(restarted.next(&c, &table).unwrap().unwrap(), stone());
    let mut absent = c.stream_chunk(4095).unwrap();
    assert_eq!(absent.next(&c, &table).unwrap().unwrap(), air());
    assert!(absent.next(&c, &table).is_none());
    assert!(c.stream_blocks(0, Some(9)).is_err());
}

#[test]
fn block_entity_by_position() {
    let c = modern_chunk();
    let e = c.get_block_entity(1, 2, 3).unwrap();
    assert!(matches!(anvil_region::nbt::get_member(e, b"id"), Some(PyNbtValue::String(_))));
    assert!(c.get_block_entity(1, 2, 4).is_none());
    assert!(c.get_tile_entity(1, 2, 3).is_some());
}

#[test]
fn legacy_chunk_resolves_through_table() {
    let c = legacy_chunk();
    assert_eq!(c.version, None);
    assert_eq!((c.x, c.z), (3, 4));
    let mut table = LegacyTable::new();
    table.insert(0, 0, s("minecraft:air"));
    table.insert(1, 1, s("minecraft:granite"));
    assert_eq!(c.get_block(0, 0, 0, None, &table).unwrap(), air());
    assert_eq!(c.get_block(1, 0, 0, None, &table).unwrap().id, s("granite"));
    assert_eq!(
        c.get_block(2, 0, 0, None, &LegacyTable::new()).unwrap_err(),
        AnvilError::UnknownLegacyId { id: 0, data: 0 }
    );
    assert!(c.block_entities().is_empty());
}

#[test]
fn negative_heights_use_floor_division() {
    let section = compound(vec![
        ("Y", PyNbtValue::Byte(-1)),
        (
            "block_states",
            compound(vec![
                ("palette", PyNbtValue::List(10, vec![palette_entry("minecraft:air"), palette_entry("minecraft:stone")])),
                // the last block of the section (y = 15, z = 15, x = 15) is stone
                ("data", PyNbtValue::LongArray({
                    let mut v = vec![0i64; 256];
                    v[255] = 1i64 << 60;
                    v
                })),
            ]),
        ),
    ]);
    let doc = PyNbtFile {
        name: vec![],
        root: compound(vec![
            ("DataVersion", PyNbtValue::Int(3000)),
            ("sections", PyNbtValue::List(10, vec![section])),
        ]),
    };
    let c = RustChunk::new(doc).unwrap();
    let table = LegacyTable::new();
    assert_eq!(c.get_block(15, -1, 15, None, &table).unwrap(), stone());
    assert_eq!(c.get_block(15, -2, 15, None, &table).unwrap(), air());
}

#[test]
fn section_without_height_is_rejected() {
    let doc = PyNbtFile {
        name: vec![],
        root: compound(vec![
            ("DataVersion", PyNbtValue::Int(3000)),
            ("sections", PyNbtValue::List(10, vec![compound(vec![])])),
        ]),
    };
    assert_eq!(RustChunk::new(doc).err(), Some(AnvilError::InvalidChunkData));
}

#[test]
fn era_thresholds() {
    assert_eq!(format_era(None), FormatEra::PreFlattening);
    assert_eq!(format_era(Some(1450)), FormatEra::PreFlattening);
    assert_eq!(format_era(Some(1451)), FormatEra::Flattened);
    assert_eq!(format_era(Some(2843)), FormatEra::Flattened);
    assert_eq!(format_era(Some(2844)), FormatEra::Modern);
}

#[test]
fn packed_indices_both_rules() {
    // width 5: 12 indices per word without spanning
    let words = vec![0x7000_0000_0000_0000u64 as i64, 1];
    assert_eq!(unpack_index(&words, 12, 5, true), 23);
    assert_eq!(unpack_index(&words, 12, 5, false), 1);
    assert_eq!(unpack_index(&words, 11, 5, false), 0);
    let words = vec![0b11111_00001_00010i64];
    assert_eq!(unpack_index(&words, 0, 5, true), 2);
    assert_eq!(unpack_index(&words, 1, 5, false), 1);
    assert_eq!(unpack_index(&words, 2, 5, true), 31);
    assert_eq!(unpack_index(&words, 40, 5, true), 0);
}

fn pack(indices: &[u64], w: u64, spanning: bool) -> Vec<i64> {
    let mut words: Vec<u64> = Vec::new();
    if spanning {
        let total = indices.len() as u64 * w;
        words.resize(((total + 63) / 64) as usize, 0);
        for (i, &v) in indices.iter().enumerate() {
            for t in 0..w {
                let b = i as u64 * w + t;
                if (v >> t) & 1 == 1 {
                    words[(b / 64) as usize] |= 1 << (b % 64);
                }
            }
        }
    } else {
        let per = 64 / w;
        words.resize(((indices.len() as u64 + per - 1) / per) as usize, 0);
        for (i, &v) in indices.iter().enumerate() {
            let i = i as u64;
            words[(i / per) as usize] |= v << ((i % per) * w);
        }
    }
    words.into_iter().map(|x| x as i64).collect()
}

#[test]
fn unpack_then_repack_reproduces_words() {
    for &w in &[4u64, 5, 6, 7, 12] {
        let indices: Vec<u64> = (0..4096u64).map(|i| (i * 2654435761) % (1 << w)).collect();
        for &spanning in &[true, false] {
            let words = pack(&indices, w, spanning);
            let unpacked: Vec<u64> = (0..4096usize).map(|i| unpack_index(&words, i, w, spanning)).collect();
            assert_eq!(unpacked, indices);
            assert_eq!(pack(&unpacked, w, spanning), words);
        }
    }
}

#[test]
fn palette_of_a_section() {
    let c = modern_chunk();
    let p = c.get_palette(0).unwrap().unwrap();
    assert_eq!(p.len(), 2);
    assert_eq!(p[1], stone());
    assert!(c.get_palette(1).unwrap().is_none());
    assert!(c.get_palette(5).is_err());
}

#[test]
fn set_block_checks_coordinates_and_keeps_the_chunk() {
    let mut c = modern_chunk();
    let table = LegacyTable::new();
    assert!(c.set_block(0, 0, 0, stone()).is_ok());
    assert_eq!(c.get_block(0, 0, 0, None, &table).unwrap(), air());
    assert_eq!(
        c.set_block(16, 0, 0, stone()).unwrap_err(),
        AnvilError::OutOfBoundsCoordinates { x: 16, y: 0, z: 0 }
    );
    assert!(c.set_block(0, 48, 0, stone()).is_err());
}

#[test]
fn palette_larger_than_a_section() {
    let names: Vec<PyNbtValue> = (0..5000).map(|i| palette_entry(&format!("test:b{i}"))).collect();
    // 5000 entries need 13 bits: 4 indices per word without spanning
    let mut data = vec![0i64; 1024];
    data[0] = 4999 | (1 << 13);
    let section = compound(vec![
        ("Y", PyNbtValue::Byte(0)),
        (
            "block_states",
            compound(vec![("palette", PyNbtValue::List(10, names)), ("data", PyNbtValue::LongArray(data))]),
        ),
    ]);
    let doc = PyNbtFile {
        name: vec![],
        root: compound(vec![("DataVersion", PyNbtValue::Int(3000)), ("sections", PyNbtValue::List(10, vec![section]))]),
    };
    let c = RustChunk::new(doc).unwrap();
    let table = LegacyTable::new();
    assert_eq!(c.get_block(0, 0, 0, None, &table).unwrap().id, s("b4999"));
    assert_eq!(c.get_block(1, 0, 0, None, &table).unwrap().id, s("b1"));
    assert_eq!(c.get_block(2, 0, 0, None, &table).unwrap().id, s("b0"));
}

#[test]
fn missing_entity_list_is_empty() {
    let doc = PyNbtFile {
        name: vec![],
        root: compound(vec![("DataVersion", PyNbtValue::Int(3000)), ("sections", PyNbtValue::List(10, vec![]))]),
    };
    let c = RustChunk::new(doc).unwrap();
    assert!(c.block_entities().is_empty());
    assert!(c.tile_entities().is_empty());
    assert!(c.get_block_entity(0, 0, 0).is_none());
}
