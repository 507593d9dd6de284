use std::io::Write;

use anvil_region::block::{RustBlock, LegacyTable};
use anvil_region::chunk::RustChunk;
use anvil_region::error::AnvilError;
use anvil_region::nbt::{PyNbtFile, PyNbtValue};
use anvil_region::region::RustRegion;

fn s(text: &str) -> Vec<u8> {
    text.as_bytes().to_vec()
}

fn minimal_chunk_nbt() -> Vec<u8> {
    PyNbtFile {
        name: vec![],
        root: PyNbtValue::Compound(vec![
            (s("DataVersion"), PyNbtValue::Int(3000)),
            (s("xPos"), PyNbtValue::Int(0)),
            (s("zPos"), PyNbtValue::Int(0)),
            (s("sections"), PyNbtValue::List(10, vec![])),
        ]),
    }
    .encode()
}

fn zlib(bytes: &[u8]) -> Vec<u8> {
    let mut e = flate2::write::ZlibEncoder::new(Vec::new(), flate2::Compression::default());
    e.write_all(bytes).unwrap();
    e.finish().unwrap()
}

fn gzip(bytes: &[u8]) -> Vec<u8> {
    let mut e = flate2::write::GzEncoder::new(Vec::new(), flate2::Compression::default());
    e.write_all(bytes).unwrap();
    e.finish().unwrap()
}

/// A region with one chunk at slot (0, 0), stored from sector 2 on.
fn region_with(scheme: u8, body: &[u8]) -> Vec<u8> {
    let mut data = vec![0u8; 8192];
    data[0..4].copy_from_slice(&[0, 0, 2, 1]);
    data[4096..4100].copy_from_slice(&[0x5f, 0x5e, 0x10, 0x00]);
    let len = (body.len() + 1) as u32;
    data.extend_from_slice(&len.to_be_bytes());
    data.push(scheme);
    data.extend_from_slice(body);
    while data.len() % 4096 != 0 {
        data.push(0);
    }
    data
}

#[test]
fn empty_region_get_chunk_fails() {
    let r = RustRegion::new(Some(vec![]));
    assert_eq!(r.get_chunk(0, 0).unwrap_err(), AnvilError::EmptyRegionFile);
    assert_eq!(r.chunk_data(0, 0).unwrap_err(), AnvilError::EmptyRegionFile);
    assert_eq!(r.chunk_location(4, 5).unwrap(), (0, 0));
}

#[test]
fn open_checks_header_size() {
    assert_eq!(RustRegion::open(vec![]).err(), Some(AnvilError::EmptyRegionFile));
    assert_eq!(RustRegion::open(vec![0u8; 100]).err(), Some(AnvilError::InvalidFormat));
    assert!(RustRegion::open(vec![0u8; 8192]).is_ok());
    let r = RustRegion::new(None);
    assert_eq!(r.get_chunk(0, 0).unwrap_err(), AnvilError::InvalidFormat);
}

#[test]
fn ungenerated_chunk_is_absent() {
    let r = RustRegion::new(Some(vec![0u8; 8192]));
    assert!(r.get_chunk(3, 7).unwrap().is_none());
    assert!(r.chunk_data(3, 7).unwrap().is_none());
    assert_eq!(r.chunk_location(3, 7).unwrap(), (0, 0));
}

#[test]
fn header_offsets() {
    let r = RustRegion::new(Some(vec![]));
    assert_eq!(r.header_offset(0, 0), 0);
    assert_eq!(r.header_offset(1, 0), 4);
    assert_eq!(r.header_offset(0, 1), 128);
    assert_eq!(r.header_offset(33, 2), 4 * (1 + 2 * 32));
    assert_eq!(r.header_offset(-1, -1), 4 * (31 + 31 * 32));
}

#[test]
fn zlib_chunk_end_to_end() {
    let nbt = minimal_chunk_nbt();
    let r = RustRegion::new(Some(region_with(2, &zlib(&nbt))));
    assert_eq!(r.chunk_location(0, 0).unwrap(), (2, 1));
    assert_eq!(r.chunk_location(32, -32).unwrap(), (2, 1));
    assert_eq!(r.chunk_timestamp(0, 0).unwrap(), 0x5f5e_1000);
    assert_eq!(r.chunk_data(0, 0).unwrap().unwrap(), nbt);
    let chunk = r.get_chunk(0, 0).unwrap().unwrap();
    assert_eq!(chunk.version, Some(3000));
    assert_eq!((chunk.x, chunk.z), (0, 0));
    assert!(chunk.block_entities().is_empty());
    assert!(chunk.tile_entities().is_empty());
    assert_eq!(chunk.lowest_y, None);
    assert!(r.get_chunk(1, 0).unwrap().is_none());
}

#[test]
fn gzip_and_uncompressed_payloads() {
    let nbt = minimal_chunk_nbt();
    let r = RustRegion::new(Some(region_with(1, &gzip(&nbt))));
    assert_eq!(r.chunk_data(0, 0).unwrap().unwrap(), nbt);
    let r = RustRegion::new(Some(region_with(3, &nbt)));
    assert_eq!(r.chunk_data(0, 0).unwrap().unwrap(), nbt);
    assert_eq!(r.get_chunk(0, 0).unwrap().unwrap().version, Some(3000));
}

#[test]
fn payload_failures() {
    let r = RustRegion::new(Some(region_with(2, &[1, 2, 3, 4])));
    assert_eq!(r.chunk_data(0, 0).unwrap_err(), AnvilError::CorruptedData);
    let r = RustRegion::new(Some(region_with(130, &[])));
    assert_eq!(r.chunk_data(0, 0).unwrap_err(), AnvilError::ExternalChunkUnsupported);
    let r = RustRegion::new(Some(region_with(7, &[0])));
    assert_eq!(r.chunk_data(0, 0).unwrap_err(), AnvilError::CorruptedData);
    // the location points past the end of the buffer
    let mut data = vec![0u8; 8192];
    data[0..4].copy_from_slice(&[0, 0, 9, 1]);
    let r = RustRegion::new(Some(data));
    assert_eq!(r.chunk_data(0, 0).unwrap_err(), AnvilError::CorruptedData);
    // a declared length longer than the buffer
    let mut data = region_with(3, &[]);
    data[8192..8196].copy_from_slice(&[0, 1, 0, 0]);
    let r = RustRegion::new(Some(data));
    assert_eq!(r.chunk_data(0, 0).unwrap_err(), AnvilError::CorruptedData);
}

#[test]
fn undecodable_payload_reports_tag_error() {
    let r = RustRegion::new(Some(region_with(3, &[8u8, 0, 0])));
    assert_eq!(r.get_chunk(0, 0).unwrap_err(), AnvilError::MalformedTag);
}

#[test]
fn from_region_sets_position_and_reports_absence() {
    let nbt = minimal_chunk_nbt();
    let r = RustRegion::new(Some(region_with(2, &zlib(&nbt))));
    let c = RustChunk::from_region(&r, 32, 64).unwrap();
    assert_eq!((c.x, c.z), (32, 64));
    assert_eq!(c.version, Some(3000));
    assert_eq!(
        RustChunk::from_region(&r, 1, 0).unwrap_err(),
        AnvilError::ChunkNotFound { x: 1, z: 0 }
    );
}

#[test]
fn empty_chunk_defaults() {
    let c = RustChunk::empty();
    assert_eq!((c.x, c.z, c.version), (0, 0, None));
    assert_eq!((c.lowest_y, c.highest_y), (Some(0), Some(15)));
    let b = c.get_block(3, 200, 3, None, &LegacyTable::new()).unwrap();
    assert_eq!(b, RustBlock::from_name(b"minecraft:air", None).unwrap());
    assert!(c.get_block(3, 256, 3, None, &LegacyTable::new()).is_err());
}
