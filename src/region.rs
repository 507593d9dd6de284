use std::io::Read;
use vstd::prelude::*;

use crate::chunk::{reads_chunk, RustChunk};
use crate::error::AnvilError;
use crate::nbt::{parse_document, PyNbtFile};
use crate::nbt::u32_at;

verus! {

/// Bytes in one sector of a region file.
pub const SECTOR_BYTES: u64 = 4096;

/// Bytes of the two header tables: locations, then timestamps.
pub const HEADER_BYTES: usize = 8192;

/// What inflating a zlib stream yields: the inflated bytes, or `None` when the
/// stream is malformed.
pub uninterp spec fn zlib_inflate_of(b: Seq<u8>) -> Option<Seq<u8>>;

/// What inflating a gzip stream yields: the inflated bytes, or `None` when the
/// stream is malformed.
pub uninterp spec fn gzip_inflate_of(b: Seq<u8>) -> Option<Seq<u8>>;

/// Relies on flate2::read::ZlibDecoder reading to the end: the inflated bytes, or an
/// error on a malformed stream.
#[verifier::external_body]
fn zlib_inflate(b: &[u8]) -> (r: Option<Vec<u8>>)
    ensures
        match r {
            Some(v) => zlib_inflate_of(b@) == Some(v@),
            None => zlib_inflate_of(b@) == None::<Seq<u8>>,
        },
{
    let mut out = Vec::new();
    match flate2::read::ZlibDecoder::new(b).read_to_end(&mut out) {
        Ok(_) => Some(out),
        Err(_) => None,
    }
}

/// Relies on flate2::read::GzDecoder reading to the end: the inflated bytes, or an
/// error on a malformed stream.
#[verifier::external_body]
fn gzip_inflate(b: &[u8]) -> (r: Option<Vec<u8>>)
    ensures
        match r {
            Some(v) => gzip_inflate_of(b@) == Some(v@),
            None => gzip_inflate_of(b@) == None::<Seq<u8>>,
        },
{
    let mut out = Vec::new();
    match flate2::read::GzDecoder::new(b).read_to_end(&mut out) {
        Ok(_) => Some(out),
        Err(_) => None,
    }
}

/// The index of a chunk's entry in each header table.
pub open spec fn slot(chunk_x: i32, chunk_z: i32) -> int {
    (chunk_x as int % 32) + (chunk_z as int % 32) * 32
}

/// A buffer can be read as a region only when it holds both header tables.
pub open spec fn header_check(s: Seq<u8>) -> Result<(), AnvilError> {
    if s.len() == 0 {
        Err(AnvilError::EmptyRegionFile)
    } else if s.len() < HEADER_BYTES {
        Err(AnvilError::InvalidFormat)
    } else {
        Ok(())
    }
}

/// The sector where a chunk's payload starts (a 3-byte big-endian number).
pub open spec fn sector_offset(s: Seq<u8>, chunk_x: i32, chunk_z: i32) -> int {
    let k = 4 * slot(chunk_x, chunk_z);
    s[k] as int * 0x10000 + s[k + 1] as int * 0x100 + s[k + 2] as int
}

/// The number of sectors a chunk's payload spans.
pub open spec fn sector_count(s: Seq<u8>, chunk_x: i32, chunk_z: i32) -> int {
    s[4 * slot(chunk_x, chunk_z) + 3] as int
}

/// The last-modification time stored for a chunk.
pub open spec fn timestamp_of(s: Seq<u8>, chunk_x: i32, chunk_z: i32) -> u32 {
    u32_at(s, 4096 + 4 * slot(chunk_x, chunk_z))
}

/// A payload body after its compression-scheme byte, made into NBT bytes.
pub open spec fn unpack_payload(scheme: u8, body: Seq<u8>) -> Result<Seq<u8>, AnvilError> {
    if scheme == 1 {
        match gzip_inflate_of(body) {
            Some(b) => Ok(b),
            None => Err(AnvilError::CorruptedData),
        }
    } else if scheme == 2 {
        match zlib_inflate_of(body) {
            Some(b) => Ok(b),
            None => Err(AnvilError::CorruptedData),
        }
    } else if scheme == 3 {
        Ok(body)
    } else if scheme >= 128 {
        Err(AnvilError::ExternalChunkUnsupported)
    } else {
        Err(AnvilError::CorruptedData)
    }
}

/// The NBT bytes of a chunk: `None` when it was never generated (offset and count
/// both zero), else its framed and decompressed payload.
pub open spec fn payload_of(s: Seq<u8>, chunk_x: i32, chunk_z: i32) -> Result<
    Option<Seq<u8>>,
    AnvilError,
> {
    match header_check(s) {
        Err(e) => Err(e),
        Ok(_) => {
            let off = sector_offset(s, chunk_x, chunk_z);
            if off == 0 && sector_count(s, chunk_x, chunk_z) == 0 {
                Ok(None)
            } else {
                let pos = off * 4096;
                if pos + 5 > s.len() {
                    Err(AnvilError::CorruptedData)
                } else {
                    let n = u32_at(s, pos) as int;
                    if n < 1 || pos + 4 + n > s.len() {
                        Err(AnvilError::CorruptedData)
                    } else {
                        match unpack_payload(s[pos + 4], s.subrange(pos + 5, pos + 4 + n)) {
                            Ok(b) => Ok(Some(b)),
                            Err(e) => Err(e),
                        }
                    }
                }
            }
        },
    }
}

/// Copies `s[start..end]`.
pub fn copy_range(s: &[u8], start: usize, end: usize) -> (r: Vec<u8>)
    requires
        start <= end <= s@.len(),
    ensures
        r@ == s@.subrange(start as int, end as int),
{
    let mut out: Vec<u8> = Vec::new();
    let mut i = start;
    while i < end
        invariant
            start <= i <= end,
            end <= s@.len(),
            out@ =~= s@.subrange(start as int, i as int),
        decreases end - i,
    {
        out.push(s[i]);
        i = i + 1;
    }
    out
}

fn euclid_mod32(x: i32) -> (r: usize)
    ensures
        r == x as int % 32,
        r < 32,
{
    let m = x % 32;
    if m < 0 {
        (m + 32) as usize
    } else {
        m as usize
    }
}

fn slot_index(chunk_x: i32, chunk_z: i32) -> (r: usize)
    ensures
        r == slot(chunk_x, chunk_z),
        r < 1024,
{
    euclid_mod32(chunk_x) + euclid_mod32(chunk_z) * 32
}

/// A region file: up to 1024 chunks addressed through two 4096-byte header tables.
#[derive(Debug)]
pub struct RustRegion {
    pub data: Vec<u8>,
}

impl RustRegion {
    /// Wraps a buffer; without one, a two-byte placeholder that is no region.
    pub fn new(data: Option<Vec<u8>>) -> (r: RustRegion)
        ensures
            r.data@ == match data {
                Some(d) => d@,
                None => seq![0u8, 255u8],
            },
    {
        match data {
            Some(d) => RustRegion { data: d },
            None => {
                let r = RustRegion { data: vec![0u8, 255u8] };
                assert(r.data@ =~= seq![0u8, 255u8]);
                r
            },
        }
    }

    /// Opens a buffer as a region, refusing one that cannot hold the headers.
    pub fn open(data: Vec<u8>) -> (r: Result<RustRegion, AnvilError>)
        ensures
            match r {
                Ok(region) => header_check(data@) == Ok::<(), AnvilError>(()) && region.data@
                    == data@,
                Err(e) => header_check(data@) == Err::<(), AnvilError>(e),
            },
    {
        if data.len() == 0 {
            Err(AnvilError::EmptyRegionFile)
        } else if data.len() < HEADER_BYTES {
            Err(AnvilError::InvalidFormat)
        } else {
            Ok(RustRegion { data })
        }
    }

    fn check(&self) -> (r: Result<(), AnvilError>)
        ensures
            r == header_check(self.data@),
    {
        if self.data.len() == 0 {
            Err(AnvilError::EmptyRegionFile)
        } else if self.data.len() < HEADER_BYTES {
            Err(AnvilError::InvalidFormat)
        } else {
            Ok(())
        }
    }

    /// The byte offset of a chunk's entry in the location table.
    pub fn header_offset(&self, chunk_x: i32, chunk_z: i32) -> (r: i32)
        ensures
            r == 4 * slot(chunk_x, chunk_z),
    {
        (4 * slot_index(chunk_x, chunk_z)) as i32
    }

    /// The sector offset and sector count of a chunk; `(0, 0)` for a chunk never
    /// generated, and for every chunk of an empty buffer.
    pub fn chunk_location(&self, chunk_x: i32, chunk_z: i32) -> (r: Result<(i32, i32), AnvilError>)
        ensures
            self.data@.len() == 0 ==> r == Ok::<(i32, i32), AnvilError>((0, 0)),
            self.data@.len() != 0 ==> match r {
                Ok((o, c)) => header_check(self.data@) == Ok::<(), AnvilError>(()) && o
                    == sector_offset(self.data@, chunk_x, chunk_z) && c == sector_count(
                    self.data@,
                    chunk_x,
                    chunk_z,
                ),
                Err(e) => header_check(self.data@) == Err::<(), AnvilError>(e),
            },
    {
        if self.data.len() == 0 {
            return Ok((0, 0));
        }
        match self.check() {
            Err(e) => Err(e),
            Ok(_) => {
                let k = 4 * slot_index(chunk_x, chunk_z);
                let s = &self.data;
                let off = (s[k] as i32) * 0x10000 + (s[k + 1] as i32) * 0x100 + (s[k + 2] as i32);
                Ok((off, s[k + 3] as i32))
            },
        }
    }

    /// The last-modification timestamp of a chunk.
    pub fn chunk_timestamp(&self, chunk_x: i32, chunk_z: i32) -> (r: Result<u32, AnvilError>)
        ensures
            match r {
                Ok(t) => header_check(self.data@) == Ok::<(), AnvilError>(()) && t
                    == timestamp_of(self.data@, chunk_x, chunk_z),
                Err(e) => header_check(self.data@) == Err::<(), AnvilError>(e),
            },
    {
        match self.check() {
            Err(e) => Err(e),
            Ok(_) => {
                let k = 4096 + 4 * slot_index(chunk_x, chunk_z);
                let s = &self.data;
                Ok((s[k] as u32) * 0x1000000 + (s[k + 1] as u32) * 0x10000 + (s[k + 2] as u32)
                    * 0x100 + (s[k + 3] as u32))
            },
        }
    }

    /// The NBT bytes of a chunk, decompressed; `None` when it was never generated.
    pub fn chunk_data(&self, chunk_x: i32, chunk_z: i32) -> (r: Result<
        Option<Vec<u8>>,
        AnvilError,
    >)
        ensures
            match r {
                Ok(Some(b)) => payload_of(self.data@, chunk_x, chunk_z) == Ok::<
                    Option<Seq<u8>>,
                    AnvilError,
                >(Some(b@)),
                Ok(None) => payload_of(self.data@, chunk_x, chunk_z) == Ok::<
                    Option<Seq<u8>>,
                    AnvilError,
                >(None),
                Err(e) => payload_of(self.data@, chunk_x, chunk_z) == Err::<
                    Option<Seq<u8>>,
                    AnvilError,
                >(e),
            },
    {
        if let Err(e) = self.check() {
            return Err(e);
        }
        let s = self.data.as_slice();
        let len = s.len();
        let k = 4 * slot_index(chunk_x, chunk_z);
        let off = (s[k] as u64) * 0x10000 + (s[k + 1] as u64) * 0x100 + (s[k + 2] as u64);
        if off == 0 && s[k + 3] == 0 {
            return Ok(None);
        }
        let pos = off * SECTOR_BYTES;
        if pos + 5 > len as u64 {
            return Err(AnvilError::CorruptedData);
        }
        let pos = pos as usize;
        let n = (s[pos] as u64) * 0x1000000 + (s[pos + 1] as u64) * 0x10000 + (s[pos + 2] as u64)
            * 0x100 + (s[pos + 3] as u64);
        if n < 1 || n > (len - pos - 4) as u64 {
            return Err(AnvilError::CorruptedData);
        }
        let end = pos + 4 + n as usize;
        let scheme = s[pos + 4];
        let body = copy_range(s, pos + 5, end);
        if scheme == 1 {
            match gzip_inflate(body.as_slice()) {
                Some(b) => Ok(Some(b)),
                None => Err(AnvilError::CorruptedData),
            }
        } else if scheme == 2 {
            match zlib_inflate(body.as_slice()) {
                Some(b) => Ok(Some(b)),
                None => Err(AnvilError::CorruptedData),
            }
        } else if scheme == 3 {
            Ok(Some(body))
        } else if scheme >= 128 {
            Err(AnvilError::ExternalChunkUnsupported)
        } else {
            Err(AnvilError::CorruptedData)
        }
    }

    /// The chunk stored at `(chunk_x, chunk_z)`, decoded and read; `None` when it
    /// was never generated.
    pub fn get_chunk(&self, chunk_x: i32, chunk_z: i32) -> (r: Result<Option<RustChunk>, AnvilError>)
        ensures
            match payload_of(self.data@, chunk_x, chunk_z) {
                Err(e) => r == Err::<Option<RustChunk>, AnvilError>(e),
                Ok(None) => r is Ok && r->Ok_0 is None,
                Ok(Some(b)) => match parse_document(b) {
                    Err(e) => r == Err::<Option<RustChunk>, AnvilError>(e),
                    Ok((name, root)) => match r {
                        Ok(Some(c)) => reads_chunk(name, root, Ok::<RustChunk, AnvilError>(c)),
                        Ok(None) => false,
                        Err(e) => reads_chunk(name, root, Err::<RustChunk, AnvilError>(e)),
                    },
                },
            },
    {
        let bytes = match self.chunk_data(chunk_x, chunk_z) {
            Err(e) => {
                return Err(e);
            },
            Ok(None) => {
                return Ok(None);
            },
            Ok(Some(b)) => b,
        };
        let doc = match PyNbtFile::from_bytes(bytes.as_slice()) {
            Err(e) => {
                return Err(e);
            },
            Ok(d) => d,
        };
        match RustChunk::new(doc) {
            Ok(c) => Ok(Some(c)),
            Err(e) => Err(e),
        }
    }
}

} // verus!
