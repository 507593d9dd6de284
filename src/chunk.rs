use vstd::prelude::*;

use crate::block::{
    numeric_id_result, palette_block, palette_error, view_props, RustBlock, LegacyTable,
};
use crate::error::AnvilError;
use crate::nbt::{
    get_member, lemma_view_list_index, lemma_view_list_len, lookup, members, parse_document, view_entries,
    view_list, Nbt, PyNbtFile, PyNbtValue,
};
use crate::region::{payload_of, RustRegion};

verus! {

/// The first data version that stores blocks by name in palettes (17w47a).
pub const VERSION_FLATTENING: i32 = 1451;

/// The first data version whose packed indices never span two words (20w17a).
pub const VERSION_NO_SPANNING: i32 = 2529;

/// The first data version with chunk data at the root of the document (21w43a).
pub const VERSION_ROOT_LAYOUT: i32 = 2844;

/// The largest palette whose indices fit the widest packing, 32 bits.
pub const MAX_PALETTE: u64 = 0x1_0000_0000;

/// Blocks in one section.
pub const SECTION_BLOCKS: usize = 4096;

/// The on-disk layout of a chunk, fixed by its data version.
#[derive(Debug, Clone, Copy, PartialEq, Eq, Structural)]
pub enum FormatEra {
    /// Numeric ids and data nibbles, under `Level`.
    PreFlattening,
    /// Palettes under `Level`/`Sections`.
    Flattened,
    /// Palettes in `sections` at the root.
    Modern,
}

pub open spec fn era_of(version: Option<i32>) -> FormatEra {
    match version {
        None => FormatEra::PreFlattening,
        Some(v) => if v < VERSION_FLATTENING {
            FormatEra::PreFlattening
        } else if v < VERSION_ROOT_LAYOUT {
            FormatEra::Flattened
        } else {
            FormatEra::Modern
        },
    }
}

/// Whether an index may continue from one word into the next.
pub open spec fn spans_words(version: Option<i32>) -> bool {
    match version {
        None => true,
        Some(v) => v < VERSION_NO_SPANNING,
    }
}

/// The era that a data version selects.
pub fn format_era(version: Option<i32>) -> (r: FormatEra)
    ensures
        r == era_of(version),
{
    match version {
        None => FormatEra::PreFlattening,
        Some(v) => if v < VERSION_FLATTENING {
            FormatEra::PreFlattening
        } else if v < VERSION_ROOT_LAYOUT {
            FormatEra::Flattened
        } else {
            FormatEra::Modern
        },
    }
}

fn spanning(version: Option<i32>) -> (r: bool)
    ensures
        r == spans_words(version),
{
    match version {
        None => true,
        Some(v) => v < VERSION_NO_SPANNING,
    }
}

// ---------------------------------------------------------------------------
// Packed palette indices

/// The least `k` with `2^k >= n`.
pub open spec fn ceil_log2(n: nat) -> nat
    decreases n,
{
    if n <= 1 {
        0
    } else {
        1 + ceil_log2(((n + 1) / 2) as nat)
    }
}

/// The width in bits of each packed index for a palette of `n` entries.
pub open spec fn index_bits(n: nat) -> nat {
    if ceil_log2(n) < 4 {
        4
    } else {
        ceil_log2(n)
    }
}

pub fn ceil_log2_of(n: u64) -> (r: u32)
    requires
        n <= MAX_PALETTE,
    ensures
        r == ceil_log2(n as nat),
        r <= 32,
    decreases n,
{
    proof {
        vstd::arithmetic::power2::lemma2_to64();
        lemma_ceil_log2_le(n as nat, 32);
    }
    if n <= 1 {
        0
    } else {
        let h = (n / 2) + (n % 2);
        assert(h == (n + 1) / 2);
        1 + ceil_log2_of(h)
    }
}

proof fn lemma_ceil_log2_le(n: nat, k: nat)
    requires
        n <= vstd::arithmetic::power2::pow2(k),
    ensures
        ceil_log2(n) <= k,
    decreases k,
{
    if n > 1 {
        if k == 0 {
            vstd::arithmetic::power2::lemma2_to64();
        } else {
            vstd::arithmetic::power2::lemma_pow2_unfold(k);
            lemma_ceil_log2_le(((n + 1) / 2) as nat, (k - 1) as nat);
        }
    }
}

/// The low `w` bits set.
pub open spec fn low_mask(w: u64) -> u64 {
    ((1u64 << w) - 1) as u64
}

/// Word `k` of a packed array read as unsigned; missing words read as zero.
pub open spec fn word_at(states: Seq<i64>, k: int) -> u64 {
    if 0 <= k < states.len() {
        states[k] as u64
    } else {
        0
    }
}

/// The `i`-th `w`-bit index of a packed array. When `spanning`, indices are laid
/// end to end over the words, so one may continue from the high bits of a word
/// into the low bits of the next; otherwise each word holds `64 / w` whole indices
/// from its low bits up and leaves its top bits unused.
pub open spec fn packed_index(states: Seq<i64>, i: int, w: int, spanning: bool) -> u64 {
    if spanning {
        let b = i * w;
        let k = b / 64;
        let off = b % 64;
        if off + w <= 64 {
            (word_at(states, k) >> (off as u64)) & low_mask(w as u64)
        } else {
            ((word_at(states, k) >> (off as u64)) | (word_at(states, k + 1) << ((64 - off) as u64)))
                & low_mask(w as u64)
        }
    } else {
        let per = 64int / w;
        (word_at(states, i / per) >> (((i % per) * w) as u64)) & low_mask(w as u64)
    }
}

fn word(states: &Vec<i64>, k: usize) -> (r: u64)
    ensures
        r == word_at(states@, k as int),
{
    if k < states.len() {
        states[k] as u64
    } else {
        0
    }
}

/// Reads the `i`-th `w`-bit index of a packed array.
pub fn unpack_index(states: &Vec<i64>, i: usize, w: u64, spanning: bool) -> (r: u64)
    requires
        4 <= w <= 32,
        i < SECTION_BLOCKS,
    ensures
        r == packed_index(states@, i as int, w as int, spanning),
{
    assert(1u64 << w >= 1) by (bit_vector)
        requires
            w <= 32,
    ;
    let mask: u64 = (1u64 << w) - 1;
    if spanning {
        assert((i as u64) * w <= 4096 * 32) by (nonlinear_arith)
            requires
                i < 4096,
                w <= 32,
        ;
        let b = (i as u64) * w;
        let k = (b / 64) as usize;
        let off = b % 64;
        if off + w <= 64 {
            (word(states, k) >> off) & mask
        } else {
            ((word(states, k) >> off) | (word(states, k + 1) << (64 - off))) & mask
        }
    } else {
        let per = 64 / w;
        assert(per >= 2 && per * w <= 64) by (nonlinear_arith)
            requires
                per == 64u64 / w,
                4 <= w <= 32,
        ;
        let k = (i as u64 / per) as usize;
        assert((i as u64 % per) * w < 64) by (nonlinear_arith)
            requires
                per >= 2,
                per * w <= 64,
                w >= 4,
        ;
        let shift = (i as u64 % per) * w;
        (word(states, k) >> shift) & mask
    }
}

// ---------------------------------------------------------------------------
// Sections

/// One 16x16x16 cube of a chunk. Palette formats use `palette` and `states`; the
/// pre-flattening format uses `blocks` (ids) and `data` (4-bit values, two per byte).
#[derive(Debug)]
pub struct Section {
    pub y: i32,
    pub palette: Vec<RustBlock>,
    pub states: Vec<i64>,
    pub blocks: Vec<i8>,
    pub data: Vec<i8>,
}

/// The position of a block in a section's arrays: X fastest, then Z, then Y.
pub open spec fn linear_index(x: int, y: int, z: int) -> int {
    (y * 16 + z) * 16 + x
}

/// Where a block's identity comes from.
pub enum BlockSource {
    /// No stored block data: the block is air.
    Air,
    /// Entry `k` of the palette of section `s`.
    Palette(int, int),
    /// A numeric id and data value, resolved through a legacy table.
    Legacy(u32, u32),
}

/// The 4-bit data value of block `n` of a pre-flattening section.
pub open spec fn nibble_at(data: Seq<i8>, n: int) -> u32 {
    let d = data[n / 2] as u8;
    if n % 2 == 0 {
        (d % 16) as u32
    } else {
        (d / 16) as u32
    }
}

/// Where block `n` of section `s` comes from, or why it cannot be read.
pub open spec fn section_source(secs: Seq<Section>, s: int, n: int, era: FormatEra, spanning: bool) -> Result<BlockSource, AnvilError> {
    let sec = secs[s];
    if era == FormatEra::PreFlattening {
        if n >= sec.blocks@.len() {
            Ok(BlockSource::Air)
        } else if n / 2 >= sec.data@.len() {
            Err(AnvilError::InvalidChunkData)
        } else {
            Ok(BlockSource::Legacy((sec.blocks@[n] as u8) as u32, nibble_at(sec.data@, n)))
        }
    } else if sec.palette@.len() == 0 {
        Ok(BlockSource::Air)
    } else if sec.palette@.len() == 1 {
        Ok(BlockSource::Palette(s, 0))
    } else if sec.palette@.len() > MAX_PALETTE {
        Err(AnvilError::InvalidChunkData)
    } else {
        let w = index_bits(sec.palette@.len());
        {
            let k = packed_index(sec.states@, n, w as int, spanning);
            if k >= sec.palette@.len() {
                Err(AnvilError::InvalidChunkData)
            } else {
                Ok(BlockSource::Palette(s, k as int))
            }
        }
    }
}

/// The index of the first section at height `y`.
pub open spec fn find_section(secs: Seq<Section>, y: int) -> Option<int>
    decreases secs.len(),
{
    if secs.len() == 0 {
        None
    } else {
        match find_section(secs.drop_last(), y) {
            Some(i) => Some(i),
            None => if secs.last().y == y {
                Some(secs.len() - 1)
            } else {
                None
            },
        }
    }
}

/// The lowest section height stored.
pub open spec fn min_y(secs: Seq<Section>) -> Option<i32>
    decreases secs.len(),
{
    if secs.len() == 0 {
        None
    } else {
        match min_y(secs.drop_last()) {
            None => Some(secs.last().y),
            Some(m) => Some(if secs.last().y < m { secs.last().y } else { m }),
        }
    }
}

/// The highest section height stored.
pub open spec fn max_y(secs: Seq<Section>) -> Option<i32>
    decreases secs.len(),
{
    if secs.len() == 0 {
        None
    } else {
        match max_y(secs.drop_last()) {
            None => Some(secs.last().y),
            Some(m) => Some(if secs.last().y > m { secs.last().y } else { m }),
        }
    }
}

pub open spec fn same_block(a: RustBlock, b: RustBlock) -> bool {
    a.namespace@ == b.namespace@ && a.id@ == b.id@ && view_props(a.properties@) == view_props(
        b.properties@,
    )
}

/// `minecraft:air`, with no properties.
pub open spec fn is_air(b: RustBlock) -> bool {
    b.namespace@ == crate::block::default_namespace() && b.id@ == seq![97u8, 105, 114]
        && b.properties@.len() == 0
}

/// A copy of `b`.
pub fn copy_block(b: &RustBlock) -> (r: RustBlock)
    ensures
        same_block(r, *b),
        r.wf() == b.wf(),
{
    let namespace = copy_vec(&b.namespace);
    let id = copy_vec(&b.id);
    let mut props: Vec<(Vec<u8>, Vec<u8>)> = Vec::new();
    let mut i: usize = 0;
    while i < b.properties.len()
        invariant
            i <= b.properties@.len(),
            view_props(props@) =~= view_props(b.properties@.subrange(0, i as int)),
        decreases b.properties@.len() - i,
    {
        let (k, v) = &b.properties[i];
        let ghost before = props@;
        props.push((copy_vec(k), copy_vec(v)));
        proof {
            assert(view_props(props@) =~= view_props(before).push((k@, v@)));
            assert(b.properties@.subrange(0, i + 1) =~= b.properties@.subrange(0, i as int).push(
                b.properties@[i as int],
            ));
            assert(view_props(b.properties@.subrange(0, i + 1)) =~= view_props(
                b.properties@.subrange(0, i as int),
            ).push((k@, v@)));
        }
        i = i + 1;
    }
    assert(b.properties@.subrange(0, b.properties@.len() as int) =~= b.properties@);
    RustBlock { namespace, id, properties: props }
}

fn air() -> (r: RustBlock)
    ensures
        is_air(r),
        r.wf(),
{
    let namespace = vec![109u8, 105, 110, 101, 99, 114, 97, 102, 116];
    let id = vec![97u8, 105, 114];
    assert(namespace@ =~= crate::block::default_namespace());
    assert(id@ =~= seq![97u8, 105, 114]);
    RustBlock { namespace, id, properties: Vec::new() }
}

fn copy_vec<T: Copy>(v: &Vec<T>) -> (r: Vec<T>)
    ensures
        r@ == v@,
{
    let mut out: Vec<T> = Vec::new();
    let mut i: usize = 0;
    while i < v.len()
        invariant
            i <= v@.len(),
            out@ =~= v@.subrange(0, i as int),
        decreases v@.len() - i,
    {
        out.push(v[i]);
        i = i + 1;
    }
    assert(v@.subrange(0, v@.len() as int) =~= v@);
    out
}

// ---------------------------------------------------------------------------
// Reading a chunk document

/// The names a chunk document uses.
#[derive(Debug, Clone, Copy, PartialEq, Eq, Structural)]
pub enum Key {
    /// `DataVersion`
    DataVersion,
    /// `Level`
    Level,
    /// `xPos`
    XPos,
    /// `zPos`
    ZPos,
    /// `sections`
    SectionsModern,
    /// `Sections`
    SectionsLegacy,
    /// `block_entities`
    EntitiesModern,
    /// `TileEntities`
    EntitiesLegacy,
    /// `Y`
    Y,
    /// `block_states`
    BlockStates,
    /// `palette`
    PaletteModern,
    /// `data`
    DataModern,
    /// `Palette`
    PaletteLegacy,
    /// `BlockStates`
    StatesLegacy,
    /// `Blocks`
    Blocks,
    /// `Data`
    Data,
    /// `x`
    X,
    /// `y`
    YLower,
    /// `z`
    Z,
}

pub open spec fn key(k: Key) -> Seq<u8> {
    match k {
        Key::DataVersion => seq![68u8, 97, 116, 97, 86, 101, 114, 115, 105, 111, 110],
        Key::Level => seq![76u8, 101, 118, 101, 108],
        Key::XPos => seq![120u8, 80, 111, 115],
        Key::ZPos => seq![122u8, 80, 111, 115],
        Key::SectionsModern => seq![115u8, 101, 99, 116, 105, 111, 110, 115],
        Key::SectionsLegacy => seq![83u8, 101, 99, 116, 105, 111, 110, 115],
        Key::EntitiesModern => seq![98u8, 108, 111, 99, 107, 95, 101, 110, 116, 105, 116, 105, 101, 115],
        Key::EntitiesLegacy => seq![84u8, 105, 108, 101, 69, 110, 116, 105, 116, 105, 101, 115],
        Key::Y => seq![89u8],
        Key::BlockStates => seq![98u8, 108, 111, 99, 107, 95, 115, 116, 97, 116, 101, 115],
        Key::PaletteModern => seq![112u8, 97, 108, 101, 116, 116, 101],
        Key::DataModern => seq![100u8, 97, 116, 97],
        Key::PaletteLegacy => seq![80u8, 97, 108, 101, 116, 116, 101],
        Key::StatesLegacy => seq![66u8, 108, 111, 99, 107, 83, 116, 97, 116, 101, 115],
        Key::Blocks => seq![66u8, 108, 111, 99, 107, 115],
        Key::Data => seq![68u8, 97, 116, 97],
        Key::X => seq![120u8],
        Key::YLower => seq![121u8],
        Key::Z => seq![122u8],
    }
}

fn key_bytes(k: Key) -> (r: Vec<u8>)
    ensures
        r@ == key(k),
{
    let r = match k {
        Key::DataVersion => vec![68u8, 97, 116, 97, 86, 101, 114, 115, 105, 111, 110],
        Key::Level => vec![76u8, 101, 118, 101, 108],
        Key::XPos => vec![120u8, 80, 111, 115],
        Key::ZPos => vec![122u8, 80, 111, 115],
        Key::SectionsModern => vec![115u8, 101, 99, 116, 105, 111, 110, 115],
        Key::SectionsLegacy => vec![83u8, 101, 99, 116, 105, 111, 110, 115],
        Key::EntitiesModern => vec![98u8, 108, 111, 99, 107, 95, 101, 110, 116, 105, 116, 105, 101, 115],
        Key::EntitiesLegacy => vec![84u8, 105, 108, 101, 69, 110, 116, 105, 116, 105, 101, 115],
        Key::Y => vec![89u8],
        Key::BlockStates => vec![98u8, 108, 111, 99, 107, 95, 115, 116, 97, 116, 101, 115],
        Key::PaletteModern => vec![112u8, 97, 108, 101, 116, 116, 101],
        Key::DataModern => vec![100u8, 97, 116, 97],
        Key::PaletteLegacy => vec![80u8, 97, 108, 101, 116, 116, 101],
        Key::StatesLegacy => vec![66u8, 108, 111, 99, 107, 83, 116, 97, 116, 101, 115],
        Key::Blocks => vec![66u8, 108, 111, 99, 107, 115],
        Key::Data => vec![68u8, 97, 116, 97],
        Key::X => vec![120u8],
        Key::YLower => vec![121u8],
        Key::Z => vec![122u8],
    };
    assert(r@ =~= key(k));
    r
}

fn member<'a>(v: &'a PyNbtValue, k: Key) -> (r: Option<&'a PyNbtValue>)
    ensures
        match r {
            Some(x) => lookup(members(v@), key(k)) == Some(x@),
            None => lookup(members(v@), key(k)) == None::<Nbt>,
        },
{
    let kb = key_bytes(k);
    get_member(v, kb.as_slice())
}

/// An integer member, when it is an `Int`.
pub open spec fn int_member(v: Nbt, k: Key) -> Option<i32> {
    match lookup(members(v), key(k)) {
        Some(Nbt::Int(x)) => Some(x),
        _ => None,
    }
}

fn get_int(v: &PyNbtValue, k: Key) -> (r: Option<i32>)
    ensures
        r == int_member(v@, k),
{
    match member(v, k) {
        Some(PyNbtValue::Int(x)) => Some(*x),
        _ => None,
    }
}

/// The compound that holds a chunk's data: the root from the root layout on,
/// else the `Level` compound.
pub open spec fn data_of(root: Nbt, version: Option<i32>) -> Option<Nbt> {
    if era_of(version) == FormatEra::Modern {
        Some(root)
    } else {
        match lookup(members(root), key(Key::Level)) {
            Some(Nbt::Compound(es)) => Some(Nbt::Compound(es)),
            _ => None,
        }
    }
}

/// The elements of a list member of the data compound.
pub open spec fn list_of(data: Option<Nbt>, k: Key) -> Option<Seq<Nbt>> {
    match data {
        Some(d) => match lookup(members(d), key(k)) {
            Some(Nbt::List(_, items)) => Some(items),
            _ => None,
        },
        None => None,
    }
}

pub open spec fn sections_key(version: Option<i32>) -> Key {
    if era_of(version) == FormatEra::Modern {
        Key::SectionsModern
    } else {
        Key::SectionsLegacy
    }
}

pub open spec fn entities_key(version: Option<i32>) -> Key {
    if era_of(version) == FormatEra::Modern {
        Key::EntitiesModern
    } else {
        Key::EntitiesLegacy
    }
}

/// A section's height: its `Y` member, a byte or an int.
pub open spec fn section_y(item: Nbt) -> Option<i32> {
    match lookup(members(item), key(Key::Y)) {
        Some(Nbt::Byte(y)) => Some(y as i32),
        Some(Nbt::Int(y)) => Some(y),
        _ => None,
    }
}

/// The compound that holds a section's palette and packed indices.
pub open spec fn states_holder(item: Nbt, era: FormatEra) -> Option<Nbt> {
    if era == FormatEra::Modern {
        lookup(members(item), key(Key::BlockStates))
    } else {
        Some(item)
    }
}

/// A section's palette entries.
pub open spec fn palette_items(item: Nbt, era: FormatEra) -> Seq<Nbt> {
    let k = if era == FormatEra::Modern {
        Key::PaletteModern
    } else {
        Key::PaletteLegacy
    };
    match states_holder(item, era) {
        Some(h) => match lookup(members(h), key(k)) {
            Some(Nbt::List(_, items)) => items,
            _ => Seq::empty(),
        },
        None => Seq::empty(),
    }
}

/// A section's packed indices.
pub open spec fn packed_states(item: Nbt, era: FormatEra) -> Seq<i64> {
    let k = if era == FormatEra::Modern {
        Key::DataModern
    } else {
        Key::StatesLegacy
    };
    match states_holder(item, era) {
        Some(h) => match lookup(members(h), key(k)) {
            Some(Nbt::LongArray(xs)) => xs,
            _ => Seq::empty(),
        },
        None => Seq::empty(),
    }
}

/// A byte-array member, empty when absent.
pub open spec fn byte_array(item: Nbt, k: Key) -> Seq<i8> {
    match lookup(members(item), key(k)) {
        Some(Nbt::ByteArray(xs)) => xs,
        _ => Seq::empty(),
    }
}

/// The first palette entry of `items` that cannot become a block, by its error.
pub open spec fn first_palette_error(items: Seq<Nbt>) -> Option<AnvilError>
    decreases items.len(),
{
    if items.len() == 0 {
        None
    } else {
        match first_palette_error(items.drop_last()) {
            Some(e) => Some(e),
            None => palette_error(items.last()),
        }
    }
}

/// Why a stored section cannot be read, if it cannot.
pub open spec fn section_error(item: Nbt, era: FormatEra) -> Option<AnvilError> {
    if section_y(item) is None {
        Some(AnvilError::InvalidChunkData)
    } else if era == FormatEra::PreFlattening {
        None
    } else {
        first_palette_error(palette_items(item, era))
    }
}

/// Whether `sec` is what stored section `item` describes.
pub open spec fn section_matches(item: Nbt, era: FormatEra, sec: Section) -> bool {
    &&& section_y(item) == Some(sec.y)
    &&& if era == FormatEra::PreFlattening {
        &&& sec.blocks@ == byte_array(item, Key::Blocks)
        &&& sec.data@ == byte_array(item, Key::Data)
        &&& sec.palette@.len() == 0
        &&& sec.states@.len() == 0
    } else {
        &&& sec.states@ == packed_states(item, era)
        &&& sec.palette@.len() == palette_items(item, era).len()
        &&& forall|j: int|
            0 <= j < sec.palette@.len() ==> palette_block(
                #[trigger] palette_items(item, era)[j],
                sec.palette@[j],
            )
        &&& sec.blocks@.len() == 0
        &&& sec.data@.len() == 0
    }
}

/// The first stored section that cannot be read, by its error.
pub open spec fn first_section_error(items: Seq<Nbt>, era: FormatEra) -> Option<AnvilError>
    decreases items.len(),
{
    if items.len() == 0 {
        None
    } else {
        match first_section_error(items.drop_last(), era) {
            Some(e) => Some(e),
            None => section_error(items.last(), era),
        }
    }
}

/// A chunk: its position, format version, vertical extent, sections, and the
/// document it was read from.
#[derive(Debug)]
pub struct RustChunk {
    pub x: i32,
    pub z: i32,
    pub version: Option<i32>,
    pub lowest_y: Option<i32>,
    pub highest_y: Option<i32>,
    pub sections: Vec<Section>,
    pub document: PyNbtFile,
}

fn to_section(item: &PyNbtValue, era: FormatEra) -> (r: Result<Section, AnvilError>)
    ensures
        match section_error(item@, era) {
            Some(e) => r == Err::<Section, AnvilError>(e),
            None => r matches Ok(sec) && section_matches(item@, era, sec),
        },
{
    let y = match member(item, Key::Y) {
        Some(PyNbtValue::Byte(y)) => *y as i32,
        Some(PyNbtValue::Int(y)) => *y,
        _ => {
            return Err(AnvilError::InvalidChunkData);
        },
    };
    if era == FormatEra::PreFlattening {
        let blocks = match member(item, Key::Blocks) {
            Some(PyNbtValue::ByteArray(xs)) => copy_vec(xs),
            _ => Vec::new(),
        };
        let data = match member(item, Key::Data) {
            Some(PyNbtValue::ByteArray(xs)) => copy_vec(xs),
            _ => Vec::new(),
        };
        assert(blocks@ =~= byte_array(item@, Key::Blocks));
        assert(data@ =~= byte_array(item@, Key::Data));
        return Ok(Section { y, palette: Vec::new(), states: Vec::new(), blocks, data });
    }
    let holder = if era == FormatEra::Modern {
        member(item, Key::BlockStates)
    } else {
        Some(item)
    };
    let (pk, sk) = if era == FormatEra::Modern {
        (Key::PaletteModern, Key::DataModern)
    } else {
        (Key::PaletteLegacy, Key::StatesLegacy)
    };
    let (palette_list, states) = match holder {
        Some(h) => {
            let pl = match member(h, pk) {
                Some(PyNbtValue::List(_, items)) => Some(items),
                _ => None,
            };
            let st = match member(h, sk) {
                Some(PyNbtValue::LongArray(xs)) => copy_vec(xs),
                _ => Vec::new(),
            };
            (pl, st)
        },
        None => (None, Vec::new()),
    };
    assert(states@ =~= packed_states(item@, era));
    let mut palette: Vec<RustBlock> = Vec::new();
    match palette_list {
        None => {
            assert(palette_items(item@, era) =~= Seq::<Nbt>::empty());
        },
        Some(items) => {
            let ghost pitems = palette_items(item@, era);
            proof {
                lemma_view_list_len(items@);
            }
            assert(pitems == view_list(items@));
            let mut j: usize = 0;
            while j < items.len()
                invariant
                    j <= items@.len(),
                    section_y(item@) == Some(y),
                    era != FormatEra::PreFlattening,
                    pitems == palette_items(item@, era),
                    pitems == view_list(items@),
                    pitems.len() == items@.len(),
                    palette@.len() == j,
                    first_palette_error(pitems.subrange(0, j as int)) is None,
                    forall|q: int| 0 <= q < j ==> palette_block(#[trigger] pitems[q], palette@[q]),
                decreases items@.len() - j,
            {
                proof {
                    lemma_view_list_index(items@, j as int);
                    assert(pitems.subrange(0, j + 1).drop_last() =~= pitems.subrange(0, j as int));
                }
                match RustBlock::from_palette(&items[j]) {
                    Ok(b) => {
                        palette.push(b);
                    },
                    Err(e) => {
                        proof {
                            assert(palette_error(pitems[j as int]) == Some(e));
                            assert(pitems.subrange(0, j + 1).last() == pitems[j as int]);
                            assert(first_palette_error(pitems.subrange(0, j + 1)) == Some(e));
                            lemma_first_error_prefix(pitems, j + 1);
                        }
                        return Err(e);
                    },
                }
                j = j + 1;
            }
            assert(pitems.subrange(0, pitems.len() as int) =~= pitems);
        },
    }
    Ok(Section { y, palette, states, blocks: Vec::new(), data: Vec::new() })
}

/// Once a prefix of the palette entries holds an error, the first error of the
/// whole is that prefix's.
proof fn lemma_first_error_prefix(items: Seq<Nbt>, j: int)
    requires
        0 <= j <= items.len(),
        first_palette_error(items.subrange(0, j)) is Some,
    ensures
        first_palette_error(items) == first_palette_error(items.subrange(0, j)),
    decreases items.len() - j,
{
    if j == items.len() {
        assert(items.subrange(0, j) =~= items);
    } else {
        assert(items.subrange(0, j + 1).drop_last() =~= items.subrange(0, j));
        lemma_first_error_prefix(items, j + 1);
    }
}

/// The stored sections of a document's data compound.
pub open spec fn section_items(root: Nbt, version: Option<i32>) -> Seq<Nbt> {
    match list_of(data_of(root, version), sections_key(version)) {
        Some(items) => items,
        None => Seq::empty(),
    }
}

/// A chunk coordinate member of the data compound; zero when absent.
pub open spec fn coordinate(root: Nbt, version: Option<i32>, k: Key) -> i32 {
    match data_of(root, version) {
        Some(d) => match int_member(d, k) {
            Some(v) => v,
            None => 0,
        },
        None => 0,
    }
}

/// Whether `r` is what reading a chunk from the document `(name, root)` gives: the
/// first unreadable section's error, else the chunk that the document describes.
pub open spec fn reads_chunk(name: Seq<u8>, root: Nbt, r: Result<RustChunk, AnvilError>) -> bool {
    let version = int_member(root, Key::DataVersion);
    let era = era_of(version);
    let items = section_items(root, version);
    match first_section_error(items, era) {
        Some(e) => r == Err::<RustChunk, AnvilError>(e),
        None => r matches Ok(c) && {
            &&& c.version == version
            &&& c.x == coordinate(root, version, Key::XPos)
            &&& c.z == coordinate(root, version, Key::ZPos)
            &&& c.sections@.len() == items.len()
            &&& forall|i: int|
                0 <= i < items.len() ==> section_matches(#[trigger] items[i], era, c.sections@[i])
            &&& c.lowest_y == min_y(c.sections@)
            &&& c.highest_y == max_y(c.sections@)
            &&& palettes_wf(c.sections@)
            &&& c.document.root@ == root
            &&& c.document.name@ == name
        },
    }
}

/// The block entities of a document's data compound; empty when it holds no list
/// of them.
pub open spec fn entity_items(root: Nbt, version: Option<i32>) -> Seq<Nbt> {
    match list_of(data_of(root, version), entities_key(version)) {
        Some(items) => items,
        None => Seq::empty(),
    }
}

/// The first block entity stored at `(x, y, z)`.
pub open spec fn find_entity(items: Seq<Nbt>, x: i32, y: i32, z: i32) -> Option<int>
    decreases items.len(),
{
    if items.len() == 0 {
        None
    } else {
        match find_entity(items.drop_last(), x, y, z) {
            Some(i) => Some(i),
            None => if int_member(items.last(), Key::X) == Some(x) && int_member(
                items.last(),
                Key::YLower,
            ) == Some(y) && int_member(items.last(), Key::Z) == Some(z) {
                Some(items.len() - 1)
            } else {
                None
            },
        }
    }
}

proof fn lemma_find_entity_prefix(items: Seq<Nbt>, x: i32, y: i32, z: i32, j: int)
    requires
        0 <= j <= items.len(),
        find_entity(items.subrange(0, j), x, y, z) is Some,
    ensures
        find_entity(items, x, y, z) == find_entity(items.subrange(0, j), x, y, z),
    decreases items.len() - j,
{
    if j == items.len() {
        assert(items.subrange(0, j) =~= items);
    } else {
        assert(items.subrange(0, j + 1).drop_last() =~= items.subrange(0, j));
        lemma_find_entity_prefix(items, x, y, z, j + 1);
    }
}

proof fn lemma_section_palette_wf(item: Nbt, era: FormatEra, sec: Section, k: int)
    requires
        section_matches(item, era, sec),
        0 <= k < sec.palette@.len(),
    ensures
        sec.palette@[k].wf(),
{
    assert(palette_block(palette_items(item, era)[k], sec.palette@[k]));
}

/// Every palette entry of every section is a well-formed block.
pub open spec fn palettes_wf(secs: Seq<Section>) -> bool {
    forall|s: int, k: int|
        0 <= s < secs.len() && 0 <= k < secs[s].palette@.len() ==> (#[trigger] secs[s].palette@[k]).wf()
}

/// Whether the chunk's vertical extent admits section `s`.
pub open spec fn section_in_bounds(c: RustChunk, s: int) -> bool {
    match (c.lowest_y, c.highest_y) {
        (Some(l), Some(h)) => l <= s <= h,
        _ => true,
    }
}

/// Whether the chunk's vertical extent admits block height `y`.
pub open spec fn y_in_bounds(c: RustChunk, y: int) -> bool {
    match (c.lowest_y, c.highest_y) {
        (Some(l), Some(h)) => l * 16 <= y <= h * 16 + 15,
        _ => true,
    }
}

/// Where the block at chunk-local `(x, z)` and height `y` comes from. Without a
/// section index the section is `floor(y / 16)`; the height within the section is
/// `y mod 16` either way.
pub open spec fn block_source_at(c: RustChunk, x: i32, y: i32, z: i32, section: Option<i32>) -> Result<
    BlockSource,
    AnvilError,
> {
    if x < 0 || x > 15 || z < 0 || z > 15 || !y_in_bounds(c, y as int) {
        Err(AnvilError::OutOfBoundsCoordinates { x, y, z })
    } else {
        let s: int = match section {
            Some(s) => s as int,
            None => y as int / 16,
        };
        if !section_in_bounds(c, s) {
            Err(AnvilError::OutOfBoundsCoordinates { x: 0, y: s as i32, z: 0 })
        } else {
            match find_section(c.sections@, s) {
                None => Ok(BlockSource::Air),
                Some(k) => section_source(
                    c.sections@,
                    k,
                    linear_index(x as int, y as int % 16, z as int),
                    era_of(c.version),
                    spans_words(c.version),
                ),
            }
        }
    }
}

/// Whether `r` is the block that `src` designates, given legacy table entries `table`.
pub open spec fn source_result(
    secs: Seq<Section>,
    src: BlockSource,
    table: Seq<(u32, u32, Vec<u8>)>,
    r: Result<RustBlock, AnvilError>,
) -> bool {
    match src {
        BlockSource::Air => r matches Ok(b) && is_air(b) && b.wf(),
        BlockSource::Palette(s, k) => r matches Ok(b) && 0 <= s < secs.len() && 0 <= k
            < secs[s].palette@.len() && same_block(b, secs[s].palette@[k]),
        BlockSource::Legacy(id, data) => numeric_id_result(table, id, data, r),
    }
}

/// A cursor over the blocks of one section in linear order, computing each block
/// when asked.
#[derive(Debug)]
pub struct StreamBlocksIterator {
    /// The index of the section in the chunk's list; `None` for an absent section.
    pub section: Option<usize>,
    /// The linear index of the next block.
    pub index: usize,
}

proof fn lemma_find_prefix(secs: Seq<Section>, y: int, j: int)
    requires
        0 <= j <= secs.len(),
        find_section(secs.subrange(0, j), y) is Some,
    ensures
        find_section(secs, y) == find_section(secs.subrange(0, j), y),
    decreases secs.len() - j,
{
    if j == secs.len() {
        assert(secs.subrange(0, j) =~= secs);
    } else {
        assert(secs.subrange(0, j + 1).drop_last() =~= secs.subrange(0, j));
        lemma_find_prefix(secs, y, j + 1);
    }
}

fn floor_div16(y: i32) -> (r: (i32, i32))
    ensures
        r.0 == y as int / 16,
        r.1 == y as int % 16,
{
    let q = y / 16;
    let m = y % 16;
    if m < 0 {
        (q - 1, m + 16)
    } else {
        (q, m)
    }
}

impl RustChunk {
    /// Reads a chunk from its document: the data version picks the layout; the
    /// position, sections and vertical extent are read from the data compound.
    pub fn new(doc: PyNbtFile) -> (r: Result<RustChunk, AnvilError>)
        ensures
            reads_chunk(doc.name@, doc.root@, r),
    {
        let version = get_int(&doc.root, Key::DataVersion);
        let era = format_era(version);
        let data: Option<&PyNbtValue> = if era == FormatEra::Modern {
            Some(&doc.root)
        } else {
            match member(&doc.root, Key::Level) {
                Some(v) => match v {
                    PyNbtValue::Compound(_) => Some(v),
                    _ => None,
                },
                None => None,
            }
        };
        let (x, z) = match data {
            Some(d) => (
                match get_int(d, Key::XPos) {
                    Some(v) => v,
                    None => 0,
                },
                match get_int(d, Key::ZPos) {
                    Some(v) => v,
                    None => 0,
                },
            ),
            None => (0, 0),
        };
        let sk = if era == FormatEra::Modern {
            Key::SectionsModern
        } else {
            Key::SectionsLegacy
        };
        let items: Option<&Vec<PyNbtValue>> = match data {
            Some(d) => match member(d, sk) {
                Some(PyNbtValue::List(_, items)) => Some(items),
                _ => None,
            },
            None => None,
        };
        let ghost sitems = section_items(doc.root@, version);
        let mut sections: Vec<Section> = Vec::new();
        match items {
            None => {
                assert(sitems =~= Seq::<Nbt>::empty());
            },
            Some(items) => {
                proof {
                    lemma_view_list_len(items@);
                }
                let mut i: usize = 0;
                while i < items.len()
                    invariant
                        i <= items@.len(),
                        version == int_member(doc.root@, Key::DataVersion),
                        era == era_of(version),
                        sitems == section_items(doc.root@, version),
                        sitems == view_list(items@),
                        sitems.len() == items@.len(),
                        sections@.len() == i,
                        first_section_error(sitems.subrange(0, i as int), era) is None,
                        forall|q: int|
                            0 <= q < i ==> section_matches(#[trigger] sitems[q], era, sections@[q]),
                    decreases items@.len() - i,
                {
                    proof {
                        lemma_view_list_index(items@, i as int);
                        assert(sitems.subrange(0, i + 1).drop_last() =~= sitems.subrange(
                            0,
                            i as int,
                        ));
                        assert(sitems.subrange(0, i + 1).last() == sitems[i as int]);
                    }
                    match to_section(&items[i], era) {
                        Ok(sec) => {
                            sections.push(sec);
                        },
                        Err(e) => {
                            proof {
                                assert(first_section_error(sitems.subrange(0, i + 1), era) == Some(
                                    e,
                                ));
                                lemma_first_section_error_prefix(sitems, era, i + 1);
                            }
                            return Err(e);
                        },
                    }
                    i = i + 1;
                }
                assert(sitems.subrange(0, sitems.len() as int) =~= sitems);
                assert forall|q: int, k: int|
                    0 <= q < sections@.len() && 0 <= k < sections@[q].palette@.len() implies (
                    #[trigger] sections@[q].palette@[k]).wf() by {
                    lemma_section_palette_wf(sitems[q], era, sections@[q], k);
                }
            },
        }
        let (lowest_y, highest_y) = y_extent(&sections);
        Ok(RustChunk { x, z, version, lowest_y, highest_y, sections, document: doc })
    }

    /// A chunk with no stored data: position (0, 0), no data version, sections 0
    /// to 15, and nothing stored in them.
    pub fn empty() -> (r: RustChunk)
        ensures
            r.x == 0 && r.z == 0 && r.version is None,
            r.lowest_y == Some(0i32) && r.highest_y == Some(15i32),
            r.sections@.len() == 0,
            r.document.name@.len() == 0,
            r.document.root@ == Nbt::Compound(Seq::empty()),
    {
        let root = PyNbtValue::Compound(Vec::new());
        proof {
            assert(view_entries(Seq::<(Vec<u8>, PyNbtValue)>::empty()) =~= Seq::empty());
        }
        RustChunk {
            x: 0,
            z: 0,
            version: None,
            lowest_y: Some(0),
            highest_y: Some(15),
            sections: Vec::new(),
            document: PyNbtFile { name: Vec::new(), root },
        }
    }

    /// Reads the chunk stored in `region` at `(chunk_x, chunk_z)`, whose position
    /// becomes those coordinates; `ChunkNotFound` when it was never generated.
    pub fn from_region(region: &RustRegion, chunk_x: i32, chunk_z: i32) -> (r: Result<RustChunk, AnvilError>)
        ensures
            match payload_of(region.data@, chunk_x, chunk_z) {
                Err(e) => r == Err::<RustChunk, AnvilError>(e),
                Ok(None) => r == Err::<RustChunk, AnvilError>(
                    AnvilError::ChunkNotFound { x: chunk_x, z: chunk_z },
                ),
                Ok(Some(b)) => match parse_document(b) {
                    Err(e) => r == Err::<RustChunk, AnvilError>(e),
                    Ok((name, root)) => match r {
                        Ok(c) => c.x == chunk_x && c.z == chunk_z && reads_chunk(
                            name,
                            root,
                            Ok::<RustChunk, AnvilError>(RustChunk { x: coordinate(root, c.version, Key::XPos), z: coordinate(root, c.version, Key::ZPos), ..c }),
                        ),
                        Err(e) => reads_chunk(name, root, Err::<RustChunk, AnvilError>(e)),
                    },
                },
            },
    {
        match region.get_chunk(chunk_x, chunk_z) {
            Err(e) => Err(e),
            Ok(None) => Err(AnvilError::ChunkNotFound { x: chunk_x, z: chunk_z }),
            Ok(Some(c)) => {
                let mut c = c;
                c.x = chunk_x;
                c.z = chunk_z;
                Ok(c)
            },
        }
    }

    fn entity_list(&self) -> (r: Option<&Vec<PyNbtValue>>)
        ensures
            match r {
                Some(items) => list_of(
                    data_of(self.document.root@, self.version),
                    entities_key(self.version),
                ) == Some(view_list(items@)),
                None => list_of(data_of(self.document.root@, self.version), entities_key(self.version))
                    == None::<Seq<Nbt>>,
            },
    {
        let era = format_era(self.version);
        let data: Option<&PyNbtValue> = if era == FormatEra::Modern {
            Some(&self.document.root)
        } else {
            match member(&self.document.root, Key::Level) {
                Some(v) => match v {
                    PyNbtValue::Compound(_) => Some(v),
                    _ => None,
                },
                None => None,
            }
        };
        let ek = if era == FormatEra::Modern {
            Key::EntitiesModern
        } else {
            Key::EntitiesLegacy
        };
        match data {
            Some(d) => match member(d, ek) {
                Some(PyNbtValue::List(_, items)) => Some(items),
                _ => None,
            },
            None => None,
        }
    }

    /// The data compound's block entities: `block_entities` from the root layout on,
    /// `TileEntities` before; empty when the chunk stores no such list.
    pub fn block_entities(&self) -> (r: Vec<&PyNbtValue>)
        ensures
            r@.len() == entity_items(self.document.root@, self.version).len(),
            forall|i: int|
                0 <= i < r@.len() ==> (#[trigger] r@[i])@ == entity_items(
                    self.document.root@,
                    self.version,
                )[i],
    {
        let mut out: Vec<&PyNbtValue> = Vec::new();
        match self.entity_list() {
            None => {},
            Some(items) => {
                let ghost its = view_list(items@);
                proof {
                    lemma_view_list_len(items@);
                }
                let mut i: usize = 0;
                while i < items.len()
                    invariant
                        i <= items@.len(),
                        its == view_list(items@),
                        its == entity_items(self.document.root@, self.version),
                        its.len() == items@.len(),
                        out@.len() == i,
                        forall|q: int| 0 <= q < i ==> (#[trigger] out@[q])@ == its[q],
                    decreases items@.len() - i,
                {
                    proof {
                        lemma_view_list_index(items@, i as int);
                    }
                    out.push(&items[i]);
                    i = i + 1;
                }
            },
        }
        out
    }

    /// The first block entity whose `x`, `y` and `z` members are the given
    /// coordinates; `None` when there is none.
    pub fn get_block_entity(&self, x: i32, y: i32, z: i32) -> (r: Option<&PyNbtValue>)
        ensures
            match find_entity(entity_items(self.document.root@, self.version), x, y, z) {
                None => r is None,
                Some(k) => r matches Some(e) && e@ == entity_items(self.document.root@, self.version)[k],
            },
    {
        let items = match self.entity_list() {
            None => {
                return None;
            },
            Some(items) => items,
        };
        let ghost its = view_list(items@);
        proof {
            lemma_view_list_len(items@);
        }
        let mut i: usize = 0;
        while i < items.len()
            invariant
                i <= items@.len(),
                its == view_list(items@),
                list_of(data_of(self.document.root@, self.version), entities_key(self.version))
                    == Some(its),
                its.len() == items@.len(),
                find_entity(its.subrange(0, i as int), x, y, z) is None,
            decreases items@.len() - i,
        {
            proof {
                lemma_view_list_index(items@, i as int);
                assert(its.subrange(0, i + 1).drop_last() =~= its.subrange(0, i as int));
                assert(its.subrange(0, i + 1).last() == its[i as int]);
            }
            let e = &items[i];
            if get_int(e, Key::X) == Some(x) && get_int(e, Key::YLower) == Some(y) && get_int(
                e,
                Key::Z,
            ) == Some(z) {
                proof {
                    lemma_find_entity_prefix(its, x, y, z, i + 1);
                }
                return Some(e);
            }
            i = i + 1;
        }
        assert(its.subrange(0, its.len() as int) =~= its);
        None
    }

    /// The same as `get_block_entity`, under its older name.
    pub fn get_tile_entity(&self, x: i32, y: i32, z: i32) -> (r: Option<&PyNbtValue>)
        ensures
            match find_entity(entity_items(self.document.root@, self.version), x, y, z) {
                None => r is None,
                Some(k) => r matches Some(e) && e@ == entity_items(self.document.root@, self.version)[k],
            },
    {
        self.get_block_entity(x, y, z)
    }

    /// The same list as `block_entities`, under its older name.
    pub fn tile_entities(&self) -> (r: Vec<&PyNbtValue>)
        ensures
            r@.len() == entity_items(self.document.root@, self.version).len(),
            forall|i: int|
                0 <= i < r@.len() ==> (#[trigger] r@[i])@ == entity_items(
                    self.document.root@,
                    self.version,
                )[i],
    {
        self.block_entities()
    }

    fn find_section_index(&self, y: i32) -> (r: Option<usize>)
        ensures
            match r {
                Some(k) => find_section(self.sections@, y as int) == Some(k as int) && k
                    < self.sections@.len(),
                None => find_section(self.sections@, y as int) == None::<int>,
            },
    {
        let mut i: usize = 0;
        while i < self.sections.len()
            invariant
                i <= self.sections@.len(),
                find_section(self.sections@.subrange(0, i as int), y as int) is None,
            decreases self.sections@.len() - i,
        {
            proof {
                assert(self.sections@.subrange(0, i + 1).drop_last() =~= self.sections@.subrange(
                    0,
                    i as int,
                ));
            }
            if self.sections[i].y == y {
                proof {
                    lemma_find_prefix(self.sections@, y as int, i + 1);
                }
                return Some(i);
            }
            i = i + 1;
        }
        assert(self.sections@.subrange(0, self.sections@.len() as int) =~= self.sections@);
        None
    }

    /// The section at height `y`: `OutOfBoundsCoordinates` outside the known
    /// vertical extent, `None` when it is not stored.
    pub fn get_section(&self, y: i32) -> (r: Result<Option<&Section>, AnvilError>)
        ensures
            !section_in_bounds(*self, y as int) ==> r == Err::<Option<&Section>, AnvilError>(
                AnvilError::OutOfBoundsCoordinates { x: 0, y, z: 0 },
            ),
            section_in_bounds(*self, y as int) ==> match r {
                Ok(Some(sec)) => exists|k: int|
                    find_section(self.sections@, y as int) == Some(k) && *sec == self.sections@[k],
                Ok(None) => find_section(self.sections@, y as int) == None::<int>,
                Err(_) => false,
            },
    {
        if let (Some(l), Some(h)) = (self.lowest_y, self.highest_y) {
            if y < l || y > h {
                return Err(AnvilError::OutOfBoundsCoordinates { x: 0, y, z: 0 });
            }
        }
        match self.find_section_index(y) {
            Some(k) => Ok(Some(&self.sections[k])),
            None => Ok(None),
        }
    }

    /// The palette of the section at height `y`; `None` when the section is not
    /// stored.
    pub fn get_palette(&self, y: i32) -> (r: Result<Option<&Vec<RustBlock>>, AnvilError>)
        ensures
            !section_in_bounds(*self, y as int) ==> r == Err::<Option<&Vec<RustBlock>>, AnvilError>(
                AnvilError::OutOfBoundsCoordinates { x: 0, y, z: 0 },
            ),
            section_in_bounds(*self, y as int) ==> match r {
                Ok(Some(p)) => exists|k: int|
                    find_section(self.sections@, y as int) == Some(k) && *p
                        == self.sections@[k].palette,
                Ok(None) => find_section(self.sections@, y as int) == None::<int>,
                Err(_) => false,
            },
    {
        match self.get_section(y) {
            Err(e) => Err(e),
            Ok(None) => Ok(None),
            Ok(Some(sec)) => Ok(Some(&sec.palette)),
        }
    }

    /// Accepts a block for chunk-local `(x, z)` and height `y`. Changes are not
    /// kept: the chunk read from the document stays as it is, and only the
    /// coordinates are checked, as `get_block` checks them.
    pub fn set_block(&mut self, x: i32, y: i32, z: i32, _block: RustBlock) -> (r: Result<(), AnvilError>)
        ensures
            *final(self) == *old(self),
            (x < 0 || x > 15 || z < 0 || z > 15 || !y_in_bounds(*old(self), y as int)) ==> r
                == Err::<(), AnvilError>(AnvilError::OutOfBoundsCoordinates { x, y, z }),
            !(x < 0 || x > 15 || z < 0 || z > 15 || !y_in_bounds(*old(self), y as int)) ==> r
                == Ok::<(), AnvilError>(()),
    {
        if x < 0 || x > 15 || z < 0 || z > 15 {
            return Err(AnvilError::OutOfBoundsCoordinates { x, y, z });
        }
        if let (Some(l), Some(h)) = (self.lowest_y, self.highest_y) {
            if (y as i64) < (l as i64) * 16 || (y as i64) > (h as i64) * 16 + 15 {
                return Err(AnvilError::OutOfBoundsCoordinates { x, y, z });
            }
        }
        Ok(())
    }

    fn resolve(&self, k: usize, n: usize, table: &LegacyTable) -> (r: Result<RustBlock, AnvilError>)
        requires
            k < self.sections@.len(),
            n < SECTION_BLOCKS,
        ensures
            match section_source(
                self.sections@,
                k as int,
                n as int,
                era_of(self.version),
                spans_words(self.version),
            ) {
                Err(e) => r == Err::<RustBlock, AnvilError>(e),
                Ok(src) => source_result(self.sections@, src, table.entries@, r),
            },
    {
        let sec = &self.sections[k];
        let era = format_era(self.version);
        if era == FormatEra::PreFlattening {
            if n >= sec.blocks.len() {
                return Ok(air());
            }
            if n / 2 >= sec.data.len() {
                return Err(AnvilError::InvalidChunkData);
            }
            let id = (sec.blocks[n] as u8) as u32;
            let d = sec.data[n / 2] as u8;
            let nibble = if n % 2 == 0 {
                (d % 16) as u32
            } else {
                (d / 16) as u32
            };
            return RustBlock::from_numeric_id(table, id, nibble);
        }
        let p = sec.palette.len();
        if p == 0 {
            return Ok(air());
        }
        if p == 1 {
            return Ok(copy_block(&sec.palette[0]));
        }
        if p as u64 > MAX_PALETTE {
            return Err(AnvilError::InvalidChunkData);
        }
        let c = ceil_log2_of(p as u64);
        let w: u64 = if c < 4 {
            4
        } else {
            c as u64
        };
        let idx = unpack_index(&sec.states, n, w, spanning(self.version));
        if idx >= p as u64 {
            return Err(AnvilError::InvalidChunkData);
        }
        Ok(copy_block(&sec.palette[idx as usize]))
    }

    /// The block at chunk-local `(x, z)` and height `y`, optionally in a given
    /// section. Unstored sections and sections without block data hold air;
    /// pre-flattening blocks are converted through `table`.
    pub fn get_block(&self, x: i32, y: i32, z: i32, section: Option<i32>, table: &LegacyTable) -> (r:
        Result<RustBlock, AnvilError>)
        ensures
            match block_source_at(*self, x, y, z, section) {
                Err(e) => r == Err::<RustBlock, AnvilError>(e),
                Ok(src) => source_result(self.sections@, src, table.entries@, r),
            },
            palettes_wf(self.sections@) ==> (r matches Ok(b) ==> b.wf()),
    {
        if x < 0 || x > 15 || z < 0 || z > 15 {
            return Err(AnvilError::OutOfBoundsCoordinates { x, y, z });
        }
        if let (Some(l), Some(h)) = (self.lowest_y, self.highest_y) {
            if (y as i64) < (l as i64) * 16 || (y as i64) > (h as i64) * 16 + 15 {
                return Err(AnvilError::OutOfBoundsCoordinates { x, y, z });
            }
        }
        let (q, local_y) = floor_div16(y);
        let s = match section {
            Some(s) => s,
            None => q,
        };
        if let (Some(l), Some(h)) = (self.lowest_y, self.highest_y) {
            if s < l || s > h {
                return Err(AnvilError::OutOfBoundsCoordinates { x: 0, y: s, z: 0 });
            }
        }
        match self.find_section_index(s) {
            None => Ok(air()),
            Some(k) => {
                let n = ((local_y as usize) * 16 + (z as usize)) * 16 + (x as usize);
                self.resolve(k, n, table)
            },
        }
    }

    /// A cursor over the blocks of section `section` (section 0 when not given),
    /// starting at linear index `index`.
    pub fn stream_blocks(&self, index: usize, section: Option<i32>) -> (r: Result<
        StreamBlocksIterator,
        AnvilError,
    >)
        ensures
            ({
                let s: i32 = match section {
                    Some(s) => s,
                    None => 0,
                };
                if !section_in_bounds(*self, s as int) {
                    r == Err::<StreamBlocksIterator, AnvilError>(
                        AnvilError::OutOfBoundsCoordinates { x: 0, y: s, z: 0 },
                    )
                } else {
                    r matches Ok(st) && st.index == index && match st.section {
                        Some(k) => find_section(self.sections@, s as int) == Some(k as int),
                        None => find_section(self.sections@, s as int) == None::<int>,
                    }
                }
            }),
    {
        let s = match section {
            Some(s) => s,
            None => 0,
        };
        if let (Some(l), Some(h)) = (self.lowest_y, self.highest_y) {
            if s < l || s > h {
                return Err(AnvilError::OutOfBoundsCoordinates { x: 0, y: s, z: 0 });
            }
        }
        Ok(StreamBlocksIterator { section: self.find_section_index(s), index })
    }

    /// The same cursor as `stream_blocks` over section 0.
    pub fn stream_chunk(&self, index: usize) -> (r: Result<StreamBlocksIterator, AnvilError>)
        ensures
            !section_in_bounds(*self, 0) ==> r == Err::<StreamBlocksIterator, AnvilError>(
                AnvilError::OutOfBoundsCoordinates { x: 0, y: 0, z: 0 },
            ),
            section_in_bounds(*self, 0) ==> (r matches Ok(st) && st.index == index && match st.section {
                Some(k) => find_section(self.sections@, 0) == Some(k as int),
                None => find_section(self.sections@, 0) == None::<int>,
            }),
    {
        self.stream_blocks(index, None)
    }
}

impl StreamBlocksIterator {
    /// The next block, or `None` once all 4096 have been given.
    pub fn next(&mut self, chunk: &RustChunk, table: &LegacyTable) -> (r: Option<Result<RustBlock, AnvilError>>)
        ensures
            old(self).index >= SECTION_BLOCKS ==> r is None && *final(self) == *old(self),
            palettes_wf(chunk.sections@) ==> (r matches Some(Ok(b)) ==> b.wf()),
            old(self).index < SECTION_BLOCKS ==> {
                &&& final(self).index == old(self).index + 1
                &&& final(self).section == old(self).section
                &&& r matches Some(res) && match old(self).section {
                    None => res matches Ok(b) && is_air(b),
                    Some(k) => if k < chunk.sections@.len() {
                        match section_source(
                            chunk.sections@,
                            k as int,
                            old(self).index as int,
                            era_of(chunk.version),
                            spans_words(chunk.version),
                        ) {
                            Err(e) => res == Err::<RustBlock, AnvilError>(e),
                            Ok(src) => source_result(chunk.sections@, src, table.entries@, res),
                        }
                    } else {
                        res == Err::<RustBlock, AnvilError>(AnvilError::InvalidChunkData)
                    },
                }
            },
    {
        if self.index >= SECTION_BLOCKS {
            return None;
        }
        let res = match self.section {
            None => Ok(air()),
            Some(k) => if k < chunk.sections.len() {
                chunk.resolve(k, self.index, table)
            } else {
                Err(AnvilError::InvalidChunkData)
            },
        };
        self.index = self.index + 1;
        Some(res)
    }
}

/// The lowest and highest section heights stored.
fn y_extent(secs: &Vec<Section>) -> (r: (Option<i32>, Option<i32>))
    ensures
        r.0 == min_y(secs@),
        r.1 == max_y(secs@),
{
    let mut lo: Option<i32> = None;
    let mut hi: Option<i32> = None;
    let mut i: usize = 0;
    while i < secs.len()
        invariant
            i <= secs@.len(),
            lo == min_y(secs@.subrange(0, i as int)),
            hi == max_y(secs@.subrange(0, i as int)),
        decreases secs@.len() - i,
    {
        proof {
            assert(secs@.subrange(0, i + 1).drop_last() =~= secs@.subrange(0, i as int));
        }
        let y = secs[i].y;
        lo = match lo {
            None => Some(y),
            Some(m) => Some(if y < m { y } else { m }),
        };
        hi = match hi {
            None => Some(y),
            Some(m) => Some(if y > m { y } else { m }),
        };
        i = i + 1;
    }
    assert(secs@.subrange(0, secs@.len() as int) =~= secs@);
    (lo, hi)
}

proof fn lemma_first_section_error_prefix(items: Seq<Nbt>, era: FormatEra, j: int)
    requires
        0 <= j <= items.len(),
        first_section_error(items.subrange(0, j), era) is Some,
    ensures
        first_section_error(items, era) == first_section_error(items.subrange(0, j), era),
    decreases items.len() - j,
{
    if j == items.len() {
        assert(items.subrange(0, j) =~= items);
    } else {
        assert(items.subrange(0, j + 1).drop_last() =~= items.subrange(0, j));
        lemma_first_section_error_prefix(items, era, j + 1);
    }
}

/// A block lookup one step outside the chunk fails with `OutOfBoundsCoordinates`:
/// at `x` or `z` of -1 or 16, and, when the vertical extent is known, one block
/// below the lowest section or one block above the highest.
pub proof fn lemma_coordinate_bounds(c: RustChunk, x: i32, y: i32, z: i32, section: Option<i32>)
    requires
        x == -1 || x == 16 || z == -1 || z == 16 || (c.lowest_y is Some && c.highest_y is Some && (
        y == c.lowest_y->Some_0 * 16 - 1 || y == c.highest_y->Some_0 * 16 + 16)),
    ensures
        block_source_at(c, x, y, z, section) == Err::<BlockSource, AnvilError>(
            AnvilError::OutOfBoundsCoordinates { x, y, z },
        ),
{
}

/// The first `j` of `indices`, each `w` bits wide, packed into one word from the
/// low bits up.
pub open spec fn pack_word(indices: Seq<u64>, w: u64, j: nat) -> u64
    decreases j,
{
    if j == 0 {
        0
    } else {
        pack_word(indices, w, (j - 1) as nat) | (indices[j - 1] << (((j - 1) * w) as u64))
    }
}

proof fn lemma_pack_step(x: u64, a: u64, w: u64)
    requires
        4 <= w <= 32,
        a + w <= 64,
    ensures
        a + w < 64 ==> ((x & ((1u64 << a) - 1) as u64) | (((x >> a) & low_mask(w)) << a)) == x & ((
        1u64 << (a + w) as u64) - 1) as u64,
        a + w == 64 ==> ((x & ((1u64 << a) - 1) as u64) | (((x >> a) & low_mask(w)) << a)) == x,
{
    assert(a + w < 64 ==> ((x & ((1u64 << a) - 1) as u64) | (((x >> a) & ((1u64 << w) - 1) as u64)
        << a)) == x & ((1u64 << (a + w) as u64) - 1) as u64) by (bit_vector)
        requires
            4 <= w <= 32,
            a + w <= 64,
    ;
    assert(a + w == 64 ==> ((x & ((1u64 << a) - 1) as u64) | (((x >> a) & ((1u64 << w) - 1) as u64)
        << a)) == x) by (bit_vector)
        requires
            4 <= w <= 32,
            a + w <= 64,
    ;
}

/// The indices that one word holds under the non-spanning rule.
pub open spec fn word_indices(x: u64, w: u64) -> Seq<u64> {
    Seq::new((64u64 / w) as nat, |j: int| (x >> ((j * w) as u64)) & low_mask(w))
}

proof fn lemma_pack_prefix(x: u64, w: u64, j: nat)
    requires
        4 <= w <= 32,
        j <= 64u64 / w,
    ensures
        j * w < 64 ==> pack_word(word_indices(x, w), w, j) == x & ((1u64 << (j * w) as u64) - 1) as u64,
        j * w == 64 ==> pack_word(word_indices(x, w), w, j) == x,
    decreases j,
{
    assert(j * w <= 64) by (nonlinear_arith)
        requires
            j <= 64u64 / w,
            w >= 4,
    ;
    let idx = word_indices(x, w);
    if j == 0 {
        assert(j * w == 0) by (nonlinear_arith)
            requires
                j == 0,
        ;
        assert(x & ((1u64 << 0u64) - 1) as u64 == 0) by (bit_vector);
    } else {
        let a = ((j - 1) * w) as u64;
        assert((j - 1) * w + w == j * w) by (nonlinear_arith);
        assert((j - 1) * w < 64);
        lemma_pack_prefix(x, w, (j - 1) as nat);
        lemma_pack_step(x, a, w);
        assert(idx[j - 1] == (x >> a) & low_mask(w));
        assert(pack_word(idx, w, j) == pack_word(idx, w, (j - 1) as nat) | (idx[j - 1] << a));
        assert(a + w == j * w);
    }
}

/// Re-packing, non-spanning rule: the `64 / w` indices that a word holds, packed
/// again from the low bits up with the same width, give the word back bit for bit
/// when its unused top bits are zero.
pub proof fn lemma_repack_word(x: u64, w: u64)
    requires
        4 <= w <= 32,
        (64u64 / w) * w == 64 || x >> (((64u64 / w) * w) as u64) == 0,
    ensures
        pack_word(word_indices(x, w), w, (64u64 / w) as nat) == x,
{
    let per = (64u64 / w) as nat;
    assert(per * w <= 64 && per >= 2) by (nonlinear_arith)
        requires
            per == 64u64 / w,
            4 <= w <= 32,
    ;
    lemma_pack_prefix(x, w, per);
    if per * w < 64 {
        let b = (per * w) as u64;
        assert(x >> b == 0 ==> x & ((1u64 << b) - 1) as u64 == x) by (bit_vector)
            requires
                b < 64,
        ;
    }
}

/// The non-spanning rule reads index `k * (64 / w) + j` from bits `j * w` up of
/// word `k`: the indices of a whole array are those of its words in turn.
pub proof fn lemma_word_indices_of_array(states: Seq<i64>, k: int, w: u64, j: int)
    requires
        4 <= w <= 32,
        0 <= k < states.len(),
        0 <= j < 64u64 / w,
    ensures
        packed_index(states, k * (64u64 / w) + j, w as int, false) == word_indices(
            states[k] as u64,
            w,
        )[j],
{
    let per = 64int / (w as int);
    assert(per >= 2) by (nonlinear_arith)
        requires
            per == 64int / (w as int),
            4 <= w <= 32,
    ;
    assert((k * per + j) / per == k && (k * per + j) % per == j) by (nonlinear_arith)
        requires
            per >= 2,
            0 <= j < per,
            k >= 0,
    ;
}

/// Bit `b` of a packed array read as one stream: bit `b % 64` of word `b / 64`.
pub open spec fn stream_bit(states: Seq<i64>, b: int) -> u64 {
    (word_at(states, b / 64) >> ((b % 64) as u64)) & 1
}

/// Bit `b` of the stream that packs `indices`, each `w` bits wide, end to end.
pub open spec fn repacked_bit(indices: Seq<u64>, w: int, b: int) -> u64 {
    if 0 <= b / w < indices.len() {
        (indices[b / w] >> ((b % w) as u64)) & 1
    } else {
        0
    }
}

proof fn lemma_span_bit(lo: u64, hi: u64, off: u64, w: u64, t: u64)
    requires
        off < 64,
        4 <= w <= 32,
        t < w,
    ensures
        off + w <= 64 ==> ((((lo >> off) & low_mask(w)) >> t) & 1) == (lo >> (off + t) as u64) & 1,
        off + w > 64 && off + t < 64 ==> (((((lo >> off) | (hi << (64 - off) as u64)) & low_mask(w))
            >> t) & 1) == (lo >> (off + t) as u64) & 1,
        off + w > 64 && off + t >= 64 ==> (((((lo >> off) | (hi << (64 - off) as u64)) & low_mask(w))
            >> t) & 1) == (hi >> (off + t - 64) as u64) & 1,
{
    assert(off + w <= 64 ==> ((((lo >> off) & ((1u64 << w) - 1) as u64) >> t) & 1) == (lo >> (off
        + t) as u64) & 1) by (bit_vector)
        requires
            off < 64,
            4 <= w <= 32,
            t < w,
    ;
    assert(off + w > 64 && off + t < 64 ==> (((((lo >> off) | (hi << (64 - off) as u64)) & ((1u64
        << w) - 1) as u64) >> t) & 1) == (lo >> (off + t) as u64) & 1) by (bit_vector)
        requires
            off < 64,
            4 <= w <= 32,
            t < w,
    ;
    assert(off + w > 64 && off + t >= 64 ==> (((((lo >> off) | (hi << (64 - off) as u64)) & ((1u64
        << w) - 1) as u64) >> t) & 1) == (hi >> (off + t - 64) as u64) & 1) by (bit_vector)
        requires
            off < 64,
            4 <= w <= 32,
            t < w,
    ;
}

/// Under the spanning rule, bit `t` of index `i` is bit `i * w + t` of the stream.
proof fn lemma_index_bit(states: Seq<i64>, i: int, w: u64, t: u64)
    requires
        0 <= i,
        4 <= w <= 32,
        t < w,
    ensures
        (packed_index(states, i, w as int, true) >> t) & 1 == stream_bit(states, i * w + t),
{
    let b = i * w;
    let k = b / 64;
    let off = (b % 64) as u64;
    assert(b >= 0) by (nonlinear_arith)
        requires
            b == i * w,
            i >= 0,
            w >= 4,
    ;
    lemma_span_bit(word_at(states, k), word_at(states, k + 1), off, w, t);
    if off + t < 64 {
        assert((b + t) / 64 == k && (b + t) % 64 == off + t);
    } else {
        assert((b + t) / 64 == k + 1 && (b + t) % 64 == off + t - 64);
    }
}

/// Re-packing, spanning rule: re-packing the indices of a section end to end with
/// the same width reproduces every bit of the packed array, provided the bits past
/// the last index are zero.
pub proof fn lemma_repack_spanning(states: Seq<i64>, w: u64, b: int)
    requires
        4 <= w <= 32,
        0 <= b < 64 * states.len(),
        forall|c: int| 4096 * w <= c < 64 * states.len() ==> #[trigger] stream_bit(states, c) == 0,
    ensures
        repacked_bit(
            Seq::new(4096, |i: int| packed_index(states, i, w as int, true)),
            w as int,
            b,
        ) == stream_bit(states, b),
{
    let i = b / (w as int);
    let t = b % (w as int);
    assert(b == i * w + t && 0 <= t < w && i >= 0) by (nonlinear_arith)
        requires
            w >= 4,
            b >= 0,
            i == b / (w as int),
            t == b % (w as int),
    ;
    if i < 4096 {
        lemma_index_bit(states, i, w, t as u64);
    } else {
        assert(b >= 4096 * w) by (nonlinear_arith)
            requires
                b == i * w + t,
                i >= 4096,
                t >= 0,
                w >= 4,
        ;
    }
}

proof fn lemma_pack_bits(p: u64, x: u64, a: u64, b: u64, w: u64)
    requires
        4 <= w <= 32,
        a + w <= 64,
        a < 64,
        p < (1u64 << a),
        x & low_mask(w) == x,
    ensures
        b + w <= a ==> ((p | (x << a)) >> b) & low_mask(w) == (p >> b) & low_mask(w),
        ((p | (x << a)) >> a) & low_mask(w) == x,
        a + w < 64 ==> (p | (x << a)) < (1u64 << (a + w) as u64),
{
    assert(b + w <= a ==> ((p | (x << a)) >> b) & ((1u64 << w) - 1) as u64 == (p >> b) & ((1u64
        << w) - 1) as u64) by (bit_vector)
        requires
            4 <= w <= 32,
            a + w <= 64,
            a < 64,
            p < (1u64 << a),
    ;
    assert(((p | (x << a)) >> a) & ((1u64 << w) - 1) as u64 == x) by (bit_vector)
        requires
            4 <= w <= 32,
            a + w <= 64,
            a < 64,
            p < (1u64 << a),
            x & ((1u64 << w) - 1) as u64 == x,
    ;
    assert(a + w < 64 ==> (p | (x << a)) < (1u64 << (a + w) as u64)) by (bit_vector)
        requires
            4 <= w <= 32,
            a + w <= 64,
            a < 64,
            p < (1u64 << a),
            x & ((1u64 << w) - 1) as u64 == x,
    ;
}

proof fn lemma_pack_reads(indices: Seq<u64>, w: u64, m: nat)
    requires
        4 <= w <= 32,
        m <= 64u64 / w,
        m <= indices.len(),
        forall|j: int| 0 <= j < indices.len() ==> #[trigger] indices[j] & low_mask(w) == indices[j],
    ensures
        m * w < 64 ==> pack_word(indices, w, m) < (1u64 << (m * w) as u64),
        forall|j: int|
            0 <= j < m ==> (pack_word(indices, w, m) >> ((j * w) as u64)) & low_mask(w)
                == #[trigger] indices[j],
    decreases m,
{
    assert(m * w <= 64) by (nonlinear_arith)
        requires
            m <= 64u64 / w,
            w >= 4,
    ;
    if m == 0 {
        assert(m * w == 0) by (nonlinear_arith)
            requires
                m == 0,
        ;
        assert(0u64 < (1u64 << 0u64)) by (bit_vector);
    } else {
        let k = (m - 1) as nat;
        let a = (k * w) as u64;
        assert(k * w + w == m * w) by (nonlinear_arith)
            requires
                k == m - 1,
        ;
        lemma_pack_reads(indices, w, k);
        let p = pack_word(indices, w, k);
        assert forall|j: int| 0 <= j < m implies (pack_word(indices, w, m) >> ((j * w) as u64))
            & low_mask(w) == #[trigger] indices[j] by {
            if j < k {
                assert(j * w + w <= k * w) by (nonlinear_arith)
                    requires
                        j < k,
                        w >= 0,
                ;
                lemma_pack_bits(p, indices[k as int], a, (j * w) as u64, w);
            } else {
                lemma_pack_bits(p, indices[k as int], a, 0, w);
            }
        }
        lemma_pack_bits(p, indices[k as int], a, 0, w);
    }
}

/// Reading back, non-spanning rule: a word that packs indices of `w` bits from the
/// low bits up (each below `2^w`) gives index `k * (64 / w) + j` of the array as
/// its `j`-th index, the one `get_block` and the block cursor look up.
pub proof fn lemma_packed_word_reads(states: Seq<i64>, k: int, indices: Seq<u64>, w: u64, j: int)
    requires
        4 <= w <= 32,
        0 <= k < states.len(),
        indices.len() == 64u64 / w,
        states[k] as u64 == pack_word(indices, w, indices.len()),
        forall|q: int| 0 <= q < indices.len() ==> #[trigger] indices[q] & low_mask(w) == indices[q],
        0 <= j < indices.len(),
    ensures
        packed_index(states, k * (64u64 / w) + j, w as int, false) == indices[j],
{
    lemma_pack_reads(indices, w, indices.len());
    lemma_word_indices_of_array(states, k, w, j);
}

} // verus!
