use vstd::prelude::*;
use vstd::utf8::valid_utf8;

use crate::error::AnvilError;

verus! {

pub const TAG_END: u8 = 0;
pub const TAG_BYTE: u8 = 1;
pub const TAG_SHORT: u8 = 2;
pub const TAG_INT: u8 = 3;
pub const TAG_LONG: u8 = 4;
pub const TAG_FLOAT: u8 = 5;
pub const TAG_DOUBLE: u8 = 6;
pub const TAG_BYTE_ARRAY: u8 = 7;
pub const TAG_STRING: u8 = 8;
pub const TAG_LIST: u8 = 9;
pub const TAG_COMPOUND: u8 = 10;
pub const TAG_INT_ARRAY: u8 = 11;
pub const TAG_LONG_ARRAY: u8 = 12;

/// Mathematical model of a tag tree: the same shape as `PyNbtValue`, over sequences.
pub enum Nbt {
    Byte(i8),
    Short(i16),
    Int(i32),
    Long(i64),
    /// IEEE-754 single precision, kept as its bit pattern.
    Float(u32),
    /// IEEE-754 double precision, kept as its bit pattern.
    Double(u64),
    ByteArray(Seq<i8>),
    /// UTF-8 bytes.
    String(Seq<u8>),
    /// Declared element tag, elements.
    List(u8, Seq<Nbt>),
    /// Named members in stored order.
    Compound(Seq<(Seq<u8>, Nbt)>),
    IntArray(Seq<i32>),
    LongArray(Seq<i64>),
}

/// A decoded tag value. Floating-point tags keep their raw bit patterns, so that
/// decoding and encoding never alter a value.
#[derive(Debug)]
pub enum PyNbtValue {
    Byte(i8),
    Short(i16),
    Int(i32),
    Long(i64),
    Float(u32),
    Double(u64),
    ByteArray(Vec<i8>),
    /// UTF-8 bytes.
    String(Vec<u8>),
    /// Declared element tag, elements.
    List(u8, Vec<PyNbtValue>),
    /// Named members in stored order; names are UTF-8 bytes. A name that the
    /// input repeats is kept as stored, and every lookup (`compound_get`,
    /// `get_member`, `PyNbtCompound::get`) takes the last member of that name, so
    /// each name has one value; `compound_set` replaces that member.
    Compound(Vec<(Vec<u8>, PyNbtValue)>),
    IntArray(Vec<i32>),
    LongArray(Vec<i64>),
}

/// A whole NBT document: the root's name and the root compound.
#[derive(Debug)]
pub struct PyNbtFile {
    pub name: Vec<u8>,
    pub root: PyNbtValue,
}

pub open spec fn view_value(v: PyNbtValue) -> Nbt
    decreases v,
{
    match v {
        PyNbtValue::Byte(x) => Nbt::Byte(x),
        PyNbtValue::Short(x) => Nbt::Short(x),
        PyNbtValue::Int(x) => Nbt::Int(x),
        PyNbtValue::Long(x) => Nbt::Long(x),
        PyNbtValue::Float(x) => Nbt::Float(x),
        PyNbtValue::Double(x) => Nbt::Double(x),
        PyNbtValue::ByteArray(xs) => Nbt::ByteArray(xs@),
        PyNbtValue::String(bs) => Nbt::String(bs@),
        PyNbtValue::List(t, vs) => Nbt::List(t, view_list(vs@)),
        PyNbtValue::Compound(es) => Nbt::Compound(view_entries(es@)),
        PyNbtValue::IntArray(xs) => Nbt::IntArray(xs@),
        PyNbtValue::LongArray(xs) => Nbt::LongArray(xs@),
    }
}

pub open spec fn view_list(vs: Seq<PyNbtValue>) -> Seq<Nbt>
    decreases vs,
{
    if vs.len() == 0 {
        Seq::empty()
    } else {
        view_list(vs.drop_last()).push(view_value(vs.last()))
    }
}

pub open spec fn view_entries(es: Seq<(Vec<u8>, PyNbtValue)>) -> Seq<(Seq<u8>, Nbt)>
    decreases es,
{
    if es.len() == 0 {
        Seq::empty()
    } else {
        view_entries(es.drop_last()).push((es.last().0@, view_value(es.last().1)))
    }
}

impl View for PyNbtValue {
    type V = Nbt;

    open spec fn view(&self) -> Nbt {
        view_value(*self)
    }
}

/// The tag type byte of a value.
pub open spec fn tag_of(v: Nbt) -> u8 {
    match v {
        Nbt::Byte(_) => TAG_BYTE,
        Nbt::Short(_) => TAG_SHORT,
        Nbt::Int(_) => TAG_INT,
        Nbt::Long(_) => TAG_LONG,
        Nbt::Float(_) => TAG_FLOAT,
        Nbt::Double(_) => TAG_DOUBLE,
        Nbt::ByteArray(_) => TAG_BYTE_ARRAY,
        Nbt::String(_) => TAG_STRING,
        Nbt::List(_, _) => TAG_LIST,
        Nbt::Compound(_) => TAG_COMPOUND,
        Nbt::IntArray(_) => TAG_INT_ARRAY,
        Nbt::LongArray(_) => TAG_LONG_ARRAY,
    }
}

// ---------------------------------------------------------------------------
// Big-endian fixed-width integers

pub open spec fn u16_at(s: Seq<u8>, p: int) -> u16 {
    (s[p] as int * 0x100 + s[p + 1] as int) as u16
}

pub open spec fn u32_at(s: Seq<u8>, p: int) -> u32 {
    (s[p] as int * 0x1000000 + s[p + 1] as int * 0x10000 + s[p + 2] as int * 0x100
        + s[p + 3] as int) as u32
}

pub open spec fn u64_at(s: Seq<u8>, p: int) -> u64 {
    (u32_at(s, p) as int * 0x1_0000_0000 + u32_at(s, p + 4) as int) as u64
}

pub open spec fn be16(x: u16) -> Seq<u8> {
    seq![(x / 0x100) as u8, (x % 0x100) as u8]
}

pub open spec fn be32(x: u32) -> Seq<u8> {
    seq![
        (x / 0x1000000) as u8,
        (x / 0x10000 % 0x100) as u8,
        (x / 0x100 % 0x100) as u8,
        (x % 0x100) as u8,
    ]
}

pub open spec fn be64(x: u64) -> Seq<u8> {
    be32((x / 0x1_0000_0000) as u32) + be32((x % 0x1_0000_0000) as u32)
}

// ---------------------------------------------------------------------------
// Encoding

pub open spec fn encode_i8s(xs: Seq<i8>) -> Seq<u8> {
    Seq::new(xs.len(), |i: int| xs[i] as u8)
}

pub open spec fn encode_i32s(xs: Seq<i32>) -> Seq<u8>
    decreases xs.len(),
{
    if xs.len() == 0 {
        Seq::empty()
    } else {
        encode_i32s(xs.drop_last()) + be32(xs.last() as u32)
    }
}

pub open spec fn encode_i64s(xs: Seq<i64>) -> Seq<u8>
    decreases xs.len(),
{
    if xs.len() == 0 {
        Seq::empty()
    } else {
        encode_i64s(xs.drop_last()) + be64(xs.last() as u64)
    }
}

/// The bytes of a value without its tag byte and name.
pub open spec fn encode_payload(v: Nbt) -> Seq<u8>
    decreases v,
{
    match v {
        Nbt::Byte(x) => seq![x as u8],
        Nbt::Short(x) => be16(x as u16),
        Nbt::Int(x) => be32(x as u32),
        Nbt::Long(x) => be64(x as u64),
        Nbt::Float(x) => be32(x),
        Nbt::Double(x) => be64(x),
        Nbt::ByteArray(xs) => be32(xs.len() as u32) + encode_i8s(xs),
        Nbt::String(bs) => be16(bs.len() as u16) + bs,
        Nbt::List(t, vs) => seq![t] + be32(vs.len() as u32) + encode_list(vs),
        Nbt::Compound(es) => encode_entries(es) + seq![TAG_END],
        Nbt::IntArray(xs) => be32(xs.len() as u32) + encode_i32s(xs),
        Nbt::LongArray(xs) => be32(xs.len() as u32) + encode_i64s(xs),
    }
}

pub open spec fn encode_list(vs: Seq<Nbt>) -> Seq<u8>
    decreases vs,
{
    if vs.len() == 0 {
        Seq::empty()
    } else {
        encode_list(vs.drop_last()) + encode_payload(vs.last())
    }
}

/// Compound members, each as its tag byte, name and payload.
pub open spec fn encode_entries(es: Seq<(Seq<u8>, Nbt)>) -> Seq<u8>
    decreases es,
{
    if es.len() == 0 {
        Seq::empty()
    } else {
        encode_entries(es.drop_last()) + seq![tag_of(es.last().1)] + be16(
            es.last().0.len() as u16,
        ) + es.last().0 + encode_payload(es.last().1)
    }
}

/// A document: the root compound's tag byte, the root name, the root payload.
pub open spec fn encode_document(name: Seq<u8>, root: Nbt) -> Seq<u8> {
    seq![TAG_COMPOUND] + be16(name.len() as u16) + name + encode_payload(root)
}

// ---------------------------------------------------------------------------
// Decoding

/// The result of reading a payload of type `tag` at position `p` of `s`: the value
/// and the position just after it, or the first failure met.
pub open spec fn parse_payload(s: Seq<u8>, p: int, tag: u8) -> Result<(Nbt, int), AnvilError>
    decreases s.len() - p, 1int,
{
    if p < 0 || p > s.len() {
        Err(AnvilError::TruncatedInput)
    } else if tag == TAG_BYTE {
        if p + 1 > s.len() {
            Err(AnvilError::TruncatedInput)
        } else {
            Ok((Nbt::Byte(s[p] as i8), p + 1))
        }
    } else if tag == TAG_SHORT {
        if p + 2 > s.len() {
            Err(AnvilError::TruncatedInput)
        } else {
            Ok((Nbt::Short(u16_at(s, p) as i16), p + 2))
        }
    } else if tag == TAG_INT || tag == TAG_FLOAT {
        if p + 4 > s.len() {
            Err(AnvilError::TruncatedInput)
        } else if tag == TAG_INT {
            Ok((Nbt::Int(u32_at(s, p) as i32), p + 4))
        } else {
            Ok((Nbt::Float(u32_at(s, p)), p + 4))
        }
    } else if tag == TAG_LONG || tag == TAG_DOUBLE {
        if p + 8 > s.len() {
            Err(AnvilError::TruncatedInput)
        } else if tag == TAG_LONG {
            Ok((Nbt::Long(u64_at(s, p) as i64), p + 8))
        } else {
            Ok((Nbt::Double(u64_at(s, p)), p + 8))
        }
    } else if tag == TAG_STRING {
        parse_string(s, p)
    } else if tag == TAG_BYTE_ARRAY || tag == TAG_INT_ARRAY || tag == TAG_LONG_ARRAY {
        if p + 4 > s.len() {
            Err(AnvilError::TruncatedInput)
        } else {
            let n = u32_at(s, p) as i32 as int;
            let w: int = if tag == TAG_BYTE_ARRAY {
                1
            } else if tag == TAG_INT_ARRAY {
                4
            } else {
                8
            };
            let q = p + 4;
            if n < 0 {
                Err(AnvilError::MalformedTag)
            } else if q + w * n > s.len() {
                Err(AnvilError::TruncatedInput)
            } else if tag == TAG_BYTE_ARRAY {
                Ok((Nbt::ByteArray(Seq::new(n as nat, |i: int| s[q + i] as i8)), q + n))
            } else if tag == TAG_INT_ARRAY {
                Ok((Nbt::IntArray(Seq::new(n as nat, |i: int| u32_at(s, q + 4 * i) as i32)), q + 4 * n))
            } else {
                Ok((Nbt::LongArray(Seq::new(n as nat, |i: int| u64_at(s, q + 8 * i) as i64)), q + 8 * n))
            }
        }
    } else if tag == TAG_LIST {
        if p + 5 > s.len() {
            Err(AnvilError::TruncatedInput)
        } else {
            let t = s[p];
            let n = u32_at(s, p + 1) as i32 as int;
            if t > TAG_LONG_ARRAY || n < 0 || (t == TAG_END && n > 0) {
                Err(AnvilError::MalformedTag)
            } else {
                parse_list(s, p + 5, t, n, Seq::empty())
            }
        }
    } else if tag == TAG_COMPOUND {
        parse_entries(s, p, Seq::empty())
    } else {
        Err(AnvilError::MalformedTag)
    }
}

/// A length-prefixed UTF-8 string at `p`: its bytes and the position after it.
pub open spec fn parse_string(s: Seq<u8>, p: int) -> Result<(Nbt, int), AnvilError> {
    if p < 0 || p + 2 > s.len() {
        Err(AnvilError::TruncatedInput)
    } else {
        let n = u16_at(s, p) as int;
        if p + 2 + n > s.len() {
            Err(AnvilError::TruncatedInput)
        } else if !valid_utf8(s.subrange(p + 2, p + 2 + n)) {
            Err(AnvilError::InvalidUtf8)
        } else {
            Ok((Nbt::String(s.subrange(p + 2, p + 2 + n)), p + 2 + n))
        }
    }
}

/// The `left` remaining elements of a list whose elements read so far are `acc`.
pub open spec fn parse_list(s: Seq<u8>, p: int, t: u8, left: int, acc: Seq<Nbt>) -> Result<
    (Nbt, int),
    AnvilError,
>
    decreases s.len() - p, 2int,
{
    if left <= 0 {
        Ok((Nbt::List(t, acc), p))
    } else {
        match parse_payload(s, p, t) {
            Err(e) => Err(e),
            Ok((v, q)) => if q <= p || q > s.len() {
                Err(AnvilError::MalformedTag)
            } else {
                parse_list(s, q, t, left - 1, acc.push(v))
            },
        }
    }
}

/// The remaining members of a compound whose members read so far are `acc`, up to
/// and including the first end tag.
pub open spec fn parse_entries(s: Seq<u8>, p: int, acc: Seq<(Seq<u8>, Nbt)>) -> Result<
    (Nbt, int),
    AnvilError,
>
    decreases s.len() - p, 0int,
{
    if p < 0 || p + 1 > s.len() {
        Err(AnvilError::TruncatedInput)
    } else if s[p] == TAG_END {
        Ok((Nbt::Compound(acc), p + 1))
    } else if s[p] > TAG_LONG_ARRAY {
        Err(AnvilError::MalformedTag)
    } else {
        match parse_string(s, p + 1) {
            Err(e) => Err(e),
            Ok((name, q)) => match parse_payload(s, q, s[p]) {
                Err(e) => Err(e),
                Ok((v, r)) => if r <= p || r > s.len() {
                    Err(AnvilError::MalformedTag)
                } else {
                    parse_entries(s, r, acc.push((name_bytes(name), v)))
                },
            },
        }
    }
}

pub open spec fn name_bytes(v: Nbt) -> Seq<u8> {
    match v {
        Nbt::String(bs) => bs,
        _ => Seq::empty(),
    }
}

/// A document: a compound tag byte, the root name, the root compound's payload.
/// Bytes after the root compound are ignored.
pub open spec fn parse_document(s: Seq<u8>) -> Result<(Seq<u8>, Nbt), AnvilError> {
    if s.len() < 1 {
        Err(AnvilError::TruncatedInput)
    } else if s[0] != TAG_COMPOUND {
        Err(AnvilError::MalformedTag)
    } else {
        match parse_string(s, 1) {
            Err(e) => Err(e),
            Ok((name, q)) => match parse_payload(s, q, TAG_COMPOUND) {
                Err(e) => Err(e),
                Ok((v, _)) => Ok((name_bytes(name), v)),
            },
        }
    }
}

/// The specification-level reading of an executable decoding result.
pub open spec fn lift(r: Result<(PyNbtValue, usize), AnvilError>) -> Result<(Nbt, int), AnvilError> {
    match r {
        Ok((v, q)) => Ok((v@, q as int)),
        Err(e) => Err(e),
    }
}

proof fn lemma_view_list_push(vs: Seq<PyNbtValue>, x: PyNbtValue)
    ensures
        view_list(vs.push(x)) == view_list(vs).push(x@),
{
    assert(vs.push(x).drop_last() =~= vs);
}

pub proof fn lemma_view_entries_push(es: Seq<(Vec<u8>, PyNbtValue)>, e: (Vec<u8>, PyNbtValue))
    ensures
        view_entries(es.push(e)) == view_entries(es).push((e.0@, e.1@)),
{
    assert(es.push(e).drop_last() =~= es);
}

pub proof fn lemma_view_list_len(vs: Seq<PyNbtValue>)
    ensures
        view_list(vs).len() == vs.len(),
    decreases vs.len(),
{
    if vs.len() > 0 {
        lemma_view_list_len(vs.drop_last());
    }
}

pub proof fn lemma_view_list_index(vs: Seq<PyNbtValue>, i: int)
    requires
        0 <= i < vs.len(),
    ensures
        view_list(vs).len() == vs.len(),
        view_list(vs)[i] == vs[i]@,
    decreases vs.len(),
{
    lemma_view_list_len(vs);
    if i < vs.len() - 1 {
        lemma_view_list_index(vs.drop_last(), i);
    }
}

proof fn lemma_view_entries_index(es: Seq<(Vec<u8>, PyNbtValue)>, i: int)
    requires
        0 <= i < es.len(),
    ensures
        view_entries(es).len() == es.len(),
        view_entries(es)[i] == (es[i].0@, es[i].1@),
    decreases es.len(),
{
    lemma_view_entries_len(es);
    if i < es.len() - 1 {
        lemma_view_entries_index(es.drop_last(), i);
    }
}

proof fn lemma_view_entries_len(es: Seq<(Vec<u8>, PyNbtValue)>)
    ensures
        view_entries(es).len() == es.len(),
    decreases es.len(),
{
    if es.len() > 0 {
        lemma_view_entries_len(es.drop_last());
    }
}

/// Relies on std::str::from_utf8: it succeeds exactly on valid UTF-8.
#[verifier::external_body]
fn is_valid_utf8(b: &[u8]) -> (r: bool)
    ensures
        r == valid_utf8(b@),
{
    std::str::from_utf8(b).is_ok()
}

fn read_u16(s: &[u8], p: usize) -> (r: u16)
    requires
        p + 2 <= s@.len(),
    ensures
        r == u16_at(s@, p as int),
{
    (s[p] as u16) * 0x100 + (s[p + 1] as u16)
}

fn read_u32(s: &[u8], p: usize) -> (r: u32)
    requires
        p + 4 <= s@.len(),
    ensures
        r == u32_at(s@, p as int),
{
    (s[p] as u32) * 0x1000000 + (s[p + 1] as u32) * 0x10000 + (s[p + 2] as u32) * 0x100 + (s[p
        + 3] as u32)
}

fn read_u64(s: &[u8], p: usize) -> (r: u64)
    requires
        p + 8 <= s@.len(),
        p + 8 <= usize::MAX,
    ensures
        r == u64_at(s@, p as int),
{
    let hi = read_u32(s, p) as u64;
    let lo = read_u32(s, p + 4) as u64;
    assert(hi * 0x1_0000_0000 <= 0xFFFF_FFFF_0000_0000) by (nonlinear_arith)
        requires
            hi <= 0xFFFF_FFFF,
    ;
    hi * 0x1_0000_0000 + lo
}

/// Reads a length-prefixed UTF-8 string at `p`.
fn decode_string(s: &[u8], p: usize) -> (r: Result<(Vec<u8>, usize), AnvilError>)
    requires
        p <= s@.len(),
    ensures
        match r {
            Ok((bs, q)) => parse_string(s@, p as int) == Ok::<(Nbt, int), AnvilError>(
                (Nbt::String(bs@), q as int),
            ),
            Err(e) => parse_string(s@, p as int) == Err::<(Nbt, int), AnvilError>(e),
        },
{
    if s.len() < 2 || p > s.len() - 2 {
        return Err(AnvilError::TruncatedInput);
    }
    let n = read_u16(s, p) as usize;
    let start = p + 2;
    if n > s.len() - start {
        return Err(AnvilError::TruncatedInput);
    }
    let mut out: Vec<u8> = Vec::new();
    let mut i: usize = 0;
    while i < n
        invariant
            i <= n,
            start + n <= s@.len(),
            s@.len() <= usize::MAX,
            out@ =~= s@.subrange(start as int, start + i),
        decreases n - i,
    {
        out.push(s[start + i]);
        i = i + 1;
    }
    if !is_valid_utf8(out.as_slice()) {
        return Err(AnvilError::InvalidUtf8);
    }
    Ok((out, start + n))
}

fn decode_byte_array(s: &[u8], q: usize, n: usize) -> (r: Vec<i8>)
    requires
        q + n <= s@.len(),
    ensures
        r@ =~= Seq::new(n as nat, |i: int| s@[q + i] as i8),
{
    let len = s.len();
    let mut out: Vec<i8> = Vec::new();
    let mut i: usize = 0;
    while i < n
        invariant
            i <= n,
            q + n <= s@.len(),
            len == s@.len(),
            out@ =~= Seq::new(i as nat, |k: int| s@[q + k] as i8),
        decreases n - i,
    {
        out.push(s[q + i] as i8);
        i = i + 1;
    }
    out
}

fn decode_int_array(s: &[u8], q: usize, n: usize) -> (r: Vec<i32>)
    requires
        q + 4 * n <= s@.len(),
    ensures
        r@ =~= Seq::new(n as nat, |i: int| u32_at(s@, q + 4 * i) as i32),
{
    let len = s.len();
    let mut out: Vec<i32> = Vec::new();
    let mut i: usize = 0;
    while i < n
        invariant
            i <= n,
            q + 4 * n <= s@.len(),
            len == s@.len(),
            out@ =~= Seq::new(i as nat, |k: int| u32_at(s@, q + 4 * k) as i32),
        decreases n - i,
    {
        out.push(read_u32(s, q + 4 * i) as i32);
        i = i + 1;
    }
    out
}

fn decode_long_array(s: &[u8], q: usize, n: usize) -> (r: Vec<i64>)
    requires
        q + 8 * n <= s@.len(),
    ensures
        r@ =~= Seq::new(n as nat, |i: int| u64_at(s@, q + 8 * i) as i64),
{
    let len = s.len();
    let mut out: Vec<i64> = Vec::new();
    let mut i: usize = 0;
    while i < n
        invariant
            i <= n,
            q + 8 * n <= s@.len(),
            len == s@.len(),
            out@ =~= Seq::new(i as nat, |k: int| u64_at(s@, q + 8 * k) as i64),
        decreases n - i,
    {
        out.push(read_u64(s, q + 8 * i) as i64);
        i = i + 1;
    }
    out
}

/// Reads a payload of type `tag` at position `p`.
pub fn decode_payload(s: &[u8], p: usize, tag: u8) -> (r: Result<(PyNbtValue, usize), AnvilError>)
    requires
        p <= s@.len(),
    ensures
        lift(r) == parse_payload(s@, p as int, tag),
        r matches Ok((_, q)) ==> p < q <= s@.len(),
    decreases s@.len() - p, 1int,
{
    let len = s.len();
    if tag == TAG_BYTE {
        if len - p < 1 {
            return Err(AnvilError::TruncatedInput);
        }
        Ok((PyNbtValue::Byte(s[p] as i8), p + 1))
    } else if tag == TAG_SHORT {
        if len - p < 2 {
            return Err(AnvilError::TruncatedInput);
        }
        Ok((PyNbtValue::Short(read_u16(s, p) as i16), p + 2))
    } else if tag == TAG_INT || tag == TAG_FLOAT {
        if len - p < 4 {
            return Err(AnvilError::TruncatedInput);
        }
        let x = read_u32(s, p);
        if tag == TAG_INT {
            Ok((PyNbtValue::Int(x as i32), p + 4))
        } else {
            Ok((PyNbtValue::Float(x), p + 4))
        }
    } else if tag == TAG_LONG || tag == TAG_DOUBLE {
        if len - p < 8 {
            return Err(AnvilError::TruncatedInput);
        }
        let x = read_u64(s, p);
        if tag == TAG_LONG {
            Ok((PyNbtValue::Long(x as i64), p + 8))
        } else {
            Ok((PyNbtValue::Double(x), p + 8))
        }
    } else if tag == TAG_STRING {
        match decode_string(s, p) {
            Ok((bs, q)) => Ok((PyNbtValue::String(bs), q)),
            Err(e) => Err(e),
        }
    } else if tag == TAG_BYTE_ARRAY || tag == TAG_INT_ARRAY || tag == TAG_LONG_ARRAY {
        if len - p < 4 {
            return Err(AnvilError::TruncatedInput);
        }
        let n = read_u32(s, p) as i32;
        let q = p + 4;
        if n < 0 {
            return Err(AnvilError::MalformedTag);
        }
        let n = n as usize;
        let avail = len - q;
        if tag == TAG_BYTE_ARRAY {
            if n > avail {
                return Err(AnvilError::TruncatedInput);
            }
            Ok((PyNbtValue::ByteArray(decode_byte_array(s, q, n)), q + n))
        } else if tag == TAG_INT_ARRAY {
            if n > avail / 4 {
                return Err(AnvilError::TruncatedInput);
            }
            Ok((PyNbtValue::IntArray(decode_int_array(s, q, n)), q + 4 * n))
        } else {
            if n > avail / 8 {
                return Err(AnvilError::TruncatedInput);
            }
            Ok((PyNbtValue::LongArray(decode_long_array(s, q, n)), q + 8 * n))
        }
    } else if tag == TAG_LIST {
        if len - p < 5 {
            return Err(AnvilError::TruncatedInput);
        }
        let t = s[p];
        let n = read_u32(s, p + 1) as i32;
        if t > TAG_LONG_ARRAY || n < 0 || (t == TAG_END && n > 0) {
            return Err(AnvilError::MalformedTag);
        }
        decode_list(s, p + 5, t, n as usize)
    } else if tag == TAG_COMPOUND {
        decode_entries(s, p)
    } else {
        Err(AnvilError::MalformedTag)
    }
}

/// Reads `n` payloads of type `t` from `p` on.
fn decode_list(s: &[u8], p: usize, t: u8, n: usize) -> (r: Result<(PyNbtValue, usize), AnvilError>)
    requires
        p <= s@.len(),
    ensures
        lift(r) == parse_list(s@, p as int, t, n as int, Seq::empty()),
        r matches Ok((_, q)) ==> p <= q <= s@.len(),
    decreases s@.len() - p, 2int,
{
    let mut out: Vec<PyNbtValue> = Vec::new();
    let mut q = p;
    let mut i: usize = 0;
    proof {
        assert(view_list(out@) =~= Seq::<Nbt>::empty());
    }
    while i < n
        invariant
            p <= q <= s@.len(),
            i <= n,
            parse_list(s@, p as int, t, n as int, Seq::empty()) == parse_list(
                s@,
                q as int,
                t,
                n - i,
                view_list(out@),
            ),
        decreases n - i,
    {
        match decode_payload(s, q, t) {
            Err(e) => {
                return Err(e);
            },
            Ok((v, q2)) => {
                proof {
                    lemma_view_list_push(out@, v);
                }
                out.push(v);
                q = q2;
                i = i + 1;
            },
        }
    }
    Ok((PyNbtValue::List(t, out), q))
}

/// Reads compound members from `p` on, up to and including the end tag.
fn decode_entries(s: &[u8], p: usize) -> (r: Result<(PyNbtValue, usize), AnvilError>)
    requires
        p <= s@.len(),
    ensures
        lift(r) == parse_entries(s@, p as int, Seq::empty()),
        r matches Ok((_, q)) ==> p < q <= s@.len(),
    decreases s@.len() - p, 0int,
{
    let mut out: Vec<(Vec<u8>, PyNbtValue)> = Vec::new();
    let mut q = p;
    proof {
        assert(view_entries(out@) =~= Seq::<(Seq<u8>, Nbt)>::empty());
    }
    loop
        invariant
            p <= q <= s@.len(),
            parse_entries(s@, p as int, Seq::empty()) == parse_entries(
                s@,
                q as int,
                view_entries(out@),
            ),
        decreases s@.len() - q,
    {
        if q >= s.len() {
            return Err(AnvilError::TruncatedInput);
        }
        let t = s[q];
        if t == TAG_END {
            return Ok((PyNbtValue::Compound(out), q + 1));
        }
        if t > TAG_LONG_ARRAY {
            return Err(AnvilError::MalformedTag);
        }
        let (name, q1) = match decode_string(s, q + 1) {
            Ok(x) => x,
            Err(e) => {
                return Err(e);
            },
        };
        match decode_payload(s, q1, t) {
            Err(e) => {
                return Err(e);
            },
            Ok((v, q2)) => {
                proof {
                    lemma_view_entries_push(out@, (name, v));
                }
                out.push((name, v));
                q = q2;
            },
        }
    }
}

impl PyNbtFile {
    /// Decodes a document: a compound tag byte, the root name and the root compound.
    /// Bytes after the root compound are ignored. Repeated member names are kept
    /// as stored; lookups take the last of them.
    pub fn from_bytes(s: &[u8]) -> (r: Result<PyNbtFile, AnvilError>)
        ensures
            match r {
                Ok(d) => parse_document(s@) == Ok::<(Seq<u8>, Nbt), AnvilError>((d.name@, d.root@)),
                Err(e) => parse_document(s@) == Err::<(Seq<u8>, Nbt), AnvilError>(e),
            },
    {
        if s.len() < 1 {
            return Err(AnvilError::TruncatedInput);
        }
        if s[0] != TAG_COMPOUND {
            return Err(AnvilError::MalformedTag);
        }
        let (name, q) = match decode_string(s, 1) {
            Ok(x) => x,
            Err(e) => {
                return Err(e);
            },
        };
        match decode_payload(s, q, TAG_COMPOUND) {
            Ok((root, _)) => Ok(PyNbtFile { name, root }),
            Err(e) => Err(e),
        }
    }
}

// ---------------------------------------------------------------------------
// Encoding

fn push_be16(out: &mut Vec<u8>, x: u16)
    ensures
        final(out)@ == old(out)@ + be16(x),
{
    out.push((x / 0x100) as u8);
    out.push((x % 0x100) as u8);
    assert(final(out)@ =~= old(out)@ + be16(x));
}

fn push_be32(out: &mut Vec<u8>, x: u32)
    ensures
        final(out)@ == old(out)@ + be32(x),
{
    out.push((x / 0x1000000) as u8);
    out.push((x / 0x10000 % 0x100) as u8);
    out.push((x / 0x100 % 0x100) as u8);
    out.push((x % 0x100) as u8);
    assert(final(out)@ =~= old(out)@ + be32(x));
}

fn push_be64(out: &mut Vec<u8>, x: u64)
    ensures
        final(out)@ == old(out)@ + be64(x),
{
    push_be32(out, (x / 0x1_0000_0000) as u32);
    push_be32(out, (x % 0x1_0000_0000) as u32);
    assert(final(out)@ =~= old(out)@ + be64(x));
}

fn push_bytes(out: &mut Vec<u8>, bs: &[u8])
    ensures
        final(out)@ == old(out)@ + bs@,
{
    let mut i: usize = 0;
    while i < bs.len()
        invariant
            i <= bs@.len(),
            out@ =~= old(out)@ + bs@.subrange(0, i as int),
        decreases bs@.len() - i,
    {
        out.push(bs[i]);
        i = i + 1;
    }
    assert(bs@.subrange(0, bs@.len() as int) =~= bs@);
}

/// The tag type byte of a value.
pub fn tag_byte(v: &PyNbtValue) -> (r: u8)
    ensures
        r == tag_of(v@),
{
    match v {
        PyNbtValue::Byte(_) => TAG_BYTE,
        PyNbtValue::Short(_) => TAG_SHORT,
        PyNbtValue::Int(_) => TAG_INT,
        PyNbtValue::Long(_) => TAG_LONG,
        PyNbtValue::Float(_) => TAG_FLOAT,
        PyNbtValue::Double(_) => TAG_DOUBLE,
        PyNbtValue::ByteArray(_) => TAG_BYTE_ARRAY,
        PyNbtValue::String(_) => TAG_STRING,
        PyNbtValue::List(_, _) => TAG_LIST,
        PyNbtValue::Compound(_) => TAG_COMPOUND,
        PyNbtValue::IntArray(_) => TAG_INT_ARRAY,
        PyNbtValue::LongArray(_) => TAG_LONG_ARRAY,
    }
}

/// Appends the payload of `v`: its bytes without tag byte and name.
pub fn encode_payload_into(v: &PyNbtValue, out: &mut Vec<u8>)
    ensures
        final(out)@ == old(out)@ + encode_payload(v@),
    decreases v@,
{
    let ghost start = out@;
    match v {
        PyNbtValue::Byte(x) => {
            out.push(*x as u8);
            assert(out@ =~= start + encode_payload(v@));
        },
        PyNbtValue::Short(x) => push_be16(out, *x as u16),
        PyNbtValue::Int(x) => push_be32(out, *x as u32),
        PyNbtValue::Long(x) => push_be64(out, *x as u64),
        PyNbtValue::Float(x) => push_be32(out, *x),
        PyNbtValue::Double(x) => push_be64(out, *x),
        PyNbtValue::ByteArray(xs) => {
            push_be32(out, xs.len() as u32);
            let ghost mid = out@;
            let mut i: usize = 0;
            while i < xs.len()
                invariant
                    i <= xs@.len(),
                    out@ =~= mid + Seq::new(i as nat, |k: int| xs@[k] as u8),
                decreases xs@.len() - i,
            {
                out.push(xs[i] as u8);
                i = i + 1;
            }
            assert(out@ =~= start + encode_payload(v@));
        },
        PyNbtValue::String(bs) => {
            push_be16(out, bs.len() as u16);
            push_bytes(out, bs.as_slice());
            assert(out@ =~= start + encode_payload(v@));
        },
        PyNbtValue::List(t, vs) => {
            out.push(*t);
            push_be32(out, vs.len() as u32);
            let ghost mid = out@;
            let mut i: usize = 0;
            while i < vs.len()
                invariant
                    i <= vs@.len(),
                    *v == PyNbtValue::List(*t, *vs),
                    out@ == mid + encode_list(view_list(vs@.subrange(0, i as int))),
                decreases vs@.len() - i,
            {
                proof {
                    lemma_view_list_index(vs@, i as int);
                    assert(v@ == Nbt::List(*t, view_list(vs@)));
                    assert(decreases_to!(v@ => v@->List_1));
                    assert(decreases_to!(view_list(vs@) => view_list(vs@)[i as int]));
                }
                encode_payload_into(&vs[i], out);
                proof {
                    let sub = vs@.subrange(0, i + 1);
                    assert(sub.drop_last() =~= vs@.subrange(0, i as int));
                    assert(view_list(sub).drop_last() =~= view_list(vs@.subrange(0, i as int)));
                }
                i = i + 1;
            }
            assert(vs@.subrange(0, vs@.len() as int) =~= vs@);
            proof {
                lemma_view_list_len(vs@);
            }
            assert(out@ =~= start + encode_payload(v@));
        },
        PyNbtValue::Compound(es) => {
            let mut i: usize = 0;
            while i < es.len()
                invariant
                    i <= es@.len(),
                    *v == PyNbtValue::Compound(*es),
                    out@ == start + encode_entries(view_entries(es@.subrange(0, i as int))),
                decreases es@.len() - i,
            {
                let (name, value) = &es[i];
                proof {
                    lemma_view_entries_index(es@, i as int);
                    let ents = view_entries(es@);
                    assert(v@ == Nbt::Compound(ents));
                    assert(decreases_to!(v@ => v@->Compound_0));
                    assert(decreases_to!(ents => ents[i as int]));
                    assert(decreases_to!(ents[i as int] => ents[i as int].1));
                }
                out.push(tag_byte(value));
                push_be16(out, name.len() as u16);
                push_bytes(out, name.as_slice());
                encode_payload_into(value, out);
                proof {
                    let sub = es@.subrange(0, i + 1);
                    assert(sub.drop_last() =~= es@.subrange(0, i as int));
                    assert(view_entries(sub).drop_last() =~= view_entries(
                        es@.subrange(0, i as int),
                    ));
                }
                i = i + 1;
            }
            out.push(TAG_END);
            assert(es@.subrange(0, es@.len() as int) =~= es@);
            assert(out@ =~= start + encode_payload(v@));
        },
        PyNbtValue::IntArray(xs) => {
            push_be32(out, xs.len() as u32);
            let ghost mid = out@;
            let mut i: usize = 0;
            while i < xs.len()
                invariant
                    i <= xs@.len(),
                    out@ == mid + encode_i32s(xs@.subrange(0, i as int)),
                decreases xs@.len() - i,
            {
                push_be32(out, xs[i] as u32);
                proof {
                    assert(xs@.subrange(0, i + 1).drop_last() =~= xs@.subrange(0, i as int));
                }
                i = i + 1;
            }
            assert(xs@.subrange(0, xs@.len() as int) =~= xs@);
            assert(out@ =~= start + encode_payload(v@));
        },
        PyNbtValue::LongArray(xs) => {
            push_be32(out, xs.len() as u32);
            let ghost mid = out@;
            let mut i: usize = 0;
            while i < xs.len()
                invariant
                    i <= xs@.len(),
                    out@ == mid + encode_i64s(xs@.subrange(0, i as int)),
                decreases xs@.len() - i,
            {
                push_be64(out, xs[i] as u64);
                proof {
                    assert(xs@.subrange(0, i + 1).drop_last() =~= xs@.subrange(0, i as int));
                }
                i = i + 1;
            }
            assert(xs@.subrange(0, xs@.len() as int) =~= xs@);
            assert(out@ =~= start + encode_payload(v@));
        },
    }
}

impl PyNbtFile {
    /// Encodes the document: a compound tag byte, the root name, the root payload.
    pub fn encode(&self) -> (r: Vec<u8>)
        ensures
            r@ == encode_document(self.name@, self.root@),
    {
        let mut out: Vec<u8> = Vec::new();
        out.push(TAG_COMPOUND);
        push_be16(&mut out, self.name.len() as u16);
        push_bytes(&mut out, self.name.as_slice());
        encode_payload_into(&self.root, &mut out);
        assert(out@ =~= encode_document(self.name@, self.root@));
        out
    }
}

// ---------------------------------------------------------------------------
// Lookup

/// The value stored under `key` in compound members `es`; when a name repeats,
/// the last member with it.
pub open spec fn lookup(es: Seq<(Seq<u8>, Nbt)>, key: Seq<u8>) -> Option<Nbt>
    decreases es.len(),
{
    if es.len() == 0 {
        None
    } else if es.last().0 == key {
        Some(es.last().1)
    } else {
        lookup(es.drop_last(), key)
    }
}

/// Byte-wise equality.
pub fn bytes_eq(a: &[u8], b: &[u8]) -> (r: bool)
    ensures
        r == (a@ == b@),
{
    if a.len() != b.len() {
        return false;
    }
    let mut i: usize = 0;
    while i < a.len()
        invariant
            i <= a@.len(),
            a@.len() == b@.len(),
            a@.subrange(0, i as int) =~= b@.subrange(0, i as int),
        decreases a@.len() - i,
    {
        if a[i] != b[i] {
            assert(a@[i as int] != b@[i as int]);
            return false;
        }
        i = i + 1;
    }
    assert(a@ =~= a@.subrange(0, a@.len() as int));
    assert(b@ =~= b@.subrange(0, b@.len() as int));
    true
}

/// The value stored under `key` in a compound's members.
pub fn compound_get<'a>(es: &'a Vec<(Vec<u8>, PyNbtValue)>, key: &[u8]) -> (r: Option<&'a PyNbtValue>)
    ensures
        match r {
            Some(v) => lookup(view_entries(es@), key@) == Some(v@),
            None => lookup(view_entries(es@), key@) == None::<Nbt>,
        },
{
    let mut i = es.len();
    proof {
        assert(es@.subrange(0, i as int) =~= es@);
    }
    while i > 0
        invariant
            i <= es@.len(),
            lookup(view_entries(es@), key@) == lookup(
                view_entries(es@.subrange(0, i as int)),
                key@,
            ),
        decreases i,
    {
        let (name, value) = &es[i - 1];
        proof {
            let sub = es@.subrange(0, i as int);
            assert(sub.drop_last() =~= es@.subrange(0, i - 1));
            lemma_view_entries_push(es@.subrange(0, i - 1), es@[i - 1]);
            assert(sub =~= es@.subrange(0, i - 1).push(es@[i - 1]));
            assert(view_entries(sub).drop_last() =~= view_entries(es@.subrange(0, i - 1)));
        }
        if bytes_eq(name.as_slice(), key) {
            return Some(value);
        }
        i = i - 1;
    }
    None
}

/// The members of a compound value.
pub open spec fn members(v: Nbt) -> Seq<(Seq<u8>, Nbt)> {
    match v {
        Nbt::Compound(es) => es,
        _ => Seq::empty(),
    }
}

/// The value stored under `key` in `v`, when `v` is a compound.
pub fn get_member<'a>(v: &'a PyNbtValue, key: &[u8]) -> (r: Option<&'a PyNbtValue>)
    ensures
        match r {
            Some(x) => lookup(members(v@), key@) == Some(x@),
            None => lookup(members(v@), key@) == None::<Nbt>,
        },
{
    match v {
        PyNbtValue::Compound(es) => compound_get(es, key),
        _ => None,
    }
}

proof fn lemma_lookup_update(es: Seq<(Seq<u8>, Nbt)>, i: int, e: (Seq<u8>, Nbt), k: Seq<u8>)
    requires
        0 <= i < es.len(),
        es[i].0 == e.0,
    ensures
        k != e.0 ==> lookup(es.update(i, e), k) == lookup(es, k),
        k == e.0 && (forall|j: int| i < j < es.len() ==> es[j].0 != k) ==> lookup(es.update(i, e), k)
            == Some(e.1),
    decreases es.len(),
{
    let u = es.update(i, e);
    if i < es.len() - 1 {
        assert(u.drop_last() =~= es.drop_last().update(i, e));
        lemma_lookup_update(es.drop_last(), i, e, k);
    } else {
        assert(u.drop_last() =~= es.drop_last());
    }
}

/// The names of a compound's members, in stored order.
pub fn compound_keys(es: &Vec<(Vec<u8>, PyNbtValue)>) -> (r: Vec<Vec<u8>>)
    ensures
        r@.len() == es@.len(),
        forall|i: int| 0 <= i < es@.len() ==> (#[trigger] r@[i])@ == es@[i].0@,
{
    let mut out: Vec<Vec<u8>> = Vec::new();
    let mut i: usize = 0;
    while i < es.len()
        invariant
            i <= es@.len(),
            out@.len() == i,
            forall|q: int| 0 <= q < i ==> (#[trigger] out@[q])@ == es@[q].0@,
        decreases es@.len() - i,
    {
        let name = crate::region::copy_range(es[i].0.as_slice(), 0, es[i].0.len());
        proof {
            assert(es@[i as int].0@.subrange(0, es@[i as int].0@.len() as int) =~= es@[i as int].0@);
        }
        out.push(name);
        i = i + 1;
    }
    out
}

/// Whether a compound has a member named `key`.
pub fn compound_contains(es: &Vec<(Vec<u8>, PyNbtValue)>, key: &[u8]) -> (r: bool)
    ensures
        r == (lookup(view_entries(es@), key@) is Some),
{
    compound_get(es, key).is_some()
}

/// Stores `value` under `key`: the last member with that name gets the new value,
/// or, without one, a member is appended. Every other name keeps its value.
pub fn compound_set(es: &mut Vec<(Vec<u8>, PyNbtValue)>, key: Vec<u8>, value: PyNbtValue)
    ensures
        lookup(view_entries(final(es)@), key@) == Some(value@),
        forall|k: Seq<u8>|
            k != key@ ==> #[trigger] lookup(view_entries(final(es)@), k) == lookup(
                view_entries(old(es)@),
                k,
            ),
{
    let ghost old_view = view_entries(es@);
    let ghost kv = key@;
    let ghost vv = value@;
    let mut i = es.len();
    while i > 0
        invariant
            i <= es@.len(),
            es@ == old(es)@,
            kv == key@,
            vv == value@,
            old_view == view_entries(es@),
            forall|j: int| i <= j < es@.len() ==> es@[j].0@ != kv,
        decreases i,
    {
        if bytes_eq(es[i - 1].0.as_slice(), key.as_slice()) {
            let j = i - 1;
            proof {
                lemma_view_entries_index(es@, j as int);
            }
            es.remove(j);
            es.insert(j, (key, value));
            proof {
                assert(es@ =~= old(es)@.update(j as int, (key, value)));
                lemma_view_entries_len(es@);
                lemma_view_entries_len(old(es)@);
                assert forall|q: int| 0 <= q < es@.len() implies view_entries(es@)[q] == old_view.update(
                    j as int,
                    (kv, vv),
                )[q] by {
                    lemma_view_entries_index(es@, q);
                    lemma_view_entries_index(old(es)@, q);
                }
                assert(view_entries(es@) =~= old_view.update(j as int, (kv, vv)));
                assert forall|q: int| j < q < old_view.len() implies old_view[q].0 != kv by {
                    lemma_view_entries_index(old(es)@, q);
                }
                assert forall|k: Seq<u8>| k != kv implies #[trigger] lookup(view_entries(es@), k)
                    == lookup(old_view, k) by {
                    lemma_lookup_update(old_view, j as int, (kv, vv), k);
                }
                lemma_lookup_update(old_view, j as int, (kv, vv), kv);
            }
            return;
        }
        i = i - 1;
    }
    proof {
        lemma_view_entries_push(es@, (key, value));
    }
    es.push((key, value));
    proof {
        assert forall|k: Seq<u8>| k != kv implies #[trigger] lookup(view_entries(es@), k) == lookup(
            old_view,
            k,
        ) by {
            assert(view_entries(es@).drop_last() =~= old_view);
        }
        assert(view_entries(es@).drop_last() =~= old_view);
    }
}

/// A compound's members on their own, in stored order.
#[derive(Debug)]
pub struct PyNbtCompound {
    pub data: Vec<(Vec<u8>, PyNbtValue)>,
}

impl PyNbtCompound {
    pub fn new() -> (r: PyNbtCompound)
        ensures
            r.data@.len() == 0,
    {
        PyNbtCompound { data: Vec::new() }
    }

    /// The value stored under `key`.
    pub fn get(&self, key: &[u8]) -> (r: Option<&PyNbtValue>)
        ensures
            match r {
                Some(v) => lookup(view_entries(self.data@), key@) == Some(v@),
                None => lookup(view_entries(self.data@), key@) == None::<Nbt>,
            },
    {
        compound_get(&self.data, key)
    }

    /// Stores `value` under `key`, replacing the value there; other names keep theirs.
    pub fn set(&mut self, key: Vec<u8>, value: PyNbtValue)
        ensures
            lookup(view_entries(final(self).data@), key@) == Some(value@),
            forall|k: Seq<u8>|
                k != key@ ==> #[trigger] lookup(view_entries(final(self).data@), k) == lookup(
                    view_entries(old(self).data@),
                    k,
                ),
    {
        compound_set(&mut self.data, key, value);
    }

    /// The member names in stored order.
    pub fn keys(&self) -> (r: Vec<Vec<u8>>)
        ensures
            r@.len() == self.data@.len(),
            forall|i: int| 0 <= i < self.data@.len() ==> (#[trigger] r@[i])@ == self.data@[i].0@,
    {
        compound_keys(&self.data)
    }

    /// Whether a member is named `key`.
    pub fn contains(&self, key: &[u8]) -> (r: bool)
        ensures
            r == (lookup(view_entries(self.data@), key@) is Some),
    {
        compound_contains(&self.data, key)
    }
}

impl PyNbtValue {
    pub fn new_byte(value: i8) -> (r: PyNbtValue)
        ensures
            r@ == Nbt::Byte(value),
    {
        PyNbtValue::Byte(value)
    }

    /// A string value from UTF-8 bytes.
    pub fn new_string(value: Vec<u8>) -> (r: PyNbtValue)
        ensures
            r@ == Nbt::String(value@),
    {
        PyNbtValue::String(value)
    }

    pub fn new_compound(value: PyNbtCompound) -> (r: PyNbtValue)
        ensures
            r@ == Nbt::Compound(view_entries(value.data@)),
    {
        PyNbtValue::Compound(value.data)
    }
}

impl PyNbtFile {
    /// A document named `name` whose root compound is empty.
    pub fn new(name: Vec<u8>) -> (r: PyNbtFile)
        ensures
            r.name@ == name@,
            r.root@ == Nbt::Compound(Seq::empty()),
    {
        let root = PyNbtValue::Compound(Vec::new());
        assert(view_entries(Seq::<(Vec<u8>, PyNbtValue)>::empty()) =~= Seq::empty());
        PyNbtFile { name, root }
    }

    /// The value stored under `key` in the root compound.
    pub fn get(&self, key: &[u8]) -> (r: Option<&PyNbtValue>)
        ensures
            match r {
                Some(v) => lookup(members(self.root@), key@) == Some(v@),
                None => lookup(members(self.root@), key@) == None::<Nbt>,
            },
    {
        get_member(&self.root, key)
    }
}

} // verus!
