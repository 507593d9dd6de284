use vstd::prelude::*;
use vstd::utf8::valid_utf8;

use crate::error::AnvilError;

use crate::nbt::{
    be16, be32, be64, encode_document, encode_entries, encode_i32s, encode_i64s, encode_i8s,
    encode_list, encode_payload, name_bytes, parse_document, parse_entries, parse_list,
    parse_payload, parse_string, tag_of, u16_at, u32_at, u64_at, Nbt, TAG_COMPOUND, TAG_END,
    TAG_LIST, TAG_LONG_ARRAY,
};

verus! {

/// Member names of at most 65535 bytes of UTF-8.
pub open spec fn names_ok(es: Seq<(Seq<u8>, Nbt)>) -> bool {
    forall|i: int| 0 <= i < es.len() ==> (#[trigger] es[i].0).len() <= u16::MAX && valid_utf8(es[i].0)
}

/// A value that the encoding can represent: names and strings of at most 65535
/// bytes of UTF-8, array and list lengths that fit an `i32`, list elements that
/// all carry the list's declared tag, and no non-empty list of end tags.
pub open spec fn wf_value(v: Nbt) -> bool
    decreases v,
{
    match v {
        Nbt::ByteArray(xs) => xs.len() <= i32::MAX,
        Nbt::String(bs) => bs.len() <= u16::MAX && valid_utf8(bs),
        Nbt::List(t, vs) => {
            &&& vs.len() <= i32::MAX
            &&& t <= TAG_LONG_ARRAY
            &&& (t == TAG_END ==> vs.len() == 0)
            &&& forall|i: int| 0 <= i < vs.len() ==> tag_of(#[trigger] vs[i]) == t && wf_value(vs[i])
        },
        Nbt::Compound(es) => names_ok(es) && forall|i: int|
            0 <= i < es.len() ==> wf_value(#[trigger] es[i].1),
        Nbt::IntArray(xs) => xs.len() <= i32::MAX,
        Nbt::LongArray(xs) => xs.len() <= i32::MAX,
        _ => true,
    }
}

proof fn lemma_be16(x: u16)
    ensures
        u16_at(be16(x), 0) == x,
{
    assert((x / 0x100) * 0x100 + x % 0x100 == x) by (nonlinear_arith);
}

proof fn lemma_be32(x: u32)
    ensures
        u32_at(be32(x), 0) == x,
{
    let b = be32(x);
    assert(b[0] as int * 0x1000000 + b[1] as int * 0x10000 + b[2] as int * 0x100 + b[3] as int
        == x as int) by (nonlinear_arith)
        requires
            b[0] == (x / 0x1000000) as u8,
            b[1] == (x / 0x10000 % 0x100) as u8,
            b[2] == (x / 0x100 % 0x100) as u8,
            b[3] == (x % 0x100) as u8,
            x / 0x1000000 < 0x100,
    ;
}

proof fn lemma_be64(x: u64)
    ensures
        u64_at(be64(x), 0) == x,
{
    let hi = (x / 0x1_0000_0000) as u32;
    let lo = (x % 0x1_0000_0000) as u32;
    lemma_be32(hi);
    lemma_be32(lo);
    let b = be64(x);
    assert(b.subrange(0, 4) =~= be32(hi));
    assert(b.subrange(4, 8) =~= be32(lo));
    assert(u32_at(b, 0) == u32_at(be32(hi), 0));
    assert(u32_at(b, 4) == u32_at(be32(lo), 0));
    assert(hi as int * 0x1_0000_0000 + lo as int == x as int) by (nonlinear_arith)
        requires
            hi == (x / 0x1_0000_0000) as u32,
            lo == (x % 0x1_0000_0000) as u32,
            x / 0x1_0000_0000 < 0x1_0000_0000,
    ;
}

proof fn lemma_window_split(s: Seq<u8>, p: int, a: Seq<u8>, b: Seq<u8>)
    requires
        0 <= p,
        p + a.len() + b.len() <= s.len(),
        s.subrange(p, p + a.len() + b.len()) == a + b,
    ensures
        s.subrange(p, p + a.len()) == a,
        s.subrange(p + a.len(), p + a.len() + b.len()) == b,
{
    let w = s.subrange(p, p + a.len() + b.len());
    assert forall|k: int| 0 <= k < a.len() implies s[p + k] == a[k] by {
        assert(w[k] == s[p + k]);
        assert(w[k] == (a + b)[k]);
    }
    assert forall|k: int| 0 <= k < b.len() implies s[p + a.len() + k] == b[k] by {
        assert(w[a.len() + k] == s[p + a.len() + k]);
        assert(w[a.len() + k] == (a + b)[a.len() + k]);
    }
    assert(s.subrange(p, p + a.len()) =~= a);
    assert(s.subrange(p + a.len(), p + a.len() + b.len()) =~= b);
}

proof fn lemma_u16_window(s: Seq<u8>, p: int, x: u16)
    requires
        0 <= p,
        p + 2 <= s.len(),
        s.subrange(p, p + 2) == be16(x),
    ensures
        u16_at(s, p) == x,
{
    lemma_be16(x);
    assert(s[p] == s.subrange(p, p + 2)[0]);
    assert(s[p + 1] == s.subrange(p, p + 2)[1]);
}

proof fn lemma_u32_window(s: Seq<u8>, p: int, x: u32)
    requires
        0 <= p,
        p + 4 <= s.len(),
        s.subrange(p, p + 4) == be32(x),
    ensures
        u32_at(s, p) == x,
{
    lemma_be32(x);
    assert(s[p] == s.subrange(p, p + 4)[0]);
    assert(s[p + 1] == s.subrange(p, p + 4)[1]);
    assert(s[p + 2] == s.subrange(p, p + 4)[2]);
    assert(s[p + 3] == s.subrange(p, p + 4)[3]);
}

proof fn lemma_u64_window(s: Seq<u8>, p: int, x: u64)
    requires
        0 <= p,
        p + 8 <= s.len(),
        s.subrange(p, p + 8) == be64(x),
    ensures
        u64_at(s, p) == x,
{
    lemma_be64(x);
    let b = be64(x);
    assert forall|k: int| 0 <= k < 8 implies s[p + k] == b[k] by {
        assert(s.subrange(p, p + 8)[k] == s[p + k]);
    }
    assert(u32_at(s, p) == u32_at(b, 0));
    assert(u32_at(s, p + 4) == u32_at(b, 4));
}

proof fn lemma_encode_i32s(xs: Seq<i32>)
    ensures
        encode_i32s(xs).len() == 4 * xs.len(),
        forall|i: int|
            0 <= i < xs.len() ==> encode_i32s(xs).subrange(4 * i, 4 * i + 4) == be32(
                #[trigger] xs[i] as u32,
            ),
    decreases xs.len(),
{
    if xs.len() > 0 {
        let init = xs.drop_last();
        lemma_encode_i32s(init);
        let e = encode_i32s(xs);
        assert forall|i: int| 0 <= i < xs.len() implies e.subrange(4 * i, 4 * i + 4) == be32(
            #[trigger] xs[i] as u32,
        ) by {
            if i < xs.len() - 1 {
                assert(e.subrange(4 * i, 4 * i + 4) =~= encode_i32s(init).subrange(4 * i, 4 * i + 4));
                assert(init[i] == xs[i]);
            } else {
                assert(e.subrange(4 * i, 4 * i + 4) =~= be32(xs.last() as u32));
            }
        }
    }
}

proof fn lemma_encode_i64s(xs: Seq<i64>)
    ensures
        encode_i64s(xs).len() == 8 * xs.len(),
        forall|i: int|
            0 <= i < xs.len() ==> encode_i64s(xs).subrange(8 * i, 8 * i + 8) == be64(
                #[trigger] xs[i] as u64,
            ),
    decreases xs.len(),
{
    if xs.len() > 0 {
        let init = xs.drop_last();
        lemma_encode_i64s(init);
        let e = encode_i64s(xs);
        assert forall|i: int| 0 <= i < xs.len() implies e.subrange(8 * i, 8 * i + 8) == be64(
            #[trigger] xs[i] as u64,
        ) by {
            if i < xs.len() - 1 {
                assert(e.subrange(8 * i, 8 * i + 8) =~= encode_i64s(init).subrange(8 * i, 8 * i + 8));
                assert(init[i] == xs[i]);
            } else {
                assert(e.subrange(8 * i, 8 * i + 8) =~= be64(xs.last() as u64));
            }
        }
    }
}

proof fn lemma_encode_list_front(vs: Seq<Nbt>)
    requires
        vs.len() > 0,
    ensures
        encode_list(vs) == encode_payload(vs[0]) + encode_list(vs.drop_first()),
    decreases vs.len(),
{
    if vs.len() == 1 {
        assert(vs.drop_last() =~= Seq::<Nbt>::empty());
        assert(vs.drop_first() =~= Seq::<Nbt>::empty());
        assert(encode_list(vs) =~= encode_payload(vs[0]) + encode_list(vs.drop_first()));
    } else {
        lemma_encode_list_front(vs.drop_last());
        assert(vs.drop_last().drop_first() =~= vs.drop_first().drop_last());
        assert(vs.drop_first().last() == vs.last());
        assert(vs.drop_last()[0] == vs[0]);
        assert(encode_list(vs) =~= encode_payload(vs[0]) + encode_list(vs.drop_first()));
    }
}

/// One compound member as the encoding writes it.
pub open spec fn entry_bytes(e: (Seq<u8>, Nbt)) -> Seq<u8> {
    seq![tag_of(e.1)] + be16(e.0.len() as u16) + e.0 + encode_payload(e.1)
}

proof fn lemma_encode_entries_front(es: Seq<(Seq<u8>, Nbt)>)
    requires
        es.len() > 0,
    ensures
        encode_entries(es) == entry_bytes(es[0]) + encode_entries(es.drop_first()),
    decreases es.len(),
{
    if es.len() == 1 {
        assert(es.drop_last() =~= Seq::<(Seq<u8>, Nbt)>::empty());
        assert(es.drop_first() =~= Seq::<(Seq<u8>, Nbt)>::empty());
        assert(encode_entries(es) =~= entry_bytes(es[0]) + encode_entries(es.drop_first()));
    } else {
        lemma_encode_entries_front(es.drop_last());
        assert(es.drop_last().drop_first() =~= es.drop_first().drop_last());
        assert(es.drop_first().last() == es.last());
        assert(es.drop_last()[0] == es[0]);
        assert(encode_entries(es) =~= entry_bytes(es[0]) + encode_entries(es.drop_first()));
    }
}

proof fn lemma_window_sub(s: Seq<u8>, q: int, e: Seq<u8>, a: int, b: int)
    requires
        0 <= q,
        q + e.len() <= s.len(),
        s.subrange(q, q + e.len()) == e,
        0 <= a <= b <= e.len(),
    ensures
        s.subrange(q + a, q + b) == e.subrange(a, b),
{
    assert forall|k: int| 0 <= k < b - a implies #[trigger] s[q + a + k] == e[a + k] by {
        assert(s.subrange(q, q + e.len())[a + k] == s[q + a + k]);
    }
    assert(s.subrange(q + a, q + b) =~= e.subrange(a, b));
}

proof fn lemma_entry_wf(es: Seq<(Seq<u8>, Nbt)>, i: int)
    requires
        wf_value(Nbt::Compound(es)),
        0 <= i < es.len(),
    ensures
        es[i].0.len() <= u16::MAX,
        valid_utf8(es[i].0),
        wf_value(es[i].1),
{
}

/// How many children a value has.
pub open spec fn child_count(v: Nbt) -> nat {
    match v {
        Nbt::List(_, vs) => vs.len(),
        Nbt::Compound(es) => es.len(),
        _ => 0,
    }
}

proof fn lemma_window_index(s: Seq<u8>, p: int, e: Seq<u8>)
    requires
        0 <= p,
        p + e.len() <= s.len(),
        s.subrange(p, p + e.len()) == e,
    ensures
        forall|k: int| 0 <= k < e.len() ==> #[trigger] s[p + k] == e[k],
{
    assert forall|k: int| 0 <= k < e.len() implies #[trigger] s[p + k] == e[k] by {
        assert(s.subrange(p, p + e.len())[k] == s[p + k]);
    }
}

proof fn lemma_parse_scalar(v: Nbt, s: Seq<u8>, p: int)
    requires
        v is Byte || v is Short || v is Int || v is Long || v is Float || v is Double,
        0 <= p,
        p + encode_payload(v).len() <= s.len(),
        s.subrange(p, p + encode_payload(v).len()) == encode_payload(v),
    ensures
        parse_payload(s, p, tag_of(v)) == Ok::<(Nbt, int), AnvilError>(
            (v, p + encode_payload(v).len()),
        ),
{
    lemma_window_index(s, p, encode_payload(v));
    match v {
        Nbt::Byte(x) => {
            assert(s.subrange(p, p + 1)[0] == s[p]);
            assert((x as u8) as i8 == x) by (bit_vector);
        },
        Nbt::Short(x) => {
            lemma_u16_window(s, p, x as u16);
            assert((x as u16) as i16 == x) by (bit_vector);
        },
        Nbt::Int(x) => {
            lemma_u32_window(s, p, x as u32);
            assert((x as u32) as i32 == x) by (bit_vector);
        },
        Nbt::Long(x) => {
            lemma_u64_window(s, p, x as u64);
            assert((x as u64) as i64 == x) by (bit_vector);
        },
        Nbt::Float(x) => {
            lemma_u32_window(s, p, x);
        },
        Nbt::Double(x) => {
            lemma_u64_window(s, p, x);
        },
        _ => {},
    }
}

proof fn lemma_parse_byte_array(xs: Seq<i8>, s: Seq<u8>, p: int)
    requires
        xs.len() <= i32::MAX,
        0 <= p,
        p + encode_payload(Nbt::ByteArray(xs)).len() <= s.len(),
        s.subrange(p, p + encode_payload(Nbt::ByteArray(xs)).len()) == encode_payload(
            Nbt::ByteArray(xs),
        ),
    ensures
        parse_payload(s, p, tag_of(Nbt::ByteArray(xs))) == Ok::<(Nbt, int), AnvilError>(
            (Nbt::ByteArray(xs), p + encode_payload(Nbt::ByteArray(xs)).len()),
        ),
{
    let e = encode_payload(Nbt::ByteArray(xs));
    lemma_window_index(s, p, e);
    lemma_window_split(s, p, be32(xs.len() as u32), encode_i8s(xs));
    lemma_u32_window(s, p, xs.len() as u32);
    let q = p + 4;
    assert forall|i: int| 0 <= i < xs.len() implies s[q + i] as i8 == xs[i] by {
        assert(s[p + (4 + i)] == e[4 + i]);
        let x = xs[i];
        assert((x as u8) as i8 == x) by (bit_vector);
    }
    assert(Seq::new(xs.len() as nat, |i: int| s[q + i] as i8) =~= xs);
}

proof fn lemma_parse_int_array(xs: Seq<i32>, s: Seq<u8>, p: int)
    requires
        xs.len() <= i32::MAX,
        0 <= p,
        p + encode_payload(Nbt::IntArray(xs)).len() <= s.len(),
        s.subrange(p, p + encode_payload(Nbt::IntArray(xs)).len()) == encode_payload(
            Nbt::IntArray(xs),
        ),
    ensures
        parse_payload(s, p, tag_of(Nbt::IntArray(xs))) == Ok::<(Nbt, int), AnvilError>(
            (Nbt::IntArray(xs), p + encode_payload(Nbt::IntArray(xs)).len()),
        ),
{
    let enc = encode_i32s(xs);
    lemma_window_split(s, p, be32(xs.len() as u32), enc);
    lemma_u32_window(s, p, xs.len() as u32);
    lemma_encode_i32s(xs);
    let q = p + 4;
    assert forall|i: int| 0 <= i < xs.len() implies u32_at(s, q + 4 * i) as i32 == xs[i] by {
        lemma_window_sub(s, q, enc, 4 * i, 4 * i + 4);
        lemma_u32_window(s, q + 4 * i, xs[i] as u32);
        let x = xs[i];
        assert((x as u32) as i32 == x) by (bit_vector);
    }
    assert(Seq::new(xs.len() as nat, |i: int| u32_at(s, q + 4 * i) as i32) =~= xs);
}

proof fn lemma_parse_long_array(xs: Seq<i64>, s: Seq<u8>, p: int)
    requires
        xs.len() <= i32::MAX,
        0 <= p,
        p + encode_payload(Nbt::LongArray(xs)).len() <= s.len(),
        s.subrange(p, p + encode_payload(Nbt::LongArray(xs)).len()) == encode_payload(
            Nbt::LongArray(xs),
        ),
    ensures
        parse_payload(s, p, tag_of(Nbt::LongArray(xs))) == Ok::<(Nbt, int), AnvilError>(
            (Nbt::LongArray(xs), p + encode_payload(Nbt::LongArray(xs)).len()),
        ),
{
    let enc = encode_i64s(xs);
    lemma_window_split(s, p, be32(xs.len() as u32), enc);
    lemma_u32_window(s, p, xs.len() as u32);
    lemma_encode_i64s(xs);
    let q = p + 4;
    assert forall|i: int| 0 <= i < xs.len() implies u64_at(s, q + 8 * i) as i64 == xs[i] by {
        lemma_window_sub(s, q, enc, 8 * i, 8 * i + 8);
        lemma_u64_window(s, q + 8 * i, xs[i] as u64);
        let x = xs[i];
        assert((x as u64) as i64 == x) by (bit_vector);
    }
    assert(Seq::new(xs.len() as nat, |i: int| u64_at(s, q + 8 * i) as i64) =~= xs);
}

proof fn lemma_parse_encoded(v: Nbt, s: Seq<u8>, p: int)
    requires
        wf_value(v),
        0 <= p,
        p + encode_payload(v).len() <= s.len(),
        s.subrange(p, p + encode_payload(v).len()) == encode_payload(v),
    ensures
        parse_payload(s, p, tag_of(v)) == Ok::<(Nbt, int), AnvilError>(
            (v, p + encode_payload(v).len()),
        ),
    decreases v, child_count(v) + 1,
{
    match v {
        Nbt::ByteArray(xs) => lemma_parse_byte_array(xs, s, p),
        Nbt::IntArray(xs) => lemma_parse_int_array(xs, s, p),
        Nbt::LongArray(xs) => lemma_parse_long_array(xs, s, p),
        Nbt::String(bs) => {
            lemma_window_split(s, p, be16(bs.len() as u16), bs);
            lemma_u16_window(s, p, bs.len() as u16);
        },
        Nbt::List(t, vs) => {
            lemma_window_split(s, p, seq![t] + be32(vs.len() as u32), encode_list(vs));
            lemma_window_split(s, p, seq![t], be32(vs.len() as u32));
            lemma_u32_window(s, p + 1, vs.len() as u32);
            assert(s[p] == t) by {
                assert(s.subrange(p, p + 1)[0] == s[p]);
            }
            assert(vs.subrange(0, vs.len() as int) =~= vs);
            assert(vs.subrange(0, 0) =~= Seq::<Nbt>::empty());
            lemma_parse_encoded_list(v, t, vs, 0, s, p + 5);
        },
        Nbt::Compound(es) => {
            assert(es.subrange(0, es.len() as int) =~= es);
            assert(es.subrange(0, 0) =~= Seq::<(Seq<u8>, Nbt)>::empty());
            lemma_parse_encoded_entries(v, es, 0, s, p);
        },
        _ => lemma_parse_scalar(v, s, p),
    }
}

proof fn lemma_payload_nonempty(v: Nbt)
    ensures
        encode_payload(v).len() >= 1,
{
}

proof fn lemma_parse_encoded_list(v: Nbt, t: u8, vs: Seq<Nbt>, i: int, s: Seq<u8>, q: int)
    requires
        v == Nbt::List(t, vs),
        wf_value(v),
        0 <= i <= vs.len(),
        0 <= q,
        q + encode_list(vs.subrange(i, vs.len() as int)).len() <= s.len(),
        s.subrange(q, q + encode_list(vs.subrange(i, vs.len() as int)).len()) == encode_list(
            vs.subrange(i, vs.len() as int),
        ),
    ensures
        parse_list(s, q, t, vs.len() - i, vs.subrange(0, i)) == Ok::<(Nbt, int), AnvilError>(
            (v, q + encode_list(vs.subrange(i, vs.len() as int)).len()),
        ),
    decreases v, vs.len() - i,
{
    let rest = vs.subrange(i, vs.len() as int);
    if i == vs.len() {
        assert(vs.subrange(0, i) =~= vs);
        assert(rest =~= Seq::<Nbt>::empty());
    } else {
        lemma_encode_list_front(rest);
        assert(rest[0] == vs[i]);
        assert(rest.drop_first() =~= vs.subrange(i + 1, vs.len() as int));
        let a = encode_payload(vs[i]);
        let b = encode_list(vs.subrange(i + 1, vs.len() as int));
        lemma_window_split(s, q, a, b);
        assert(decreases_to!(v => v->List_1));
        assert(decreases_to!(v->List_1 => vs[i]));
        lemma_parse_encoded(vs[i], s, q);
        lemma_payload_nonempty(vs[i]);
        assert(vs.subrange(0, i).push(vs[i]) =~= vs.subrange(0, i + 1));
        lemma_parse_encoded_list(v, t, vs, i + 1, s, q + a.len());
    }
}

proof fn lemma_parse_encoded_entries(
    v: Nbt,
    es: Seq<(Seq<u8>, Nbt)>,
    i: int,
    s: Seq<u8>,
    q: int,
)
    requires
        v == Nbt::Compound(es),
        wf_value(v),
        0 <= i <= es.len(),
        0 <= q,
        q + encode_entries(es.subrange(i, es.len() as int)).len() + 1 <= s.len(),
        s.subrange(q, q + encode_entries(es.subrange(i, es.len() as int)).len() + 1)
            == encode_entries(es.subrange(i, es.len() as int)) + seq![TAG_END],
    ensures
        parse_entries(s, q, es.subrange(0, i)) == Ok::<(Nbt, int), AnvilError>(
            (v, q + encode_entries(es.subrange(i, es.len() as int)).len() + 1),
        ),
    decreases v, es.len() - i,
{
    let rest = es.subrange(i, es.len() as int);
    let tail_bytes = encode_entries(rest) + seq![TAG_END];
    assert(s[q + 0] == tail_bytes[0]) by {
        assert(s.subrange(q, q + tail_bytes.len())[0] == s[q]);
    }
    if i == es.len() {
        assert(es.subrange(0, i) =~= es);
        assert(rest =~= Seq::<(Seq<u8>, Nbt)>::empty());
    } else {
        lemma_encode_entries_front(rest);
        assert(rest[0] == es[i]);
        let tail = es.subrange(i + 1, es.len() as int);
        assert(rest.drop_first() =~= tail);
        let (name, val) = es[i];
        let entry = entry_bytes(es[i]);
        let after = encode_entries(tail) + seq![TAG_END];
        assert(tail_bytes =~= entry + after);
        lemma_window_split(s, q, entry, after);
        let head = seq![tag_of(val)] + be16(name.len() as u16);
        assert(entry =~= head + name + encode_payload(val));
        lemma_window_split(s, q, head + name, encode_payload(val));
        lemma_window_split(s, q, head, name);
        lemma_window_split(s, q, seq![tag_of(val)], be16(name.len() as u16));
        lemma_u16_window(s, q + 1, name.len() as u16);
        assert(s[q] == tag_of(val)) by {
            assert(s.subrange(q, q + 1)[0] == s[q]);
        }
        let q3 = q + 3 + name.len();
        lemma_entry_wf(es, i);
        assert(es[i].0.len() <= u16::MAX && valid_utf8(es[i].0) && wf_value(es[i].1));
        assert(u16_at(s, q + 1) as int == name.len());
        assert(s.subrange(q + 3, q3) == name);
        assert(parse_string(s, q + 1) == Ok::<(Nbt, int), AnvilError>((Nbt::String(name), q3)));
        assert(decreases_to!(v => v->Compound_0));
        assert(decreases_to!(v->Compound_0 => es[i]));
        assert(decreases_to!(es[i] => es[i].1));
        lemma_parse_encoded(val, s, q3);
        assert(es.subrange(0, i).push((name, val)) =~= es.subrange(0, i + 1));
        lemma_parse_encoded_entries(v, es, i + 1, s, q + entry.len());
    }
}

/// Encoding a well-formed document and decoding the bytes gives the document
/// back: its root name and its root compound.
pub proof fn lemma_round_trip(name: Seq<u8>, root: Nbt)
    requires
        name.len() <= u16::MAX,
        valid_utf8(name),
        root is Compound,
        wf_value(root),
    ensures
        parse_document(encode_document(name, root)) == Ok::<(Seq<u8>, Nbt), AnvilError>(
            (name, root),
        ),
{
    let s = encode_document(name, root);
    let head = seq![TAG_COMPOUND] + be16(name.len() as u16);
    assert(s =~= head + name + encode_payload(root));
    assert(s.subrange(0, s.len() as int) =~= s);
    lemma_window_split(s, 0, head + name, encode_payload(root));
    lemma_window_split(s, 0, head, name);
    lemma_window_split(s, 0, seq![TAG_COMPOUND], be16(name.len() as u16));
    lemma_u16_window(s, 1, name.len() as u16);
    let q = 3 + name.len() as int;
    assert(parse_string(s, 1) == Ok::<(Nbt, int), AnvilError>((Nbt::String(name), q)));
    lemma_parse_encoded(root, s, q);
}

proof fn lemma_parsed_wf(s: Seq<u8>, p: int, tag: u8)
    requires
        parse_payload(s, p, tag) is Ok,
    ensures
        wf_value(parse_payload(s, p, tag)->Ok_0.0),
        tag_of(parse_payload(s, p, tag)->Ok_0.0) == tag,
        p < parse_payload(s, p, tag)->Ok_0.1 <= s.len(),
    decreases s.len() - p, 1int,
{
    if tag == TAG_LIST {
        let t = s[p];
        let n = u32_at(s, p + 1) as i32 as int;
        lemma_parsed_list_wf(s, p + 5, t, n, Seq::empty());
    } else if tag == TAG_COMPOUND {
        lemma_parsed_entries_wf(s, p, Seq::empty());
    }
}

proof fn lemma_parsed_list_wf(s: Seq<u8>, p: int, t: u8, left: int, acc: Seq<Nbt>)
    requires
        parse_list(s, p, t, left, acc) is Ok,
        p <= s.len(),
        0 <= left,
        acc.len() + left <= i32::MAX,
        t <= TAG_LONG_ARRAY,
        t == TAG_END ==> acc.len() + left == 0,
        forall|i: int| 0 <= i < acc.len() ==> tag_of(#[trigger] acc[i]) == t && wf_value(acc[i]),
    ensures
        wf_value(parse_list(s, p, t, left, acc)->Ok_0.0),
        parse_list(s, p, t, left, acc)->Ok_0.0 is List,
        p <= parse_list(s, p, t, left, acc)->Ok_0.1 <= s.len(),
    decreases s.len() - p, 2int,
{
    if left > 0 {
        lemma_parsed_wf(s, p, t);
        let (v, q) = parse_payload(s, p, t)->Ok_0;
        let acc2 = acc.push(v);
        assert forall|i: int| 0 <= i < acc2.len() implies tag_of(#[trigger] acc2[i]) == t
            && wf_value(acc2[i]) by {
            if i < acc.len() {
                assert(acc2[i] == acc[i]);
            }
        }
        lemma_parsed_list_wf(s, q, t, left - 1, acc2);
    }
}

proof fn lemma_parsed_entries_wf(s: Seq<u8>, p: int, acc: Seq<(Seq<u8>, Nbt)>)
    requires
        parse_entries(s, p, acc) is Ok,
        names_ok(acc),
        forall|i: int| 0 <= i < acc.len() ==> wf_value(#[trigger] acc[i].1),
    ensures
        wf_value(parse_entries(s, p, acc)->Ok_0.0),
        parse_entries(s, p, acc)->Ok_0.0 is Compound,
        p < parse_entries(s, p, acc)->Ok_0.1 <= s.len(),
    decreases s.len() - p, 0int,
{
    if s[p] != TAG_END {
        let (name, q) = parse_string(s, p + 1)->Ok_0;
        lemma_parsed_wf(s, q, s[p]);
        let (v, r) = parse_payload(s, q, s[p])->Ok_0;
        let acc2 = acc.push((name_bytes(name), v));
        assert forall|i: int| 0 <= i < acc2.len() implies (#[trigger] acc2[i].0).len() <= u16::MAX
            && valid_utf8(acc2[i].0) by {
            if i < acc.len() {
                assert(acc2[i] == acc[i]);
            }
        }
        assert forall|i: int| 0 <= i < acc2.len() implies wf_value(#[trigger] acc2[i].1) by {
            if i < acc.len() {
                assert(acc2[i] == acc[i]);
            }
        }
        lemma_parsed_entries_wf(s, r, acc2);
    }
}

/// Decoding the encoding of any decoded document gives that document back: for
/// every `s` that decodes to `(name, root)`, the encoding of `(name, root)` decodes
/// to `(name, root)` as well.
pub proof fn lemma_decoded_round_trip(s: Seq<u8>)
    requires
        parse_document(s) is Ok,
    ensures
        parse_document(encode_document(parse_document(s)->Ok_0.0, parse_document(s)->Ok_0.1))
            == parse_document(s),
{
    let (name, q) = parse_string(s, 1)->Ok_0;
    lemma_parsed_wf(s, q, TAG_COMPOUND);
    lemma_round_trip(name_bytes(name), parse_payload(s, q, TAG_COMPOUND)->Ok_0.0);
}

} // verus!
