use vstd::prelude::*;

use crate::error::AnvilError;
use crate::nbt::{
    bytes_eq, get_member, lemma_view_entries_push, lookup, members, view_entries, Nbt, PyNbtValue,
};
use crate::region::copy_range;

verus! {

/// The byte `:` that separates a namespace from an id.
pub const COLON: u8 = 58;

/// The namespace given to a block built from a bare id.
pub open spec fn default_namespace() -> Seq<u8> {
    seq![109u8, 105, 110, 101, 99, 114, 97, 102, 116]
}

/// How many colons `s` holds.
pub open spec fn colon_count(s: Seq<u8>) -> nat
    decreases s.len(),
{
    if s.len() == 0 {
        0
    } else {
        colon_count(s.drop_last()) + if s.last() == COLON {
            1nat
        } else {
            0nat
        }
    }
}

/// Property pairs seen as byte sequences.
pub open spec fn view_props(ps: Seq<(Vec<u8>, Vec<u8>)>) -> Seq<(Seq<u8>, Seq<u8>)> {
    Seq::new(ps.len(), |i: int| (ps[i].0@, ps[i].1@))
}

/// Byte-wise lexicographic order.
pub open spec fn lex_lt(a: Seq<u8>, b: Seq<u8>) -> bool
    decreases a.len(),
{
    if a.len() == 0 {
        b.len() > 0
    } else if b.len() == 0 {
        false
    } else if a[0] != b[0] {
        a[0] < b[0]
    } else {
        lex_lt(a.drop_first(), b.drop_first())
    }
}

/// The mapping that a list of property pairs describes; a later pair replaces an
/// earlier one with the same key.
pub open spec fn props_map(ps: Seq<(Seq<u8>, Seq<u8>)>) -> Map<Seq<u8>, Seq<u8>>
    decreases ps.len(),
{
    if ps.len() == 0 {
        Map::empty()
    } else {
        props_map(ps.drop_last()).insert(ps.last().0, ps.last().1)
    }
}

/// Keys in strictly increasing order, so each key once.
pub open spec fn sorted_keys(ps: Seq<(Seq<u8>, Seq<u8>)>) -> bool {
    forall|i: int, j: int| 0 <= i < j < ps.len() ==> lex_lt(#[trigger] ps[i].0, #[trigger] ps[j].0)
}

/// Whether `ps` lists the mapping `m` with keys in strictly increasing order: the
/// one such list for each mapping.
pub open spec fn canonical(ps: Seq<(Seq<u8>, Seq<u8>)>, m: Map<Seq<u8>, Seq<u8>>) -> bool {
    &&& sorted_keys(ps)
    &&& forall|i: int| 0 <= i < ps.len() ==> #[trigger] m.contains_key(ps[i].0) && m[ps[i].0] == ps[i].1
    &&& forall|k: Seq<u8>| #[trigger] m.contains_key(k) ==> exists|i: int| 0 <= i < ps.len() && ps[i].0 == k
}

pub proof fn lemma_lex_irreflexive(a: Seq<u8>)
    ensures
        !lex_lt(a, a),
    decreases a.len(),
{
    if a.len() > 0 {
        lemma_lex_irreflexive(a.drop_first());
    }
}

pub proof fn lemma_lex_total(a: Seq<u8>, b: Seq<u8>)
    ensures
        a != b ==> lex_lt(a, b) || lex_lt(b, a),
        !(lex_lt(a, b) && lex_lt(b, a)),
    decreases a.len(),
{
    if a.len() > 0 && b.len() > 0 && a[0] == b[0] {
        lemma_lex_total(a.drop_first(), b.drop_first());
        if a.drop_first() == b.drop_first() {
            assert(a =~= seq![a[0]] + a.drop_first());
            assert(b =~= seq![b[0]] + b.drop_first());
        }
    } else if a.len() == 0 && b.len() == 0 {
        assert(a =~= b);
    }
}

pub proof fn lemma_lex_transitive(a: Seq<u8>, b: Seq<u8>, c: Seq<u8>)
    requires
        lex_lt(a, b),
        lex_lt(b, c),
    ensures
        lex_lt(a, c),
    decreases a.len(),
{
    if a.len() > 0 && b.len() > 0 && c.len() > 0 && a[0] == b[0] && b[0] == c[0] {
        lemma_lex_transitive(a.drop_first(), b.drop_first(), c.drop_first());
    }
}

/// Byte-wise lexicographic comparison.
pub fn lex_less(a: &[u8], b: &[u8]) -> (r: bool)
    ensures
        r == lex_lt(a@, b@),
{
    let mut i: usize = 0;
    assert(a@.skip(0) =~= a@);
    assert(b@.skip(0) =~= b@);
    while i < a.len() && i < b.len()
        invariant
            i <= a@.len(),
            i <= b@.len(),
            lex_lt(a@, b@) == lex_lt(a@.skip(i as int), b@.skip(i as int)),
        decreases a@.len() - i,
    {
        let ghost sa = a@.skip(i as int);
        let ghost sb = b@.skip(i as int);
        assert(sa.drop_first() =~= a@.skip(i + 1));
        assert(sb.drop_first() =~= b@.skip(i + 1));
        if a[i] != b[i] {
            return a[i] < b[i];
        }
        i = i + 1;
    }
    i < b.len()
}

/// Adds `(k, v)` to a canonical list, replacing the value of an equal key.
fn insert_property(out: &mut Vec<(Vec<u8>, Vec<u8>)>, k: Vec<u8>, v: Vec<u8>, Ghost(m): Ghost<Map<Seq<u8>, Seq<u8>>>)
    requires
        canonical(view_props(old(out)@), m),
    ensures
        canonical(view_props(final(out)@), m.insert(k@, v@)),
{
    let mut j: usize = 0;
    while j < out.len() && lex_less(out[j].0.as_slice(), k.as_slice())
        invariant
            j <= out@.len(),
            canonical(view_props(out@), m),
            forall|q: int| 0 <= q < j ==> lex_lt(#[trigger] view_props(out@)[q].0, k@),
        decreases out@.len() - j,
    {
        j = j + 1;
    }
    let ghost before = view_props(out@);
    let ghost m2 = m.insert(k@, v@);
    assert(canonical(before, m));
    assert(forall|i: int| 0 <= i < before.len() ==> m.contains_key(before[i].0) && m[before[i].0] == before[i].1);
    if j < out.len() && bytes_eq(out[j].0.as_slice(), k.as_slice()) {
        out.remove(j);
        out.insert(j, (k, v));
        proof {
            let after = view_props(out@);
            assert(before[j as int].0 == k@);
            assert(after =~= before.update(j as int, (k@, v@)));
            assert forall|i: int| 0 <= i < after.len() implies #[trigger] m2.contains_key(after[i].0)
                && m2[after[i].0] == after[i].1 by {
                if i != j {
                    assert(m.contains_key(before[i].0) && m[before[i].0] == before[i].1);
                    assert(before[i].0 != k@) by {
                        if i < j {
                            lemma_lex_irreflexive(k@);
                        } else {
                            lemma_lex_irreflexive(k@);
                            assert(lex_lt(before[j as int].0, before[i].0));
                        }
                    }
                }
            }
            assert forall|kk: Seq<u8>| #[trigger] m2.contains_key(kk) implies exists|i: int|
                0 <= i < after.len() && after[i].0 == kk by {
                if kk != k@ {
                    let i = choose|i: int| 0 <= i < before.len() && before[i].0 == kk;
                    assert(after[i].0 == kk);
                } else {
                    assert(after[j as int].0 == kk);
                }
            }
        }
    } else {
        proof {
            if j < out@.len() {
                lemma_lex_total(before[j as int].0, k@);
                assert(lex_lt(k@, before[j as int].0));
            }
        }
        out.insert(j, (k, v));
        proof {
            let after = view_props(out@);
            assert(after =~= before.insert(j as int, (k@, v@)));
            assert(!m.contains_key(k@)) by {
                if m.contains_key(k@) {
                    let i = choose|i: int| 0 <= i < before.len() && before[i].0 == k@;
                    lemma_lex_irreflexive(k@);
                    if i > j {
                        lemma_lex_transitive(k@, before[j as int].0, before[i].0);
                    }
                }
            }
            assert forall|a: int, b: int| 0 <= a < b < after.len() implies lex_lt(
                #[trigger] after[a].0,
                #[trigger] after[b].0,
            ) by {
                if a < j && b == j {
                } else if a < j && b > j {
                    assert(after[b].0 == before[b - 1].0);
                } else if a == j && b > j {
                    if b - 1 > j {
                        lemma_lex_transitive(k@, before[j as int].0, before[b - 1].0);
                    }
                } else if a > j {
                    assert(after[a].0 == before[a - 1].0);
                    assert(after[b].0 == before[b - 1].0);
                }
            }
            assert forall|i: int| 0 <= i < after.len() implies #[trigger] m2.contains_key(after[i].0)
                && m2[after[i].0] == after[i].1 by {
                if i < j {
                    assert(after[i] == before[i]);
                    assert(m.contains_key(before[i].0) && m[before[i].0] == before[i].1);
                } else if i > j {
                    assert(after[i] == before[i - 1]);
                    assert(m.contains_key(before[i - 1].0) && m[before[i - 1].0] == before[i - 1].1);
                }
            }
            assert forall|kk: Seq<u8>| #[trigger] m2.contains_key(kk) implies exists|i: int|
                0 <= i < after.len() && after[i].0 == kk by {
                if kk != k@ {
                    let i = choose|i: int| 0 <= i < before.len() && before[i].0 == kk;
                    if i < j {
                        assert(after[i].0 == kk);
                    } else {
                        assert(after[i + 1].0 == kk);
                    }
                } else {
                    assert(after[j as int].0 == kk);
                }
            }
        }
    }
}

/// The mapping that optional property pairs describe.
pub open spec fn given_props(properties: Option<Vec<(Vec<u8>, Vec<u8>)>>) -> Map<Seq<u8>, Seq<u8>> {
    match properties {
        Some(ps) => props_map(view_props(ps@)),
        None => Map::empty(),
    }
}

/// The canonical list of the mapping that `properties` describes.
fn normalize_properties(properties: Option<Vec<(Vec<u8>, Vec<u8>)>>) -> (r: Vec<(Vec<u8>, Vec<u8>)>)
    ensures
        canonical(view_props(r@), given_props(properties)),
{
    let mut out: Vec<(Vec<u8>, Vec<u8>)> = Vec::new();
    assert(view_props(out@) =~= Seq::empty());
    assert(canonical(view_props(out@), Map::empty()));
    match properties {
        None => out,
        Some(ps) => {
            let ghost vs = view_props(ps@);
            let mut i: usize = 0;
            assert(vs.subrange(0, 0) =~= Seq::<(Seq<u8>, Seq<u8>)>::empty());
            while i < ps.len()
                invariant
                    i <= ps@.len(),
                    vs == view_props(ps@),
                    canonical(view_props(out@), props_map(vs.subrange(0, i as int))),
                decreases ps@.len() - i,
            {
                let (k, v) = &ps[i];
                proof {
                    assert(vs.subrange(0, i + 1).drop_last() =~= vs.subrange(0, i as int));
                    assert(vs.subrange(0, i + 1).last() == (k@, v@));
                }
                insert_property(
                    &mut out,
                    clone_bytes(k),
                    clone_bytes(v),
                    Ghost(props_map(vs.subrange(0, i as int))),
                );
                i = i + 1;
            }
            assert(vs.subrange(0, vs.len() as int) =~= vs);
            out
        },
    }
}

/// A block in its namespaced form: `namespace:id` plus a property mapping. Names
/// are UTF-8 bytes.
#[derive(Debug, Clone, PartialEq, Eq, Hash)]
pub struct RustBlock {
    pub namespace: Vec<u8>,
    pub id: Vec<u8>,
    pub properties: Vec<(Vec<u8>, Vec<u8>)>,
}

impl RustBlock {
    /// A well-formed block lists each property once, in increasing key order, so
    /// that equal mappings give equal blocks and equal hashes.
    pub open spec fn wf(&self) -> bool {
        sorted_keys(view_props(self.properties@))
    }
}

/// A block of the pre-flattening format: a numeric id and a 4-bit data value.
#[derive(Debug, Clone, Copy, PartialEq, Eq, Hash)]
pub struct RustOldBlock {
    pub id: u32,
    pub data: u32,
}

/// The mapping from numeric (id, data) pairs to namespaced names, built once and
/// then handed by reference to whatever converts legacy blocks.
#[derive(Debug)]
pub struct LegacyTable {
    pub entries: Vec<(u32, u32, Vec<u8>)>,
}

/// The name stored for `(id, data)`; when a pair repeats, its last entry.
pub open spec fn legacy_lookup(es: Seq<(u32, u32, Vec<u8>)>, id: u32, data: u32) -> Option<
    Seq<u8>,
>
    decreases es.len(),
{
    if es.len() == 0 {
        None
    } else if es.last().0 == id && es.last().1 == data {
        Some(es.last().2@)
    } else {
        legacy_lookup(es.drop_last(), id, data)
    }
}

/// What converting numeric `(id, data)` through a table with entries `es` gives:
/// `UnknownLegacyId` without a mapping, else the block named by the mapping.
pub open spec fn numeric_id_result(
    es: Seq<(u32, u32, Vec<u8>)>,
    id: u32,
    data: u32,
    r: Result<RustBlock, AnvilError>,
) -> bool {
    match legacy_lookup(es, id, data) {
        None => r == Err::<RustBlock, AnvilError>(AnvilError::UnknownLegacyId { id, data }),
        Some(name) => {
            &&& r is Ok <==> colon_count(name) == 1
            &&& r is Err ==> r == Err::<RustBlock, AnvilError>(AnvilError::InvalidFormat)
            &&& r matches Ok(b) ==> splits_name(name, b.namespace@, b.id@) && view_props(
                b.properties@,
            ).len() == 0 && b.wf()
        },
    }
}

/// What `RustBlock::from_name` accepts: exactly one colon.
pub open spec fn splits_name(s: Seq<u8>, namespace: Seq<u8>, id: Seq<u8>) -> bool {
    namespace + seq![COLON] + id == s && colon_count(namespace) == 0 && colon_count(id) == 0
}

/// The string properties of a compound: `None` when a member is not a string.
pub open spec fn string_props(es: Seq<(Seq<u8>, Nbt)>) -> Option<Seq<(Seq<u8>, Seq<u8>)>>
    decreases es.len(),
{
    if es.len() == 0 {
        Some(Seq::empty())
    } else {
        match (string_props(es.drop_last()), es.last().1) {
            (Some(ps), Nbt::String(v)) => Some(ps.push((es.last().0, v))),
            _ => None,
        }
    }
}

pub open spec fn name_key() -> Seq<u8> {
    seq![78u8, 97, 109, 101]
}

pub open spec fn properties_key() -> Seq<u8> {
    seq![80u8, 114, 111, 112, 101, 114, 116, 105, 101, 115]
}

/// Why a palette entry cannot become a block, if it cannot.
pub open spec fn palette_error(v: Nbt) -> Option<AnvilError> {
    match palette_entry(v) {
        Err(e) => Some(e),
        Ok((name, _)) => if colon_count(name) == 1 {
            None
        } else {
            Some(AnvilError::InvalidFormat)
        },
    }
}

/// Whether `b` is the block that palette entry `v` describes.
pub open spec fn palette_block(v: Nbt, b: RustBlock) -> bool {
    match palette_entry(v) {
        Err(_) => false,
        Ok((name, ps)) => splits_name(name, b.namespace@, b.id@) && canonical(
            view_props(b.properties@),
            props_map(ps),
        ),
    }
}

/// A palette entry read as a name and properties.
pub open spec fn palette_entry(v: Nbt) -> Result<(Seq<u8>, Seq<(Seq<u8>, Seq<u8>)>), AnvilError> {
    match lookup(members(v), name_key()) {
        Some(Nbt::String(name)) => match lookup(members(v), properties_key()) {
            None => Ok((name, Seq::empty())),
            Some(Nbt::Compound(es)) => match string_props(es) {
                Some(ps) => Ok((name, ps)),
                None => Err(AnvilError::InvalidChunkData),
            },
            Some(_) => Err(AnvilError::InvalidChunkData),
        },
        _ => Err(AnvilError::InvalidChunkData),
    }
}

fn clone_bytes(v: &Vec<u8>) -> (r: Vec<u8>)
    ensures
        r@ == v@,
{
    let r = copy_range(v.as_slice(), 0, v.len());
    assert(v@.subrange(0, v@.len() as int) =~= v@);
    r
}

fn name_key_bytes() -> (r: Vec<u8>)
    ensures
        r@ == name_key(),
{
    let r = vec![78u8, 97, 109, 101];
    assert(r@ =~= name_key());
    r
}

fn properties_key_bytes() -> (r: Vec<u8>)
    ensures
        r@ == properties_key(),
{
    let r = vec![80u8, 114, 111, 112, 101, 114, 116, 105, 101, 115];
    assert(r@ =~= properties_key());
    r
}

impl RustBlock {
    /// A block `namespace:block_id`; given no id, `namespace` is taken as the id in
    /// the `minecraft` namespace.
    pub fn new(
        namespace: Vec<u8>,
        block_id: Option<Vec<u8>>,
        properties: Option<Vec<(Vec<u8>, Vec<u8>)>>,
    ) -> (r: RustBlock)
        ensures
            match block_id {
                Some(id) => r.namespace@ == namespace@ && r.id@ == id@,
                None => r.namespace@ == default_namespace() && r.id@ == namespace@,
            },
            canonical(view_props(r.properties@), given_props(properties)),
            r.wf(),
    {
        let props = normalize_properties(properties);
        match block_id {
            Some(id) => RustBlock { namespace, id, properties: props },
            None => {
                let ns = vec![109u8, 105, 110, 101, 99, 114, 97, 102, 116];
                assert(ns@ =~= default_namespace());
                RustBlock { namespace: ns, id: namespace, properties: props }
            },
        }
    }

    /// The name in `namespace:id` form.
    pub fn name(&self) -> (r: Vec<u8>)
        ensures
            r@ == self.namespace@ + seq![COLON] + self.id@,
    {
        let mut out = clone_bytes(&self.namespace);
        out.push(COLON);
        let mut i: usize = 0;
        let ghost start = out@;
        while i < self.id.len()
            invariant
                i <= self.id@.len(),
                start == self.namespace@ + seq![COLON],
                out@ =~= start + self.id@.subrange(0, i as int),
            decreases self.id@.len() - i,
        {
            out.push(self.id[i]);
            i = i + 1;
        }
        assert(self.id@.subrange(0, self.id@.len() as int) =~= self.id@);
        out
    }

    /// A block from a `namespace:id` name, which must hold exactly one colon.
    pub fn from_name(name: &[u8], properties: Option<Vec<(Vec<u8>, Vec<u8>)>>) -> (r: Result<
        RustBlock,
        AnvilError,
    >)
        ensures
            r is Ok <==> colon_count(name@) == 1,
            r is Err ==> r == Err::<RustBlock, AnvilError>(AnvilError::InvalidFormat),
            r matches Ok(b) ==> b.wf() && splits_name(name@, b.namespace@, b.id@) && canonical(
                view_props(b.properties@),
                given_props(properties),
            ),
    {
        let mut count: usize = 0;
        let mut pos: usize = 0;
        let mut i: usize = 0;
        while i < name.len()
            invariant
                i <= name@.len(),
                count <= i,
                count == colon_count(name@.subrange(0, i as int)),
                count >= 1 ==> pos < i && name@[pos as int] == COLON && colon_count(
                    name@.subrange(0, pos as int),
                ) == 0,
            decreases name@.len() - i,
        {
            proof {
                assert(name@.subrange(0, i + 1).drop_last() =~= name@.subrange(0, i as int));
            }
            if name[i] == COLON {
                if count == 0 {
                    pos = i;
                }
                count = count + 1;
            }
            i = i + 1;
        }
        proof {
            assert(name@.subrange(0, name@.len() as int) =~= name@);
        }
        if count != 1 {
            return Err(AnvilError::InvalidFormat);
        }
        let namespace = copy_range(name, 0, pos);
        let id = copy_range(name, pos + 1, name.len());
        proof {
            assert(namespace@ + seq![COLON] + id@ =~= name@);
            lemma_colon_count_concat(namespace@ + seq![COLON], id@);
            lemma_colon_count_concat(namespace@, seq![COLON]);
            assert(seq![COLON].drop_last() =~= Seq::<u8>::empty());
        }
        Ok(RustBlock::new(namespace, Some(id), properties))
    }

    /// A block from a palette entry: a compound with a string `Name` and an
    /// optional compound `Properties` of strings.
    pub fn from_palette(tag: &PyNbtValue) -> (r: Result<RustBlock, AnvilError>)
        ensures
            match palette_entry(tag@) {
                Err(e) => r == Err::<RustBlock, AnvilError>(e),
                Ok((name, ps)) => {
                    &&& r is Ok <==> colon_count(name) == 1
                    &&& r is Err ==> r == Err::<RustBlock, AnvilError>(AnvilError::InvalidFormat)
                    &&& r matches Ok(b) ==> b.wf() && splits_name(name, b.namespace@, b.id@)
                        && canonical(view_props(b.properties@), props_map(ps))
                },
            },
    {
        let nk = name_key_bytes();
        let name = match get_member(tag, nk.as_slice()) {
            Some(PyNbtValue::String(bs)) => bs,
            _ => {
                return Err(AnvilError::InvalidChunkData);
            },
        };
        let pk = properties_key_bytes();
        let props = match get_member(tag, pk.as_slice()) {
            None => {
                let e: Vec<(Vec<u8>, Vec<u8>)> = Vec::new();
                assert(view_props(e@) =~= Seq::empty());
                e
            },
            Some(PyNbtValue::Compound(es)) => match string_properties(es) {
                Some(ps) => ps,
                None => {
                    return Err(AnvilError::InvalidChunkData);
                },
            },
            Some(_) => {
                return Err(AnvilError::InvalidChunkData);
            },
        };
        RustBlock::from_name(name.as_slice(), Some(props))
    }

    /// The block that a legacy table gives to a numeric id and data value.
    pub fn from_numeric_id(table: &LegacyTable, block_id: u32, data: u32) -> (r: Result<
        RustBlock,
        AnvilError,
    >)
        ensures
            numeric_id_result(table.entries@, block_id, data, r),
    {
        match table.lookup(block_id, data) {
            None => Err(AnvilError::UnknownLegacyId { id: block_id, data }),
            Some(name) => {
                let r = RustBlock::from_name(name.as_slice(), None);
                proof {
                    if r is Ok {
                        let ps = view_props(r->Ok_0.properties@);
                        if ps.len() > 0 {
                            assert(Map::<Seq<u8>, Seq<u8>>::empty().contains_key(ps[0].0));
                        }
                    }
                }
                r
            },
        }
    }
}

fn string_properties(es: &Vec<(Vec<u8>, PyNbtValue)>) -> (r: Option<Vec<(Vec<u8>, Vec<u8>)>>)
    ensures
        match r {
            Some(ps) => string_props(view_entries(es@)) == Some(view_props(ps@)),
            None => string_props(view_entries(es@)) == None::<
                Seq<(Seq<u8>, Seq<u8>)>,
            >,
        },
{
    let mut out: Vec<(Vec<u8>, Vec<u8>)> = Vec::new();
    let mut i: usize = 0;
    proof {
        assert(es@.subrange(0, 0) =~= Seq::<(Vec<u8>, PyNbtValue)>::empty());
        assert(view_props(out@) =~= Seq::empty());
    }
    while i < es.len()
        invariant
            i <= es@.len(),
            string_props(view_entries(es@.subrange(0, i as int))) == Some(
                view_props(out@),
            ),
        decreases es@.len() - i,
    {
        let (k, v) = &es[i];
        proof {
            let sub = es@.subrange(0, i + 1);
            assert(sub =~= es@.subrange(0, i as int).push(es@[i as int]));
            lemma_view_entries_push(es@.subrange(0, i as int), es@[i as int]);
            assert(view_entries(sub).drop_last() =~= view_entries(
                es@.subrange(0, i as int),
            ));
        }
        match v {
            PyNbtValue::String(bs) => {
                let pair = (clone_bytes(k), clone_bytes(bs));
                out.push(pair);
                proof {
                    assert(view_props(out@) =~= view_props(out@.drop_last()).push(
                        (k@, bs@),
                    ));
                }
            },
            _ => {
                proof {
                    let rest = es@.subrange(i + 1, es@.len() as int);
                    lemma_string_props_fails(view_entries(es@.subrange(0, i + 1)), es@, i + 1);
                }
                return None;
            },
        }
        i = i + 1;
    }
    proof {
        assert(es@.subrange(0, es@.len() as int) =~= es@);
    }
    Some(out)
}

/// Once a prefix of the members holds a non-string, so does every longer prefix.
proof fn lemma_string_props_fails(pre: Seq<(Seq<u8>, Nbt)>, es: Seq<(Vec<u8>, PyNbtValue)>, j: int)
    requires
        0 <= j <= es.len(),
        pre == view_entries(es.subrange(0, j)),
        string_props(pre) is None,
    ensures
        string_props(view_entries(es)) is None,
    decreases es.len() - j,
{
    if j == es.len() {
        assert(es.subrange(0, j) =~= es);
    } else {
        let next = view_entries(es.subrange(0, j + 1));
        assert(es.subrange(0, j + 1) =~= es.subrange(0, j).push(es[j]));
        lemma_view_entries_push(es.subrange(0, j), es[j]);
        assert(next.drop_last() =~= pre);
        lemma_string_props_fails(next, es, j + 1);
    }
}

proof fn lemma_colon_count_concat(a: Seq<u8>, b: Seq<u8>)
    ensures
        colon_count(a + b) == colon_count(a) + colon_count(b),
    decreases b.len(),
{
    if b.len() == 0 {
        assert(a + b =~= a);
    } else {
        assert((a + b).drop_last() =~= a + b.drop_last());
        lemma_colon_count_concat(a, b.drop_last());
    }
}

impl RustOldBlock {
    pub fn new(block_id: u32, data: u32) -> (r: RustOldBlock)
        ensures
            r.id == block_id && r.data == data,
    {
        RustOldBlock { id: block_id, data }
    }

    /// The namespaced block that `table` maps this block to.
    pub fn convert(&self, table: &LegacyTable) -> (r: Result<RustBlock, AnvilError>)
        ensures
            numeric_id_result(table.entries@, self.id, self.data, r),
    {
        RustBlock::from_numeric_id(table, self.id, self.data)
    }
}

impl LegacyTable {
    pub fn new() -> (r: LegacyTable)
        ensures
            r.entries@.len() == 0,
    {
        LegacyTable { entries: Vec::new() }
    }

    /// Maps `(block_id, data)` to `name`, replacing an earlier mapping of the pair.
    pub fn insert(&mut self, block_id: u32, data: u32, name: Vec<u8>)
        ensures
            final(self).entries@ == old(self).entries@.push((block_id, data, name)),
    {
        self.entries.push((block_id, data, name));
    }

    /// The name mapped to `(block_id, data)`.
    pub fn lookup(&self, block_id: u32, data: u32) -> (r: Option<&Vec<u8>>)
        ensures
            match r {
                Some(n) => legacy_lookup(self.entries@, block_id, data) == Some(n@),
                None => legacy_lookup(self.entries@, block_id, data) == None::<Seq<u8>>,
            },
    {
        let mut i = self.entries.len();
        proof {
            assert(self.entries@.subrange(0, i as int) =~= self.entries@);
        }
        while i > 0
            invariant
                i <= self.entries@.len(),
                legacy_lookup(self.entries@, block_id, data) == legacy_lookup(
                    self.entries@.subrange(0, i as int),
                    block_id,
                    data,
                ),
            decreases i,
        {
            proof {
                assert(self.entries@.subrange(0, i as int).drop_last() =~= self.entries@.subrange(
                    0,
                    i - 1,
                ));
            }
            let e = &self.entries[i - 1];
            if e.0 == block_id && e.1 == data {
                return Some(&e.2);
            }
            i = i - 1;
        }
        None
    }
}

/// Property order does not matter: two blocks whose property lists describe the
/// same mapping hold identical property lists, so they compare and hash alike.
/// With `RustBlock::new`, which makes its list canonical for the mapping given, this
/// covers blocks built from the same pairs supplied in different orders.
pub proof fn lemma_property_order_irrelevant(a: RustBlock, b: RustBlock, m: Map<Seq<u8>, Seq<u8>>)
    requires
        canonical(view_props(a.properties@), m),
        canonical(view_props(b.properties@), m),
    ensures
        view_props(a.properties@) == view_props(b.properties@),
{
    lemma_canonical_unique(view_props(a.properties@), view_props(b.properties@), m);
}

proof fn lemma_canonical_unique(
    x: Seq<(Seq<u8>, Seq<u8>)>,
    y: Seq<(Seq<u8>, Seq<u8>)>,
    m: Map<Seq<u8>, Seq<u8>>,
)
    requires
        canonical(x, m),
        canonical(y, m),
    ensures
        x == y,
    decreases x.len(),
{
    if x.len() == 0 {
        if y.len() > 0 {
            assert(m.contains_key(y[0].0));
        }
        assert(x =~= y);
    } else {
        let k0 = x[0].0;
        assert(m.contains_key(k0));
        let j = choose|j: int| 0 <= j < y.len() && y[j].0 == k0;
        assert(y[0].0 == k0) by {
            if y[0].0 != k0 {
                assert(m.contains_key(y[0].0));
                let i = choose|i: int| 0 <= i < x.len() && x[i].0 == y[0].0;
                assert(i != 0);
                assert(lex_lt(x[0].0, x[i].0));
                assert(j != 0);
                assert(lex_lt(y[0].0, y[j].0));
                lemma_lex_total(k0, y[0].0);
            }
        }
        let m2 = m.remove(k0);
        let x2 = x.drop_first();
        let y2 = y.drop_first();
        assert forall|i: int| 0 <= i < x2.len() implies #[trigger] m2.contains_key(x2[i].0)
            && m2[x2[i].0] == x2[i].1 by {
            assert(x2[i] == x[i + 1]);
            assert(lex_lt(x[0].0, x[i + 1].0));
            lemma_lex_irreflexive(k0);
            assert(m.contains_key(x[i + 1].0));
        }
        assert forall|i: int| 0 <= i < y2.len() implies #[trigger] m2.contains_key(y2[i].0)
            && m2[y2[i].0] == y2[i].1 by {
            assert(y2[i] == y[i + 1]);
            assert(lex_lt(y[0].0, y[i + 1].0));
            lemma_lex_irreflexive(k0);
            assert(m.contains_key(y[i + 1].0));
        }
        assert forall|k: Seq<u8>| #[trigger] m2.contains_key(k) implies exists|i: int|
            0 <= i < x2.len() && x2[i].0 == k by {
            assert(m.contains_key(k));
            let i = choose|i: int| 0 <= i < x.len() && x[i].0 == k;
            assert(i != 0);
            assert(x2[i - 1].0 == k);
        }
        assert forall|k: Seq<u8>| #[trigger] m2.contains_key(k) implies exists|i: int|
            0 <= i < y2.len() && y2[i].0 == k by {
            assert(m.contains_key(k));
            let i = choose|i: int| 0 <= i < y.len() && y[i].0 == k;
            assert(i != 0);
            assert(y2[i - 1].0 == k);
        }
        assert forall|a: int, b: int| 0 <= a < b < x2.len() implies lex_lt(
            #[trigger] x2[a].0,
            #[trigger] x2[b].0,
        ) by {
            assert(lex_lt(x[a + 1].0, x[b + 1].0));
        }
        assert forall|a: int, b: int| 0 <= a < b < y2.len() implies lex_lt(
            #[trigger] y2[a].0,
            #[trigger] y2[b].0,
        ) by {
            assert(lex_lt(y[a + 1].0, y[b + 1].0));
        }
        lemma_canonical_unique(x2, y2, m2);
        assert(m.contains_key(y[0].0) && m[y[0].0] == y[0].1);
        assert(x =~= seq![x[0]] + x2);
        assert(y =~= seq![y[0]] + y2);
    }
}

} // verus!
