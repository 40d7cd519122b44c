//! The persistence codec: a lossless binary encoding of the whole registry.
//!
//! Every number (count, tag, fixed-point component) is written as eight
//! little-endian bytes; strings are written as a byte count followed by
//! their UTF-8 bytes.  The index snapshot is persisted too, so a restored
//! registry answers index-backed queries exactly as the saved one did.
//!
//! For the durable buffer of the persistence host, [`frame_state`] wraps a
//! serialized registry as a four-byte little-endian length followed by the
//! blob, and [`unframe_state`] reads it back.

use vstd::prelude::*;

use vstd::bytes::lemma_auto_spec_u64_to_from_le_bytes;
use vstd::bytes::spec_u32_from_le_bytes;
use vstd::bytes::spec_u32_to_le_bytes;
use vstd::bytes::spec_u64_to_le_bytes;
use vstd::bytes::u32_from_le_bytes;
use vstd::bytes::u32_to_le_bytes;
use vstd::bytes::u64_from_le_bytes;
use vstd::bytes::u64_to_le_bytes;
use vstd::slice::slice_subrange;
use vstd::slice::slice_to_vec;
use vstd::utf8::encode_utf8;
use vstd::utf8::decode_utf8;
use vstd::utf8::valid_utf8;
use vstd::utf8::encode_utf8_valid_utf8;
use vstd::utf8::encode_utf8_decode_utf8;

use crate::collection::Collection;
use crate::collection::CollectionModel;
use crate::collection::Metadata;
use crate::db::Database;
use crate::db::DatabaseModel;
use crate::embedding::Embedding;
use crate::embedding::attrs_view;
use crate::embedding::EmbeddingModel;
use crate::similarity::Distance;

verus! {

/// `s` occurs in `b` starting at `pos`.
pub open spec fn prefix_at(b: Seq<u8>, pos: int, s: Seq<u8>) -> bool {
    &&& 0 <= pos
    &&& pos + s.len() <= b.len()
    &&& b.subrange(pos, pos + s.len() as int) == s
}

/// A number, as eight little-endian bytes.
pub open spec fn enc_u64(v: u64) -> Seq<u8> {
    spec_u64_to_le_bytes(v)
}

/// A string's UTF-8 byte count fits the length field.
pub open spec fn fits_str(s: Seq<char>) -> bool {
    encode_utf8(s).len() <= usize::MAX
}

/// A string: its UTF-8 byte count, then its UTF-8 bytes.
pub open spec fn enc_str(s: Seq<char>) -> Seq<u8> {
    enc_u64(encode_utf8(s).len() as u64) + encode_utf8(s)
}

/// A fixed-point component, stored via its 16-bit two's-complement image.
pub open spec fn enc_i16(v: i16) -> Seq<u8> {
    enc_u64((v as u16) as u64)
}

/// The first `n` components of a vector, one after the other.
pub open spec fn enc_i16s(v: Seq<i16>, n: int) -> Seq<u8>
    decreases n,
{
    if n <= 0 {
        Seq::empty()
    } else {
        enc_i16s(v, n - 1) + enc_i16(v[n - 1])
    }
}

/// A vector: its component count, then its components.
pub open spec fn enc_vec16(v: Seq<i16>) -> Seq<u8> {
    enc_u64(v.len() as u64) + enc_i16s(v, v.len() as int)
}

/// A string pair (an attribute, or a content entry).
pub open spec fn enc_pair(p: (Seq<char>, Seq<char>)) -> Seq<u8> {
    enc_str(p.0) + enc_str(p.1)
}

/// The first `n` string pairs, one after the other.
pub open spec fn enc_pairs(ps: Seq<(Seq<char>, Seq<char>)>, n: int) -> Seq<u8>
    decreases n,
{
    if n <= 0 {
        Seq::empty()
    } else {
        enc_pairs(ps, n - 1) + enc_pair(ps[n - 1])
    }
}

/// An optional attribute map: a presence tag, then the pairs.
pub open spec fn enc_attrs(a: Option<Seq<(Seq<char>, Seq<char>)>>) -> Seq<u8> {
    match a {
        Option::None => enc_u64(0),
        Option::Some(ps) => enc_u64(1) + enc_u64(ps.len() as u64) + enc_pairs(ps, ps.len() as int),
    }
}

/// A record: id, vector, attributes.
pub open spec fn enc_record(e: EmbeddingModel) -> Seq<u8> {
    enc_str(e.id) + enc_vec16(e.vector) + enc_attrs(e.attrs)
}

/// The first `n` records, one after the other.
pub open spec fn enc_records(s: Seq<EmbeddingModel>, n: int) -> Seq<u8>
    decreases n,
{
    if n <= 0 {
        Seq::empty()
    } else {
        enc_records(s, n - 1) + enc_record(s[n - 1])
    }
}

/// The first `n` strings, one after the other.
pub open spec fn enc_strs(ts: Seq<Seq<char>>, n: int) -> Seq<u8>
    decreases n,
{
    if n <= 0 {
        Seq::empty()
    } else {
        enc_strs(ts, n - 1) + enc_str(ts[n - 1])
    }
}

/// The numeric tag of a metric.
pub open spec fn metric_tag(d: Distance) -> u64 {
    match d {
        Distance::Cosine => 0,
        Distance::Euclidean => 1,
        Distance::DotProduct => 2,
    }
}

/// A collection: dimension, metric, id mode, index snapshot, records, tags.
pub open spec fn enc_collection(c: CollectionModel) -> Seq<u8> {
    enc_u64(c.dimension as u64) + enc_u64(metric_tag(c.distance)) + enc_u64(
        if c.unique_ids {
            1
        } else {
            0
        },
    ) + enc_u64(c.indexed as u64) + enc_u64(c.records.len() as u64) + enc_records(
        c.records,
        c.records.len() as int,
    ) + enc_u64(c.tags.len() as u64) + enc_strs(c.tags, c.tags.len() as int)
}

/// A named collection: the name, then the collection.
pub open spec fn enc_named(p: (Seq<char>, CollectionModel)) -> Seq<u8> {
    enc_str(p.0) + enc_collection(p.1)
}

/// The first `n` named collections, one after the other.
pub open spec fn enc_nameds(s: Seq<(Seq<char>, CollectionModel)>, n: int) -> Seq<u8>
    decreases n,
{
    if n <= 0 {
        Seq::empty()
    } else {
        enc_nameds(s, n - 1) + enc_named(s[n - 1])
    }
}

/// The whole registry: the collections, then the content store.
pub open spec fn enc_db(m: DatabaseModel) -> Seq<u8> {
    enc_u64(m.collections.len() as u64) + enc_nameds(m.collections, m.collections.len() as int)
        + enc_u64(m.content.len() as u64) + enc_pairs(m.content, m.content.len() as int)
}

/// Every count and byte length of the attribute map fits its field.
pub open spec fn fits_attrs(a: Option<Seq<(Seq<char>, Seq<char>)>>) -> bool {
    match a {
        Option::None => true,
        Option::Some(ps) => ps.len() <= usize::MAX && (forall|i: int|
            0 <= i < ps.len() ==> fits_str((#[trigger] ps[i]).0) && fits_str(ps[i].1)),
    }
}

/// Every count and byte length of the record fits its field.
pub open spec fn fits_record(e: EmbeddingModel) -> bool {
    fits_str(e.id) && e.vector.len() <= usize::MAX && fits_attrs(e.attrs)
}

/// Every count and byte length of the collection fits its field.
pub open spec fn fits_collection(c: CollectionModel) -> bool {
    &&& c.dimension <= usize::MAX
    &&& c.indexed <= usize::MAX
    &&& c.records.len() <= usize::MAX
    &&& (forall|i: int| 0 <= i < c.records.len() ==> fits_record(#[trigger] c.records[i]))
    &&& c.tags.len() <= usize::MAX
    &&& (forall|i: int| 0 <= i < c.tags.len() ==> fits_str(#[trigger] c.tags[i]))
}

/// Every count and byte length of the registry fits its field.
pub open spec fn fits_db(m: DatabaseModel) -> bool {
    &&& m.collections.len() <= usize::MAX
    &&& (forall|i: int|
        0 <= i < m.collections.len() ==> fits_str((#[trigger] m.collections[i]).0)
            && fits_collection(m.collections[i].1))
    &&& m.content.len() <= usize::MAX
    &&& (forall|i: int|
        0 <= i < m.content.len() ==> fits_str((#[trigger] m.content[i]).0) && fits_str(
            m.content[i].1,
        ))
}

/// Relies on `String::from_utf8`: decodes exactly the valid UTF-8 byte
/// sequences, to the string whose UTF-8 encoding they are.
#[verifier::external_body]
fn string_from_utf8(bytes: Vec<u8>) -> (r: Option<String>)
    ensures
        r matches Some(s) ==> encode_utf8(s@) == bytes@,
        valid_utf8(bytes@) ==> r is Some,
{
    String::from_utf8(bytes).ok()
}

/// Appends eight little-endian bytes.
fn emit_u64(out: &mut Vec<u8>, v: u64)
    ensures
        final(out)@ == old(out)@ + enc_u64(v),
{
    let mut b = u64_to_le_bytes(v);
    let ghost before = out@;
    out.append(&mut b);
    proof {
        assert(out@ =~= before + enc_u64(v));
    }
}

/// Appends a string's length-prefixed UTF-8 bytes.
fn emit_str(out: &mut Vec<u8>, s: &String)
    ensures
        final(out)@ == old(out)@ + enc_str(s@),
        fits_str(s@),
{
    let b: &[u8] = s.as_str().as_bytes();
    let n: usize = b.len();
    proof {
        assert(b@ == encode_utf8(s@));
    }
    emit_u64(out, n as u64);
    let ghost mid = out@;
    let mut bv = slice_to_vec(b);
    out.append(&mut bv);
    proof {
        assert(out@ =~= old(out)@ + enc_str(s@));
    }
}

/// Appends a vector's count and components.
fn emit_vec16(out: &mut Vec<u8>, v: &Vec<i16>)
    ensures
        final(out)@ == old(out)@ + enc_vec16(v@),
        v@.len() <= usize::MAX,
{
    let n: usize = v.len();
    emit_u64(out, n as u64);
    let ghost start = out@;
    let mut i: usize = 0;
    while i < n
        invariant
            n == v@.len(),
            0 <= i <= n,
            out@ == start + enc_i16s(v@, i as int),
        decreases n - i,
    {
        let c: i16 = v[i];
        let ghost before = out@;
        emit_u64(out, (c as u16) as u64);
        proof {
            assert(out@ =~= start + enc_i16s(v@, i + 1));
        }
        i = i + 1;
    }
    proof {
        assert(out@ =~= old(out)@ + enc_vec16(v@));
    }
}

/// Appends an optional attribute map.
fn emit_attrs(out: &mut Vec<u8>, a: &Option<Vec<(String, String)>>)
    ensures
        final(out)@ == old(out)@ + enc_attrs(crate::embedding::attrs_view(*a)),
        fits_attrs(crate::embedding::attrs_view(*a)),
{
    match a {
        Option::None => {
            emit_u64(out, 0);
        },
        Option::Some(ps) => {
            let ghost pv = ps@.map_values(|p: (String, String)| (p.0@, p.1@));
            emit_u64(out, 1);
            let n: usize = ps.len();
            emit_u64(out, n as u64);
            let ghost start = out@;
            let mut i: usize = 0;
            while i < n
                invariant
                    n == ps@.len(),
                    pv == ps@.map_values(|p: (String, String)| (p.0@, p.1@)),
                    0 <= i <= n,
                    out@ == start + enc_pairs(pv, i as int),
                    forall|q: int| 0 <= q < i ==> fits_str((#[trigger] pv[q]).0) && fits_str(pv[q].1),
                decreases n - i,
            {
                proof {
                    assert(pv[i as int] == (ps@[i as int].0@, ps@[i as int].1@));
                }
                emit_str(out, &ps[i].0);
                emit_str(out, &ps[i].1);
                proof {
                    assert(out@ =~= start + enc_pairs(pv, i + 1));
                }
                i = i + 1;
            }
            proof {
                assert(out@ =~= old(out)@ + enc_attrs(crate::embedding::attrs_view(*a)));
            }
        },
    }
}

/// Appends one record.
fn emit_record(out: &mut Vec<u8>, e: &Embedding)
    ensures
        final(out)@ == old(out)@ + enc_record(e@),
        fits_record(e@),
{
    emit_str(out, &e.id);
    emit_vec16(out, &e.vector);
    emit_attrs(out, &e.metadata);
    proof {
        assert(out@ =~= old(out)@ + enc_record(e@));
    }
}

/// Appends one collection.
#[verifier::rlimit(50)]
fn emit_collection(out: &mut Vec<u8>, c: &Collection)
    ensures
        final(out)@ == old(out)@ + enc_collection(c@),
        fits_collection(c@),
{
    emit_u64(out, c.dimension as u64);
    let tag: u64 = match c.distance {
        Distance::Cosine => 0,
        Distance::Euclidean => 1,
        Distance::DotProduct => 2,
    };
    emit_u64(out, tag);
    emit_u64(
        out,
        if c.unique_ids {
            1
        } else {
            0
        },
    );
    emit_u64(out, c.indexed as u64);
    let n: usize = c.embeddings.len();
    emit_u64(out, n as u64);
    let ghost start = out@;
    let mut i: usize = 0;
    while i < n
        invariant
            n == c.embeddings@.len(),
            0 <= i <= n,
            out@ == start + enc_records(c@.records, i as int),
            forall|q: int| 0 <= q < i ==> fits_record(#[trigger] c@.records[q]),
        decreases n - i,
    {
        proof {
            assert(c@.records[i as int] == c.embeddings@[i as int]@);
        }
        emit_record(out, &c.embeddings[i]);
        proof {
            assert(out@ =~= start + enc_records(c@.records, i + 1));
        }
        i = i + 1;
    }
    let m: usize = c.metadata.file_names.len();
    emit_u64(out, m as u64);
    let ghost start2 = out@;
    let mut j: usize = 0;
    while j < m
        invariant
            m == c.metadata.file_names@.len(),
            0 <= j <= m,
            out@ == start2 + enc_strs(c@.tags, j as int),
            forall|q: int| 0 <= q < j ==> fits_str(#[trigger] c@.tags[q]),
        decreases m - j,
    {
        proof {
            assert(c@.tags[j as int] == c.metadata.file_names@[j as int]@);
        }
        emit_str(out, &c.metadata.file_names[j]);
        proof {
            assert(out@ =~= start2 + enc_strs(c@.tags, j + 1));
        }
        j = j + 1;
    }
    proof {
        assert(out@ =~= old(out)@ + enc_collection(c@));
    }
}

/// Serializes the whole registry to a byte buffer.
pub fn serialize(db: &Database) -> (r: Vec<u8>)
    ensures
        r@ == enc_db(db@),
        fits_db(db@),
{
    let mut out: Vec<u8> = Vec::new();
    let n: usize = db.collections.len();
    emit_u64(&mut out, n as u64);
    let ghost start = out@;
    let mut i: usize = 0;
    while i < n
        invariant
            n == db.collections@.len(),
            0 <= i <= n,
            out@ == start + enc_nameds(db@.collections, i as int),
            forall|q: int|
                0 <= q < i ==> fits_str((#[trigger] db@.collections[q]).0) && fits_collection(
                    db@.collections[q].1,
                ),
        decreases n - i,
    {
        proof {
            assert(db@.collections[i as int] == (db.collections@[i as int].0@,
            db.collections@[i as int].1@));
        }
        emit_str(&mut out, &db.collections[i].0);
        emit_collection(&mut out, &db.collections[i].1);
        proof {
            assert(out@ =~= start + enc_nameds(db@.collections, i + 1));
        }
        i = i + 1;
    }
    let m: usize = db.content.len();
    emit_u64(&mut out, m as u64);
    let ghost start2 = out@;
    let mut j: usize = 0;
    while j < m
        invariant
            m == db.content@.len(),
            0 <= j <= m,
            out@ == start2 + enc_pairs(db@.content, j as int),
            forall|q: int|
                0 <= q < j ==> fits_str((#[trigger] db@.content[q]).0) && fits_str(
                    db@.content[q].1,
                ),
        decreases m - j,
    {
        proof {
            assert(db@.content[j as int] == (db.content@[j as int].0@, db.content@[j as int].1@));
        }
        emit_str(&mut out, &db.content[j].0);
        emit_str(&mut out, &db.content[j].1);
        proof {
            assert(out@ =~= start2 + enc_pairs(db@.content, j + 1));
        }
        j = j + 1;
    }
    proof {
        assert(out@ =~= enc_db(db@));
    }
    out
}

/// A concatenation occurs at `pos` exactly when its parts occur back to
/// back.
proof fn lemma_prefix_concat(b: Seq<u8>, pos: int, x: Seq<u8>, y: Seq<u8>)
    requires
        0 <= pos,
    ensures
        prefix_at(b, pos, x + y) <==> (prefix_at(b, pos, x) && prefix_at(b, pos + x.len(), y)),
{
    if prefix_at(b, pos, x + y) {
        let s = b.subrange(pos, pos + (x + y).len() as int);
        assert forall|i: int| 0 <= i < x.len() implies b.subrange(pos, pos + x.len() as int)[i]
            == x[i] by {
            assert(s[i] == x[i]);
            assert(b[pos + i] == s[i]);
        }
        assert(b.subrange(pos, pos + x.len() as int) =~= x);
        assert forall|i: int|
            0 <= i < y.len() implies b.subrange(
            pos + x.len(),
            pos + x.len() + y.len() as int,
        )[i] == y[i] by {
            assert(s[x.len() + i] == y[i]);
            assert(b[pos + x.len() + i] == s[x.len() + i]);
        }
        assert(b.subrange(pos + x.len(), pos + x.len() + y.len() as int) =~= y);
    }
    if prefix_at(b, pos, x) && prefix_at(b, pos + x.len(), y) {
        assert(b.subrange(pos, pos + x.len() + y.len() as int) =~= x + y);
    }
}

/// Each encoded component takes eight bytes.
proof fn lemma_enc_i16s_len(v: Seq<i16>, n: int)
    requires
        0 <= n,
    ensures
        enc_i16s(v, n).len() == 8 * n,
    decreases n,
{
    lemma_auto_spec_u64_to_from_le_bytes();
    if n > 0 {
        lemma_enc_i16s_len(v, n - 1);
    }
}

/// Reads eight little-endian bytes as a number.
fn dec_u64(bytes: &Vec<u8>, pos: &mut usize) -> (r: Option<u64>)
    ensures
        r matches Some(v) ==> *old(pos) + 8 <= bytes@.len() && *final(pos) == *old(pos) + 8
            && prefix_at(bytes@, *old(pos) as int, enc_u64(v)),
        *old(pos) + 8 <= bytes@.len() ==> r is Some,
        r is None ==> *final(pos) == *old(pos),
        forall|x: u64|
            prefix_at(bytes@, *old(pos) as int, enc_u64(x)) ==> r == Some(x),
{
    proof {
        lemma_auto_spec_u64_to_from_le_bytes();
    }
    let n: usize = bytes.len();
    if n < 8 || *pos > n - 8 {
        proof {
            assert forall|x: u64| !prefix_at(bytes@, *old(pos) as int, enc_u64(x)) by {
                assert(enc_u64(x).len() == 8);
            }
        }
        return None;
    }
    let s: &[u8] = slice_subrange(bytes.as_slice(), *pos, *pos + 8);
    let v: u64 = u64_from_le_bytes(s);
    proof {
        assert(s@ == bytes@.subrange(*old(pos) as int, *old(pos) + 8));
        assert(enc_u64(v) == s@);
        assert forall|x: u64| prefix_at(bytes@, *old(pos) as int, enc_u64(x)) implies v == x by {
            assert(enc_u64(x).len() == 8);
            assert(enc_u64(x) == s@);
        }
    }
    *pos = *pos + 8;
    Some(v)
}

/// Reads one fixed-point component.
fn dec_i16(bytes: &Vec<u8>, pos: &mut usize) -> (r: Option<i16>)
    ensures
        r matches Some(v) ==> *final(pos) == *old(pos) + 8 && prefix_at(
            bytes@,
            *old(pos) as int,
            enc_i16(v),
        ),
        forall|x: i16|
            prefix_at(bytes@, *old(pos) as int, enc_i16(x)) ==> (r matches Some(v2) && v2 == x),
{
    let u = match dec_u64(bytes, pos) {
        Option::None => {
            return None;
        },
        Option::Some(u) => u,
    };
    if u >= 0x10000 {
        proof {
            assert forall|x: i16| !prefix_at(bytes@, *old(pos) as int, enc_i16(x)) by {
                assert(((x as u16) as u64) < 0x10000);
            }
        }
        return None;
    }
    let v: i16 = (u as u16) as i16;
    proof {
        assert(((v as u16) as u64) == u) by (bit_vector)
            requires
                u < 0x10000,
                v == (u as u16) as i16,
        ;
        assert forall|x: i16| prefix_at(bytes@, *old(pos) as int, enc_i16(x)) implies v == x by {
            assert(((x as u16) as u64) == u);
            assert(x == (u as u16) as i16) by (bit_vector)
                requires
                    ((x as u16) as u64) == u,
                    u < 0x10000,
            ;
        }
    }
    Some(v)
}

/// Reads one length-prefixed UTF-8 string.
fn dec_str(bytes: &Vec<u8>, pos: &mut usize) -> (r: Option<String>)
    ensures
        r matches Some(s) ==> fits_str(s@) && prefix_at(bytes@, *old(pos) as int, enc_str(s@))
            && *final(pos) == *old(pos) + enc_str(s@).len(),
        forall|x: Seq<char>|
            fits_str(x) && prefix_at(bytes@, *old(pos) as int, enc_str(x)) ==> (r matches Some(s2)
                && s2@ == x),
{
    let ghost p0 = *old(pos) as int;
    proof {
        lemma_auto_spec_u64_to_from_le_bytes();
        assert forall|x: Seq<char>|
            fits_str(x) && prefix_at(bytes@, p0, enc_str(x)) implies prefix_at(
            bytes@,
            p0,
            enc_u64(encode_utf8(x).len() as u64),
        ) && prefix_at(bytes@, p0 + 8, encode_utf8(x)) by {
            lemma_prefix_concat(bytes@, p0, enc_u64(encode_utf8(x).len() as u64), encode_utf8(x));
        }
    }
    let n = match dec_u64(bytes, pos) {
        Option::None => {
            return None;
        },
        Option::Some(n) => n,
    };
    let rem: usize = bytes.len() - *pos;
    if n > rem as u64 {
        proof {
            assert forall|x: Seq<char>|
                !(fits_str(x) && prefix_at(bytes@, p0, enc_str(x))) by {
                if fits_str(x) && prefix_at(bytes@, p0, enc_str(x)) {
                    assert(enc_u64(encode_utf8(x).len() as u64) == bytes@.subrange(p0, p0 + 8));
                    assert(encode_utf8(x).len() as u64 == n);
                    assert(p0 + enc_str(x).len() <= bytes@.len());
                }
            }
        }
        return None;
    }
    let start: usize = *pos;
    let end: usize = start + (n as usize);
    let sl: &[u8] = slice_subrange(bytes.as_slice(), start, end);
    let bv: Vec<u8> = slice_to_vec(sl);
    proof {
        assert(bv@ == bytes@.subrange(p0 + 8, p0 + 8 + n as int));
    }
    match string_from_utf8(bv) {
        Option::None => {
            proof {
                assert forall|x: Seq<char>|
                    !(fits_str(x) && prefix_at(bytes@, p0, enc_str(x))) by {
                    if fits_str(x) && prefix_at(bytes@, p0, enc_str(x)) {
                        assert(enc_u64(encode_utf8(x).len() as u64) == bytes@.subrange(
                            p0,
                            p0 + 8,
                        ));
                        assert(encode_utf8(x).len() as u64 == n);
                        assert(encode_utf8(x) == bytes@.subrange(p0 + 8, p0 + 8 + n as int));
                        encode_utf8_valid_utf8(x);
                    }
                }
            }
            None
        },
        Option::Some(s) => {
            *pos = end;
            proof {
                assert(encode_utf8(s@) == bytes@.subrange(p0 + 8, p0 + 8 + n as int));
                assert(encode_utf8(s@).len() == n);
                assert(enc_u64(n) == bytes@.subrange(p0, p0 + 8));
                lemma_prefix_concat(bytes@, p0, enc_u64(n), encode_utf8(s@));
                assert(prefix_at(bytes@, p0, enc_str(s@)));
                assert forall|x: Seq<char>|
                    fits_str(x) && prefix_at(bytes@, p0, enc_str(x)) implies s@ == x by {
                    assert(enc_u64(encode_utf8(x).len() as u64) == bytes@.subrange(p0, p0 + 8));
                    assert(encode_utf8(x).len() as u64 == n);
                    assert(encode_utf8(x) == bytes@.subrange(p0 + 8, p0 + 8 + n as int));
                    assert(encode_utf8(x) == encode_utf8(s@));
                    encode_utf8_decode_utf8(x);
                    encode_utf8_decode_utf8(s@);
                    assert(decode_utf8(encode_utf8(x)) == x);
                    assert(decode_utf8(encode_utf8(s@)) == s@);
                }
            }
            Some(s)
        },
    }
}

/// Encoded component runs agree on every list that agrees pointwise.
proof fn lemma_enc_i16s_congr(a: Seq<i16>, b: Seq<i16>, n: int)
    requires
        forall|i: int| 0 <= i < n ==> a[i] == b[i],
    ensures
        enc_i16s(a, n) == enc_i16s(b, n),
    decreases n,
{
    if n > 0 {
        lemma_enc_i16s_congr(a, b, n - 1);
    }
}

/// Within an encoded component run, component `k` sits at offset `8 * k`.
proof fn lemma_enc_i16s_split(b: Seq<u8>, start: int, x: Seq<i16>, k: int, n: int)
    requires
        0 <= k < n,
        prefix_at(b, start, enc_i16s(x, n)),
    ensures
        prefix_at(b, start + 8 * k, enc_i16(x[k])),
    decreases n,
{
    lemma_auto_spec_u64_to_from_le_bytes();
    lemma_prefix_concat(b, start, enc_i16s(x, n - 1), enc_i16(x[n - 1]));
    lemma_enc_i16s_len(x, n - 1);
    if k < n - 1 {
        lemma_enc_i16s_split(b, start, x, k, n - 1);
    }
}

/// Reads a vector: its component count, then its components.
#[verifier::loop_isolation(false)]
fn dec_vec16(bytes: &Vec<u8>, pos: &mut usize) -> (r: Option<Vec<i16>>)
    ensures
        r matches Some(v) ==> prefix_at(bytes@, *old(pos) as int, enc_vec16(v@)) && *final(pos)
            == *old(pos) + enc_vec16(v@).len() && v@.len() <= usize::MAX,
        forall|x: Seq<i16>|
            #![trigger enc_vec16(x)]
            x.len() <= usize::MAX && prefix_at(bytes@, *old(pos) as int, enc_vec16(x)) ==> (r
                matches Some(v2) && v2@ == x),
{
    let ghost p0 = *pos as int;
    proof {
        lemma_auto_spec_u64_to_from_le_bytes();
        assert forall|x: Seq<i16>|
            #![trigger enc_vec16(x)]
            x.len() <= usize::MAX && prefix_at(bytes@, p0, enc_vec16(x)) implies prefix_at(
            bytes@,
            p0,
            enc_u64(x.len() as u64),
        ) && prefix_at(bytes@, p0 + 8, enc_i16s(x, x.len() as int)) by {
            lemma_prefix_concat(bytes@, p0, enc_u64(x.len() as u64), enc_i16s(x, x.len() as int));
        }
    }
    let count = match dec_u64(bytes, pos) {
        Option::None => {
            return None;
        },
        Option::Some(c) => c,
    };
    let mut out: Vec<i16> = Vec::new();
    let mut got: u64 = 0;
    proof {
        assert(bytes@.subrange(p0 + 8, p0 + 8) =~= enc_i16s(out@, 0));
        assert(prefix_at(bytes@, p0 + 8, enc_i16s(out@, 0)));
    }
    while got < count
        invariant
            prefix_at(bytes@, p0, enc_u64(count)),
            0 <= got <= count,
            out@.len() == got,
            *pos as int == p0 + 8 + 8 * (got as int),
            *pos <= bytes@.len(),
            prefix_at(bytes@, p0 + 8, enc_i16s(out@, got as int)),
            forall|x: Seq<i16>|
                #![trigger enc_vec16(x)]
                x.len() <= usize::MAX && prefix_at(bytes@, p0, enc_vec16(x)) ==> (x.len() as u64
                    == count && out@ =~= x.take(got as int)),
        decreases count - got,
    {
        let ghost prev = out@;
        let ghost pp = *pos as int;
        let c = match dec_i16(bytes, pos) {
            Option::None => {
                proof {
                    assert forall|x: Seq<i16>|
                        #![trigger enc_vec16(x)]
                        !(x.len() <= usize::MAX && prefix_at(bytes@, p0, enc_vec16(x))) by {
                        if x.len() <= usize::MAX && prefix_at(bytes@, p0, enc_vec16(x)) {
                            assert(x.len() as u64 == count);
                            assert(out@ =~= x.take(got as int));
                            lemma_enc_i16s_split(
                                bytes@,
                                p0 + 8,
                                x,
                                got as int,
                                x.len() as int,
                            );
                            lemma_enc_i16s_len(x, got as int);
                            assert(prefix_at(bytes@, p0 + 8 + 8 * (got as int), enc_i16(
                                x[got as int],
                            )));
                            assert(false);
                        }
                    }
                }
                return None;
            },
            Option::Some(c) => c,
        };
        out.push(c);
        got = got + 1;
        proof {
            lemma_prefix_concat(bytes@, p0 + 8, enc_i16s(prev, got - 1), enc_i16(c));
            lemma_enc_i16s_len(prev, got as int - 1);
            assert(enc_i16s(out@, got as int) == enc_i16s(prev, got as int - 1) + enc_i16(c)) by {
                lemma_enc_i16s_congr(out@, prev, got as int - 1);
            }
            assert(prefix_at(bytes@, p0 + 8, enc_i16s(out@, got as int)));
            assert forall|x: Seq<i16>|
                #![trigger enc_vec16(x)]
                x.len() <= usize::MAX && prefix_at(bytes@, p0, enc_vec16(x)) implies (x.len()
                as u64 == count && out@ =~= x.take(got as int)) by {
                assert(prev =~= x.take(got as int - 1));
                lemma_enc_i16s_split(bytes@, p0 + 8, x, got as int - 1, x.len() as int);
                assert(prefix_at(bytes@, p0 + 8 + 8 * (got - 1), enc_i16(x[got as int - 1])));
                assert(c == x[got as int - 1]);
            }
        }
    }
    proof {
        lemma_enc_i16s_len(out@, got as int);
        lemma_prefix_concat(bytes@, p0, enc_u64(count), enc_i16s(out@, got as int));
        assert(prefix_at(bytes@, p0, enc_vec16(out@)));
        assert forall|x: Seq<i16>|
            #![trigger enc_vec16(x)]
            x.len() <= usize::MAX && prefix_at(bytes@, p0, enc_vec16(x)) implies out@ == x by {
            assert(out@ =~= x.take(got as int));
            assert(x.take(x.len() as int) =~= x);
        }
    }
    Some(out)
}

/// Encoded string runs agree on every list that agrees pointwise.
proof fn lemma_enc_strs_congr(a: Seq<Seq<char>>, b: Seq<Seq<char>>, n: int)
    requires
        forall|i: int| 0 <= i < n ==> a[i] == b[i],
    ensures
        enc_strs(a, n) == enc_strs(b, n),
    decreases n,
{
    if n > 0 {
        lemma_enc_strs_congr(a, b, n - 1);
    }
}

/// Within an encoded string run, string `k` sits after the first `k`
/// encoded strings.
proof fn lemma_enc_strs_split(b: Seq<u8>, start: int, x: Seq<Seq<char>>, k: int, n: int)
    requires
        0 <= k < n,
        prefix_at(b, start, enc_strs(x, n)),
    ensures
        prefix_at(b, start + enc_strs(x, k).len(), enc_str(x[k])),
    decreases n,
{
    lemma_prefix_concat(b, start, enc_strs(x, n - 1), enc_str(x[n - 1]));
    if k < n - 1 {
        lemma_enc_strs_split(b, start, x, k, n - 1);
    }
}

/// The abstract value of a string list.
pub open spec fn strs_view(v: Seq<String>) -> Seq<Seq<char>> {
    v.map_values(|s: String| s@)
}

/// Reads `count` strings, one after the other.
#[verifier::loop_isolation(false)]
fn dec_strs(bytes: &Vec<u8>, pos: &mut usize, count: u64) -> (r: Option<Vec<String>>)
    requires
        *old(pos) <= bytes@.len(),
    ensures
        r matches Some(v) ==> ({
            let vm = strs_view(v@);
            v@.len() == count && prefix_at(bytes@, *old(pos) as int, enc_strs(vm, count as int))
                && *final(pos) == *old(pos) + enc_strs(vm, count as int).len() && (forall|q: int|
                0 <= q < v@.len() ==> fits_str((#[trigger] v@[q])@))
        }),
        forall|x: Seq<Seq<char>>|
            #![trigger enc_strs(x, count as int)]
            x.len() == count && (forall|i: int| 0 <= i < x.len() ==> fits_str(#[trigger] x[i]))
                && prefix_at(bytes@, *old(pos) as int, enc_strs(x, count as int)) ==> (r matches
                Some(v2) && strs_view(v2@) =~= x),
{
    let ghost p0 = *pos as int;
    let mut out: Vec<String> = Vec::new();
    let mut got: u64 = 0;
    proof {
        assert(strs_view(out@) =~= Seq::<Seq<char>>::empty());
        assert(bytes@.subrange(p0, p0) =~= enc_strs(strs_view(out@), 0));
        assert(prefix_at(bytes@, p0, enc_strs(strs_view(out@), 0)));
    }
    while got < count
        invariant
            0 <= got <= count,
            out@.len() == got,
            p0 <= *pos as int <= bytes@.len(),
            *pos as int == p0 + enc_strs(strs_view(out@), got as int).len(),
            prefix_at(bytes@, p0, enc_strs(strs_view(out@), got as int)),
            forall|q: int| 0 <= q < got ==> fits_str((#[trigger] out@[q])@),
            forall|x: Seq<Seq<char>>|
                #![trigger enc_strs(x, count as int)]
                x.len() == count && (forall|i: int| 0 <= i < x.len() ==> fits_str(
                    #[trigger] x[i],
                )) && prefix_at(bytes@, p0, enc_strs(x, count as int)) ==> strs_view(out@)
                    =~= x.take(got as int),
        decreases count - got,
    {
        let ghost prevm = strs_view(out@);
        let ghost pp = *pos as int;
        let s = match dec_str(bytes, pos) {
            Option::None => {
                proof {
                    assert forall|x: Seq<Seq<char>>|
                        #![trigger enc_strs(x, count as int)]
                        !(x.len() == count && (forall|i: int| 0 <= i < x.len() ==> fits_str(
                            #[trigger] x[i],
                        )) && prefix_at(bytes@, p0, enc_strs(x, count as int))) by {
                        if x.len() == count && (forall|i: int| 0 <= i < x.len() ==> fits_str(
                            #[trigger] x[i],
                        )) && prefix_at(bytes@, p0, enc_strs(x, count as int)) {
                            assert(prevm =~= x.take(got as int));
                            lemma_enc_strs_split(bytes@, p0, x, got as int, count as int);
                            assert(enc_strs(x, got as int) == enc_strs(prevm, got as int)) by {
                                lemma_enc_strs_congr(x, prevm, got as int);
                            }
                            assert(fits_str(x[got as int]));
                            assert(prefix_at(bytes@, pp, enc_str(x[got as int])));
                            assert(false);
                        }
                    }
                }
                return None;
            },
            Option::Some(s) => s,
        };
        out.push(s);
        got = got + 1;
        proof {
            let ghost sm = strs_view(out@);
            assert(sm =~= prevm.push(out@.last()@));
            lemma_prefix_concat(bytes@, p0, enc_strs(prevm, got - 1), enc_str(out@.last()@));
            assert(enc_strs(sm, got as int) == enc_strs(prevm, got as int - 1) + enc_str(
                out@.last()@,
            )) by {
                lemma_enc_strs_congr(sm, prevm, got as int - 1);
            }
            assert(prefix_at(bytes@, p0, enc_strs(sm, got as int)));
            assert forall|x: Seq<Seq<char>>|
                #![trigger enc_strs(x, count as int)]
                x.len() == count && (forall|i: int| 0 <= i < x.len() ==> fits_str(
                    #[trigger] x[i],
                )) && prefix_at(bytes@, p0, enc_strs(x, count as int)) implies sm =~= x.take(
                got as int,
            ) by {
                assert(prevm =~= x.take(got as int - 1));
                lemma_enc_strs_split(bytes@, p0, x, got as int - 1, count as int);
                assert(enc_strs(x, got as int - 1) == enc_strs(prevm, got as int - 1)) by {
                    lemma_enc_strs_congr(x, prevm, got as int - 1);
                }
                assert(prefix_at(bytes@, pp, enc_str(x[got as int - 1])));
                assert(out@.last()@ == x[got as int - 1]);
            }
        }
    }
    proof {
        assert forall|x: Seq<Seq<char>>|
            #![trigger enc_strs(x, count as int)]
            x.len() == count && (forall|i: int| 0 <= i < x.len() ==> fits_str(#[trigger] x[i]))
                && prefix_at(bytes@, p0, enc_strs(x, count as int)) implies strs_view(out@)
            =~= x by {
            assert(strs_view(out@) =~= x.take(got as int));
            assert(x.take(x.len() as int) =~= x);
        }
    }
    Some(out)
}

/// Encoded pair runs agree on every list that agrees pointwise.
proof fn lemma_enc_pairs_congr(
    a: Seq<(Seq<char>, Seq<char>)>,
    b: Seq<(Seq<char>, Seq<char>)>,
    n: int,
)
    requires
        forall|i: int| 0 <= i < n ==> a[i] == b[i],
    ensures
        enc_pairs(a, n) == enc_pairs(b, n),
    decreases n,
{
    if n > 0 {
        lemma_enc_pairs_congr(a, b, n - 1);
    }
}

/// Within an encoded pair run, pair `k` sits after the first `k` encoded
/// pairs.
proof fn lemma_enc_pairs_split(
    b: Seq<u8>,
    start: int,
    x: Seq<(Seq<char>, Seq<char>)>,
    k: int,
    n: int,
)
    requires
        0 <= k < n,
        prefix_at(b, start, enc_pairs(x, n)),
    ensures
        prefix_at(b, start + enc_pairs(x, k).len(), enc_pair(x[k])),
    decreases n,
{
    lemma_prefix_concat(b, start, enc_pairs(x, n - 1), enc_pair(x[n - 1]));
    if k < n - 1 {
        lemma_enc_pairs_split(b, start, x, k, n - 1);
    }
}

/// The abstract value of a string-pair list.
pub open spec fn pairs_view(v: Seq<(String, String)>) -> Seq<(Seq<char>, Seq<char>)> {
    v.map_values(|p: (String, String)| (p.0@, p.1@))
}

/// Reads `count` string pairs, one after the other.
#[verifier::loop_isolation(false)]
fn dec_pairs(bytes: &Vec<u8>, pos: &mut usize, count: u64) -> (r: Option<Vec<(String, String)>>)
    requires
        *old(pos) <= bytes@.len(),
    ensures
        r matches Some(v) ==> ({
            let vm = pairs_view(v@);
            v@.len() == count && prefix_at(bytes@, *old(pos) as int, enc_pairs(vm, count as int))
                && *final(pos) == *old(pos) + enc_pairs(vm, count as int).len() && (forall|q: int|
                0 <= q < v@.len() ==> fits_str((#[trigger] v@[q]).0@) && fits_str(v@[q].1@))
        }),
        forall|x: Seq<(Seq<char>, Seq<char>)>|
            #![trigger enc_pairs(x, count as int)]
            x.len() == count && (forall|i: int|
                0 <= i < x.len() ==> fits_str((#[trigger] x[i]).0) && fits_str(x[i].1))
                && prefix_at(bytes@, *old(pos) as int, enc_pairs(x, count as int)) ==> (r matches
                Some(v2) && pairs_view(v2@) =~= x),
{
    let ghost p0 = *pos as int;
    let mut out: Vec<(String, String)> = Vec::new();
    let mut got: u64 = 0;
    proof {
        assert(pairs_view(out@) =~= Seq::<(Seq<char>, Seq<char>)>::empty());
        assert(bytes@.subrange(p0, p0) =~= enc_pairs(pairs_view(out@), 0));
        assert(prefix_at(bytes@, p0, enc_pairs(pairs_view(out@), 0)));
    }
    while got < count
        invariant
            0 <= got <= count,
            out@.len() == got,
            p0 <= *pos as int <= bytes@.len(),
            *pos as int == p0 + enc_pairs(pairs_view(out@), got as int).len(),
            prefix_at(bytes@, p0, enc_pairs(pairs_view(out@), got as int)),
            forall|q: int|
                0 <= q < got ==> fits_str((#[trigger] out@[q]).0@) && fits_str(out@[q].1@),
            forall|x: Seq<(Seq<char>, Seq<char>)>|
                #![trigger enc_pairs(x, count as int)]
                x.len() == count && (forall|i: int|
                    0 <= i < x.len() ==> fits_str((#[trigger] x[i]).0) && fits_str(x[i].1))
                    && prefix_at(bytes@, p0, enc_pairs(x, count as int)) ==> pairs_view(out@)
                    =~= x.take(got as int),
        decreases count - got,
    {
        let ghost prevm = pairs_view(out@);
        let ghost pp = *pos as int;
        let a = match dec_str(bytes, pos) {
            Option::None => {
                proof {
                    assert forall|x: Seq<(Seq<char>, Seq<char>)>|
                        #![trigger enc_pairs(x, count as int)]
                        !(x.len() == count && (forall|i: int|
                            0 <= i < x.len() ==> fits_str((#[trigger] x[i]).0) && fits_str(
                                x[i].1,
                            )) && prefix_at(bytes@, p0, enc_pairs(x, count as int))) by {
                        if x.len() == count && (forall|i: int|
                            0 <= i < x.len() ==> fits_str((#[trigger] x[i]).0) && fits_str(
                                x[i].1,
                            )) && prefix_at(bytes@, p0, enc_pairs(x, count as int)) {
                            assert(prevm =~= x.take(got as int));
                            lemma_enc_pairs_split(bytes@, p0, x, got as int, count as int);
                            assert(enc_pairs(x, got as int) == enc_pairs(prevm, got as int)) by {
                                lemma_enc_pairs_congr(x, prevm, got as int);
                            }
                            assert(prefix_at(bytes@, pp, enc_pair(x[got as int])));
                            lemma_prefix_concat(bytes@, pp, enc_str(x[got as int].0), enc_str(
                                x[got as int].1,
                            ));
                            assert(fits_str(x[got as int].0));
                            assert(prefix_at(bytes@, pp, enc_str(x[got as int].0)));
                            assert(false);
                        }
                    }
                }
                return None;
            },
            Option::Some(a) => a,
        };
        let ghost pmid = *pos as int;
        let b2 = match dec_str(bytes, pos) {
            Option::None => {
                proof {
                    assert forall|x: Seq<(Seq<char>, Seq<char>)>|
                        #![trigger enc_pairs(x, count as int)]
                        !(x.len() == count && (forall|i: int|
                            0 <= i < x.len() ==> fits_str((#[trigger] x[i]).0) && fits_str(
                                x[i].1,
                            )) && prefix_at(bytes@, p0, enc_pairs(x, count as int))) by {
                        if x.len() == count && (forall|i: int|
                            0 <= i < x.len() ==> fits_str((#[trigger] x[i]).0) && fits_str(
                                x[i].1,
                            )) && prefix_at(bytes@, p0, enc_pairs(x, count as int)) {
                            assert(prevm =~= x.take(got as int));
                            lemma_enc_pairs_split(bytes@, p0, x, got as int, count as int);
                            assert(enc_pairs(x, got as int) == enc_pairs(prevm, got as int)) by {
                                lemma_enc_pairs_congr(x, prevm, got as int);
                            }
                            assert(prefix_at(bytes@, pp, enc_pair(x[got as int])));
                            lemma_prefix_concat(bytes@, pp, enc_str(x[got as int].0), enc_str(
                                x[got as int].1,
                            ));
                            assert(fits_str(x[got as int].0));
                            assert(a@ == x[got as int].0);
                            assert(pmid == pp + enc_str(x[got as int].0).len());
                            assert(fits_str(x[got as int].1));
                            assert(prefix_at(bytes@, pmid, enc_str(x[got as int].1)));
                            assert(false);
                        }
                    }
                }
                return None;
            },
            Option::Some(b2) => b2,
        };
        out.push((a, b2));
        got = got + 1;
        proof {
            let ghost sm = pairs_view(out@);
            let ghost last = (out@.last().0@, out@.last().1@);
            assert(sm =~= prevm.push(last));
            lemma_prefix_concat(bytes@, pp, enc_str(last.0), enc_str(last.1));
            assert(prefix_at(bytes@, pp, enc_pair(last)));
            lemma_prefix_concat(bytes@, p0, enc_pairs(prevm, got - 1), enc_pair(last));
            assert(enc_pairs(sm, got as int) == enc_pairs(prevm, got as int - 1) + enc_pair(last))
                by {
                lemma_enc_pairs_congr(sm, prevm, got as int - 1);
            }
            assert(prefix_at(bytes@, p0, enc_pairs(sm, got as int)));
            assert forall|x: Seq<(Seq<char>, Seq<char>)>|
                #![trigger enc_pairs(x, count as int)]
                x.len() == count && (forall|i: int|
                    0 <= i < x.len() ==> fits_str((#[trigger] x[i]).0) && fits_str(x[i].1))
                    && prefix_at(bytes@, p0, enc_pairs(x, count as int)) implies sm =~= x.take(
                got as int,
            ) by {
                assert(prevm =~= x.take(got as int - 1));
                lemma_enc_pairs_split(bytes@, p0, x, got as int - 1, count as int);
                assert(enc_pairs(x, got as int - 1) == enc_pairs(prevm, got as int - 1)) by {
                    lemma_enc_pairs_congr(x, prevm, got as int - 1);
                }
                lemma_prefix_concat(bytes@, pp, enc_str(x[got as int - 1].0), enc_str(
                    x[got as int - 1].1,
                ));
                assert(a@ == x[got as int - 1].0);
                assert(b2@ == x[got as int - 1].1);
                assert(last == x[got as int - 1]);
            }
        }
    }
    proof {
        assert forall|x: Seq<(Seq<char>, Seq<char>)>|
            #![trigger enc_pairs(x, count as int)]
            x.len() == count && (forall|i: int|
                0 <= i < x.len() ==> fits_str((#[trigger] x[i]).0) && fits_str(x[i].1))
                && prefix_at(bytes@, p0, enc_pairs(x, count as int)) implies pairs_view(out@)
            =~= x by {
            assert(pairs_view(out@) =~= x.take(got as int));
            assert(x.take(x.len() as int) =~= x);
        }
    }
    Some(out)
}

/// Reads an optional attribute map.
fn dec_attrs(bytes: &Vec<u8>, pos: &mut usize) -> (r: Option<Option<Vec<(String, String)>>>)
    requires
        *old(pos) <= bytes@.len(),
    ensures
        r matches Some(a) ==> prefix_at(bytes@, *old(pos) as int, enc_attrs(attrs_view(a)))
            && *final(pos) == *old(pos) + enc_attrs(attrs_view(a)).len() && fits_attrs(
            attrs_view(a),
        ),
        forall|x: Option<Seq<(Seq<char>, Seq<char>)>>|
            #![trigger enc_attrs(x)]
            fits_attrs(x) && prefix_at(bytes@, *old(pos) as int, enc_attrs(x)) ==> (r matches Some(
                a2,
            ) && attrs_view(a2) == x),
{
    let ghost p0 = *pos as int;
    proof {
        lemma_auto_spec_u64_to_from_le_bytes();
        assert forall|x: Option<Seq<(Seq<char>, Seq<char>)>>|
            #![trigger enc_attrs(x)]
            fits_attrs(x) && prefix_at(bytes@, p0, enc_attrs(x)) implies prefix_at(
            bytes@,
            p0,
            enc_u64(
                match x {
                    Option::None => 0,
                    Option::Some(_) => 1,
                },
            ),
        ) by {
            match x {
                Option::None => {
                },
                Option::Some(ps) => {
                    lemma_prefix_concat(
                        bytes@,
                        p0,
                        enc_u64(1),
                        enc_u64(ps.len() as u64) + enc_pairs(ps, ps.len() as int),
                    );
                    assert(enc_attrs(x) =~= enc_u64(1) + (enc_u64(ps.len() as u64) + enc_pairs(
                        ps,
                        ps.len() as int,
                    )));
                },
            }
        }
    }
    let tag = match dec_u64(bytes, pos) {
        Option::None => {
            return None;
        },
        Option::Some(t) => t,
    };
    if tag == 0 {
        proof {
            assert(enc_attrs(attrs_view(Option::None)) == enc_u64(0));
            assert(prefix_at(bytes@, p0, enc_attrs(attrs_view(Option::None))));
            assert(enc_attrs(attrs_view(Option::None)).len() == 8);
            assert forall|x: Option<Seq<(Seq<char>, Seq<char>)>>|
                #![trigger enc_attrs(x)]
                fits_attrs(x) && prefix_at(bytes@, p0, enc_attrs(x)) implies attrs_view(
                Option::<Vec<(String, String)>>::None,
            ) == x by {
                match x {
                    Option::None => {
                    },
                    Option::Some(ps) => {
                        assert(false);
                    },
                }
            }
        }
        return Some(None);
    }
    if tag != 1 {
        return None;
    }
    let count = match dec_u64(bytes, pos) {
        Option::None => {
            proof {
                assert forall|x: Option<Seq<(Seq<char>, Seq<char>)>>|
                    #![trigger enc_attrs(x)]
                    !(fits_attrs(x) && prefix_at(bytes@, p0, enc_attrs(x))) by {
                    if fits_attrs(x) && prefix_at(bytes@, p0, enc_attrs(x)) {
                        match x {
                            Option::None => {
                            },
                            Option::Some(ps) => {
                                lemma_prefix_concat(
                                    bytes@,
                                    p0,
                                    enc_u64(1),
                                    enc_u64(ps.len() as u64) + enc_pairs(ps, ps.len() as int),
                                );
                                assert(enc_attrs(x) =~= enc_u64(1) + (enc_u64(ps.len() as u64)
                                    + enc_pairs(ps, ps.len() as int)));
                                lemma_prefix_concat(
                                    bytes@,
                                    p0 + 8,
                                    enc_u64(ps.len() as u64),
                                    enc_pairs(ps, ps.len() as int),
                                );
                                assert(false);
                            },
                        }
                    }
                }
            }
            return None;
        },
        Option::Some(c) => c,
    };
    let ghost pmid = *pos as int;
    let v = match dec_pairs(bytes, pos, count) {
        Option::None => {
            proof {
                assert forall|x: Option<Seq<(Seq<char>, Seq<char>)>>|
                    #![trigger enc_attrs(x)]
                    !(fits_attrs(x) && prefix_at(bytes@, p0, enc_attrs(x))) by {
                    if fits_attrs(x) && prefix_at(bytes@, p0, enc_attrs(x)) {
                        match x {
                            Option::None => {
                            },
                            Option::Some(ps) => {
                                lemma_prefix_concat(
                                    bytes@,
                                    p0,
                                    enc_u64(1),
                                    enc_u64(ps.len() as u64) + enc_pairs(ps, ps.len() as int),
                                );
                                assert(enc_attrs(x) =~= enc_u64(1) + (enc_u64(ps.len() as u64)
                                    + enc_pairs(ps, ps.len() as int)));
                                lemma_prefix_concat(
                                    bytes@,
                                    p0 + 8,
                                    enc_u64(ps.len() as u64),
                                    enc_pairs(ps, ps.len() as int),
                                );
                                assert(ps.len() as u64 == count);
                                assert(prefix_at(bytes@, pmid, enc_pairs(ps, count as int)));
                                assert(false);
                            },
                        }
                    }
                }
            }
            return None;
        },
        Option::Some(v) => v,
    };
    let v_len: usize = v.len();
    proof {
        assert(v@.len() == v_len);
        let av = attrs_view(Some(v));
        assert(av == Option::Some(pairs_view(v@)));
        assert(enc_attrs(av) =~= enc_u64(1) + (enc_u64(count) + enc_pairs(
            pairs_view(v@),
            count as int,
        )));
        lemma_prefix_concat(
            bytes@,
            p0 + 8,
            enc_u64(count),
            enc_pairs(pairs_view(v@), count as int),
        );
        lemma_prefix_concat(
            bytes@,
            p0,
            enc_u64(1),
            enc_u64(count) + enc_pairs(pairs_view(v@), count as int),
        );
        assert(prefix_at(bytes@, p0, enc_attrs(av)));
        assert(enc_attrs(av).len() == 16 + enc_pairs(pairs_view(v@), count as int).len());
        assert(fits_attrs(av)) by {
            assert(pairs_view(v@).len() == v@.len());
            assert forall|i: int|
                0 <= i < pairs_view(v@).len() implies fits_str(
                (#[trigger] pairs_view(v@)[i]).0,
            ) && fits_str(pairs_view(v@)[i].1) by {
                assert(pairs_view(v@)[i] == (v@[i].0@, v@[i].1@));
            }
        }
        assert forall|x: Option<Seq<(Seq<char>, Seq<char>)>>|
            #![trigger enc_attrs(x)]
            fits_attrs(x) && prefix_at(bytes@, p0, enc_attrs(x)) implies attrs_view(Some(v))
            == x by {
            match x {
                Option::None => {
                },
                Option::Some(ps) => {
                    lemma_prefix_concat(
                        bytes@,
                        p0,
                        enc_u64(1),
                        enc_u64(ps.len() as u64) + enc_pairs(ps, ps.len() as int),
                    );
                    assert(enc_attrs(x) =~= enc_u64(1) + (enc_u64(ps.len() as u64) + enc_pairs(
                        ps,
                        ps.len() as int,
                    )));
                    lemma_prefix_concat(
                        bytes@,
                        p0 + 8,
                        enc_u64(ps.len() as u64),
                        enc_pairs(ps, ps.len() as int),
                    );
                    assert(ps.len() as u64 == count);
                    assert(prefix_at(bytes@, pmid, enc_pairs(ps, count as int)));
                    assert(pairs_view(v@) =~= ps);
                },
            }
        }
    }
    Some(Some(v))
}

/// The abstract value of a record list.
pub open spec fn records_view(v: Seq<Embedding>) -> Seq<EmbeddingModel> {
    v.map_values(|e: Embedding| e@)
}

/// Reads one record.
fn dec_record(bytes: &Vec<u8>, pos: &mut usize) -> (r: Option<Embedding>)
    requires
        *old(pos) <= bytes@.len(),
    ensures
        r matches Some(e) ==> prefix_at(bytes@, *old(pos) as int, enc_record(e@)) && *final(pos)
            == *old(pos) + enc_record(e@).len() && fits_record(e@),
        forall|x: EmbeddingModel|
            #![trigger enc_record(x)]
            fits_record(x) && prefix_at(bytes@, *old(pos) as int, enc_record(x)) ==> (r matches
                Some(e2) && e2@ == x),
{
    let ghost p0 = *pos as int;
    proof {
        assert forall|x: EmbeddingModel|
            #![trigger enc_record(x)]
            fits_record(x) && prefix_at(bytes@, p0, enc_record(x)) implies prefix_at(
            bytes@,
            p0,
            enc_str(x.id),
        ) && prefix_at(bytes@, p0 + enc_str(x.id).len(), enc_vec16(x.vector)) && prefix_at(
            bytes@,
            p0 + enc_str(x.id).len() + enc_vec16(x.vector).len(),
            enc_attrs(x.attrs),
        ) by {
            lemma_prefix_concat(
                bytes@,
                p0,
                enc_str(x.id),
                enc_vec16(x.vector) + enc_attrs(x.attrs),
            );
            assert(enc_record(x) =~= enc_str(x.id) + (enc_vec16(x.vector) + enc_attrs(x.attrs)));
            lemma_prefix_concat(
                bytes@,
                p0 + enc_str(x.id).len(),
                enc_vec16(x.vector),
                enc_attrs(x.attrs),
            );
        }
    }
    let id = match dec_str(bytes, pos) {
        Option::None => {
            return None;
        },
        Option::Some(id) => id,
    };
    let vector = match dec_vec16(bytes, pos) {
        Option::None => {
            proof {
                assert forall|x: EmbeddingModel|
                    #![trigger enc_record(x)]
                    !(fits_record(x) && prefix_at(bytes@, p0, enc_record(x))) by {
                    if fits_record(x) && prefix_at(bytes@, p0, enc_record(x)) {
                        assert(id@ == x.id);
                        assert(false);
                    }
                }
            }
            return None;
        },
        Option::Some(v) => v,
    };
    let metadata = match dec_attrs(bytes, pos) {
        Option::None => {
            proof {
                assert forall|x: EmbeddingModel|
                    #![trigger enc_record(x)]
                    !(fits_record(x) && prefix_at(bytes@, p0, enc_record(x))) by {
                    if fits_record(x) && prefix_at(bytes@, p0, enc_record(x)) {
                        assert(id@ == x.id);
                        assert(vector@ == x.vector);
                        assert(false);
                    }
                }
            }
            return None;
        },
        Option::Some(a) => a,
    };
    let e = Embedding { id, vector, metadata };
    proof {
        lemma_prefix_concat(
            bytes@,
            p0 + enc_str(e@.id).len(),
            enc_vec16(e@.vector),
            enc_attrs(e@.attrs),
        );
        lemma_prefix_concat(
            bytes@,
            p0,
            enc_str(e@.id),
            enc_vec16(e@.vector) + enc_attrs(e@.attrs),
        );
        assert(enc_record(e@) =~= enc_str(e@.id) + (enc_vec16(e@.vector) + enc_attrs(e@.attrs)));
        assert(prefix_at(bytes@, p0, enc_record(e@)));
        assert forall|x: EmbeddingModel|
            #![trigger enc_record(x)]
            fits_record(x) && prefix_at(bytes@, p0, enc_record(x)) implies e@ == x by {
            assert(id@ == x.id);
            assert(vector@ == x.vector);
            assert(attrs_view(e.metadata) == x.attrs);
        }
    }
    Some(e)
}

/// Encoded record runs agree on every list that agrees pointwise.
proof fn lemma_enc_records_congr(a: Seq<EmbeddingModel>, b: Seq<EmbeddingModel>, n: int)
    requires
        forall|i: int| 0 <= i < n ==> a[i] == b[i],
    ensures
        enc_records(a, n) == enc_records(b, n),
    decreases n,
{
    if n > 0 {
        lemma_enc_records_congr(a, b, n - 1);
    }
}

/// Within an encoded record run, record `k` sits after the first `k`
/// encoded records.
proof fn lemma_enc_records_split(b: Seq<u8>, start: int, x: Seq<EmbeddingModel>, k: int, n: int)
    requires
        0 <= k < n,
        prefix_at(b, start, enc_records(x, n)),
    ensures
        prefix_at(b, start + enc_records(x, k).len(), enc_record(x[k])),
    decreases n,
{
    lemma_prefix_concat(b, start, enc_records(x, n - 1), enc_record(x[n - 1]));
    if k < n - 1 {
        lemma_enc_records_split(b, start, x, k, n - 1);
    }
}

/// Reads `count` records, one after the other.
#[verifier::loop_isolation(false)]
fn dec_records(bytes: &Vec<u8>, pos: &mut usize, count: u64) -> (r: Option<Vec<Embedding>>)
    requires
        *old(pos) <= bytes@.len(),
    ensures
        r matches Some(v) ==> ({
            let vm = records_view(v@);
            v@.len() == count && prefix_at(bytes@, *old(pos) as int, enc_records(vm, count as int))
                && *final(pos) == *old(pos) + enc_records(vm, count as int).len() && (forall|
                q: int,
            |
                0 <= q < v@.len() ==> fits_record((#[trigger] v@[q])@))
        }),
        forall|x: Seq<EmbeddingModel>|
            #![trigger enc_records(x, count as int)]
            x.len() == count && (forall|i: int| 0 <= i < x.len() ==> fits_record(#[trigger] x[i]))
                && prefix_at(bytes@, *old(pos) as int, enc_records(x, count as int)) ==> (r matches
                Some(v2) && records_view(v2@) =~= x),
{
    let ghost p0 = *pos as int;
    let mut out: Vec<Embedding> = Vec::new();
    let mut got: u64 = 0;
    proof {
        assert(records_view(out@) =~= Seq::<EmbeddingModel>::empty());
        assert(bytes@.subrange(p0, p0) =~= enc_records(records_view(out@), 0));
        assert(prefix_at(bytes@, p0, enc_records(records_view(out@), 0)));
    }
    while got < count
        invariant
            0 <= got <= count,
            out@.len() == got,
            p0 <= *pos as int <= bytes@.len(),
            *pos as int == p0 + enc_records(records_view(out@), got as int).len(),
            prefix_at(bytes@, p0, enc_records(records_view(out@), got as int)),
            forall|q: int| 0 <= q < got ==> fits_record((#[trigger] out@[q])@),
            forall|x: Seq<EmbeddingModel>|
                #![trigger enc_records(x, count as int)]
                x.len() == count && (forall|i: int| 0 <= i < x.len() ==> fits_record(
                    #[trigger] x[i],
                )) && prefix_at(bytes@, p0, enc_records(x, count as int)) ==> records_view(out@)
                    =~= x.take(got as int),
        decreases count - got,
    {
        let ghost prevm = records_view(out@);
        let ghost pp = *pos as int;
        let e = match dec_record(bytes, pos) {
            Option::None => {
                proof {
                    assert forall|x: Seq<EmbeddingModel>|
                        #![trigger enc_records(x, count as int)]
                        !(x.len() == count && (forall|i: int| 0 <= i < x.len() ==> fits_record(
                            #[trigger] x[i],
                        )) && prefix_at(bytes@, p0, enc_records(x, count as int))) by {
                        if x.len() == count && (forall|i: int| 0 <= i < x.len() ==> fits_record(
                            #[trigger] x[i],
                        )) && prefix_at(bytes@, p0, enc_records(x, count as int)) {
                            assert(prevm =~= x.take(got as int));
                            lemma_enc_records_split(bytes@, p0, x, got as int, count as int);
                            assert(enc_records(x, got as int) == enc_records(prevm, got as int))
                                by {
                                lemma_enc_records_congr(x, prevm, got as int);
                            }
                            assert(fits_record(x[got as int]));
                            assert(prefix_at(bytes@, pp, enc_record(x[got as int])));
                            assert(false);
                        }
                    }
                }
                return None;
            },
            Option::Some(e) => e,
        };
        out.push(e);
        got = got + 1;
        proof {
            let ghost sm = records_view(out@);
            assert(sm =~= prevm.push(out@.last()@));
            lemma_prefix_concat(bytes@, p0, enc_records(prevm, got - 1), enc_record(out@.last()@));
            assert(enc_records(sm, got as int) == enc_records(prevm, got as int - 1) + enc_record(
                out@.last()@,
            )) by {
                lemma_enc_records_congr(sm, prevm, got as int - 1);
            }
            assert(prefix_at(bytes@, p0, enc_records(sm, got as int)));
            assert forall|x: Seq<EmbeddingModel>|
                #![trigger enc_records(x, count as int)]
                x.len() == count && (forall|i: int| 0 <= i < x.len() ==> fits_record(
                    #[trigger] x[i],
                )) && prefix_at(bytes@, p0, enc_records(x, count as int)) implies sm =~= x.take(
                got as int,
            ) by {
                assert(prevm =~= x.take(got as int - 1));
                lemma_enc_records_split(bytes@, p0, x, got as int - 1, count as int);
                assert(enc_records(x, got as int - 1) == enc_records(prevm, got as int - 1)) by {
                    lemma_enc_records_congr(x, prevm, got as int - 1);
                }
                assert(fits_record(x[got as int - 1]));
                assert(prefix_at(bytes@, pp, enc_record(x[got as int - 1])));
                assert(out@.last()@ == x[got as int - 1]);
            }
        }
    }
    proof {
        assert forall|x: Seq<EmbeddingModel>|
            #![trigger enc_records(x, count as int)]
            x.len() == count && (forall|i: int| 0 <= i < x.len() ==> fits_record(#[trigger] x[i]))
                && prefix_at(bytes@, p0, enc_records(x, count as int)) implies records_view(out@)
            =~= x by {
            assert(records_view(out@) =~= x.take(got as int));
            assert(x.take(x.len() as int) =~= x);
        }
    }
    Some(out)
}

/// Reads one collection.
#[verifier::rlimit(100)]
#[verifier::spinoff_prover]
fn dec_collection(bytes: &Vec<u8>, pos: &mut usize) -> (r: Option<Collection>)
    requires
        *old(pos) <= bytes@.len(),
    ensures
        r matches Some(c) ==> prefix_at(bytes@, *old(pos) as int, enc_collection(c@))
            && *final(pos) == *old(pos) + enc_collection(c@).len() && fits_collection(c@),
        forall|x: CollectionModel|
            #![trigger enc_collection(x)]
            fits_collection(x) && prefix_at(bytes@, *old(pos) as int, enc_collection(x)) ==> (r
                matches Some(c2) && c2@ == x),
{
    let ghost p0 = *pos as int;
    proof {
        lemma_auto_spec_u64_to_from_le_bytes();
    }
    let dim64 = match dec_u64(bytes, pos) {
        Option::None => {
            proof {
                assert forall|x: CollectionModel|
                    #![trigger enc_collection(x)]
                    !(fits_collection(x) && prefix_at(bytes@, p0, enc_collection(x))) by {
                    if fits_collection(x) && prefix_at(bytes@, p0, enc_collection(x)) {
                        lemma_collection_min_len(x);
                        assert(false);
                    }
                }
            }
            return None;
        },
        Option::Some(v) => v,
    };
    let tag = match dec_u64(bytes, pos) {
        Option::None => {
            proof {
                assert forall|x: CollectionModel|
                    #![trigger enc_collection(x)]
                    !(fits_collection(x) && prefix_at(bytes@, p0, enc_collection(x))) by {
                    if fits_collection(x) && prefix_at(bytes@, p0, enc_collection(x)) {
                        lemma_collection_min_len(x);
                        assert(false);
                    }
                }
            }
            return None;
        },
        Option::Some(v) => v,
    };
    let uniq = match dec_u64(bytes, pos) {
        Option::None => {
            proof {
                assert forall|x: CollectionModel|
                    #![trigger enc_collection(x)]
                    !(fits_collection(x) && prefix_at(bytes@, p0, enc_collection(x))) by {
                    if fits_collection(x) && prefix_at(bytes@, p0, enc_collection(x)) {
                        lemma_collection_min_len(x);
                        assert(false);
                    }
                }
            }
            return None;
        },
        Option::Some(v) => v,
    };
    let idx64 = match dec_u64(bytes, pos) {
        Option::None => {
            proof {
                assert forall|x: CollectionModel|
                    #![trigger enc_collection(x)]
                    !(fits_collection(x) && prefix_at(bytes@, p0, enc_collection(x))) by {
                    if fits_collection(x) && prefix_at(bytes@, p0, enc_collection(x)) {
                        lemma_collection_min_len(x);
                        assert(false);
                    }
                }
            }
            return None;
        },
        Option::Some(v) => v,
    };
    let nrec = match dec_u64(bytes, pos) {
        Option::None => {
            proof {
                assert forall|x: CollectionModel|
                    #![trigger enc_collection(x)]
                    !(fits_collection(x) && prefix_at(bytes@, p0, enc_collection(x))) by {
                    if fits_collection(x) && prefix_at(bytes@, p0, enc_collection(x)) {
                        lemma_collection_min_len(x);
                        assert(false);
                    }
                }
            }
            return None;
        },
        Option::Some(v) => v,
    };
    if dim64 > usize_max_u64() || idx64 > usize_max_u64() || tag > 2 || uniq > 1 {
        proof {
            assert forall|x: CollectionModel|
                #![trigger enc_collection(x)]
                !(fits_collection(x) && prefix_at(bytes@, p0, enc_collection(x))) by {
                if fits_collection(x) && prefix_at(bytes@, p0, enc_collection(x)) {
                    lemma_collection_decompose(bytes@, p0, x);
                    assert(dim64 == x.dimension as u64);
                    assert(tag == metric_tag(x.distance));
                    assert(uniq == (if x.unique_ids {
                        1u64
                    } else {
                        0u64
                    }));
                    assert(idx64 == x.indexed as u64);
                    assert(false);
                }
            }
        }
        return None;
    }
    let ghost prec = *pos as int;
    let embeddings = match dec_records(bytes, pos, nrec) {
        Option::None => {
            proof {
                assert forall|x: CollectionModel|
                    #![trigger enc_collection(x)]
                    !(fits_collection(x) && prefix_at(bytes@, p0, enc_collection(x))) by {
                    if fits_collection(x) && prefix_at(bytes@, p0, enc_collection(x)) {
                        lemma_collection_decompose(bytes@, p0, x);
                        assert(x.records.len() as u64 == nrec);
                        assert(prefix_at(bytes@, prec, enc_records(x.records, nrec as int)));
                        assert(false);
                    }
                }
            }
            return None;
        },
        Option::Some(v) => v,
    };
    let ntag = match dec_u64(bytes, pos) {
        Option::None => {
            proof {
                assert forall|x: CollectionModel|
                    #![trigger enc_collection(x)]
                    !(fits_collection(x) && prefix_at(bytes@, p0, enc_collection(x))) by {
                    if fits_collection(x) && prefix_at(bytes@, p0, enc_collection(x)) {
                        lemma_collection_decompose(bytes@, p0, x);
                        assert(x.records.len() as u64 == nrec);
                        assert(prefix_at(bytes@, prec, enc_records(x.records, nrec as int)));
                        assert(records_view(embeddings@) =~= x.records);
                        assert(enc_records(records_view(embeddings@), nrec as int) == enc_records(
                            x.records,
                            nrec as int,
                        )) by {
                            lemma_enc_records_congr(
                                records_view(embeddings@),
                                x.records,
                                nrec as int,
                            );
                        }
                        assert(false);
                    }
                }
            }
            return None;
        },
        Option::Some(v) => v,
    };
    let ghost ptag = *pos as int;
    let file_names = match dec_strs(bytes, pos, ntag) {
        Option::None => {
            proof {
                assert forall|x: CollectionModel|
                    #![trigger enc_collection(x)]
                    !(fits_collection(x) && prefix_at(bytes@, p0, enc_collection(x))) by {
                    if fits_collection(x) && prefix_at(bytes@, p0, enc_collection(x)) {
                        lemma_collection_decompose(bytes@, p0, x);
                        assert(x.records.len() as u64 == nrec);
                        assert(records_view(embeddings@) =~= x.records);
                        assert(enc_records(records_view(embeddings@), nrec as int) == enc_records(
                            x.records,
                            nrec as int,
                        )) by {
                            lemma_enc_records_congr(
                                records_view(embeddings@),
                                x.records,
                                nrec as int,
                            );
                        }
                        assert(x.tags.len() as u64 == ntag);
                        assert(prefix_at(bytes@, ptag, enc_strs(x.tags, ntag as int)));
                        assert(false);
                    }
                }
            }
            return None;
        },
        Option::Some(v) => v,
    };
    let n_embeddings: usize = embeddings.len();
    let n_file_names: usize = file_names.len();
    proof {
        assert(embeddings@.len() == n_embeddings);
        assert(file_names@.len() == n_file_names);
    }
    let distance = if tag == 0 {
        Distance::Cosine
    } else if tag == 1 {
        Distance::Euclidean
    } else {
        Distance::DotProduct
    };
    let c = Collection {
        dimension: dim64 as usize,
        distance,
        unique_ids: uniq == 1,
        embeddings,
        metadata: Metadata { file_names },
        indexed: idx64 as usize,
    };
    proof {
        assert(c@.records == records_view(c.embeddings@));
        assert(c@.tags == strs_view(c.metadata.file_names@));
        assert(c@.dimension as u64 == dim64);
        assert(c@.indexed as u64 == idx64);
        assert(metric_tag(c@.distance) == tag);
        assert((if c@.unique_ids {
            1u64
        } else {
            0u64
        }) == uniq);
        assert(c@.records.len() == c.embeddings@.len());
        assert(c@.tags.len() == c.metadata.file_names@.len());
        assert(c@.records =~= records_view(c.embeddings@));
        assert(fits_collection(c@)) by {
            assert forall|q: int|
                0 <= q < c@.records.len() implies fits_record(#[trigger] c@.records[q]) by {
                assert(c@.records[q] == c.embeddings@[q]@);
            }
            assert forall|q: int| 0 <= q < c@.tags.len() implies fits_str(
                #[trigger] c@.tags[q],
            ) by {
                assert(c@.tags[q] == c.metadata.file_names@[q]@);
            }
        }
        lemma_collection_compose(bytes@, p0, c@, nrec, ntag);
        assert forall|x: CollectionModel|
            #![trigger enc_collection(x)]
            fits_collection(x) && prefix_at(bytes@, p0, enc_collection(x)) implies c@ == x by {
            lemma_collection_decompose(bytes@, p0, x);
            assert(x.dimension as u64 == dim64);
            assert(metric_tag(x.distance) == tag);
            assert((if x.unique_ids {
                1u64
            } else {
                0u64
            }) == uniq);
            assert(x.indexed as u64 == idx64);
            assert(x.records.len() as u64 == nrec);
            assert(records_view(embeddings@) =~= x.records);
            assert(enc_records(records_view(embeddings@), nrec as int) == enc_records(
                x.records,
                nrec as int,
            )) by {
                lemma_enc_records_congr(records_view(embeddings@), x.records, nrec as int);
            }
            assert(x.tags.len() as u64 == ntag);
            assert(strs_view(file_names@) =~= x.tags);
            assert(c@.distance == x.distance) by {
                lemma_metric_tag_inj(c@.distance, x.distance);
            }
            assert(c@.dimension == x.dimension);
            assert(c@.unique_ids == x.unique_ids);
            assert(c@.indexed == x.indexed);
            assert(c@.records == x.records);
            assert(c@.tags == x.tags);
        }
    }
    Some(c)
}

/// A collection encoding is never shorter than its six fixed fields.
proof fn lemma_collection_min_len(x: CollectionModel)
    ensures
        enc_collection(x).len() >= 48,
{
    lemma_auto_spec_u64_to_from_le_bytes();
}

/// The metric tag determines the metric.
proof fn lemma_metric_tag_inj(a: Distance, b: Distance)
    requires
        metric_tag(a) == metric_tag(b),
    ensures
        a == b,
{
}

/// The platform word's largest value, as a field value.
fn usize_max_u64() -> (r: u64)
    ensures
        r == usize::MAX as u64,
{
    usize::MAX as u64
}

/// Splits an encoded collection into its eight fields.
proof fn lemma_collection_decompose(b: Seq<u8>, p0: int, x: CollectionModel)
    requires
        0 <= p0,
        prefix_at(b, p0, enc_collection(x)),
    ensures
        ({
            let s1 = enc_u64(x.dimension as u64);
            let s2 = enc_u64(metric_tag(x.distance));
            let s3 = enc_u64(
                if x.unique_ids {
                    1
                } else {
                    0
                },
            );
            let s4 = enc_u64(x.indexed as u64);
            let s5 = enc_u64(x.records.len() as u64);
            let s6 = enc_records(x.records, x.records.len() as int);
            let s7 = enc_u64(x.tags.len() as u64);
            let s8 = enc_strs(x.tags, x.tags.len() as int);
            &&& prefix_at(b, p0, s1)
            &&& prefix_at(b, p0 + 8, s2)
            &&& prefix_at(b, p0 + 16, s3)
            &&& prefix_at(b, p0 + 24, s4)
            &&& prefix_at(b, p0 + 32, s5)
            &&& prefix_at(b, p0 + 40, s6)
            &&& prefix_at(b, p0 + 40 + s6.len(), s7)
            &&& prefix_at(b, p0 + 48 + s6.len(), s8)
        }),
{
    lemma_auto_spec_u64_to_from_le_bytes();
    let s1 = enc_u64(x.dimension as u64);
    let s2 = enc_u64(metric_tag(x.distance));
    let s3 = enc_u64(
        if x.unique_ids {
            1
        } else {
            0
        },
    );
    let s4 = enc_u64(x.indexed as u64);
    let s5 = enc_u64(x.records.len() as u64);
    let s6 = enc_records(x.records, x.records.len() as int);
    let s7 = enc_u64(x.tags.len() as u64);
    let s8 = enc_strs(x.tags, x.tags.len() as int);
    assert(enc_collection(x) =~= s1 + (s2 + (s3 + (s4 + (s5 + (s6 + (s7 + s8)))))));
    lemma_prefix_concat(b, p0, s1, s2 + (s3 + (s4 + (s5 + (s6 + (s7 + s8))))));
    lemma_prefix_concat(b, p0 + 8, s2, s3 + (s4 + (s5 + (s6 + (s7 + s8)))));
    lemma_prefix_concat(b, p0 + 16, s3, s4 + (s5 + (s6 + (s7 + s8))));
    lemma_prefix_concat(b, p0 + 24, s4, s5 + (s6 + (s7 + s8)));
    lemma_prefix_concat(b, p0 + 32, s5, s6 + (s7 + s8));
    lemma_prefix_concat(b, p0 + 40, s6, s7 + s8);
    lemma_prefix_concat(b, p0 + 40 + s6.len(), s7, s8);
}

/// Assembles a parsed collection's eight fields into its encoding.
proof fn lemma_collection_compose(b: Seq<u8>, p0: int, c: CollectionModel, nrec: u64, ntag: u64)
    requires
        0 <= p0,
        c.records.len() as u64 == nrec,
        c.records.len() <= usize::MAX,
        c.tags.len() as u64 == ntag,
        c.tags.len() <= usize::MAX,
        prefix_at(b, p0, enc_u64(c.dimension as u64)),
        prefix_at(b, p0 + 8, enc_u64(metric_tag(c.distance))),
        prefix_at(
            b,
            p0 + 16,
            enc_u64(
                if c.unique_ids {
                    1
                } else {
                    0
                },
            ),
        ),
        prefix_at(b, p0 + 24, enc_u64(c.indexed as u64)),
        prefix_at(b, p0 + 32, enc_u64(nrec)),
        prefix_at(b, p0 + 40, enc_records(c.records, nrec as int)),
        prefix_at(
            b,
            p0 + 40 + enc_records(c.records, nrec as int).len(),
            enc_u64(ntag),
        ),
        prefix_at(
            b,
            p0 + 48 + enc_records(c.records, nrec as int).len(),
            enc_strs(c.tags, ntag as int),
        ),
    ensures
        prefix_at(b, p0, enc_collection(c)),
{
    lemma_auto_spec_u64_to_from_le_bytes();
    let s1 = enc_u64(c.dimension as u64);
    let s2 = enc_u64(metric_tag(c.distance));
    let s3 = enc_u64(
        if c.unique_ids {
            1
        } else {
            0
        },
    );
    let s4 = enc_u64(c.indexed as u64);
    let s5 = enc_u64(c.records.len() as u64);
    let s6 = enc_records(c.records, c.records.len() as int);
    let s7 = enc_u64(c.tags.len() as u64);
    let s8 = enc_strs(c.tags, c.tags.len() as int);
    lemma_prefix_concat(b, p0 + 40 + s6.len(), s7, s8);
    lemma_prefix_concat(b, p0 + 40, s6, s7 + s8);
    lemma_prefix_concat(b, p0 + 32, s5, s6 + (s7 + s8));
    lemma_prefix_concat(b, p0 + 24, s4, s5 + (s6 + (s7 + s8)));
    lemma_prefix_concat(b, p0 + 16, s3, s4 + (s5 + (s6 + (s7 + s8))));
    lemma_prefix_concat(b, p0 + 8, s2, s3 + (s4 + (s5 + (s6 + (s7 + s8)))));
    lemma_prefix_concat(b, p0, s1, s2 + (s3 + (s4 + (s5 + (s6 + (s7 + s8))))));
    assert(enc_collection(c) =~= s1 + (s2 + (s3 + (s4 + (s5 + (s6 + (s7 + s8)))))));
}

/// The abstract value of a named-collection list.
pub open spec fn nameds_view(v: Seq<(String, Collection)>) -> Seq<(Seq<char>, CollectionModel)> {
    v.map_values(|p: (String, Collection)| (p.0@, p.1@))
}

/// Encoded named-collection runs agree on every list that agrees pointwise.
proof fn lemma_enc_nameds_congr(
    a: Seq<(Seq<char>, CollectionModel)>,
    b: Seq<(Seq<char>, CollectionModel)>,
    n: int,
)
    requires
        forall|i: int| 0 <= i < n ==> a[i] == b[i],
    ensures
        enc_nameds(a, n) == enc_nameds(b, n),
    decreases n,
{
    if n > 0 {
        lemma_enc_nameds_congr(a, b, n - 1);
    }
}

/// Within an encoded named-collection run, entry `k` sits after the first
/// `k` encoded entries.
proof fn lemma_enc_nameds_split(
    b: Seq<u8>,
    start: int,
    x: Seq<(Seq<char>, CollectionModel)>,
    k: int,
    n: int,
)
    requires
        0 <= k < n,
        prefix_at(b, start, enc_nameds(x, n)),
    ensures
        prefix_at(b, start + enc_nameds(x, k).len(), enc_named(x[k])),
    decreases n,
{
    lemma_prefix_concat(b, start, enc_nameds(x, n - 1), enc_named(x[n - 1]));
    if k < n - 1 {
        lemma_enc_nameds_split(b, start, x, k, n - 1);
    }
}

/// Reads `count` named collections, one after the other.
#[verifier::loop_isolation(false)]
#[verifier::rlimit(100)]
fn dec_nameds(bytes: &Vec<u8>, pos: &mut usize, count: u64) -> (r: Option<Vec<(String, Collection)>>)
    requires
        *old(pos) <= bytes@.len(),
    ensures
        r matches Some(v) ==> ({
            let vm = nameds_view(v@);
            v@.len() == count && prefix_at(bytes@, *old(pos) as int, enc_nameds(vm, count as int))
                && *final(pos) == *old(pos) + enc_nameds(vm, count as int).len() && (forall|q: int|
                0 <= q < v@.len() ==> fits_str((#[trigger] v@[q]).0@) && fits_collection(
                    v@[q].1@,
                ))
        }),
        forall|x: Seq<(Seq<char>, CollectionModel)>|
            #![trigger enc_nameds(x, count as int)]
            x.len() == count && (forall|i: int|
                0 <= i < x.len() ==> fits_str((#[trigger] x[i]).0) && fits_collection(x[i].1))
                && prefix_at(bytes@, *old(pos) as int, enc_nameds(x, count as int)) ==> (r matches
                Some(v2) && nameds_view(v2@) =~= x),
{
    let ghost p0 = *pos as int;
    let mut out: Vec<(String, Collection)> = Vec::new();
    let mut got: u64 = 0;
    proof {
        assert(nameds_view(out@) =~= Seq::<(Seq<char>, CollectionModel)>::empty());
        assert(bytes@.subrange(p0, p0) =~= enc_nameds(nameds_view(out@), 0));
        assert(prefix_at(bytes@, p0, enc_nameds(nameds_view(out@), 0)));
    }
    while got < count
        invariant
            0 <= got <= count,
            out@.len() == got,
            p0 <= *pos as int <= bytes@.len(),
            *pos as int == p0 + enc_nameds(nameds_view(out@), got as int).len(),
            prefix_at(bytes@, p0, enc_nameds(nameds_view(out@), got as int)),
            forall|q: int|
                0 <= q < got ==> fits_str((#[trigger] out@[q]).0@) && fits_collection(out@[q].1@),
            forall|x: Seq<(Seq<char>, CollectionModel)>|
                #![trigger enc_nameds(x, count as int)]
                x.len() == count && (forall|i: int|
                    0 <= i < x.len() ==> fits_str((#[trigger] x[i]).0) && fits_collection(
                        x[i].1,
                    )) && prefix_at(bytes@, p0, enc_nameds(x, count as int)) ==> nameds_view(out@)
                    =~= x.take(got as int),
        decreases count - got,
    {
        let ghost prevm = nameds_view(out@);
        let ghost pp = *pos as int;
        let nm = match dec_str(bytes, pos) {
            Option::None => {
                proof {
                    assert forall|x: Seq<(Seq<char>, CollectionModel)>|
                        #![trigger enc_nameds(x, count as int)]
                        !(x.len() == count && (forall|i: int|
                            0 <= i < x.len() ==> fits_str((#[trigger] x[i]).0) && fits_collection(
                                x[i].1,
                            )) && prefix_at(bytes@, p0, enc_nameds(x, count as int))) by {
                        if x.len() == count && (forall|i: int|
                            0 <= i < x.len() ==> fits_str((#[trigger] x[i]).0) && fits_collection(
                                x[i].1,
                            )) && prefix_at(bytes@, p0, enc_nameds(x, count as int)) {
                            assert(prevm =~= x.take(got as int));
                            lemma_enc_nameds_split(bytes@, p0, x, got as int, count as int);
                            assert(enc_nameds(x, got as int) == enc_nameds(prevm, got as int)) by {
                                lemma_enc_nameds_congr(x, prevm, got as int);
                            }
                            assert(prefix_at(bytes@, pp, enc_named(x[got as int])));
                            lemma_prefix_concat(bytes@, pp, enc_str(x[got as int].0),
                            enc_collection(x[got as int].1));
                            assert(fits_str(x[got as int].0));
                            assert(prefix_at(bytes@, pp, enc_str(x[got as int].0)));
                            assert(false);
                        }
                    }
                }
                return None;
            },
            Option::Some(nm) => nm,
        };
        let ghost pmid = *pos as int;
        let c = match dec_collection(bytes, pos) {
            Option::None => {
                proof {
                    assert forall|x: Seq<(Seq<char>, CollectionModel)>|
                        #![trigger enc_nameds(x, count as int)]
                        !(x.len() == count && (forall|i: int|
                            0 <= i < x.len() ==> fits_str((#[trigger] x[i]).0) && fits_collection(
                                x[i].1,
                            )) && prefix_at(bytes@, p0, enc_nameds(x, count as int))) by {
                        if x.len() == count && (forall|i: int|
                            0 <= i < x.len() ==> fits_str((#[trigger] x[i]).0) && fits_collection(
                                x[i].1,
                            )) && prefix_at(bytes@, p0, enc_nameds(x, count as int)) {
                            assert(prevm =~= x.take(got as int));
                            lemma_enc_nameds_split(bytes@, p0, x, got as int, count as int);
                            assert(enc_nameds(x, got as int) == enc_nameds(prevm, got as int)) by {
                                lemma_enc_nameds_congr(x, prevm, got as int);
                            }
                            assert(prefix_at(bytes@, pp, enc_named(x[got as int])));
                            lemma_prefix_concat(bytes@, pp, enc_str(x[got as int].0),
                            enc_collection(x[got as int].1));
                            assert(fits_str(x[got as int].0));
                            assert(nm@ == x[got as int].0);
                            assert(pmid == pp + enc_str(x[got as int].0).len());
                            assert(fits_collection(x[got as int].1));
                            assert(prefix_at(bytes@, pmid, enc_collection(x[got as int].1)));
                            assert(false);
                        }
                    }
                }
                return None;
            },
            Option::Some(c) => c,
        };
        out.push((nm, c));
        got = got + 1;
        proof {
            let ghost sm = nameds_view(out@);
            let ghost last = (out@.last().0@, out@.last().1@);
            assert(sm =~= prevm.push(last));
            lemma_prefix_concat(bytes@, pp, enc_str(last.0), enc_collection(last.1));
            assert(prefix_at(bytes@, pp, enc_named(last)));
            lemma_prefix_concat(bytes@, p0, enc_nameds(prevm, got - 1), enc_named(last));
            assert(enc_nameds(sm, got as int) == enc_nameds(prevm, got as int - 1) + enc_named(
                last,
            )) by {
                lemma_enc_nameds_congr(sm, prevm, got as int - 1);
            }
            assert(prefix_at(bytes@, p0, enc_nameds(sm, got as int)));
            assert forall|x: Seq<(Seq<char>, CollectionModel)>|
                #![trigger enc_nameds(x, count as int)]
                x.len() == count && (forall|i: int|
                    0 <= i < x.len() ==> fits_str((#[trigger] x[i]).0) && fits_collection(
                        x[i].1,
                    )) && prefix_at(bytes@, p0, enc_nameds(x, count as int)) implies sm =~= x.take(
                got as int,
            ) by {
                assert(prevm =~= x.take(got as int - 1));
                lemma_enc_nameds_split(bytes@, p0, x, got as int - 1, count as int);
                assert(enc_nameds(x, got as int - 1) == enc_nameds(prevm, got as int - 1)) by {
                    lemma_enc_nameds_congr(x, prevm, got as int - 1);
                }
                assert(prefix_at(bytes@, pp, enc_named(x[got as int - 1])));
                lemma_prefix_concat(bytes@, pp, enc_str(x[got as int - 1].0), enc_collection(
                    x[got as int - 1].1,
                ));
                assert(fits_str(x[got as int - 1].0));
                assert(nm@ == x[got as int - 1].0);
                assert(fits_collection(x[got as int - 1].1));
                assert(c@ == x[got as int - 1].1);
                assert(last == x[got as int - 1]);
            }
        }
    }
    proof {
        assert forall|x: Seq<(Seq<char>, CollectionModel)>|
            #![trigger enc_nameds(x, count as int)]
            x.len() == count && (forall|i: int|
                0 <= i < x.len() ==> fits_str((#[trigger] x[i]).0) && fits_collection(x[i].1))
                && prefix_at(bytes@, p0, enc_nameds(x, count as int)) implies nameds_view(out@)
            =~= x by {
            assert(nameds_view(out@) =~= x.take(got as int));
            assert(x.take(x.len() as int) =~= x);
        }
    }
    Some(out)
}

/// Reads a whole registry.
#[verifier::rlimit(100)]
fn dec_db(bytes: &Vec<u8>, pos: &mut usize) -> (r: Option<Database>)
    requires
        *old(pos) <= bytes@.len(),
    ensures
        r matches Some(db) ==> prefix_at(bytes@, *old(pos) as int, enc_db(db@)) && *final(pos)
            == *old(pos) + enc_db(db@).len() && fits_db(db@),
        forall|m: DatabaseModel|
            #![trigger enc_db(m)]
            fits_db(m) && prefix_at(bytes@, *old(pos) as int, enc_db(m)) ==> (r matches Some(db2)
                && db2@ == m),
{
    let ghost p0 = *pos as int;
    proof {
        lemma_auto_spec_u64_to_from_le_bytes();
        assert forall|m: DatabaseModel|
            #![trigger enc_db(m)]
            fits_db(m) && prefix_at(bytes@, p0, enc_db(m)) implies ({
            let s1 = enc_u64(m.collections.len() as u64);
            let s2 = enc_nameds(m.collections, m.collections.len() as int);
            let s3 = enc_u64(m.content.len() as u64);
            let s4 = enc_pairs(m.content, m.content.len() as int);
            &&& prefix_at(bytes@, p0, s1)
            &&& prefix_at(bytes@, p0 + 8, s2)
            &&& prefix_at(bytes@, p0 + 8 + s2.len(), s3)
            &&& prefix_at(bytes@, p0 + 16 + s2.len(), s4)
        }) by {
            let s1 = enc_u64(m.collections.len() as u64);
            let s2 = enc_nameds(m.collections, m.collections.len() as int);
            let s3 = enc_u64(m.content.len() as u64);
            let s4 = enc_pairs(m.content, m.content.len() as int);
            assert(enc_db(m) =~= s1 + (s2 + (s3 + s4)));
            lemma_prefix_concat(bytes@, p0, s1, s2 + (s3 + s4));
            lemma_prefix_concat(bytes@, p0 + 8, s2, s3 + s4);
            lemma_prefix_concat(bytes@, p0 + 8 + s2.len(), s3, s4);
        }
    }
    let ncoll = match dec_u64(bytes, pos) {
        Option::None => {
            return None;
        },
        Option::Some(v) => v,
    };
    let ghost pcoll = *pos as int;
    let collections = match dec_nameds(bytes, pos, ncoll) {
        Option::None => {
            proof {
                assert forall|m: DatabaseModel|
                    #![trigger enc_db(m)]
                    !(fits_db(m) && prefix_at(bytes@, p0, enc_db(m))) by {
                    if fits_db(m) && prefix_at(bytes@, p0, enc_db(m)) {
                        assert(m.collections.len() as u64 == ncoll);
                        assert(prefix_at(bytes@, pcoll, enc_nameds(m.collections, ncoll as int)));
                        assert(false);
                    }
                }
            }
            return None;
        },
        Option::Some(v) => v,
    };
    let ncont = match dec_u64(bytes, pos) {
        Option::None => {
            proof {
                assert forall|m: DatabaseModel|
                    #![trigger enc_db(m)]
                    !(fits_db(m) && prefix_at(bytes@, p0, enc_db(m))) by {
                    if fits_db(m) && prefix_at(bytes@, p0, enc_db(m)) {
                        assert(m.collections.len() as u64 == ncoll);
                        assert(nameds_view(collections@) =~= m.collections);
                        assert(enc_nameds(nameds_view(collections@), ncoll as int) == enc_nameds(
                            m.collections,
                            ncoll as int,
                        )) by {
                            lemma_enc_nameds_congr(
                                nameds_view(collections@),
                                m.collections,
                                ncoll as int,
                            );
                        }
                        assert(false);
                    }
                }
            }
            return None;
        },
        Option::Some(v) => v,
    };
    let ghost pcont = *pos as int;
    let content = match dec_pairs(bytes, pos, ncont) {
        Option::None => {
            proof {
                assert forall|m: DatabaseModel|
                    #![trigger enc_db(m)]
                    !(fits_db(m) && prefix_at(bytes@, p0, enc_db(m))) by {
                    if fits_db(m) && prefix_at(bytes@, p0, enc_db(m)) {
                        assert(m.collections.len() as u64 == ncoll);
                        assert(nameds_view(collections@) =~= m.collections);
                        assert(enc_nameds(nameds_view(collections@), ncoll as int) == enc_nameds(
                            m.collections,
                            ncoll as int,
                        )) by {
                            lemma_enc_nameds_congr(
                                nameds_view(collections@),
                                m.collections,
                                ncoll as int,
                            );
                        }
                        assert(m.content.len() as u64 == ncont);
                        assert(prefix_at(bytes@, pcont, enc_pairs(m.content, ncont as int)));
                        assert(false);
                    }
                }
            }
            return None;
        },
        Option::Some(v) => v,
    };
    let n_coll: usize = collections.len();
    let n_cont: usize = content.len();
    let db = Database { collections, content };
    proof {
        assert(db@.collections =~= nameds_view(db.collections@));
        assert(db@.content =~= pairs_view(db.content@));
        assert(db@.collections.len() == n_coll);
        assert(db@.content.len() == n_cont);
        let s1 = enc_u64(ncoll);
        let s2 = enc_nameds(db@.collections, ncoll as int);
        let s3 = enc_u64(ncont);
        let s4 = enc_pairs(db@.content, ncont as int);
        lemma_prefix_concat(bytes@, p0 + 8 + s2.len(), s3, s4);
        lemma_prefix_concat(bytes@, p0 + 8, s2, s3 + s4);
        lemma_prefix_concat(bytes@, p0, s1, s2 + (s3 + s4));
        assert(enc_db(db@) =~= s1 + (s2 + (s3 + s4)));
        assert(prefix_at(bytes@, p0, enc_db(db@)));
        assert(fits_db(db@)) by {
            assert forall|q: int|
                0 <= q < db@.collections.len() implies fits_str(
                (#[trigger] db@.collections[q]).0,
            ) && fits_collection(db@.collections[q].1) by {
                assert(db@.collections[q] == (db.collections@[q].0@, db.collections@[q].1@));
            }
            assert forall|q: int|
                0 <= q < db@.content.len() implies fits_str((#[trigger] db@.content[q]).0)
                && fits_str(db@.content[q].1) by {
                assert(db@.content[q] == (db.content@[q].0@, db.content@[q].1@));
            }
        }
        assert forall|m: DatabaseModel|
            #![trigger enc_db(m)]
            fits_db(m) && prefix_at(bytes@, p0, enc_db(m)) implies db@ == m by {
            assert(m.collections.len() as u64 == ncoll);
            assert(nameds_view(db.collections@) =~= m.collections);
            assert(enc_nameds(nameds_view(db.collections@), ncoll as int) == enc_nameds(
                m.collections,
                ncoll as int,
            )) by {
                lemma_enc_nameds_congr(nameds_view(db.collections@), m.collections, ncoll as int);
            }
            assert(m.content.len() as u64 == ncont);
            assert(pairs_view(db.content@) =~= m.content);
            assert(db@.collections == m.collections);
            assert(db@.content == m.content);
        }
    }
    Some(db)
}

/// Checks the collection invariant on a parsed collection.
#[verifier::loop_isolation(false)]
fn check_collection_wf(c: &Collection) -> (r: bool)
    ensures
        r == c@.wf(),
{
    if c.dimension > crate::MAX_DIMENSION {
        return false;
    }
    if c.indexed > c.embeddings.len() {
        return false;
    }
    let n: usize = c.embeddings.len();
    let mut i: usize = 0;
    while i < n
        invariant
            n == c.embeddings@.len(),
            0 <= i <= n,
            forall|q: int|
                0 <= q < i ==> (#[trigger] c@.records[q]).vector.len() == c@.dimension,
        decreases n - i,
    {
        if c.embeddings[i].vector.len() != c.dimension {
            proof {
                assert(c@.records[i as int].vector.len() != c@.dimension);
            }
            return false;
        }
        proof {
            assert(c@.records[i as int] == c.embeddings@[i as int]@);
        }
        i = i + 1;
    }
    let m: usize = c.metadata.file_names.len();
    let mut a: usize = 0;
    while a < m
        invariant
            m == c.metadata.file_names@.len(),
            0 <= a <= m,
            forall|x: int, y: int| 0 <= x < y < m && x < a ==> c@.tags[x] != c@.tags[y],
        decreases m - a,
    {
        let mut b: usize = a + 1;
        while b < m
            invariant
                m == c.metadata.file_names@.len(),
                0 <= a < b <= m,
                forall|y: int| a < y < b ==> c@.tags[a as int] != c@.tags[y],
            decreases m - b,
        {
            if c.metadata.file_names[a].eq(&c.metadata.file_names[b]) {
                proof {
                    assert(c@.tags[a as int] == c@.tags[b as int]);
                }
                return false;
            }
            proof {
                assert(c@.tags[a as int] == c.metadata.file_names@[a as int]@);
                assert(c@.tags[b as int] == c.metadata.file_names@[b as int]@);
            }
            b = b + 1;
        }
        a = a + 1;
    }
    if c.unique_ids {
        let mut a2: usize = 0;
        while a2 < n
            invariant
                n == c.embeddings@.len(),
                0 <= a2 <= n,
                forall|x: int, y: int|
                    0 <= x < y < n && x < a2 ==> (#[trigger] c@.records[x]).id != (
                    #[trigger] c@.records[y]).id,
            decreases n - a2,
        {
            let mut b2: usize = a2 + 1;
            while b2 < n
                invariant
                    n == c.embeddings@.len(),
                    0 <= a2 < b2 <= n,
                    forall|y: int|
                        a2 < y < b2 ==> (#[trigger] c@.records[y]).id != c@.records[a2 as int].id,
                decreases n - b2,
            {
                proof {
                    assert(c@.records[a2 as int] == c.embeddings@[a2 as int]@);
                    assert(c@.records[b2 as int] == c.embeddings@[b2 as int]@);
                }
                if c.embeddings[a2].id.eq(&c.embeddings[b2].id) {
                    proof {
                        assert(c@.records[a2 as int].id == c@.records[b2 as int].id);
                        assert(c@.unique_ids);
                    }
                    return false;
                }
                b2 = b2 + 1;
            }
            a2 = a2 + 1;
        }
    }
    true
}

/// Checks the registry invariant on a parsed registry.
#[verifier::loop_isolation(false)]
fn check_db_wf(db: &Database) -> (r: bool)
    ensures
        r == db@.wf(),
{
    let n: usize = db.collections.len();
    let mut a: usize = 0;
    while a < n
        invariant
            n == db.collections@.len(),
            0 <= a <= n,
            forall|x: int, y: int|
                0 <= x < y < n && x < a ==> (#[trigger] db@.collections[x]).0 != (
                #[trigger] db@.collections[y]).0,
        decreases n - a,
    {
        let mut b: usize = a + 1;
        while b < n
            invariant
                n == db.collections@.len(),
                0 <= a < b <= n,
                forall|y: int|
                    a < y < b ==> (#[trigger] db@.collections[y]).0 != db@.collections[
                        a as int].0,
            decreases n - b,
        {
            if db.collections[a].0.eq(&db.collections[b].0) {
                proof {
                    assert(db@.collections[a as int].0 == db@.collections[b as int].0);
                }
                return false;
            }
            proof {
                assert(db@.collections[a as int].0 == db.collections@[a as int].0@);
                assert(db@.collections[b as int].0 == db.collections@[b as int].0@);
            }
            b = b + 1;
        }
        a = a + 1;
    }
    let mut i: usize = 0;
    while i < n
        invariant
            n == db.collections@.len(),
            0 <= i <= n,
            forall|q: int| 0 <= q < i ==> (#[trigger] db@.collections[q]).1.wf(),
        decreases n - i,
    {
        if !check_collection_wf(&db.collections[i].1) {
            proof {
                assert(!db@.collections[i as int].1.wf());
            }
            return false;
        }
        proof {
            assert(db@.collections[i as int].1 == db.collections@[i as int].1@);
        }
        i = i + 1;
    }
    let m: usize = db.content.len();
    let mut a3: usize = 0;
    while a3 < m
        invariant
            m == db.content@.len(),
            0 <= a3 <= m,
            forall|x: int, y: int|
                0 <= x < y < m && x < a3 ==> (#[trigger] db@.content[x]).0 != (
                #[trigger] db@.content[y]).0,
        decreases m - a3,
    {
        let mut b3: usize = a3 + 1;
        while b3 < m
            invariant
                m == db.content@.len(),
                0 <= a3 < b3 <= m,
                forall|y: int|
                    a3 < y < b3 ==> (#[trigger] db@.content[y]).0 != db@.content[a3 as int].0,
            decreases m - b3,
        {
            if db.content[a3].0.eq(&db.content[b3].0) {
                proof {
                    assert(db@.content[a3 as int].0 == db@.content[b3 as int].0);
                }
                return false;
            }
            proof {
                assert(db@.content[a3 as int].0 == db.content@[a3 as int].0@);
                assert(db@.content[b3 as int].0 == db.content@[b3 as int].0@);
            }
            b3 = b3 + 1;
        }
        a3 = a3 + 1;
    }
    true
}

/// Restores a registry from a byte buffer.
///
/// Exactly the buffers that [`serialize`] produces from a well-formed
/// registry are accepted, and they decode to an equal registry — the
/// lossless round trip.  Anything else is rejected.
pub fn deserialize(bytes: &Vec<u8>) -> (r: Option<Database>)
    ensures
        r matches Some(db) ==> db@.wf() && fits_db(db@) && enc_db(db@) == bytes@,
        forall|m: DatabaseModel|
            #![trigger enc_db(m)]
            m.wf() && fits_db(m) && enc_db(m) == bytes@ ==> (r matches Some(db2) && db2@ == m),
{
    let mut pos: usize = 0;
    proof {
        assert forall|m: DatabaseModel|
            #![trigger enc_db(m)]
            m.wf() && fits_db(m) && enc_db(m) == bytes@ implies prefix_at(bytes@, 0, enc_db(m))
            by {
            assert(bytes@.subrange(0, enc_db(m).len() as int) =~= enc_db(m));
        }
    }
    let db = match dec_db(bytes, &mut pos) {
        Option::None => {
            return None;
        },
        Option::Some(db) => db,
    };
    if pos != bytes.len() {
        proof {
            assert forall|m: DatabaseModel|
                #![trigger enc_db(m)]
                !(m.wf() && fits_db(m) && enc_db(m) == bytes@) by {
                if m.wf() && fits_db(m) && enc_db(m) == bytes@ {
                    assert(db@ == m);
                    assert(pos as int == enc_db(db@).len());
                    assert(false);
                }
            }
        }
        return None;
    }
    if !check_db_wf(&db) {
        proof {
            assert forall|m: DatabaseModel|
                #![trigger enc_db(m)]
                !(m.wf() && fits_db(m) && enc_db(m) == bytes@) by {
                if m.wf() && fits_db(m) && enc_db(m) == bytes@ {
                    assert(db@ == m);
                    assert(false);
                }
            }
        }
        return None;
    }
    proof {
        assert(bytes@.subrange(0, pos as int) =~= bytes@);
        assert(enc_db(db@) == bytes@);
    }
    Some(db)
}

/// Wraps a serialized registry for the persistence host's durable buffer:
/// a four-byte little-endian length, then the blob.
pub fn frame_state(blob: Vec<u8>) -> (r: Vec<u8>)
    requires
        blob@.len() < 0x1_0000_0000,
    ensures
        r@ == spec_u32_to_le_bytes(blob@.len() as u32) + blob@,
{
    let len: usize = blob.len();
    let mut out = u32_to_le_bytes(len as u32);
    let mut b = blob;
    let ghost hdr = out@;
    let ghost bv = b@;
    out.append(&mut b);
    proof {
        assert(out@ =~= hdr + bv);
    }
    out
}

/// Reads a length-prefixed blob back out of the durable buffer, ignoring
/// whatever trails it.
pub fn unframe_state(buf: &Vec<u8>) -> (r: Option<Vec<u8>>)
    ensures
        r matches Some(b) ==> buf@.len() >= 4 && b@.len() == spec_u32_from_le_bytes(
            buf@.subrange(0, 4),
        ) && b@ == buf@.subrange(4, 4 + b@.len() as int),
        r is Some <==> (buf@.len() >= 4 && 4 + spec_u32_from_le_bytes(buf@.subrange(0, 4))
            <= buf@.len()),
{
    if buf.len() < 4 {
        return None;
    }
    let hdr: &[u8] = slice_subrange(buf.as_slice(), 0, 4);
    let len32: u32 = u32_from_le_bytes(hdr);
    let len: usize = len32 as usize;
    if buf.len() - 4 < len {
        return None;
    }
    let sl: &[u8] = slice_subrange(buf.as_slice(), 4, 4 + len);
    let b = slice_to_vec(sl);
    proof {
        assert(hdr@ == buf@.subrange(0, 4));
        assert(b@ == buf@.subrange(4, 4 + len as int));
    }
    Some(b)
}

} // verus!
