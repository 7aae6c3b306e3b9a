//! The typed metainfo record extracted from a decoded torrent file.
//!
//! This is a pure projection over a decoded value tree: the root must be a
//! dictionary carrying a text `announce` URL and a nested `info` dictionary
//! with a text name, a 32-bit piece length and a piece-hash string whose
//! length is a multiple of twenty. Every failure names the offending field.

use vstd::prelude::*;
use crate::bencode::{self, Bencode, DecodeError, value_view, pairs_view, MAX_NESTING_DEPTH};
use crate::model::{BValue, canonical, depth, encoded};
use vstd::utf8::{valid_utf8, decode_utf8};

verus! {

#[derive(Debug, PartialEq, Eq, Clone)]
pub struct MetaInfo {
    pub announce: String,
    pub info: Info,
}

#[derive(Debug, PartialEq, Eq, Clone)]
pub struct Info {
    pub name: String,
    pub piece_length: u32,
    pub pieces: Vec<Vec<u8>>,
}

#[derive(Debug, PartialEq, Eq, Clone)]
pub enum FileInfo {
    SingleFile { length: i64 },
    MultiFile { files: Vec<FileEntry> },
}

#[derive(Debug, PartialEq, Eq, Clone)]
pub struct FileEntry {
    length: i64,
    path: Vec<String>,
}

/// The field whose absence or shape made a projection fail.
#[derive(Debug, Clone, Copy, PartialEq, Eq, Structural)]
pub enum FieldName {
    Announce,
    Info,
    Name,
    PieceLength,
    Pieces,
}

/// Why a decoded value tree is not a well-formed metainfo record.
#[derive(Debug, Clone, Copy, PartialEq, Eq, Structural)]
pub enum MetaInfoError {
    Bencode(DecodeError),
    InvalidMetaInfoFormat,
    MissingOrInvalidField(FieldName),
    TextValidationFailed(FieldName),
    IntegerRangeError,
    PiecesLengthNotMultipleOf20,
}

/// First value stored under `key`, searching pairs in order.
pub open spec fn dict_get(qs: Seq<(Seq<u8>, BValue)>, key: Seq<u8>) -> Option<BValue>
    decreases qs.len(),
{
    if qs.len() == 0 {
        Option::None
    } else if qs[0].0 == key {
        Option::Some(qs[0].1)
    } else {
        dict_get(qs.drop_first(), key)
    }
}

pub open spec fn key_announce() -> Seq<u8> {
    seq![97u8, 110u8, 110u8, 111u8, 117u8, 110u8, 99u8, 101u8]
}

pub open spec fn key_info() -> Seq<u8> {
    seq![105u8, 110u8, 102u8, 111u8]
}

pub open spec fn key_name() -> Seq<u8> {
    seq![110u8, 97u8, 109u8, 101u8]
}

pub open spec fn key_piece_length() -> Seq<u8> {
    seq![112u8, 105u8, 101u8, 99u8, 101u8, 32u8, 108u8, 101u8, 110u8, 103u8, 116u8, 104u8]
}

pub open spec fn key_pieces() -> Seq<u8> {
    seq![112u8, 105u8, 101u8, 99u8, 101u8, 115u8]
}

/// The `info` record a value tree denotes: name characters, piece length
/// and the raw, still unsplit piece-hash bytes; or the error naming what
/// is wrong, checked in the order name, piece length, pieces.
pub open spec fn info_spec(u: BValue) -> Result<(Seq<char>, int, Seq<u8>), MetaInfoError> {
    match u {
        BValue::Dict(qs) => match dict_get(qs, key_name()) {
            Option::Some(BValue::Bytes(nb)) => if !valid_utf8(nb) {
                Result::Err(MetaInfoError::TextValidationFailed(FieldName::Name))
            } else {
                match dict_get(qs, key_piece_length()) {
                    Option::Some(BValue::Int(pl)) => if pl < 0 || pl > 0xFFFF_FFFF {
                        Result::Err(MetaInfoError::IntegerRangeError)
                    } else {
                        match dict_get(qs, key_pieces()) {
                            Option::Some(BValue::Bytes(pb)) => if pb.len() % 20 != 0 {
                                Result::Err(MetaInfoError::PiecesLengthNotMultipleOf20)
                            } else {
                                Result::Ok((decode_utf8(nb), pl, pb))
                            },
                            _ => Result::Err(
                                MetaInfoError::MissingOrInvalidField(FieldName::Pieces),
                            ),
                        }
                    },
                    _ => Result::Err(MetaInfoError::MissingOrInvalidField(FieldName::PieceLength)),
                }
            },
            _ => Result::Err(MetaInfoError::MissingOrInvalidField(FieldName::Name)),
        },
        _ => Result::Err(MetaInfoError::MissingOrInvalidField(FieldName::Info)),
    }
}

/// An `Info` value carries exactly what `info_spec` denotes: the decoded
/// name, the piece length, and the hash bytes split into 20-byte entries
/// in order.
pub open spec fn info_matches(u: BValue, r: Result<Info, MetaInfoError>) -> bool {
    match (r, info_spec(u)) {
        (Result::Ok(i), Result::Ok((name, pl, pb))) => {
            &&& i.name@ == name
            &&& i.piece_length as int == pl
            &&& i.pieces@.len() * 20 == pb.len()
            &&& forall|t: int|
                0 <= t < i.pieces@.len() ==> (#[trigger] i.pieces@[t])@ == pb.subrange(
                    20 * t,
                    20 * t + 20,
                )
        },
        (Result::Err(e1), Result::Err(e2)) => e1 == e2,
        _ => false,
    }
}

/// The full metainfo record a value tree denotes, checked in the order
/// root shape, announce, info.
pub open spec fn meta_spec(u: BValue) -> Result<
    (Seq<char>, (Seq<char>, int, Seq<u8>)),
    MetaInfoError,
> {
    match u {
        BValue::Dict(qs) => match dict_get(qs, key_announce()) {
            Option::Some(BValue::Bytes(ab)) => if !valid_utf8(ab) {
                Result::Err(MetaInfoError::TextValidationFailed(FieldName::Announce))
            } else {
                match dict_get(qs, key_info()) {
                    Option::Some(iv) => match info_spec(iv) {
                        Result::Ok(m) => Result::Ok((decode_utf8(ab), m)),
                        Result::Err(e) => Result::Err(e),
                    },
                    Option::None => Result::Err(
                        MetaInfoError::MissingOrInvalidField(FieldName::Info),
                    ),
                }
            },
            _ => Result::Err(MetaInfoError::MissingOrInvalidField(FieldName::Announce)),
        },
        _ => Result::Err(MetaInfoError::InvalidMetaInfoFormat),
    }
}

pub open spec fn meta_matches(u: BValue, r: Result<MetaInfo, MetaInfoError>) -> bool {
    match (r, meta_spec(u)) {
        (Result::Ok(m), Result::Ok((announce, (name, pl, pb)))) => {
            &&& m.announce@ == announce
            &&& m.info.name@ == name
            &&& m.info.piece_length as int == pl
            &&& m.info.pieces@.len() * 20 == pb.len()
            &&& forall|t: int|
                0 <= t < m.info.pieces@.len() ==> (#[trigger] m.info.pieces@[t])@ == pb.subrange(
                    20 * t,
                    20 * t + 20,
                )
        },
        (Result::Err(e1), Result::Err(e2)) => e1 == e2,
        _ => false,
    }
}

/// The buffer is the canonical encoding of the value `u`, within the
/// decoder's nesting bound.
pub open spec fn full_parse(data: Seq<u8>, u: BValue) -> bool {
    &&& canonical(u)
    &&& depth(u) <= MAX_NESTING_DEPTH
    &&& encoded(u) == data
}

/// Byte-wise equality of two buffers.
fn bytes_eq(a: &Vec<u8>, b: &Vec<u8>) -> (r: bool)
    ensures
        r == (a@ == b@),
{
    if a.len() != b.len() {
        return false;
    }
    let mut i: usize = 0;
    while i < a.len()
        invariant
            i <= a.len(),
            a@.len() == b@.len(),
            forall|t: int| 0 <= t < i ==> a@[t] == b@[t],
        decreases a.len() - i,
    {
        if a[i] != b[i] {
            return false;
        }
        i = i + 1;
    }
    proof {
        assert(a@ =~= b@);
    }
    true
}

/// First value stored under `key`, deciding [`dict_get`].
#[verifier::loop_isolation(false)]
fn lookup<'a>(ps: &'a Vec<(Vec<u8>, Bencode)>, key: &Vec<u8>) -> (r: Option<&'a Bencode>)
    ensures
        match r {
            Option::Some(b) => dict_get(pairs_view(ps@), key@) == Option::Some(value_view(*b)),
            Option::None => dict_get(pairs_view(ps@), key@) is None,
        },
{
    let ghost pv = pairs_view(ps@);
    proof {
        bencode::lemma_pairs_view_index(ps@);
        assert(pv.skip(0) =~= pv);
    }
    let mut i: usize = 0;
    while i < ps.len()
        invariant
            i <= ps.len(),
            dict_get(pv, key@) == dict_get(pv.skip(i as int), key@),
        decreases ps.len() - i,
    {
        proof {
            assert(pv.skip(i as int)[0] == pv[i as int]);
            assert(pv.skip(i as int).drop_first() =~= pv.skip(i + 1));
        }
        if bytes_eq(&ps[i].0, key) {
            return Some(&ps[i].1);
        }
        i = i + 1;
    }
    proof {
        assert(pv.skip(ps@.len() as int).len() == 0);
    }
    None
}

/// Copies a byte buffer.
fn copy_bytes(src: &Vec<u8>) -> (r: Vec<u8>)
    ensures
        r@ == src@,
{
    let mut out: Vec<u8> = Vec::new();
    let mut i: usize = 0;
    while i < src.len()
        invariant
            i <= src.len(),
            out@ =~= src@.take(i as int),
        decreases src.len() - i,
    {
        out.push(src[i]);
        proof {
            assert(out@ =~= src@.take(i + 1));
        }
        i = i + 1;
    }
    proof {
        assert(src@.take(src@.len() as int) =~= src@);
    }
    out
}

/// Relies on `String::from_utf8`: it succeeds exactly on valid UTF-8 input,
/// and the characters are the decoding of the bytes it was given.
#[verifier::external_body]
fn utf8_string(v: Vec<u8>) -> (r: Option<String>)
    ensures
        match r {
            Option::Some(s) => valid_utf8(v@) && s@ == decode_utf8(v@),
            Option::None => !valid_utf8(v@),
        },
{
    match std::string::String::from_utf8(v) {
        Ok(s) => Some(s),
        Err(_) => None,
    }
}

fn make_key(bytes: &Vec<u8>) -> (r: Vec<u8>)
    ensures
        r@ == bytes@,
{
    copy_bytes(bytes)
}

/// Projects a decoded value into the typed `info` record: a text name, a
/// piece length within 32 bits, and the piece hashes split into 20-byte
/// entries in order. The result matches [`info_spec`] exactly, error for
/// error.
#[verifier::loop_isolation(false)]
pub fn decode_info(info: &Bencode) -> (r: Result<Info, MetaInfoError>)
    ensures
        info_matches(value_view(*info), r),
{
    let ps = match info {
        Bencode::Dictionary(ps) => ps,
        _ => {
            return Err(MetaInfoError::MissingOrInvalidField(FieldName::Info));
        },
    };
    let ghost qs = pairs_view(ps@);
    let mut name_key: Vec<u8> = Vec::new();
    name_key.push(110);
    name_key.push(97);
    name_key.push(109);
    name_key.push(101);
    proof {
        assert(name_key@ =~= key_name());
    }
    let name_bytes = match lookup(ps, &name_key) {
        Some(b) => match b {
            Bencode::String(s) => s,
            _ => {
                return Err(MetaInfoError::MissingOrInvalidField(FieldName::Name));
            },
        },
        None => {
            return Err(MetaInfoError::MissingOrInvalidField(FieldName::Name));
        },
    };
    let name = match utf8_string(copy_bytes(name_bytes)) {
        Some(s) => s,
        None => {
            return Err(MetaInfoError::TextValidationFailed(FieldName::Name));
        },
    };
    let mut pl_key: Vec<u8> = Vec::new();
    pl_key.push(112);
    pl_key.push(105);
    pl_key.push(101);
    pl_key.push(99);
    pl_key.push(101);
    pl_key.push(32);
    pl_key.push(108);
    pl_key.push(101);
    pl_key.push(110);
    pl_key.push(103);
    pl_key.push(116);
    pl_key.push(104);
    proof {
        assert(pl_key@ =~= key_piece_length());
    }
    let piece_length = match lookup(ps, &pl_key) {
        Some(b) => match b {
            Bencode::Integer(n) => {
                if *n < 0 || *n > 0xFFFF_FFFFi64 {
                    return Err(MetaInfoError::IntegerRangeError);
                }
                *n as u32
            },
            _ => {
                return Err(MetaInfoError::MissingOrInvalidField(FieldName::PieceLength));
            },
        },
        None => {
            return Err(MetaInfoError::MissingOrInvalidField(FieldName::PieceLength));
        },
    };
    let mut pieces_key: Vec<u8> = Vec::new();
    pieces_key.push(112);
    pieces_key.push(105);
    pieces_key.push(101);
    pieces_key.push(99);
    pieces_key.push(101);
    pieces_key.push(115);
    proof {
        assert(pieces_key@ =~= key_pieces());
    }
    let pieces_bytes = match lookup(ps, &pieces_key) {
        Some(b) => match b {
            Bencode::String(s) => s,
            _ => {
                return Err(MetaInfoError::MissingOrInvalidField(FieldName::Pieces));
            },
        },
        None => {
            return Err(MetaInfoError::MissingOrInvalidField(FieldName::Pieces));
        },
    };
    if pieces_bytes.len() % 20 != 0 {
        return Err(MetaInfoError::PiecesLengthNotMultipleOf20);
    }
    let total = pieces_bytes.len() / 20;
    let mut chunks: Vec<Vec<u8>> = Vec::new();
    let mut t: usize = 0;
    proof {
        assert(20 * total == pieces_bytes@.len());
    }
    while t < total
        invariant
            t <= total,
            chunks@.len() == t,
            forall|q: int|
                0 <= q < t ==> (#[trigger] chunks@[q])@ == pieces_bytes@.subrange(
                    20 * q,
                    20 * q + 20,
                ),
        decreases total - t,
    {
        let start = t * 20;
        let mut c: Vec<u8> = Vec::new();
        let mut m: usize = 0;
        while m < 20
            invariant
                m <= 20,
                start == t * 20,
                t < total,
                20 * total == pieces_bytes@.len(),
                c@ =~= pieces_bytes@.subrange(start as int, start as int + m as int),
            decreases 20 - m,
        {
            c.push(pieces_bytes[start + m]);
            proof {
                assert(c@ =~= pieces_bytes@.subrange(start as int, start as int + m + 1));
            }
            m = m + 1;
        }
        chunks.push(c);
        t = t + 1;
    }
    Ok(Info { name, piece_length, pieces: chunks })
}

/// Decodes a byte buffer and projects it into a [`MetaInfo`] record. When
/// the buffer is the canonical encoding of a value `u`, the result matches
/// [`meta_spec`] on `u` exactly, error for error; when it is not bencoded
/// at all, the decoder's typed error comes back.
pub fn decode_metainfo(metainfo: &[u8]) -> (r: Result<MetaInfo, MetaInfoError>)
    ensures
        forall|u: BValue| #[trigger] full_parse(metainfo@, u) ==> meta_matches(u, r),
        (forall|u: BValue| !#[trigger] full_parse(metainfo@, u)) ==> r matches Err(
            MetaInfoError::Bencode(_),
        ),
{
    let data = vstd::slice::slice_to_vec(metainfo);
    let b = match bencode::decode(data) {
        Ok(b) => b,
        Err(e) => {
            proof {
                assert forall|u: BValue| !#[trigger] full_parse(metainfo@, u) by {}
            }
            return Err(MetaInfoError::Bencode(e));
        },
    };
    proof {
        assert(full_parse(metainfo@, value_view(b)));
        assert forall|u: BValue| #[trigger] full_parse(metainfo@, u) implies u == value_view(b) by {
            crate::model::lemma_encoded_injective(u, value_view(b));
        }
    }
    let ps = match &b {
        Bencode::Dictionary(ps) => ps,
        _ => {
            return Err(MetaInfoError::InvalidMetaInfoFormat);
        },
    };
    let mut ann_key: Vec<u8> = Vec::new();
    ann_key.push(97);
    ann_key.push(110);
    ann_key.push(110);
    ann_key.push(111);
    ann_key.push(117);
    ann_key.push(110);
    ann_key.push(99);
    ann_key.push(101);
    proof {
        assert(ann_key@ =~= key_announce());
    }
    let ann_bytes = match lookup(ps, &ann_key) {
        Some(bb) => match bb {
            Bencode::String(s) => s,
            _ => {
                return Err(MetaInfoError::MissingOrInvalidField(FieldName::Announce));
            },
        },
        None => {
            return Err(MetaInfoError::MissingOrInvalidField(FieldName::Announce));
        },
    };
    let announce = match utf8_string(copy_bytes(ann_bytes)) {
        Some(s) => s,
        None => {
            return Err(MetaInfoError::TextValidationFailed(FieldName::Announce));
        },
    };
    let mut info_key: Vec<u8> = Vec::new();
    info_key.push(105);
    info_key.push(110);
    info_key.push(102);
    info_key.push(111);
    proof {
        assert(info_key@ =~= key_info());
    }
    let info_b = match lookup(ps, &info_key) {
        Some(bb) => bb,
        None => {
            return Err(MetaInfoError::MissingOrInvalidField(FieldName::Info));
        },
    };
    let info = match decode_info(info_b) {
        Ok(i) => i,
        Err(e) => {
            return Err(e);
        },
    };
    Ok(MetaInfo { announce, info })
}

} // verus!
