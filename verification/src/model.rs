//! The mathematical model of a bencode value tree.
//!
//! [`BValue`] mirrors the executable value type over `Seq`, so that proof
//! code can build and take apart values freely. The canonical wire form is
//! defined here as the spec function [`encoded`]; [`canonical`] says which
//! values are their own canonical form (integers in 64-bit range, dictionary
//! keys strictly increasing); [`norm`] sorts every dictionary, mapping any
//! value to the one whose encoding the encoder emits.

use vstd::prelude::*;
use crate::decimal::{nat_repr, int_repr};

verus! {

/// A bencode value at the specification level: integers are unbounded,
/// byte strings and containers are sequences.
pub enum BValue {
    Int(int),
    Bytes(Seq<u8>),
    List(Seq<BValue>),
    Dict(Seq<(Seq<u8>, BValue)>),
}

/// Tag bytes of the wire format: `i`, `l`, `d`, `e`, `:`.
pub const TAG_INT: u8 = 105;

pub const TAG_LIST: u8 = 108;

pub const TAG_DICT: u8 = 100;

pub const TAG_END: u8 = 101;

pub const COLON: u8 = 58;

/// Strict byte-wise lexicographic order, the order BEP-3 demands of
/// dictionary keys.
pub open spec fn lex_lt(a: Seq<u8>, b: Seq<u8>) -> bool
    decreases a.len(),
{
    if b.len() == 0 {
        false
    } else if a.len() == 0 {
        true
    } else if a[0] < b[0] {
        true
    } else if a[0] > b[0] {
        false
    } else {
        lex_lt(a.drop_first(), b.drop_first())
    }
}

/// The wire form of a byte string: decimal length, a colon, the raw bytes.
pub open spec fn bytes_encoded(s: Seq<u8>) -> Seq<u8> {
    nat_repr(s.len() as int) + seq![COLON] + s
}

/// The wire form of a value. Dictionary pairs are emitted in storage order;
/// only for [`canonical`] values is this the canonical wire form.
pub open spec fn encoded(v: BValue) -> Seq<u8>
    decreases v,
{
    match v {
        BValue::Int(n) => seq![TAG_INT] + int_repr(n) + seq![TAG_END],
        BValue::Bytes(s) => bytes_encoded(s),
        BValue::List(items) => seq![TAG_LIST] + encoded_list(items) + seq![TAG_END],
        BValue::Dict(ps) => seq![TAG_DICT] + encoded_pairs(ps) + seq![TAG_END],
    }
}

pub open spec fn encoded_list(items: Seq<BValue>) -> Seq<u8>
    decreases items,
{
    if items.len() == 0 {
        Seq::empty()
    } else {
        encoded(items[0]) + encoded_list(items.drop_first())
    }
}

pub open spec fn encoded_pairs(ps: Seq<(Seq<u8>, BValue)>) -> Seq<u8>
    decreases ps,
{
    if ps.len() == 0 {
        Seq::empty()
    } else {
        bytes_encoded(ps[0].0) + encoded(ps[0].1) + encoded_pairs(ps.drop_first())
    }
}

/// Successive keys strictly increase byte-wise; with [`lex_lt`]'s
/// transitivity this forbids duplicates as well.
pub open spec fn keys_sorted(ps: Seq<(Seq<u8>, BValue)>) -> bool {
    forall|i: int| 0 <= i && i + 1 < ps.len() ==> lex_lt(#[trigger] ps[i].0, ps[i + 1].0)
}

/// The values whose stored form is already the canonical wire form:
/// integers fit in a signed 64-bit word, and every dictionary's keys are
/// strictly sorted.
pub open spec fn canonical(v: BValue) -> bool
    decreases v,
{
    match v {
        BValue::Int(n) => -0x8000_0000_0000_0000 <= n < 0x8000_0000_0000_0000,
        BValue::Bytes(_) => true,
        BValue::List(items) => canonical_list(items),
        BValue::Dict(ps) => keys_sorted(ps) && canonical_pairs(ps),
    }
}

pub open spec fn canonical_list(items: Seq<BValue>) -> bool
    decreases items,
{
    items.len() == 0 || (canonical(items[0]) && canonical_list(items.drop_first()))
}

pub open spec fn canonical_pairs(ps: Seq<(Seq<u8>, BValue)>) -> bool
    decreases ps,
{
    ps.len() == 0 || (canonical(ps[0].1) && canonical_pairs(ps.drop_first()))
}

/// Nesting depth of a value; a leaf has depth 1, a container one more than
/// its deepest child. Dictionary keys are not children.
pub open spec fn depth(v: BValue) -> nat
    decreases v,
{
    match v {
        BValue::Int(_) => 1,
        BValue::Bytes(_) => 1,
        BValue::List(items) => 1 + depth_list(items),
        BValue::Dict(ps) => 1 + depth_pairs(ps),
    }
}

pub open spec fn depth_list(items: Seq<BValue>) -> nat
    decreases items,
{
    if items.len() == 0 {
        0
    } else if depth(items[0]) >= depth_list(items.drop_first()) {
        depth(items[0])
    } else {
        depth_list(items.drop_first())
    }
}

pub open spec fn depth_pairs(ps: Seq<(Seq<u8>, BValue)>) -> nat
    decreases ps,
{
    if ps.len() == 0 {
        0
    } else if depth(ps[0].1) >= depth_pairs(ps.drop_first()) {
        depth(ps[0].1)
    } else {
        depth_pairs(ps.drop_first())
    }
}

/// Insert a pair in front of the first strictly greater key.
pub open spec fn insert_pair(p: (Seq<u8>, BValue), ps: Seq<(Seq<u8>, BValue)>) -> Seq<
    (Seq<u8>, BValue),
>
    decreases ps.len(),
{
    if ps.len() == 0 {
        seq![p]
    } else if lex_lt(p.0, ps[0].0) {
        seq![p] + ps
    } else {
        seq![ps[0]] + insert_pair(p, ps.drop_first())
    }
}

/// Insertion sort of dictionary pairs by byte-wise key order.
pub open spec fn sort_pairs(ps: Seq<(Seq<u8>, BValue)>) -> Seq<(Seq<u8>, BValue)>
    decreases ps.len(),
{
    if ps.len() == 0 {
        Seq::empty()
    } else {
        insert_pair(ps.last(), sort_pairs(ps.drop_last()))
    }
}

/// The canonical representative of a value: every dictionary sorted by key,
/// recursively.
pub open spec fn norm(v: BValue) -> BValue
    decreases v,
{
    match v {
        BValue::Int(n) => BValue::Int(n),
        BValue::Bytes(s) => BValue::Bytes(s),
        BValue::List(items) => BValue::List(norm_list(items)),
        BValue::Dict(ps) => BValue::Dict(sort_pairs(norm_pairs(ps))),
    }
}

pub open spec fn norm_list(items: Seq<BValue>) -> Seq<BValue>
    decreases items,
{
    if items.len() == 0 {
        Seq::empty()
    } else {
        seq![norm(items[0])] + norm_list(items.drop_first())
    }
}

pub open spec fn norm_pairs(ps: Seq<(Seq<u8>, BValue)>) -> Seq<(Seq<u8>, BValue)>
    decreases ps,
{
    if ps.len() == 0 {
        Seq::empty()
    } else {
        seq![(ps[0].0, norm(ps[0].1))] + norm_pairs(ps.drop_first())
    }
}

/// A canonical value of bounded depth occupies `data[i..j]`.
pub open spec fn parse_with(data: Seq<u8>, i: int, u: BValue, j: int, d: nat) -> bool {
    &&& 0 <= i <= j <= data.len()
    &&& canonical(u)
    &&& depth(u) <= d
    &&& data.subrange(i, j) == encoded(u)
}

/// The items of a list, each canonical and of depth at most `d`, followed
/// by the terminator byte, occupy `data[i..j]`.
pub open spec fn list_parse(data: Seq<u8>, i: int, ws: Seq<BValue>, j: int, d: nat) -> bool {
    &&& 0 <= i <= j <= data.len()
    &&& data.subrange(i, j) == encoded_list(ws) + seq![TAG_END]
    &&& forall|k: int| 0 <= k < ws.len() ==> canonical(#[trigger] ws[k])
    &&& forall|k: int| 0 <= k < ws.len() ==> depth(#[trigger] ws[k]) <= d
}

/// The pairs of a dictionary, keys strictly sorted, each value canonical
/// and of depth at most `d`, followed by the terminator byte, occupy
/// `data[i..j]`.
pub open spec fn pairs_parse(data: Seq<u8>, i: int, qs: Seq<(Seq<u8>, BValue)>, j: int, d: nat) -> bool {
    &&& 0 <= i <= j <= data.len()
    &&& data.subrange(i, j) == encoded_pairs(qs) + seq![TAG_END]
    &&& keys_sorted(qs)
    &&& forall|k: int| 0 <= k < qs.len() ==> canonical((#[trigger] qs[k]).1)
    &&& forall|k: int| 0 <= k < qs.len() ==> depth((#[trigger] qs[k]).1) <= d
}

/// A span is the concatenation of its two halves.
pub proof fn lemma_subrange_concat(data: Seq<u8>, i: int, m: int, j: int)
    requires
        0 <= i <= m <= j <= data.len(),
    ensures
        data.subrange(i, j) == data.subrange(i, m) + data.subrange(m, j),
{
    assert(data.subrange(i, j) =~= data.subrange(i, m) + data.subrange(m, j));
}

/// A span equal to a concatenation splits at the boundary of the parts.
pub proof fn lemma_subrange_split(data: Seq<u8>, i: int, j: int, a: Seq<u8>, b: Seq<u8>)
    requires
        0 <= i <= j <= data.len(),
        data.subrange(i, j) == a + b,
    ensures
        j - i == a.len() + b.len(),
        data.subrange(i, i + a.len()) == a,
        data.subrange(i + a.len(), j) == b,
{
    assert(data.subrange(i, j).len() == j - i);
    assert((a + b).len() == a.len() + b.len());
    assert(data.subrange(i, i + a.len()) =~= a) by {
        assert(forall|k: int| 0 <= k < a.len() ==> #[trigger] a[k] == (a + b)[k]);
        assert(forall|k: int|
            0 <= k < j - i ==> #[trigger] data.subrange(i, j)[k] == data[i + k]);
    }
    assert(data.subrange(i + a.len(), j) =~= b) by {
        assert(forall|k: int| 0 <= k < b.len() ==> #[trigger] b[k] == (a + b)[a.len() + k]);
        assert(forall|k: int|
            0 <= k < j - i ==> #[trigger] data.subrange(i, j)[k] == data[i + k]);
    }
}

/// Two encodings starting at the same position pin each other down.
pub proof fn lemma_parse_unique(gd: Seq<u8>, i: int, u: BValue, j: int, w: BValue, j2: int)
    requires
        0 <= i <= j <= gd.len(),
        0 <= i <= j2 <= gd.len(),
        gd.subrange(i, j) == encoded(u),
        gd.subrange(i, j2) == encoded(w),
    ensures
        u == w,
        j == j2,
{
    lemma_subrange_concat(gd, i, j, gd.len() as int);
    lemma_subrange_concat(gd, i, j2, gd.len() as int);
    assert(encoded(u) + gd.subrange(j, gd.len() as int) == encoded(w) + gd.subrange(
        j2,
        gd.len() as int,
    ));
    lemma_prefix_free(u, w, gd.subrange(j, gd.len() as int), gd.subrange(j2, gd.len() as int));
    assert(gd.subrange(j, gd.len() as int).len() == gd.subrange(j2, gd.len() as int).len());
}

/// An empty item sequence parses exactly as a single terminator byte.
pub proof fn lemma_list_parse_empty(gd: Seq<u8>, i: int, ws: Seq<BValue>, j: int, d: nat)
    requires
        list_parse(gd, i, ws, j, d),
        ws.len() == 0,
    ensures
        j == i + 1,
        gd[i] == TAG_END,
{
    assert(encoded_list(ws) + seq![TAG_END] =~= seq![TAG_END]);
    assert(gd[i] == gd.subrange(i, j)[0]);
}

/// A non-empty item sequence parses as its head's encoding followed by the
/// rest; the head is itself a parse, and the rest still a list parse.
pub proof fn lemma_list_parse_decomp(gd: Seq<u8>, i: int, ws: Seq<BValue>, j: int, d: nat)
    requires
        list_parse(gd, i, ws, j, d),
        ws.len() > 0,
    ensures
        i + encoded(ws[0]).len() < j,
        parse_with(gd, i, ws[0], i + encoded(ws[0]).len(), d),
        list_parse(gd, i + encoded(ws[0]).len(), ws.drop_first(), j, d),
{
    let e0 = encoded(ws[0]);
    let rest = encoded_list(ws.drop_first()) + seq![TAG_END];
    assert(gd.subrange(i, j) == e0 + rest) by {
        assert(encoded_list(ws) == e0 + encoded_list(ws.drop_first()));
        assert(e0 + encoded_list(ws.drop_first()) + seq![TAG_END] =~= e0 + rest);
    }
    lemma_subrange_split(gd, i, j, e0, rest);
    lemma_encoded_shape(ws[0]);
    assert(forall|k: int| 0 <= k < ws.drop_first().len() ==> #[trigger] ws.drop_first()[k] == ws[
        k + 1
    ]);
}

/// An empty pair sequence parses exactly as a single terminator byte.
pub proof fn lemma_pairs_parse_empty(gd: Seq<u8>, i: int, qs: Seq<(Seq<u8>, BValue)>, j: int, d: nat)
    requires
        pairs_parse(gd, i, qs, j, d),
        qs.len() == 0,
    ensures
        j == i + 1,
        gd[i] == TAG_END,
{
    assert(encoded_pairs(qs) + seq![TAG_END] =~= seq![TAG_END]);
    assert(gd[i] == gd.subrange(i, j)[0]);
}

/// A non-empty pair sequence parses as the head key's encoding, the head
/// value's encoding, then the rest. Key and value are parses of their own,
/// and the rest is still a pair parse.
pub proof fn lemma_pairs_parse_decomp(
    gd: Seq<u8>,
    i: int,
    qs: Seq<(Seq<u8>, BValue)>,
    j: int,
    d: nat,
)
    requires
        pairs_parse(gd, i, qs, j, d),
        qs.len() > 0,
    ensures
        ({
            let ke = encoded(BValue::Bytes(qs[0].0));
            let ve = encoded(qs[0].1);
            &&& i + ke.len() + ve.len() < j
            &&& gd.subrange(i, i + ke.len()) == ke
            &&& d >= 1 ==> parse_with(gd, i, BValue::Bytes(qs[0].0), i + ke.len(), d)
            &&& parse_with(gd, i + ke.len(), qs[0].1, i + ke.len() + ve.len(), d)
            &&& pairs_parse(gd, i + ke.len() + ve.len(), qs.drop_first(), j, d)
        }),
{
    let ke = encoded(BValue::Bytes(qs[0].0));
    let ve = encoded(qs[0].1);
    let rest = encoded_pairs(qs.drop_first()) + seq![TAG_END];
    assert(gd.subrange(i, j) == ke + (ve + rest)) by {
        assert(encoded_pairs(qs) == bytes_encoded(qs[0].0) + encoded(qs[0].1) + encoded_pairs(
            qs.drop_first(),
        ));
        assert(bytes_encoded(qs[0].0) + encoded(qs[0].1) + encoded_pairs(qs.drop_first()) + seq![
            TAG_END,
        ] =~= ke + (ve + rest));
    }
    lemma_subrange_split(gd, i, j, ke, ve + rest);
    lemma_subrange_split(gd, i + ke.len(), j, ve, rest);
    lemma_encoded_shape(BValue::Bytes(qs[0].0));
    lemma_encoded_shape(qs[0].1);
    assert(forall|k: int| 0 <= k < qs.drop_first().len() ==> #[trigger] qs.drop_first()[k] == qs[
        k + 1
    ]);
    assert(keys_sorted(qs.drop_first()));
}

pub proof fn lemma_lex_lt_trichotomy(a: Seq<u8>, b: Seq<u8>)
    ensures
        lex_lt(a, b) || lex_lt(b, a) || a == b,
        lex_lt(a, b) ==> !lex_lt(b, a) && a != b,
        lex_lt(b, a) ==> !lex_lt(a, b) && a != b,
    decreases a.len(),
{
    if a.len() > 0 && b.len() > 0 && a[0] == b[0] {
        lemma_lex_lt_trichotomy(a.drop_first(), b.drop_first());
        if a.drop_first() == b.drop_first() {
            assert(a =~= b) by {
                assert(forall|i: int| 1 <= i < a.len() ==> a[i] == a.drop_first()[i - 1]);
                assert(forall|i: int| 1 <= i < b.len() ==> b[i] == b.drop_first()[i - 1]);
            }
        }
        if a == b {
            assert(a.drop_first() =~= b.drop_first());
        }
    }
}

pub proof fn lemma_lex_lt_trans(a: Seq<u8>, b: Seq<u8>, c: Seq<u8>)
    requires
        lex_lt(a, b),
        lex_lt(b, c),
    ensures
        lex_lt(a, c),
    decreases a.len(),
{
    if a.len() > 0 && b.len() > 0 && c.len() > 0 {
        if a[0] == b[0] && b[0] == c[0] {
            lemma_lex_lt_trans(a.drop_first(), b.drop_first(), c.drop_first());
        }
    }
}

/// Every wire form is non-empty, and its first byte names the variant; it
/// is never the terminator byte.
pub proof fn lemma_encoded_shape(v: BValue)
    ensures
        encoded(v).len() >= 1,
        v is Int ==> encoded(v)[0] == TAG_INT,
        v is Bytes ==> crate::decimal::is_digit(encoded(v)[0]),
        v is List ==> encoded(v)[0] == TAG_LIST,
        v is Dict ==> encoded(v)[0] == TAG_DICT,
        encoded(v)[0] != TAG_END,
        encoded(v)[0] != COLON,
{
    match v {
        BValue::Int(n) => {},
        BValue::Bytes(s) => {
            crate::decimal::lemma_nat_repr_shape(s.len() as int);
            assert(encoded(v)[0] == nat_repr(s.len() as int)[0]);
        },
        BValue::List(_) => {},
        BValue::Dict(_) => {},
    }
}

pub proof fn lemma_encoded_list_snoc(items: Seq<BValue>, x: BValue)
    ensures
        encoded_list(items.push(x)) == encoded_list(items) + encoded(x),
    decreases items,
{
    if items.len() == 0 {
        assert(items.push(x)[0] == x);
        assert(items.push(x).drop_first() =~= Seq::<BValue>::empty());
        assert(encoded_list(Seq::<BValue>::empty()) =~= Seq::<u8>::empty());
        assert(encoded_list(items.push(x)) =~= encoded(x));
        assert(encoded_list(items) + encoded(x) =~= encoded(x));
    } else {
        lemma_encoded_list_snoc(items.drop_first(), x);
        assert(items.push(x).drop_first() =~= items.drop_first().push(x));
        assert(items.push(x)[0] == items[0]);
        assert(encoded_list(items.push(x)) == encoded(items[0]) + encoded_list(
            items.drop_first().push(x),
        ));
        assert(encoded(items[0]) + (encoded_list(items.drop_first()) + encoded(x)) =~= (encoded(
            items[0],
        ) + encoded_list(items.drop_first())) + encoded(x));
    }
}

pub proof fn lemma_encoded_pairs_snoc(ps: Seq<(Seq<u8>, BValue)>, p: (Seq<u8>, BValue))
    ensures
        encoded_pairs(ps.push(p)) == encoded_pairs(ps) + bytes_encoded(p.0) + encoded(p.1),
    decreases ps,
{
    let pe = bytes_encoded(p.0) + encoded(p.1);
    if ps.len() == 0 {
        assert(ps.push(p)[0] == p);
        assert(ps.push(p).drop_first() =~= Seq::<(Seq<u8>, BValue)>::empty());
        assert(encoded_pairs(Seq::<(Seq<u8>, BValue)>::empty()) =~= Seq::<u8>::empty());
        assert(encoded_pairs(ps.push(p)) =~= encoded_pairs(ps) + bytes_encoded(p.0) + encoded(p.1));
    } else {
        lemma_encoded_pairs_snoc(ps.drop_first(), p);
        assert(ps.push(p).drop_first() =~= ps.drop_first().push(p));
        assert(ps.push(p)[0] == ps[0]);
        let h = bytes_encoded(ps[0].0) + encoded(ps[0].1);
        assert(encoded_pairs(ps.push(p)) == h + encoded_pairs(ps.drop_first().push(p)));
        assert(h + (encoded_pairs(ps.drop_first()) + bytes_encoded(p.0) + encoded(p.1)) =~= (h
            + encoded_pairs(ps.drop_first())) + bytes_encoded(p.0) + encoded(p.1));
        assert(encoded_pairs(ps) + bytes_encoded(p.0) + encoded(p.1) =~= (h + encoded_pairs(
            ps.drop_first(),
        )) + bytes_encoded(p.0) + encoded(p.1));
    }
}

/// A list is canonical exactly when each of its items is.
pub proof fn lemma_canonical_list_index(items: Seq<BValue>)
    ensures
        canonical_list(items) <==> (forall|i: int|
            0 <= i < items.len() ==> canonical(#[trigger] items[i])),
    decreases items,
{
    if items.len() > 0 {
        lemma_canonical_list_index(items.drop_first());
        assert(forall|i: int| 1 <= i < items.len() ==> items[i] == items.drop_first()[i - 1]);
    }
}

pub proof fn lemma_canonical_pairs_index(ps: Seq<(Seq<u8>, BValue)>)
    ensures
        canonical_pairs(ps) <==> (forall|i: int|
            0 <= i < ps.len() ==> canonical((#[trigger] ps[i]).1)),
    decreases ps,
{
    if ps.len() > 0 {
        lemma_canonical_pairs_index(ps.drop_first());
        assert(forall|i: int| 1 <= i < ps.len() ==> ps[i] == ps.drop_first()[i - 1]);
    }
}

/// `depth_list` is the maximum of the items' depths.
pub proof fn lemma_depth_list_bound(items: Seq<BValue>, d: nat)
    requires
        forall|i: int| 0 <= i < items.len() ==> depth(#[trigger] items[i]) <= d,
    ensures
        depth_list(items) <= d,
    decreases items,
{
    if items.len() > 0 {
        assert(forall|i: int| 1 <= i < items.len() ==> items[i] == items.drop_first()[i - 1]);
        lemma_depth_list_bound(items.drop_first(), d);
    }
}

pub proof fn lemma_depth_list_index(items: Seq<BValue>)
    ensures
        forall|i: int| 0 <= i < items.len() ==> depth(#[trigger] items[i]) <= depth_list(items),
    decreases items,
{
    if items.len() > 0 {
        lemma_depth_list_index(items.drop_first());
        assert(forall|i: int| 1 <= i < items.len() ==> items[i] == items.drop_first()[i - 1]);
    }
}

pub proof fn lemma_depth_pairs_bound(ps: Seq<(Seq<u8>, BValue)>, d: nat)
    requires
        forall|i: int| 0 <= i < ps.len() ==> depth((#[trigger] ps[i]).1) <= d,
    ensures
        depth_pairs(ps) <= d,
    decreases ps,
{
    if ps.len() > 0 {
        assert(forall|i: int| 1 <= i < ps.len() ==> ps[i] == ps.drop_first()[i - 1]);
        lemma_depth_pairs_bound(ps.drop_first(), d);
    }
}

pub proof fn lemma_depth_pairs_index(ps: Seq<(Seq<u8>, BValue)>)
    ensures
        forall|i: int| 0 <= i < ps.len() ==> depth((#[trigger] ps[i]).1) <= depth_pairs(ps),
    decreases ps,
{
    if ps.len() > 0 {
        lemma_depth_pairs_index(ps.drop_first());
        assert(forall|i: int| 1 <= i < ps.len() ==> ps[i] == ps.drop_first()[i - 1]);
    }
}

/// Two concatenations around the same marker byte agree exactly when the
/// parts agree, provided the marker occurs in neither left part.
pub proof fn lemma_first_marker(a1: Seq<u8>, a2: Seq<u8>, t1: Seq<u8>, t2: Seq<u8>, m: u8)
    requires
        a1 + seq![m] + t1 == a2 + seq![m] + t2,
        forall|i: int| 0 <= i < a1.len() ==> a1[i] != m,
        forall|i: int| 0 <= i < a2.len() ==> a2[i] != m,
    ensures
        a1 == a2,
        t1 == t2,
{
    let x1 = a1 + seq![m] + t1;
    let x2 = a2 + seq![m] + t2;
    assert(forall|i: int| 0 <= i < a1.len() ==> x1[i] == a1[i]);
    assert(forall|i: int| 0 <= i < a2.len() ==> x2[i] == a2[i]);
    assert(x1[a1.len() as int] == m);
    assert(x2[a2.len() as int] == m);
    if a1.len() < a2.len() {
        assert(x2[a1.len() as int] == a2[a1.len() as int]);
        assert(false);
    }
    if a2.len() < a1.len() {
        assert(x1[a2.len() as int] == a1[a2.len() as int]);
        assert(false);
    }
    assert(a1 =~= a2);
    assert(x1.len() == a1.len() + 1 + t1.len());
    assert(x2.len() == a2.len() + 1 + t2.len());
    assert(t1.len() == t2.len());
    assert(t1 =~= t2) by {
        assert(forall|i: int| 0 <= i < t1.len() ==> t1[i] == x1[a1.len() + 1 + i]);
        assert(forall|i: int| 0 <= i < t2.len() ==> t2[i] == x2[a2.len() + 1 + i]);
    }
}

/// A byte-string encoding determines the string and the remainder.
pub proof fn lemma_bytes_encoded_prefix(s: Seq<u8>, t: Seq<u8>, r1: Seq<u8>, r2: Seq<u8>)
    requires
        bytes_encoded(s) + r1 == bytes_encoded(t) + r2,
    ensures
        s == t,
        r1 == r2,
{
    let ls = nat_repr(s.len() as int);
    let lt = nat_repr(t.len() as int);
    crate::decimal::lemma_nat_repr_shape(s.len() as int);
    crate::decimal::lemma_nat_repr_shape(t.len() as int);
    assert(bytes_encoded(s) + r1 =~= ls + seq![COLON] + (s + r1));
    assert(bytes_encoded(t) + r2 =~= lt + seq![COLON] + (t + r2));
    assert(forall|i: int| 0 <= i < ls.len() ==> ls[i] != COLON) by {
        assert(forall|i: int| 0 <= i < ls.len() ==> crate::decimal::is_digit(ls[i]));
    }
    assert(forall|i: int| 0 <= i < lt.len() ==> lt[i] != COLON) by {
        assert(forall|i: int| 0 <= i < lt.len() ==> crate::decimal::is_digit(lt[i]));
    }
    lemma_first_marker(ls, lt, s + r1, t + r2, COLON);
    crate::decimal::lemma_nat_repr_injective(s.len() as int, t.len() as int);
    assert(s =~= t) by {
        assert(forall|i: int| 0 <= i < s.len() ==> (s + r1)[i] == s[i] && (t + r2)[i] == t[i]);
    }
    assert(r1 =~= r2) by {
        assert(forall|i: int|
            0 <= i < r1.len() ==> (s + r1)[s.len() + i] == r1[i] && (t + r2)[t.len() + i] == r2[i]);
    }
}

/// No wire form is a proper prefix of another: if two encodings agree as
/// prefixes of one byte sequence, the values and the remainders agree.
pub proof fn lemma_prefix_free(u: BValue, w: BValue, s1: Seq<u8>, s2: Seq<u8>)
    requires
        encoded(u) + s1 == encoded(w) + s2,
    ensures
        u == w,
        s1 == s2,
    decreases u,
{
    let e = encoded(u) + s1;
    lemma_encoded_shape(u);
    lemma_encoded_shape(w);
    assert(e[0] == encoded(u)[0] && e[0] == encoded(w)[0]);
    match u {
        BValue::Int(n) => {
            assert(w is Int) by {
                if w is Bytes {
                    assert(crate::decimal::is_digit(e[0]));
                }
            }
            let m = w->Int_0;
            let a1 = int_repr(n);
            let a2 = int_repr(m);
            crate::decimal::lemma_int_repr_shape(n);
            crate::decimal::lemma_int_repr_shape(m);
            let x1 = a1 + seq![TAG_END] + s1;
            let x2 = a2 + seq![TAG_END] + s2;
            assert(x1 =~= x2) by {
                assert(x1.len() == e.len() - 1 && x2.len() == e.len() - 1);
                assert(forall|i: int| 0 <= i < x1.len() ==> x1[i] == e[i + 1]) by {
                    assert(encoded(u) + s1 =~= seq![TAG_INT] + x1);
                }
                assert(forall|i: int| 0 <= i < x2.len() ==> x2[i] == e[i + 1]) by {
                    assert(encoded(w) + s2 =~= seq![TAG_INT] + x2);
                }
            }
            assert(forall|i: int| 0 <= i < a1.len() ==> a1[i] != TAG_END) by {
                assert(forall|i: int|
                    0 <= i < a1.len() ==> crate::decimal::is_digit(a1[i]) || a1[i] == crate::decimal::MINUS);
            }
            assert(forall|i: int| 0 <= i < a2.len() ==> a2[i] != TAG_END) by {
                assert(forall|i: int|
                    0 <= i < a2.len() ==> crate::decimal::is_digit(a2[i]) || a2[i] == crate::decimal::MINUS);
            }
            lemma_first_marker(a1, a2, s1, s2, TAG_END);
            crate::decimal::lemma_int_repr_injective(n, m);
        },
        BValue::Bytes(bs) => {
            assert(w is Bytes) by {
                assert(crate::decimal::is_digit(e[0]));
            }
            let bt = w->Bytes_0;
            lemma_bytes_encoded_prefix(bs, bt, s1, s2);
        },
        BValue::List(xs) => {
            assert(w is List) by {
                if w is Bytes {
                    assert(crate::decimal::is_digit(e[0]));
                }
            }
            let ys = w->List_0;
            let x1 = encoded_list(xs) + seq![TAG_END] + s1;
            let x2 = encoded_list(ys) + seq![TAG_END] + s2;
            assert(x1 =~= x2) by {
                assert(x1.len() == e.len() - 1 && x2.len() == e.len() - 1);
                assert(forall|i: int| 0 <= i < x1.len() ==> x1[i] == e[i + 1]) by {
                    assert(encoded(u) + s1 =~= seq![TAG_LIST] + x1);
                }
                assert(forall|i: int| 0 <= i < x2.len() ==> x2[i] == e[i + 1]) by {
                    assert(encoded(w) + s2 =~= seq![TAG_LIST] + x2);
                }
            }
            lemma_prefix_free_list(xs, ys, s1, s2);
        },
        BValue::Dict(ps) => {
            assert(w is Dict) by {
                if w is Bytes {
                    assert(crate::decimal::is_digit(e[0]));
                }
            }
            let qs = w->Dict_0;
            let x1 = encoded_pairs(ps) + seq![TAG_END] + s1;
            let x2 = encoded_pairs(qs) + seq![TAG_END] + s2;
            assert(x1 =~= x2) by {
                assert(x1.len() == e.len() - 1 && x2.len() == e.len() - 1);
                assert(forall|i: int| 0 <= i < x1.len() ==> x1[i] == e[i + 1]) by {
                    assert(encoded(u) + s1 =~= seq![TAG_DICT] + x1);
                }
                assert(forall|i: int| 0 <= i < x2.len() ==> x2[i] == e[i + 1]) by {
                    assert(encoded(w) + s2 =~= seq![TAG_DICT] + x2);
                }
            }
            lemma_prefix_free_pairs(ps, qs, s1, s2);
        },
    }
}

/// The item encodings of two lists, each closed by the terminator byte,
/// agree exactly when the lists and the remainders agree.
pub proof fn lemma_prefix_free_list(xs: Seq<BValue>, ys: Seq<BValue>, t1: Seq<u8>, t2: Seq<u8>)
    requires
        encoded_list(xs) + seq![TAG_END] + t1 == encoded_list(ys) + seq![TAG_END] + t2,
    ensures
        xs == ys,
        t1 == t2,
    decreases xs,
{
    let x = encoded_list(xs) + seq![TAG_END] + t1;
    if xs.len() == 0 && ys.len() == 0 {
        let y = encoded_list(ys) + seq![TAG_END] + t2;
        assert(x =~= seq![TAG_END] + t1);
        assert(y =~= seq![TAG_END] + t2);
        assert(seq![TAG_END] + t1 == seq![TAG_END] + t2);
        assert(t1 =~= t2) by {
            assert((seq![TAG_END] + t1).len() == 1 + t1.len());
            assert((seq![TAG_END] + t2).len() == 1 + t2.len());
            assert(forall|i: int|
                0 <= i < t1.len() ==> t1[i] == (seq![TAG_END] + t1)[1 + i] && t2[i] == (seq![
                    TAG_END,
                ] + t2)[1 + i]);
        }
        assert(xs =~= ys);
    } else if xs.len() == 0 {
        lemma_encoded_shape(ys[0]);
        assert(x[0] == TAG_END);
        assert(x[0] == encoded(ys[0])[0]) by {
            assert(encoded_list(ys) == encoded(ys[0]) + encoded_list(ys.drop_first()));
        }
        assert(false);
    } else if ys.len() == 0 {
        lemma_encoded_shape(xs[0]);
        assert(x[0] == TAG_END) by {
            assert(encoded_list(ys) + seq![TAG_END] + t2 == x);
        }
        assert(x[0] == encoded(xs[0])[0]) by {
            assert(encoded_list(xs) == encoded(xs[0]) + encoded_list(xs.drop_first()));
        }
        assert(false);
    } else {
        let r1 = encoded_list(xs.drop_first()) + seq![TAG_END] + t1;
        let r2 = encoded_list(ys.drop_first()) + seq![TAG_END] + t2;
        assert(encoded(xs[0]) + r1 =~= x) by {
            assert(encoded_list(xs) == encoded(xs[0]) + encoded_list(xs.drop_first()));
        }
        assert(encoded(ys[0]) + r2 =~= x) by {
            assert(encoded_list(ys) == encoded(ys[0]) + encoded_list(ys.drop_first()));
        }
        lemma_prefix_free(xs[0], ys[0], r1, r2);
        lemma_prefix_free_list(xs.drop_first(), ys.drop_first(), t1, t2);
        assert(xs =~= ys) by {
            assert(forall|i: int| 1 <= i < xs.len() ==> xs[i] == xs.drop_first()[i - 1]);
            assert(forall|i: int| 1 <= i < ys.len() ==> ys[i] == ys.drop_first()[i - 1]);
        }
    }
}

/// The pair encodings of two dictionaries, each closed by the terminator
/// byte, agree exactly when the pair sequences and the remainders agree.
pub proof fn lemma_prefix_free_pairs(
    ps: Seq<(Seq<u8>, BValue)>,
    qs: Seq<(Seq<u8>, BValue)>,
    t1: Seq<u8>,
    t2: Seq<u8>,
)
    requires
        encoded_pairs(ps) + seq![TAG_END] + t1 == encoded_pairs(qs) + seq![TAG_END] + t2,
    ensures
        ps == qs,
        t1 == t2,
    decreases ps,
{
    let x = encoded_pairs(ps) + seq![TAG_END] + t1;
    if ps.len() == 0 && qs.len() == 0 {
        let y = encoded_pairs(qs) + seq![TAG_END] + t2;
        assert(x =~= seq![TAG_END] + t1);
        assert(y =~= seq![TAG_END] + t2);
        assert(seq![TAG_END] + t1 == seq![TAG_END] + t2);
        assert(t1 =~= t2) by {
            assert((seq![TAG_END] + t1).len() == 1 + t1.len());
            assert((seq![TAG_END] + t2).len() == 1 + t2.len());
            assert(forall|i: int|
                0 <= i < t1.len() ==> t1[i] == (seq![TAG_END] + t1)[1 + i] && t2[i] == (seq![
                    TAG_END,
                ] + t2)[1 + i]);
        }
        assert(ps =~= qs);
    } else if ps.len() == 0 {
        crate::decimal::lemma_nat_repr_shape(qs[0].0.len() as int);
        assert(x[0] == TAG_END);
        assert(x[0] == nat_repr(qs[0].0.len() as int)[0]) by {
            assert(encoded_pairs(qs) == bytes_encoded(qs[0].0) + encoded(qs[0].1) + encoded_pairs(
                qs.drop_first(),
            ));
        }
        assert(false);
    } else if qs.len() == 0 {
        crate::decimal::lemma_nat_repr_shape(ps[0].0.len() as int);
        assert(x[0] == TAG_END) by {
            assert(encoded_pairs(qs) + seq![TAG_END] + t2 == x);
        }
        assert(x[0] == nat_repr(ps[0].0.len() as int)[0]) by {
            assert(encoded_pairs(ps) == bytes_encoded(ps[0].0) + encoded(ps[0].1) + encoded_pairs(
                ps.drop_first(),
            ));
        }
        assert(false);
    } else {
        let r1 = encoded(ps[0].1) + (encoded_pairs(ps.drop_first()) + seq![TAG_END] + t1);
        let r2 = encoded(qs[0].1) + (encoded_pairs(qs.drop_first()) + seq![TAG_END] + t2);
        assert(bytes_encoded(ps[0].0) + r1 =~= x) by {
            assert(encoded_pairs(ps) == bytes_encoded(ps[0].0) + encoded(ps[0].1) + encoded_pairs(
                ps.drop_first(),
            ));
        }
        assert(bytes_encoded(qs[0].0) + r2 =~= x) by {
            assert(encoded_pairs(qs) == bytes_encoded(qs[0].0) + encoded(qs[0].1) + encoded_pairs(
                qs.drop_first(),
            ));
        }
        lemma_bytes_encoded_prefix(ps[0].0, qs[0].0, r1, r2);
        lemma_prefix_free(
            ps[0].1,
            qs[0].1,
            encoded_pairs(ps.drop_first()) + seq![TAG_END] + t1,
            encoded_pairs(qs.drop_first()) + seq![TAG_END] + t2,
        );
        lemma_prefix_free_pairs(ps.drop_first(), qs.drop_first(), t1, t2);
        assert(ps[0] == qs[0]);
        assert(ps =~= qs) by {
            assert(forall|i: int| 1 <= i < ps.len() ==> ps[i] == ps.drop_first()[i - 1]);
            assert(forall|i: int| 1 <= i < qs.len() ==> qs[i] == qs.drop_first()[i - 1]);
        }
    }
}

/// The canonical wire form is injective: no two values share an encoding.
/// Together with the decoder's and encoder's contracts this is the round
/// trip: decoding what the encoder produced yields the value it was given.
pub proof fn lemma_encoded_injective(u: BValue, w: BValue)
    requires
        encoded(u) == encoded(w),
    ensures
        u == w,
{
    assert(encoded(u) + Seq::<u8>::empty() =~= encoded(w) + Seq::<u8>::empty());
    lemma_prefix_free(u, w, Seq::empty(), Seq::empty());
}

} // verus!
