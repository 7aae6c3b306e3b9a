//! The bencode value type, its decoder and its encoder.

use vstd::prelude::*;
use crate::model::{
    BValue, lex_lt, encoded, encoded_list, encoded_pairs, bytes_encoded, canonical,
    canonical_list, canonical_pairs, keys_sorted, depth, depth_list, depth_pairs, parse_with,
    list_parse, pairs_parse, TAG_INT, TAG_LIST, TAG_DICT, TAG_END, COLON,
};
use crate::decimal::{
    is_digit, all_digits, nat_repr, int_repr, digits_value, dec_digits, DIGIT_ZERO, MINUS,
};

verus! {

/// A decoded bencode value. Dictionaries are stored as key/value pairs;
/// the decoder only ever produces pairs whose keys strictly increase
/// byte-wise, and the encoder sorts pairs before emitting them.
pub enum Bencode {
    Integer(i64),
    String(Vec<u8>),
    List(Vec<Bencode>),
    Dictionary(Vec<(Vec<u8>, Bencode)>),
}

/// The mathematical value of a `Bencode` tree.
pub open spec fn value_view(b: Bencode) -> BValue
    decreases b,
{
    match b {
        Bencode::Integer(n) => BValue::Int(n as int),
        Bencode::String(s) => BValue::Bytes(s@),
        Bencode::List(items) => BValue::List(items_view(items@)),
        Bencode::Dictionary(ps) => BValue::Dict(pairs_view(ps@)),
    }
}

pub open spec fn items_view(items: Seq<Bencode>) -> Seq<BValue>
    decreases items,
{
    if items.len() == 0 {
        Seq::empty()
    } else {
        seq![value_view(items[0])] + items_view(items.drop_first())
    }
}

pub open spec fn pairs_view(ps: Seq<(Vec<u8>, Bencode)>) -> Seq<(Seq<u8>, BValue)>
    decreases ps,
{
    if ps.len() == 0 {
        Seq::empty()
    } else {
        seq![(ps[0].0@, value_view(ps[0].1))] + pairs_view(ps.drop_first())
    }
}

impl View for Bencode {
    type V = BValue;

    open spec fn view(&self) -> BValue {
        value_view(*self)
    }
}

/// The decoder rejects inputs nested deeper than this, so that adversarial
/// depth bombs cannot exhaust the call stack.
pub const MAX_NESTING_DEPTH: usize = 256;

/// Why an integer span between `i` and `e` was rejected.
#[derive(Debug, Clone, Copy, PartialEq, Eq, Structural)]
pub enum IntegerFault {
    LeadingZero,
    NegativeZero,
    NonNumeric,
    MissingTerminator,
    OutOfRange,
}

/// Why a length-prefixed string was rejected.
#[derive(Debug, Clone, Copy, PartialEq, Eq, Structural)]
pub enum StringFault {
    MissingColon,
    NonNumericLength,
    LeadingZeroLength,
    LengthExceedsBuffer,
}

/// Every way a byte buffer can fail to be a canonical bencode value.
#[derive(Debug, Clone, Copy, PartialEq, Eq, Structural)]
pub enum DecodeError {
    EmptyInput,
    UnknownTag,
    MalformedInteger(IntegerFault),
    MalformedString(StringFault),
    MalformedContainer,
    InvalidDictionaryKey,
    UnsortedDictionaryKeys,
    DictionaryOddElementCount,
    ExtraTrailingData,
    DepthLimitExceeded,
}

pub proof fn lemma_items_view_index(items: Seq<Bencode>)
    ensures
        items_view(items).len() == items.len(),
        forall|i: int|
            0 <= i < items.len() ==> #[trigger] items_view(items)[i] == value_view(items[i]),
    decreases items,
{
    if items.len() > 0 {
        lemma_items_view_index(items.drop_first());
        assert(forall|i: int| 1 <= i < items.len() ==> items[i] == items.drop_first()[i - 1]);
    }
}

pub proof fn lemma_items_view_push(items: Seq<Bencode>, b: Bencode)
    ensures
        items_view(items.push(b)) == items_view(items).push(value_view(b)),
    decreases items,
{
    if items.len() == 0 {
        assert(items.push(b)[0] == b);
        assert(items.push(b).drop_first() =~= Seq::<Bencode>::empty());
        assert(items_view(Seq::<Bencode>::empty()) =~= Seq::<BValue>::empty());
        assert(items_view(items.push(b)) =~= items_view(items).push(value_view(b)));
    } else {
        lemma_items_view_push(items.drop_first(), b);
        assert(items.push(b).drop_first() =~= items.drop_first().push(b));
        assert(items.push(b)[0] == items[0]);
        assert(items_view(items.push(b)) =~= items_view(items).push(value_view(b)));
    }
}

pub proof fn lemma_pairs_view_index(ps: Seq<(Vec<u8>, Bencode)>)
    ensures
        pairs_view(ps).len() == ps.len(),
        forall|i: int|
            0 <= i < ps.len() ==> #[trigger] pairs_view(ps)[i] == (ps[i].0@, value_view(ps[i].1)),
    decreases ps,
{
    if ps.len() > 0 {
        lemma_pairs_view_index(ps.drop_first());
        assert(forall|i: int| 1 <= i < ps.len() ==> ps[i] == ps.drop_first()[i - 1]);
    }
}

pub proof fn lemma_pairs_view_push(ps: Seq<(Vec<u8>, Bencode)>, p: (Vec<u8>, Bencode))
    ensures
        pairs_view(ps.push(p)) == pairs_view(ps).push((p.0@, value_view(p.1))),
    decreases ps,
{
    if ps.len() == 0 {
        assert(ps.push(p)[0] == p);
        assert(ps.push(p).drop_first() =~= Seq::<(Vec<u8>, Bencode)>::empty());
        assert(pairs_view(Seq::<(Vec<u8>, Bencode)>::empty()) =~= Seq::<(Seq<u8>, BValue)>::empty());
        assert(pairs_view(ps.push(p)) =~= pairs_view(ps).push((p.0@, value_view(p.1))));
    } else {
        lemma_pairs_view_push(ps.drop_first(), p);
        assert(ps.push(p).drop_first() =~= ps.drop_first().push(p));
        assert(ps.push(p)[0] == ps[0]);
        assert(pairs_view(ps.push(p)) =~= pairs_view(ps).push((p.0@, value_view(p.1))));
    }
}

/// Byte-wise comparison of two keys, deciding [`lex_lt`].
fn key_less(a: &Vec<u8>, b: &Vec<u8>) -> (r: bool)
    ensures
        r == lex_lt(a@, b@),
{
    let mut i: usize = 0;
    proof {
        assert(a@.skip(0) =~= a@);
        assert(b@.skip(0) =~= b@);
    }
    loop
        invariant
            i <= a.len(),
            i <= b.len(),
            lex_lt(a@, b@) == lex_lt(a@.skip(i as int), b@.skip(i as int)),
        decreases a.len() - i,
    {
        if i >= b.len() {
            assert(b@.skip(i as int).len() == 0);
            return false;
        }
        if i >= a.len() {
            assert(a@.skip(i as int).len() == 0 && b@.skip(i as int).len() > 0);
            return true;
        }
        let x = a[i];
        let y = b[i];
        proof {
            assert(a@.skip(i as int)[0] == a@[i as int]);
            assert(b@.skip(i as int)[0] == b@[i as int]);
        }
        if x < y {
            return true;
        }
        if x > y {
            return false;
        }
        proof {
            assert(a@.skip(i as int).drop_first() =~= a@.skip(i + 1));
            assert(b@.skip(i as int).drop_first() =~= b@.skip(i + 1));
        }
        i = i + 1;
    }
}

/// If a canonical integer encoding sits at `at` and no terminator byte
/// occurs in `data[at + 1..j]`, the digit span ends exactly at `j`.
proof fn lemma_int_candidate(data: Seq<u8>, at: int, j: int, n: int, j2: int)
    requires
        0 <= at < data.len(),
        at <= j2 <= data.len(),
        data.subrange(at, j2) == encoded(BValue::Int(n)),
        at + 1 <= j <= data.len(),
        forall|k: int| at + 1 <= k < j ==> data[k] != TAG_END,
        j < data.len() ==> data[j] == TAG_END,
    ensures
        j < data.len(),
        j2 == j + 1,
        j == at + 1 + int_repr(n).len(),
        data.subrange(at + 1, j) == int_repr(n),
{
    let e = encoded(BValue::Int(n));
    let r = int_repr(n);
    crate::decimal::lemma_int_repr_shape(n);
    assert(e == seq![TAG_INT] + r + seq![TAG_END]);
    assert(e.len() == r.len() + 2);
    assert(j2 == at + r.len() + 2);
    assert(forall|k: int| 0 <= k < r.len() ==> data[at + 1 + k] == r[k]) by {
        assert(forall|k: int| 0 <= k < r.len() ==> e[1 + k] == r[k]);
        assert(forall|k: int|
            0 <= k < r.len() ==> #[trigger] data.subrange(at, j2)[1 + k] == data[at + 1 + k]);
    }
    assert(data[j2 - 1] == e[j2 - 1 - at]);
    assert(e[(r.len() + 1) as int] == TAG_END);
    assert(forall|k: int| 0 <= k < r.len() ==> r[k] != TAG_END) by {
        assert(forall|k: int| 0 <= k < r.len() ==> is_digit(r[k]) || r[k] == MINUS);
    }
    if j < j2 - 1 {
        assert(data[j] == r[j - at - 1]);
        assert(false);
    }
    if j > j2 - 1 {
        assert(data[j2 - 1] == TAG_END);
        assert(false);
    }
    assert(data.subrange(at + 1, j) =~= r);
}

/// Parses `i<decimal>e` at `at`. Accepts exactly the minimal decimal forms
/// that fit a signed 64-bit word; everything else is a typed error, and the
/// error cases cover every input on which no canonical integer encoding
/// starts at `at`.
#[verifier::loop_isolation(false)]
fn decode_integer(data: &Vec<u8>, at: usize) -> (r: Result<(i64, usize), DecodeError>)
    requires
        at < data.len(),
        data[at as int] == TAG_INT,
    ensures
        match r {
            Ok((n, j)) => {
                &&& at < j <= data.len()
                &&& data@.subrange(at as int, j as int) == encoded(BValue::Int(n as int))
            },
            Err(_) => forall|n: int, j2: int|
                #![trigger data@.subrange(at as int, j2), encoded(BValue::Int(n))]
                !(at <= j2 <= data.len() && canonical(BValue::Int(n)) && data@.subrange(
                    at as int,
                    j2,
                ) == encoded(BValue::Int(n))),
        },
{
    let ghost gd = data@;
    let len = data.len();
    let mut j = at + 1;
    while j < len && data[j] != TAG_END
        invariant
            at + 1 <= j <= len == data.len(),
            gd == data@,
            forall|k: int| at + 1 <= k < j ==> gd[k] != TAG_END,
        decreases len - j,
    {
        j = j + 1;
    }
    if j == len {
        proof {
            assert forall|n: int, j2: int| !(at <= j2 <= gd.len() && canonical(BValue::Int(n))
                && #[trigger] gd.subrange(at as int, j2) == #[trigger] encoded(
                BValue::Int(n),
            )) by {
                if at <= j2 <= gd.len() && gd.subrange(at as int, j2) == encoded(BValue::Int(n)) {
                    lemma_int_candidate(gd, at as int, j as int, n, j2);
                }
            }
        }
        return Err(DecodeError::MalformedInteger(IntegerFault::MissingTerminator));
    }
    // `j` is the first terminator byte after `at`; a canonical integer
    // occupying `at..j2` must have its digit span exactly on `at+1..j`.
    assert(data@[j as int] == TAG_END);
    proof {
        assert forall|n: int, j2: int|
            at <= j2 <= gd.len() && #[trigger] gd.subrange(at as int, j2) == #[trigger] encoded(
                BValue::Int(n),
            ) implies j2 == j + 1 && j == at + 1 + int_repr(n).len() && gd.subrange(
            at as int + 1,
            j as int,
        ) == int_repr(n) by {
            lemma_int_candidate(gd, at as int, j as int, n, j2);
        }
    }
    let ghost span = gd.subrange(at as int + 1, j as int);
    if j == at + 1 {
        proof {
            assert forall|n: int, j2: int| !(at <= j2 <= gd.len() && canonical(BValue::Int(n))
                && #[trigger] gd.subrange(at as int, j2) == #[trigger] encoded(
                BValue::Int(n),
            )) by {
                if at <= j2 <= gd.len() && gd.subrange(at as int, j2) == encoded(BValue::Int(n)) {
                    crate::decimal::lemma_int_repr_shape(n);
                }
            }
        }
        return Err(DecodeError::MalformedInteger(IntegerFault::NonNumeric));
    }
    let neg = data[at + 1] == MINUS;
    let ds = if neg {
        at + 2
    } else {
        at + 1
    };
    if ds == j {
        // the span is a bare minus sign
        proof {
            assert forall|n: int, j2: int| !(at <= j2 <= gd.len() && canonical(BValue::Int(n))
                && #[trigger] gd.subrange(at as int, j2) == #[trigger] encoded(
                BValue::Int(n),
            )) by {
                if at <= j2 <= gd.len() && gd.subrange(at as int, j2) == encoded(BValue::Int(n)) {
                    crate::decimal::lemma_int_repr_shape(n);
                    assert(span == int_repr(n) && span.len() == 1);
                    assert(span[0] == gd[at as int + 1]);
                    if n < 0 {
                        crate::decimal::lemma_nat_repr_shape(-n);
                        assert(int_repr(n).len() >= 2);
                    } else {
                        crate::decimal::lemma_nat_repr_shape(n);
                        assert(is_digit(nat_repr(n)[0]));
                    }
                }
            }
        }
        return Err(DecodeError::MalformedInteger(IntegerFault::NonNumeric));
    }
    if neg && data[ds] == DIGIT_ZERO {
        proof {
            assert forall|n: int, j2: int| !(at <= j2 <= gd.len() && canonical(BValue::Int(n))
                && #[trigger] gd.subrange(at as int, j2) == #[trigger] encoded(
                BValue::Int(n),
            )) by {
                if at <= j2 <= gd.len() && gd.subrange(at as int, j2) == encoded(BValue::Int(n)) {
                    crate::decimal::lemma_int_repr_shape(n);
                    assert(span == int_repr(n));
                    assert(span[0] == gd[at as int + 1] && span[0] == MINUS);
                    if n >= 0 {
                        crate::decimal::lemma_nat_repr_shape(n);
                        assert(is_digit(nat_repr(n)[0]));
                        assert(false);
                    }
                    crate::decimal::lemma_nat_repr_shape(-n);
                    assert(span[1] == nat_repr(-n)[0]) by {
                        assert(forall|i: int|
                            1 <= i < span.len() ==> span[i] == (seq![MINUS] + nat_repr(-n))[i]);
                    }
                    assert(span[1] == gd[ds as int]);
                }
            }
        }
        return Err(DecodeError::MalformedInteger(IntegerFault::NegativeZero));
    }
    if !neg && data[ds] == DIGIT_ZERO && j - ds > 1 {
        proof {
            assert forall|n: int, j2: int| !(at <= j2 <= gd.len() && canonical(BValue::Int(n))
                && #[trigger] gd.subrange(at as int, j2) == #[trigger] encoded(
                BValue::Int(n),
            )) by {
                if at <= j2 <= gd.len() && gd.subrange(at as int, j2) == encoded(BValue::Int(n)) {
                    crate::decimal::lemma_int_repr_shape(n);
                    assert(span == int_repr(n));
                    assert(span[0] == gd[at as int + 1] && span[0] == DIGIT_ZERO);
                    assert(n >= 0);
                    assert(span.len() > 1);
                    crate::decimal::lemma_nat_repr_shape(n);
                    if n == 0 {
                        assert(nat_repr(0).len() == 1);
                    }
                }
            }
        }
        return Err(DecodeError::MalformedInteger(IntegerFault::LeadingZero));
    }
    let bound: u128 = if neg {
        9223372036854775808
    } else {
        9223372036854775807
    };
    let mut acc: u128 = 0;
    let mut k = ds;
    while k < j
        invariant
            ds <= k <= j <= len == data.len(),
            at + 1 <= ds < j,
            gd == data@,
            acc == digits_value(gd.subrange(ds as int, k as int)),
            acc <= bound,
            all_digits(gd.subrange(ds as int, k as int)),
        decreases j - k,
    {
        let b = data[k];
        if b < DIGIT_ZERO || b > DIGIT_ZERO + 9 {
            proof {
                assert forall|n: int, j2: int| !(at <= j2 <= gd.len() && canonical(BValue::Int(n))
                    && #[trigger] gd.subrange(at as int, j2) == #[trigger] encoded(
                    BValue::Int(n),
                )) by {
                    if at <= j2 <= gd.len() && gd.subrange(at as int, j2) == encoded(
                        BValue::Int(n),
                    ) {
                        crate::decimal::lemma_int_repr_shape(n);
                        assert(span == int_repr(n));
                        let i = k - at - 1;
                        assert(span[i as int] == gd[k as int]);
                        assert(span[0] == gd[at as int + 1]);
                        assert(is_digit(span[i as int]) || (i == 0 && span[i as int] == MINUS));
                        assert(!is_digit(gd[k as int]));
                        if !neg {
                            assert(gd[at as int + 1] != MINUS);
                        }
                        assert(false);
                    }
                }
            }
            return Err(DecodeError::MalformedInteger(IntegerFault::NonNumeric));
        }
        proof {
            let pre = gd.subrange(ds as int, k as int);
            let nxt = gd.subrange(ds as int, k as int + 1);
            assert(nxt.drop_last() =~= pre);
            assert(nxt.last() == gd[k as int]);
            assert(all_digits(nxt)) by {
                assert(forall|i: int| 0 <= i < nxt.len() - 1 ==> nxt[i] == pre[i]);
            }
        }
        let next = acc * 10 + ((b - DIGIT_ZERO) as u128);
        if next > bound {
            proof {
                let part = gd.subrange(ds as int, k as int + 1);
                assert(next == digits_value(part));
                assert forall|n: int, j2: int| !(at <= j2 <= gd.len() && canonical(BValue::Int(n))
                    && #[trigger] gd.subrange(at as int, j2) == #[trigger] encoded(
                    BValue::Int(n),
                )) by {
                    if at <= j2 <= gd.len() && canonical(BValue::Int(n)) && gd.subrange(
                        at as int,
                        j2,
                    ) == encoded(BValue::Int(n)) {
                        crate::decimal::lemma_int_repr_shape(n);
                        assert(span == int_repr(n));
                        assert(span[0] == gd[at as int + 1]);
                        if neg {
                            assert(n < 0) by {
                                if n >= 0 {
                                    crate::decimal::lemma_nat_repr_shape(n);
                                    assert(is_digit(nat_repr(n)[0]));
                                }
                            }
                        } else {
                            assert(n >= 0) by {
                                if n < 0 {
                                    assert(span[0] == MINUS);
                                }
                            }
                        }
                        let mag = if n < 0 { -n } else { n };
                        crate::decimal::lemma_nat_repr_shape(mag);
                        let digits = gd.subrange(ds as int, j as int);
                        assert(digits =~= nat_repr(mag)) by {
                            if n < 0 {
                                assert(span =~= seq![MINUS] + nat_repr(-n));
                                assert(forall|i: int|
                                    0 <= i < digits.len() ==> digits[i] == span[i + 1]);
                            } else {
                                assert(gd[at as int + 1] != MINUS);
                                assert(!neg && ds == at + 1);
                                assert(digits =~= span);
                            }
                        }
                        crate::decimal::lemma_nat_repr_value(mag);
                        assert(digits_value(digits) == mag);
                        assert(part =~= digits.take(k + 1 - ds));
                        crate::decimal::lemma_digits_value_prefix(digits, k + 1 - ds);
                        assert(mag >= next);
                        assert(mag <= bound);
                        assert(false);
                    }
                }
            }
            return Err(DecodeError::MalformedInteger(IntegerFault::OutOfRange));
        }
        acc = next;
        k = k + 1;
    }
    let n: i64 = if neg {
        if acc == 9223372036854775808 {
            i64::MIN
        } else {
            -(acc as i64)
        }
    } else {
        acc as i64
    };
    proof {
        let digits = gd.subrange(ds as int, j as int);
        assert(digits.len() > 1 ==> digits[0] != DIGIT_ZERO) by {
            assert(digits[0] == gd[ds as int]);
        }
        crate::decimal::lemma_canonical_digits(digits);
        assert(digits == nat_repr(acc as int));
        if neg {
            assert(acc >= 1) by {
                crate::decimal::lemma_digits_value_pos(digits);
            }
            assert(n as int == -(acc as int));
            assert(int_repr(n as int) == seq![MINUS] + nat_repr(acc as int));
            assert(span =~= seq![MINUS] + digits) by {
                assert(span[0] == gd[at as int + 1]);
                assert(forall|i: int| 1 <= i < span.len() ==> span[i] == gd[at + 1 + i]);
                assert(forall|i: int| 0 <= i < digits.len() ==> digits[i] == gd[ds + i]);
            }
        } else {
            assert(n as int == acc as int);
            assert(span =~= digits);
        }
        assert(span == int_repr(n as int));
        assert(gd.subrange(at as int, j + 1) =~= seq![TAG_INT] + span + seq![TAG_END]);
    }
    Ok((n, j + 1))
}

/// If a canonical byte-string encoding sits at `at` and `j` is the first
/// non-digit position at or after `at`, the length span ends exactly at `j`.
proof fn lemma_string_candidate(data: Seq<u8>, at: int, j: int, bs: Seq<u8>, j2: int)
    requires
        0 <= at < data.len(),
        at <= j2 <= data.len(),
        data.subrange(at, j2) == bytes_encoded(bs),
        at <= j <= data.len(),
        forall|k: int| at <= k < j ==> is_digit(data[k]),
        j < data.len() ==> !is_digit(data[j]),
    ensures
        j < data.len(),
        data[j] == COLON,
        j == at + nat_repr(bs.len() as int).len(),
        data.subrange(at, j) == nat_repr(bs.len() as int),
        j2 == j + 1 + bs.len(),
        data.subrange(j + 1, j2) == bs,
{
    let e = bytes_encoded(bs);
    let r = nat_repr(bs.len() as int);
    crate::decimal::lemma_nat_repr_shape(bs.len() as int);
    assert(e == r + seq![COLON] + bs);
    assert(e.len() == r.len() + 1 + bs.len());
    assert(j2 == at + e.len());
    assert(forall|k: int| 0 <= k < e.len() ==> data[at + k] == e[k]) by {
        assert(forall|k: int|
            0 <= k < e.len() ==> #[trigger] data.subrange(at, j2)[k] == data[at + k]);
    }
    assert(forall|k: int| 0 <= k < r.len() ==> data[at + k] == r[k]) by {
        assert(forall|k: int| 0 <= k < r.len() ==> e[k] == r[k]);
    }
    assert(data[at + r.len()] == COLON) by {
        assert(e[r.len() as int] == COLON);
    }
    if j < at + r.len() {
        assert(is_digit(r[j - at]));
        assert(false);
    }
    if j > at + r.len() {
        assert(!is_digit(COLON));
        assert(false);
    }
    assert(data.subrange(at, j) =~= r);
    assert(data.subrange(j + 1, j2) =~= bs) by {
        assert(forall|k: int| 0 <= k < bs.len() ==> e[r.len() + 1 + k] == bs[k]);
    }
}

/// Parses `<decimal length>:<bytes>` at `at`. Accepts exactly a minimal
/// decimal length followed by that many raw bytes; the raw bytes pass
/// through untouched, with no text validation.
#[verifier::loop_isolation(false)]
fn decode_string(data: &Vec<u8>, at: usize) -> (r: Result<(Vec<u8>, usize), DecodeError>)
    requires
        at < data.len(),
        is_digit(data[at as int]),
    ensures
        match r {
            Ok((s, j)) => {
                &&& at < j <= data.len()
                &&& data@.subrange(at as int, j as int) == encoded(BValue::Bytes(s@))
            },
            Err(_) => forall|bs: Seq<u8>, j2: int|
                #![trigger data@.subrange(at as int, j2), bytes_encoded(bs)]
                !(at <= j2 <= data.len() && data@.subrange(at as int, j2) == bytes_encoded(bs)),
        },
{
    let ghost gd = data@;
    let len = data.len();
    let mut j = at;
    while j < len && data[j] >= DIGIT_ZERO && data[j] <= DIGIT_ZERO + 9
        invariant
            at <= j <= len,
            forall|k: int| at <= k < j ==> is_digit(gd[k]),
        decreases len - j,
    {
        j = j + 1;
    }
    if j == len {
        proof {
            assert forall|bs: Seq<u8>, j2: int| !(at <= j2 <= gd.len() && #[trigger] gd.subrange(
                at as int,
                j2,
            ) == #[trigger] bytes_encoded(bs)) by {
                if at <= j2 <= gd.len() && gd.subrange(at as int, j2) == bytes_encoded(bs) {
                    lemma_string_candidate(gd, at as int, j as int, bs, j2);
                }
            }
        }
        return Err(DecodeError::MalformedString(StringFault::MissingColon));
    }
    if data[j] != COLON {
        proof {
            assert forall|bs: Seq<u8>, j2: int| !(at <= j2 <= gd.len() && #[trigger] gd.subrange(
                at as int,
                j2,
            ) == #[trigger] bytes_encoded(bs)) by {
                if at <= j2 <= gd.len() && gd.subrange(at as int, j2) == bytes_encoded(bs) {
                    lemma_string_candidate(gd, at as int, j as int, bs, j2);
                }
            }
        }
        return Err(DecodeError::MalformedString(StringFault::NonNumericLength));
    }
    proof {
        assert forall|bs: Seq<u8>, j2: int|
            at <= j2 <= gd.len() && #[trigger] gd.subrange(at as int, j2) == #[trigger] bytes_encoded(
                bs,
            ) implies j == at + nat_repr(bs.len() as int).len() && gd.subrange(at as int, j as int)
            == nat_repr(bs.len() as int) && j2 == j + 1 + bs.len() && gd.subrange(j as int + 1, j2)
            == bs by {
            lemma_string_candidate(gd, at as int, j as int, bs, j2);
        }
    }
    if data[at] == DIGIT_ZERO && j - at > 1 {
        proof {
            assert forall|bs: Seq<u8>, j2: int| !(at <= j2 <= gd.len() && #[trigger] gd.subrange(
                at as int,
                j2,
            ) == #[trigger] bytes_encoded(bs)) by {
                if at <= j2 <= gd.len() && gd.subrange(at as int, j2) == bytes_encoded(bs) {
                    crate::decimal::lemma_nat_repr_shape(bs.len() as int);
                    let r = nat_repr(bs.len() as int);
                    assert(r[0] == gd[at as int]);
                    if bs.len() == 0 {
                        assert(r.len() == 1);
                    }
                }
            }
        }
        return Err(DecodeError::MalformedString(StringFault::LeadingZeroLength));
    }
    // parse the declared length; anything beyond the remaining buffer is
    // rejected, so the accumulator stays small
    let remaining: u128 = (len - (j + 1)) as u128;
    let mut acc: u128 = 0;
    let mut k = at;
    while k < j
        invariant
            at <= k <= j < len,
            acc == digits_value(gd.subrange(at as int, k as int)),
            acc <= remaining,
            all_digits(gd.subrange(at as int, k as int)),
        decreases j - k,
    {
        let b = data[k];
        proof {
            let pre = gd.subrange(at as int, k as int);
            let nxt = gd.subrange(at as int, k as int + 1);
            assert(is_digit(gd[k as int]));
            assert(nxt.drop_last() =~= pre);
            assert(nxt.last() == gd[k as int]);
            assert(all_digits(nxt)) by {
                assert(forall|i: int| 0 <= i < nxt.len() - 1 ==> nxt[i] == pre[i]);
            }
        }
        let next = acc * 10 + ((b - DIGIT_ZERO) as u128);
        if next > remaining {
            proof {
                let part = gd.subrange(at as int, k as int + 1);
                assert(next == digits_value(part));
                assert forall|bs: Seq<u8>, j2: int| !(at <= j2 <= gd.len()
                    && #[trigger] gd.subrange(at as int, j2) == #[trigger] bytes_encoded(bs)) by {
                    if at <= j2 <= gd.len() && gd.subrange(at as int, j2) == bytes_encoded(bs) {
                        let r = nat_repr(bs.len() as int);
                        crate::decimal::lemma_nat_repr_shape(bs.len() as int);
                        crate::decimal::lemma_nat_repr_value(bs.len() as int);
                        assert(gd.subrange(at as int, j as int) == r);
                        assert(part =~= r.take(k + 1 - at)) by {
                            assert(forall|i: int|
                                0 <= i < r.len() ==> #[trigger] r[i] == gd[at + i]);
                        }
                        crate::decimal::lemma_digits_value_prefix(r, k + 1 - at);
                        assert(bs.len() >= next);
                        assert(j2 == j + 1 + bs.len() && j2 <= gd.len());
                        assert(bs.len() <= remaining);
                        assert(false);
                    }
                }
            }
            return Err(DecodeError::MalformedString(StringFault::LengthExceedsBuffer));
        }
        acc = next;
        k = k + 1;
    }
    let l = acc as usize;
    let start = j + 1;
    let mut s: Vec<u8> = Vec::new();
    let mut m = start;
    while m < start + l
        invariant
            start + l <= len,
            start <= m <= start + l,
            s@ =~= gd.subrange(start as int, m as int),
        decreases start + l - m,
    {
        s.push(data[m]);
        proof {
            assert(s@ =~= gd.subrange(start as int, m as int + 1));
        }
        m = m + 1;
    }
    proof {
        let digits = gd.subrange(at as int, j as int);
        assert(digits.len() > 1 ==> digits[0] != DIGIT_ZERO) by {
            assert(digits[0] == gd[at as int]);
        }
        crate::decimal::lemma_canonical_digits(digits);
        assert(digits == nat_repr(acc as int));
        assert(s@.len() == l);
        assert(gd.subrange(at as int, (start + l) as int) =~= digits + seq![COLON] + s@) by {
            assert(forall|i: int| 0 <= i < digits.len() ==> digits[i] == gd[at + i]);
            assert(forall|i: int| 0 <= i < s@.len() ==> s@[i] == gd[start + i]);
        }
        assert(encoded(BValue::Bytes(s@)) == nat_repr(s@.len() as int) + seq![COLON] + s@);
    }
    Ok((s, start + l))
}

/// Parses values at `at` until a terminator byte, consuming it. Used for
/// the body of a list; a dictionary goes through [`decode_dictionary`].
#[verifier::loop_isolation(false)]
#[verifier::rlimit(60)]
#[verifier::spinoff_prover]
fn decode_partial_list(data: &Vec<u8>, at: usize, allow: usize) -> (r: Result<
    (Vec<Bencode>, usize),
    DecodeError,
>)
    requires
        at <= data.len(),
    ensures
        match r {
            Ok((items, j)) => {
                &&& at < j <= data.len()
                &&& list_parse(data@, at as int, items_view(items@), j as int, allow as nat)
            },
            Err(_) => forall|ws: Seq<BValue>, j2: int|
                !list_parse(data@, at as int, ws, j2, allow as nat),
        },
    decreases data.len() - at, 1int,
{
    let ghost gd = data@;
    let len = data.len();
    let mut items: Vec<Bencode> = Vec::new();
    let mut cur = at;
    proof {
        assert(items_view(items@) =~= Seq::<BValue>::empty());
        assert(gd.subrange(at as int, at as int) =~= encoded_list(items_view(items@)));
        assert forall|ws: Seq<BValue>, j2: int|
            list_parse(gd, at as int, ws, j2, allow as nat) implies {
            &&& ws.len() >= items@.len()
            &&& ws.take(items@.len() as int) == items_view(items@)
            &&& list_parse(gd, cur as int, ws.skip(items@.len() as int), j2, allow as nat)
        } by {
            assert(ws.take(0) =~= items_view(items@));
            assert(ws.skip(0) =~= ws);
        }
    }
    loop
        invariant
            at <= cur <= len,
            gd.subrange(at as int, cur as int) == encoded_list(items_view(items@)),
            items_view(items@).len() == items@.len(),
            forall|i: int|
                0 <= i < items@.len() ==> canonical(value_view(#[trigger] items@[i])),
            forall|i: int|
                0 <= i < items@.len() ==> depth(value_view(#[trigger] items@[i])) <= allow,
            forall|ws: Seq<BValue>, j2: int|
                #![trigger list_parse(gd, at as int, ws, j2, allow as nat)]
                list_parse(gd, at as int, ws, j2, allow as nat) ==> {
                    &&& ws.len() >= items@.len()
                    &&& ws.take(items@.len() as int) == items_view(items@)
                    &&& list_parse(gd, cur as int, ws.skip(items@.len() as int), j2, allow as nat)
                },
        decreases len - cur,
    {
        let ghost k = items@.len() as int;
        let ghost iv = items_view(items@);
        if cur == len {
            proof {
                assert forall|ws: Seq<BValue>, j2: int| !list_parse(
                    gd,
                    at as int,
                    ws,
                    j2,
                    allow as nat,
                ) by {
                    if list_parse(gd, at as int, ws, j2, allow as nat) {
                        let tail = ws.skip(k);
                        if tail.len() == 0 {
                            crate::model::lemma_list_parse_empty(
                                gd, cur as int, tail, j2, allow as nat);
                        } else {
                            crate::model::lemma_list_parse_decomp(
                                gd, cur as int, tail, j2, allow as nat);
                        }
                        assert(false);
                    }
                }
            }
            return Err(DecodeError::MalformedContainer);
        }
        if data[cur] == TAG_END {
            proof {
                lemma_items_view_index(items@);
                assert(gd.subrange(at as int, cur + 1) =~= encoded_list(iv) + seq![TAG_END]) by {
                    assert(forall|i: int|
                        0 <= i < cur - at ==> #[trigger] gd.subrange(at as int, cur + 1)[i]
                            == gd.subrange(at as int, cur as int)[i]);
                    assert(gd.subrange(at as int, cur + 1)[cur - at] == gd[cur as int]);
                }
            }
            return Ok((items, cur + 1));
        }
        let res = decode_bencoded_bytes(data, cur, allow);
        match res {
            Err(e) => {
                proof {
                    assert forall|ws: Seq<BValue>, j2: int| !list_parse(
                        gd,
                        at as int,
                        ws,
                        j2,
                        allow as nat,
                    ) by {
                        if list_parse(gd, at as int, ws, j2, allow as nat) {
                            let tail = ws.skip(k);
                            if tail.len() == 0 {
                                crate::model::lemma_list_parse_empty(
                                    gd, cur as int, tail, j2, allow as nat);
                            } else {
                                crate::model::lemma_list_parse_decomp(
                                    gd, cur as int, tail, j2, allow as nat);
                            }
                            assert(false);
                        }
                    }
                }
                return Err(e);
            },
            Ok((b, nxt)) => {
                proof {
                    let bv = value_view(b);
                    lemma_items_view_push(items@, b);
                    crate::model::lemma_encoded_list_snoc(iv, bv);
                    crate::model::lemma_subrange_concat(gd, at as int, cur as int, nxt as int);
                    assert(gd.subrange(at as int, nxt as int) == encoded_list(iv.push(bv)));
                    assert forall|ws: Seq<BValue>, j2: int|
                        list_parse(gd, at as int, ws, j2, allow as nat) implies {
                        &&& ws.len() >= k + 1
                        &&& ws.take(k + 1) == iv.push(bv)
                        &&& list_parse(gd, nxt as int, ws.skip(k + 1), j2, allow as nat)
                    } by {
                        let tail = ws.skip(k);
                        if tail.len() == 0 {
                            crate::model::lemma_list_parse_empty(
                                gd, cur as int, tail, j2, allow as nat);
                            assert(false);
                        }
                        crate::model::lemma_list_parse_decomp(
                            gd, cur as int, tail, j2, allow as nat);
                        crate::model::lemma_parse_unique(
                            gd,
                            cur as int,
                            tail[0],
                            cur + encoded(tail[0]).len(),
                            bv,
                            nxt as int,
                        );
                        assert(ws.take(k + 1) =~= iv.push(bv)) by {
                            assert(ws.take(k) == iv);
                            assert(forall|i: int|
                                0 <= i < k ==> #[trigger] ws.take(k + 1)[i] == ws.take(k)[i]);
                            assert(ws.take(k + 1)[k] == ws[k]);
                            assert(ws[k] == tail[0]);
                        }
                        assert(ws.skip(k + 1) =~= tail.drop_first());
                    }
                }
                items.push(b);
                cur = nxt;
            },
        }
    }
}

/// Parses key/value pairs at `at` until a terminator byte, consuming it.
/// Keys must be byte strings in strictly increasing byte-wise order; a
/// value-less key and a non-string key are typed errors of their own.
#[verifier::loop_isolation(false)]
#[verifier::rlimit(100)]
#[verifier::spinoff_prover]
fn decode_dictionary(data: &Vec<u8>, at: usize, allow: usize) -> (r: Result<
    (Vec<(Vec<u8>, Bencode)>, usize),
    DecodeError,
>)
    requires
        at <= data.len(),
    ensures
        match r {
            Ok((ps, j)) => {
                &&& at < j <= data.len()
                &&& pairs_parse(data@, at as int, pairs_view(ps@), j as int, allow as nat)
            },
            Err(_) => forall|qs: Seq<(Seq<u8>, BValue)>, j2: int|
                !pairs_parse(data@, at as int, qs, j2, allow as nat),
        },
    decreases data.len() - at, 1int,
{
    let ghost gd = data@;
    let len = data.len();
    let mut pairs: Vec<(Vec<u8>, Bencode)> = Vec::new();
    let mut cur = at;
    proof {
        assert(pairs_view(pairs@) =~= Seq::<(Seq<u8>, BValue)>::empty());
        assert(gd.subrange(at as int, at as int) =~= encoded_pairs(pairs_view(pairs@)));
        assert forall|qs: Seq<(Seq<u8>, BValue)>, j2: int|
            pairs_parse(gd, at as int, qs, j2, allow as nat) implies {
            &&& qs.len() >= pairs@.len()
            &&& qs.take(pairs@.len() as int) == pairs_view(pairs@)
            &&& pairs_parse(gd, cur as int, qs.skip(pairs@.len() as int), j2, allow as nat)
        } by {
            assert(qs.take(0) =~= pairs_view(pairs@));
            assert(qs.skip(0) =~= qs);
        }
    }
    loop
        invariant
            at <= cur <= len,
            gd.subrange(at as int, cur as int) == encoded_pairs(pairs_view(pairs@)),
            pairs_view(pairs@).len() == pairs@.len(),
            keys_sorted(pairs_view(pairs@)),
            forall|i: int|
                0 <= i < pairs@.len() ==> canonical(value_view((#[trigger] pairs@[i]).1)),
            forall|i: int|
                0 <= i < pairs@.len() ==> depth(value_view((#[trigger] pairs@[i]).1)) <= allow,
            forall|i: int|
                0 <= i < pairs@.len() ==> #[trigger] pairs_view(pairs@)[i] == (pairs@[i].0@,
                value_view(pairs@[i].1)),
            forall|qs: Seq<(Seq<u8>, BValue)>, j2: int|
                #![trigger pairs_parse(gd, at as int, qs, j2, allow as nat)]
                pairs_parse(gd, at as int, qs, j2, allow as nat) ==> {
                    &&& qs.len() >= pairs@.len()
                    &&& qs.take(pairs@.len() as int) == pairs_view(pairs@)
                    &&& pairs_parse(
                        gd,
                        cur as int,
                        qs.skip(pairs@.len() as int),
                        j2,
                        allow as nat,
                    )
                },
        decreases len - cur,
    {
        let ghost k = pairs@.len() as int;
        let ghost pv = pairs_view(pairs@);
        if cur == len {
            proof {
                assert forall|qs: Seq<(Seq<u8>, BValue)>, j2: int| !pairs_parse(
                    gd,
                    at as int,
                    qs,
                    j2,
                    allow as nat,
                ) by {
                    if pairs_parse(gd, at as int, qs, j2, allow as nat) {
                        let tail = qs.skip(k);
                        if tail.len() == 0 {
                            crate::model::lemma_pairs_parse_empty(
                                gd, cur as int, tail, j2, allow as nat);
                        } else {
                            crate::model::lemma_pairs_parse_decomp(
                                gd, cur as int, tail, j2, allow as nat);
                        }
                        assert(false);
                    }
                }
            }
            return Err(DecodeError::MalformedContainer);
        }
        if data[cur] == TAG_END {
            proof {
                lemma_pairs_view_index(pairs@);
                assert(gd.subrange(at as int, cur + 1) =~= encoded_pairs(pv) + seq![TAG_END]) by {
                    assert(forall|i: int|
                        0 <= i < cur - at ==> #[trigger] gd.subrange(at as int, cur + 1)[i]
                            == gd.subrange(at as int, cur as int)[i]);
                    assert(gd.subrange(at as int, cur + 1)[cur - at] == gd[cur as int]);
                }
            }
            return Ok((pairs, cur + 1));
        }
        let kres = decode_bencoded_bytes(data, cur, allow);
        let (kb, knxt) = match kres {
            Err(e) => {
                proof {
                    assert forall|qs: Seq<(Seq<u8>, BValue)>, j2: int| !pairs_parse(
                        gd,
                        at as int,
                        qs,
                        j2,
                        allow as nat,
                    ) by {
                        if pairs_parse(gd, at as int, qs, j2, allow as nat) {
                            let tail = qs.skip(k);
                            if tail.len() == 0 {
                                crate::model::lemma_pairs_parse_empty(
                                    gd, cur as int, tail, j2, allow as nat);
                            } else {
                                crate::model::lemma_pairs_parse_decomp(
                                    gd, cur as int, tail, j2, allow as nat);
                                if allow == 0 {
                                    assert(depth(tail[0].1) >= 1) by {
                                        match tail[0].1 {
                                            BValue::Int(_) => {},
                                            BValue::Bytes(_) => {},
                                            BValue::List(_) => {},
                                            BValue::Dict(_) => {},
                                        }
                                    }
                                }
                            }
                            assert(false);
                        }
                    }
                }
                return Err(e);
            },
            Ok(p) => p,
        };
        // in any candidate parse, the head pair's key is exactly this string
        proof {
            assert(depth(value_view(kb)) >= 1) by {
                match kb {
                    Bencode::Integer(_) => {},
                    Bencode::String(_) => {},
                    Bencode::List(_) => {},
                    Bencode::Dictionary(_) => {},
                }
            }
            assert forall|qs: Seq<(Seq<u8>, BValue)>, j2: int|
                pairs_parse(gd, at as int, qs, j2, allow as nat) implies {
                &&& qs.skip(k).len() > 0
                &&& value_view(kb) == BValue::Bytes(qs.skip(k)[0].0)
                &&& knxt == cur + encoded(BValue::Bytes(qs.skip(k)[0].0)).len()
            } by {
                let tail = qs.skip(k);
                if tail.len() == 0 {
                    crate::model::lemma_pairs_parse_empty(gd, cur as int, tail, j2, allow as nat);
                    assert(false);
                }
                crate::model::lemma_pairs_parse_decomp(gd, cur as int, tail, j2, allow as nat);
                crate::model::lemma_parse_unique(
                    gd,
                    cur as int,
                    BValue::Bytes(tail[0].0),
                    cur + encoded(BValue::Bytes(tail[0].0)).len(),
                    value_view(kb),
                    knxt as int,
                );
            }
        }
        let kvec = match kb {
            Bencode::String(kvec) => kvec,
            _ => {
                proof {
                    assert forall|qs: Seq<(Seq<u8>, BValue)>, j2: int| !pairs_parse(
                        gd,
                        at as int,
                        qs,
                        j2,
                        allow as nat,
                    ) by {
                        if pairs_parse(gd, at as int, qs, j2, allow as nat) {
                            assert(value_view(kb) is Bytes);
                            assert(false);
                        }
                    }
                }
                return Err(DecodeError::InvalidDictionaryKey);
            },
        };
        proof {
            assert(value_view(kb) == BValue::Bytes(kvec@));
        }
        if pairs.len() > 0 {
            let idx = pairs.len() - 1;
            let sorted_ok = key_less(&pairs[idx].0, &kvec);
            if !sorted_ok {
                proof {
                    assert forall|qs: Seq<(Seq<u8>, BValue)>, j2: int| !pairs_parse(
                        gd,
                        at as int,
                        qs,
                        j2,
                        allow as nat,
                    ) by {
                        if pairs_parse(gd, at as int, qs, j2, allow as nat) {
                            assert(qs[k - 1] == pv[k - 1]) by {
                                assert(qs.take(k)[k - 1] == qs[k - 1]);
                            }
                            assert(qs[k] == qs.skip(k)[0]);
                            assert(lex_lt(qs[k - 1].0, qs[k].0));
                            assert(pv[k - 1] == (pairs@[k - 1].0@, value_view(pairs@[k - 1].1)));
                            assert(qs[k].0 == kvec@);
                            assert(false);
                        }
                    }
                }
                return Err(DecodeError::UnsortedDictionaryKeys);
            }
        }
        if knxt == len {
            proof {
                assert forall|qs: Seq<(Seq<u8>, BValue)>, j2: int| !pairs_parse(
                    gd,
                    at as int,
                    qs,
                    j2,
                    allow as nat,
                ) by {
                    if pairs_parse(gd, at as int, qs, j2, allow as nat) {
                        let tail = qs.skip(k);
                        crate::model::lemma_pairs_parse_decomp(
                            gd, cur as int, tail, j2, allow as nat);
                        assert(false);
                    }
                }
            }
            return Err(DecodeError::MalformedContainer);
        }
        if data[knxt] == TAG_END {
            proof {
                assert forall|qs: Seq<(Seq<u8>, BValue)>, j2: int| !pairs_parse(
                    gd,
                    at as int,
                    qs,
                    j2,
                    allow as nat,
                ) by {
                    if pairs_parse(gd, at as int, qs, j2, allow as nat) {
                        let tail = qs.skip(k);
                        crate::model::lemma_pairs_parse_decomp(
                            gd, cur as int, tail, j2, allow as nat);
                        crate::model::lemma_encoded_shape(tail[0].1);
                        let ke = encoded(BValue::Bytes(tail[0].0));
                        let ve = encoded(tail[0].1);
                        assert(gd.subrange(cur + ke.len(), cur + ke.len() + ve.len()) == ve);
                        assert(gd[knxt as int] == ve[0]) by {
                            assert(gd.subrange(
                                cur + ke.len(),
                                cur + ke.len() + ve.len(),
                            )[0] == gd[cur + ke.len()]);
                        }
                        assert(false);
                    }
                }
            }
            return Err(DecodeError::DictionaryOddElementCount);
        }
        let vres = decode_bencoded_bytes(data, knxt, allow);
        let (vb, vnxt) = match vres {
            Err(e) => {
                proof {
                    assert forall|qs: Seq<(Seq<u8>, BValue)>, j2: int| !pairs_parse(
                        gd,
                        at as int,
                        qs,
                        j2,
                        allow as nat,
                    ) by {
                        if pairs_parse(gd, at as int, qs, j2, allow as nat) {
                            let tail = qs.skip(k);
                            crate::model::lemma_pairs_parse_decomp(
                                gd, cur as int, tail, j2, allow as nat);
                            assert(false);
                        }
                    }
                }
                return Err(e);
            },
            Ok(p) => p,
        };
        proof {
            let bv = value_view(vb);
            let kview = kvec@;
            lemma_pairs_view_push(pairs@, (kvec, vb));
            crate::model::lemma_encoded_pairs_snoc(pv, (kview, bv));
            crate::model::lemma_subrange_concat(gd, at as int, cur as int, knxt as int);
            crate::model::lemma_subrange_concat(gd, at as int, knxt as int, vnxt as int);
            assert(gd.subrange(cur as int, knxt as int) == bytes_encoded(kview)) by {
                assert(encoded(BValue::Bytes(kview)) == bytes_encoded(kview));
            }
            assert(gd.subrange(at as int, vnxt as int) == encoded_pairs(pv.push((kview, bv))))
                by {
                assert(gd.subrange(at as int, vnxt as int) == (encoded_pairs(pv) + bytes_encoded(
                    kview,
                )) + encoded(bv));
                assert((encoded_pairs(pv) + bytes_encoded(kview)) + encoded(bv) =~= encoded_pairs(
                    pv,
                ) + bytes_encoded(kview) + encoded(bv));
            }
            assert(keys_sorted(pv.push((kview, bv)))) by {
                assert(forall|i: int|
                    0 <= i < k ==> #[trigger] pv.push((kview, bv))[i] == pv[i]);
                assert(pv.push((kview, bv))[k as int] == (kview, bv));
                if k > 0 {
                    assert(pv[k - 1] == (pairs@[k - 1].0@, value_view(pairs@[k - 1].1)));
                    assert(lex_lt(pv[k - 1].0, kview));
                }
            }
            assert forall|qs: Seq<(Seq<u8>, BValue)>, j2: int|
                pairs_parse(gd, at as int, qs, j2, allow as nat) implies {
                &&& qs.len() >= k + 1
                &&& qs.take(k + 1) == pv.push((kview, bv))
                &&& pairs_parse(gd, vnxt as int, qs.skip(k + 1), j2, allow as nat)
            } by {
                let tail = qs.skip(k);
                crate::model::lemma_pairs_parse_decomp(gd, cur as int, tail, j2, allow as nat);
                let ke = encoded(BValue::Bytes(tail[0].0));
                let ve = encoded(tail[0].1);
                crate::model::lemma_parse_unique(
                    gd,
                    knxt as int,
                    tail[0].1,
                    cur + ke.len() + ve.len(),
                    bv,
                    vnxt as int,
                );
                assert(tail[0].1 == bv && cur + ke.len() + ve.len() == vnxt);
                assert(tail[0].0 == kview);
                assert(tail[0] == (kview, bv));
                assert(qs.take(k + 1) =~= pv.push((kview, bv))) by {
                    assert(qs.take(k) == pv);
                    assert(forall|i: int|
                        0 <= i < k ==> #[trigger] qs.take(k + 1)[i] == qs.take(k)[i]);
                    assert(qs.take(k + 1)[k] == qs[k]);
                    assert(qs[k] == tail[0]);
                }
                assert(qs.skip(k + 1) =~= tail.drop_first());
            }
        }
        pairs.push((kvec, vb));
        cur = vnxt;
    }
}
/// Parses one value at `at`, dispatching on the tag byte. `allow` bounds
/// the nesting depth that may still be opened; on success the span
/// `at..j` is exactly the value's canonical wire form, and on failure no
/// canonical value of depth at most `allow` starts at `at`.
fn decode_bencoded_bytes(data: &Vec<u8>, at: usize, allow: usize) -> (r: Result<
    (Bencode, usize),
    DecodeError,
>)
    ensures
        match r {
            Ok((b, j)) => {
                &&& at < j <= data.len()
                &&& canonical(b@)
                &&& depth(b@) <= allow
                &&& data@.subrange(at as int, j as int) == encoded(b@)
            },
            Err(_) => forall|u: BValue, j2: int|
                !parse_with(data@, at as int, u, j2, allow as nat),
        },
    decreases data.len() - at, 0int,
{
    let ghost gd = data@;
    let len = data.len();
    if at >= len {
        proof {
            assert forall|u: BValue, j2: int| !parse_with(gd, at as int, u, j2, allow as nat) by {
                if parse_with(gd, at as int, u, j2, allow as nat) {
                    crate::model::lemma_encoded_shape(u);
                    assert(j2 == at);
                    assert(gd.subrange(at as int, j2).len() == 0);
                }
            }
        }
        return Err(DecodeError::EmptyInput);
    }
    if allow == 0 {
        proof {
            assert forall|u: BValue, j2: int| !parse_with(gd, at as int, u, j2, allow as nat) by {
                if parse_with(gd, at as int, u, j2, allow as nat) {
                    assert(depth(u) >= 1) by {
                        match u {
                            BValue::Int(_) => {},
                            BValue::Bytes(_) => {},
                            BValue::List(_) => {},
                            BValue::Dict(_) => {},
                        }
                    }
                }
            }
        }
        return Err(DecodeError::DepthLimitExceeded);
    }
    let tag = data[at];
    if tag == TAG_INT {
        match decode_integer(data, at) {
            Ok((n, j)) => {
                proof {
                    assert(value_view(Bencode::Integer(n)) == BValue::Int(n as int));
                }
                Ok((Bencode::Integer(n), j))
            },
            Err(e) => {
                proof {
                    assert forall|u: BValue, j2: int| !parse_with(
                        gd,
                        at as int,
                        u,
                        j2,
                        allow as nat,
                    ) by {
                        if parse_with(gd, at as int, u, j2, allow as nat) {
                            crate::model::lemma_encoded_shape(u);
                            assert(gd.subrange(at as int, j2)[0] == gd[at as int]);
                            assert(u is Int);
                            assert(u == BValue::Int(u->Int_0));
                        }
                    }
                }
                Err(e)
            },
        }
    } else if tag >= DIGIT_ZERO && tag <= DIGIT_ZERO + 9 {
        match decode_string(data, at) {
            Ok((s, j)) => {
                proof {
                    assert(value_view(Bencode::String(s)) == BValue::Bytes(s@));
                }
                Ok((Bencode::String(s), j))
            },
            Err(e) => {
                proof {
                    assert forall|u: BValue, j2: int| !parse_with(
                        gd,
                        at as int,
                        u,
                        j2,
                        allow as nat,
                    ) by {
                        if parse_with(gd, at as int, u, j2, allow as nat) {
                            crate::model::lemma_encoded_shape(u);
                            assert(gd.subrange(at as int, j2)[0] == gd[at as int]);
                            assert(is_digit(gd[at as int]));
                            assert(u is Bytes);
                            assert(encoded(u) == bytes_encoded(u->Bytes_0));
                        }
                    }
                }
                Err(e)
            },
        }
    } else if tag == TAG_LIST {
        match decode_partial_list(data, at + 1, allow - 1) {
            Ok((items, j)) => {
                let b = Bencode::List(items);
                proof {
                    let iv = items_view(items@);
                    assert(b@ == BValue::List(iv));
                    crate::model::lemma_canonical_list_index(iv);
                    crate::model::lemma_depth_list_bound(iv, (allow - 1) as nat);
                    assert(gd.subrange(at as int, j as int) =~= seq![TAG_LIST] + (encoded_list(iv)
                        + seq![TAG_END])) by {
                        assert(gd.subrange(at as int, j as int)[0] == gd[at as int]);
                        assert(forall|i: int|
                            0 <= i < j - at - 1 ==> #[trigger] gd.subrange(at + 1, j as int)[i]
                                == gd[at + 1 + i]);
                        assert(forall|i: int|
                            0 <= i < j - at ==> #[trigger] gd.subrange(at as int, j as int)[i]
                                == gd[at + i]);
                    }
                    assert(encoded(b@) == seq![TAG_LIST] + (encoded_list(iv) + seq![TAG_END]))
                        by {
                        assert(seq![TAG_LIST] + encoded_list(iv) + seq![TAG_END] =~= seq![
                            TAG_LIST,
                        ] + (encoded_list(iv) + seq![TAG_END]));
                    }
                }
                Ok((b, j))
            },
            Err(e) => {
                proof {
                    assert forall|u: BValue, j2: int| !parse_with(
                        gd,
                        at as int,
                        u,
                        j2,
                        allow as nat,
                    ) by {
                        if parse_with(gd, at as int, u, j2, allow as nat) {
                            crate::model::lemma_encoded_shape(u);
                            assert(gd.subrange(at as int, j2)[0] == gd[at as int]);
                            assert(u is List);
                            let ws = u->List_0;
                            assert(encoded(u) == seq![TAG_LIST] + (encoded_list(ws) + seq![
                                TAG_END,
                            ])) by {
                                assert(seq![TAG_LIST] + encoded_list(ws) + seq![TAG_END] =~= seq![
                                    TAG_LIST,
                                ] + (encoded_list(ws) + seq![TAG_END]));
                            }
                            crate::model::lemma_subrange_split(
                                gd,
                                at as int,
                                j2,
                                seq![TAG_LIST],
                                encoded_list(ws) + seq![TAG_END],
                            );
                            crate::model::lemma_canonical_list_index(ws);
                            crate::model::lemma_depth_list_index(ws);
                            assert(list_parse(gd, at + 1, ws, j2, (allow - 1) as nat));
                            assert(false);
                        }
                    }
                }
                Err(e)
            },
        }
    } else if tag == TAG_DICT {
        match decode_dictionary(data, at + 1, allow - 1) {
            Ok((ps, j)) => {
                let b = Bencode::Dictionary(ps);
                proof {
                    let pv = pairs_view(ps@);
                    assert(b@ == BValue::Dict(pv));
                    crate::model::lemma_canonical_pairs_index(pv);
                    crate::model::lemma_depth_pairs_bound(pv, (allow - 1) as nat);
                    assert(gd.subrange(at as int, j as int) =~= seq![TAG_DICT] + (encoded_pairs(pv)
                        + seq![TAG_END])) by {
                        assert(gd.subrange(at as int, j as int)[0] == gd[at as int]);
                        assert(forall|i: int|
                            0 <= i < j - at - 1 ==> #[trigger] gd.subrange(at + 1, j as int)[i]
                                == gd[at + 1 + i]);
                        assert(forall|i: int|
                            0 <= i < j - at ==> #[trigger] gd.subrange(at as int, j as int)[i]
                                == gd[at + i]);
                    }
                    assert(encoded(b@) == seq![TAG_DICT] + (encoded_pairs(pv) + seq![TAG_END]))
                        by {
                        assert(seq![TAG_DICT] + encoded_pairs(pv) + seq![TAG_END] =~= seq![
                            TAG_DICT,
                        ] + (encoded_pairs(pv) + seq![TAG_END]));
                    }
                }
                Ok((b, j))
            },
            Err(e) => {
                proof {
                    assert forall|u: BValue, j2: int| !parse_with(
                        gd,
                        at as int,
                        u,
                        j2,
                        allow as nat,
                    ) by {
                        if parse_with(gd, at as int, u, j2, allow as nat) {
                            crate::model::lemma_encoded_shape(u);
                            assert(gd.subrange(at as int, j2)[0] == gd[at as int]);
                            assert(u is Dict);
                            let qs = u->Dict_0;
                            assert(encoded(u) == seq![TAG_DICT] + (encoded_pairs(qs) + seq![
                                TAG_END,
                            ])) by {
                                assert(seq![TAG_DICT] + encoded_pairs(qs) + seq![TAG_END] =~= seq![
                                    TAG_DICT,
                                ] + (encoded_pairs(qs) + seq![TAG_END]));
                            }
                            crate::model::lemma_subrange_split(
                                gd,
                                at as int,
                                j2,
                                seq![TAG_DICT],
                                encoded_pairs(qs) + seq![TAG_END],
                            );
                            crate::model::lemma_canonical_pairs_index(qs);
                            crate::model::lemma_depth_pairs_index(qs);
                            assert(pairs_parse(gd, at + 1, qs, j2, (allow - 1) as nat));
                            assert(false);
                        }
                    }
                }
                Err(e)
            },
        }
    } else {
        proof {
            assert forall|u: BValue, j2: int| !parse_with(gd, at as int, u, j2, allow as nat) by {
                if parse_with(gd, at as int, u, j2, allow as nat) {
                    crate::model::lemma_encoded_shape(u);
                    assert(gd.subrange(at as int, j2)[0] == gd[at as int]);
                }
            }
        }
        Err(DecodeError::UnknownTag)
    }
}

/// Decodes a complete buffer into a value tree, accepting exactly the
/// canonical wire form of one value of bounded nesting depth: the result
/// is `Ok` precisely when such a value exists, and it is that value. The
/// whole input must be consumed; empty input and trailing bytes are their
/// own errors.
pub fn decode(data: Vec<u8>) -> (r: Result<Bencode, DecodeError>)
    ensures
        match r {
            Ok(b) => {
                &&& canonical(b@)
                &&& depth(b@) <= MAX_NESTING_DEPTH
                &&& encoded(b@) == data@
            },
            Err(_) => forall|u: BValue|
                !(canonical(u) && depth(u) <= MAX_NESTING_DEPTH && encoded(u) == data@),
        },
        data@.len() == 0 ==> r == Err::<Bencode, DecodeError>(DecodeError::EmptyInput),
{
    let ghost gd = data@;
    let len = data.len();
    if len == 0 {
        proof {
            assert forall|u: BValue| !(canonical(u) && depth(u) <= MAX_NESTING_DEPTH && encoded(u)
                == gd) by {
                crate::model::lemma_encoded_shape(u);
            }
        }
        return Err(DecodeError::EmptyInput);
    }
    match decode_bencoded_bytes(&data, 0, MAX_NESTING_DEPTH) {
        Err(e) => {
            proof {
                assert forall|u: BValue| !(canonical(u) && depth(u) <= MAX_NESTING_DEPTH
                    && encoded(u) == gd) by {
                    if canonical(u) && depth(u) <= MAX_NESTING_DEPTH && encoded(u) == gd {
                        assert(gd.subrange(0, len as int) =~= gd);
                        assert(parse_with(gd, 0, u, len as int, MAX_NESTING_DEPTH as nat));
                    }
                }
            }
            Err(e)
        },
        Ok((b, j)) => {
            if j < len {
                proof {
                    assert forall|u: BValue| !(canonical(u) && depth(u) <= MAX_NESTING_DEPTH
                        && encoded(u) == gd) by {
                        if canonical(u) && depth(u) <= MAX_NESTING_DEPTH && encoded(u) == gd {
                            crate::model::lemma_subrange_concat(gd, 0, j as int, len as int);
                            assert(gd.subrange(0, len as int) =~= gd);
                            assert(encoded(b@) + gd.subrange(j as int, len as int) == encoded(u)
                                + Seq::<u8>::empty()) by {
                                assert(encoded(u) + Seq::<u8>::empty() =~= encoded(u));
                            }
                            crate::model::lemma_prefix_free(
                                b@,
                                u,
                                gd.subrange(j as int, len as int),
                                Seq::empty(),
                            );
                            assert(gd.subrange(j as int, len as int).len() == 0);
                        }
                    }
                }
                Err(DecodeError::ExtraTrailingData)
            } else {
                proof {
                    assert(gd.subrange(0, len as int) =~= gd);
                }
                Ok(b)
            }
        },
    }
}

/// Appends the bytes of `src` to `out`.
#[verifier::loop_isolation(false)]
fn append_bytes(out: &mut Vec<u8>, src: &Vec<u8>)
    ensures
        final(out)@ == old(out)@ + src@,
{
    let ghost base = out@;
    let mut i: usize = 0;
    while i < src.len()
        invariant
            i <= src.len(),
            out@ =~= base + src@.take(i as int),
        decreases src.len() - i,
    {
        out.push(src[i]);
        proof {
            assert(src@.take(i + 1) =~= src@.take(i as int).push(src@[i as int]));
            assert(out@ =~= base + src@.take(i + 1));
        }
        i = i + 1;
    }
    proof {
        assert(src@.take(src@.len() as int) =~= src@);
    }
}

/// Appends the minimal decimal form of `n` to `out`.
#[verifier::loop_isolation(false)]
fn encode_u64(n: u64, out: &mut Vec<u8>)
    ensures
        final(out)@ == old(out)@ + nat_repr(n as int),
{
    if n == 0 {
        out.push(DIGIT_ZERO);
        proof {
            assert(final(out)@ =~= old(out)@ + nat_repr(0));
        }
        return;
    }
    let mut digits: Vec<u8> = Vec::new();
    let mut m = n;
    proof {
        assert(dec_digits(n as int) =~= dec_digits(m as int) + digits@);
    }
    while m > 0
        invariant
            dec_digits(n as int) =~= dec_digits(m as int) + digits@,
        decreases m,
    {
        let d = (m % 10) as u8 + DIGIT_ZERO;
        let ghost before = digits@;
        digits.insert(0, d);
        proof {
            assert(digits@ =~= seq![d] + before);
            assert(dec_digits(m as int) == dec_digits(m as int / 10).push(d));
            assert(dec_digits(m as int / 10).push(d) + before =~= dec_digits(m as int / 10) + (
            seq![d] + before));
            assert((m / 10) as int == m as int / 10);
        }
        m = m / 10;
    }
    proof {
        assert(dec_digits(0) =~= Seq::<u8>::empty());
        assert(Seq::<u8>::empty() + digits@ =~= digits@);
        assert(digits@ == dec_digits(n as int));
        assert(nat_repr(n as int) == dec_digits(n as int));
    }
    append_bytes(out, &digits);
}

/// Appends `i<decimal>e` to `out`.
fn encode_integer(n: i64, out: &mut Vec<u8>)
    ensures
        final(out)@ == old(out)@ + encoded(BValue::Int(n as int)),
{
    let ghost base = out@;
    out.push(TAG_INT);
    if n < 0 {
        out.push(MINUS);
        let mag: u64 = if n == i64::MIN {
            9223372036854775808
        } else {
            (-n) as u64
        };
        encode_u64(mag, out);
        proof {
            assert(mag as int == -(n as int));
            assert(int_repr(n as int) == seq![MINUS] + nat_repr(mag as int));
            assert(out@ =~= base + seq![TAG_INT] + int_repr(n as int));
        }
    } else {
        encode_u64(n as u64, out);
        proof {
            assert(int_repr(n as int) == nat_repr(n as int));
            assert(out@ =~= base + seq![TAG_INT] + int_repr(n as int));
        }
    }
    out.push(TAG_END);
    proof {
        assert(final(out)@ =~= base + (seq![TAG_INT] + int_repr(n as int) + seq![TAG_END]));
    }
}

/// Appends `<decimal length>:<bytes>` to `out`.
fn encode_bytestring(s: &Vec<u8>, out: &mut Vec<u8>)
    ensures
        final(out)@ == old(out)@ + bytes_encoded(s@),
{
    let ghost base = out@;
    encode_u64(s.len() as u64, out);
    out.push(COLON);
    append_bytes(out, s);
    proof {
        assert(s.len() as u64 as int == s@.len() as int);
        assert(final(out)@ =~= base + bytes_encoded(s@));
    }
}

/// Emits a dictionary whose stored pairs are already in canonical order.
#[verifier::loop_isolation(false)]
#[verifier::rlimit(60)]
#[verifier::spinoff_prover]
fn encode_sorted_dictionary(ps: &Vec<(Vec<u8>, Bencode)>) -> (r: Vec<u8>)
    ensures
        canonical(BValue::Dict(pairs_view(ps@))) ==> r@ == encoded(BValue::Dict(pairs_view(ps@))),
    decreases ps,
{
    let ghost pv = pairs_view(ps@);
    proof {
        lemma_pairs_view_index(ps@);
    }
    let mut out: Vec<u8> = Vec::new();
    out.push(TAG_DICT);
    proof {
        assert(pv.take(0) =~= Seq::<(Seq<u8>, BValue)>::empty());
        assert(encoded_pairs(pv.take(0)) =~= Seq::<u8>::empty());
        assert(out@ =~= seq![TAG_DICT] + encoded_pairs(pv.take(0)));
    }
    let mut t: usize = 0;
    while t < ps.len()
        invariant
            t <= ps.len(),
            canonical(BValue::Dict(pv)) ==> out@ == seq![TAG_DICT] + encoded_pairs(
                pv.take(t as int),
            ),
        decreases ps.len() - t,
    {
        encode_bytestring(&ps[t].0, &mut out);
        let sub = encode(&ps[t].1);
        append_bytes(&mut out, &sub);
        proof {
            if canonical(BValue::Dict(pv)) {
                crate::model::lemma_canonical_pairs_index(pv);
                assert(canonical(pv[t as int].1));
                assert(sub@ == encoded(pv[t as int].1));
                crate::model::lemma_encoded_pairs_snoc(pv.take(t as int), pv[t as int]);
                assert(pv.take(t + 1) =~= pv.take(t as int).push(pv[t as int]));
                assert(pv[t as int].0 == ps@[t as int].0@);
                assert(out@ =~= seq![TAG_DICT] + encoded_pairs(pv.take(t + 1)));
            }
        }
        t = t + 1;
    }
    out.push(TAG_END);
    proof {
        if canonical(BValue::Dict(pv)) {
            assert(pv.take(ps@.len() as int) =~= pv);
            assert(out@ =~= seq![TAG_DICT] + encoded_pairs(pv) + seq![TAG_END]);
        }
    }
    out
}

/// Emits a dictionary whose stored pairs are out of order, sorting its
/// keys byte-wise first. Such a value is not canonical, so the encoder's
/// contract says nothing of the bytes; this path keeps the emitted form
/// sorted for callers that built the pairs by hand.
#[verifier::loop_isolation(false)]
fn encode_unsorted_dictionary(ps: &Vec<(Vec<u8>, Bencode)>) -> (r: Vec<u8>)
    decreases ps,
{
    let mut order: Vec<usize> = Vec::new();
    let mut kk: usize = 0;
    while kk < ps.len()
        invariant
            kk <= ps.len(),
            forall|t: int| 0 <= t < order@.len() ==> #[trigger] order@[t] < ps.len(),
        decreases ps.len() - kk,
    {
        let mut pos: usize = 0;
        while pos < order.len() && !key_less(&ps[kk].0, &ps[order[pos]].0)
            invariant
                pos <= order.len(),
                kk < ps.len(),
                forall|t: int| 0 <= t < order@.len() ==> #[trigger] order@[t] < ps.len(),
            decreases order.len() - pos,
        {
            pos = pos + 1;
        }
        order.insert(pos, kk);
        kk = kk + 1;
    }
    let mut out: Vec<u8> = Vec::new();
    out.push(TAG_DICT);
    let mut t: usize = 0;
    while t < order.len()
        invariant
            t <= order.len(),
            forall|q: int| 0 <= q < order@.len() ==> #[trigger] order@[q] < ps.len(),
        decreases order.len() - t,
    {
        let idx = order[t];
        encode_bytestring(&ps[idx].0, &mut out);
        let sub = encode(&ps[idx].1);
        append_bytes(&mut out, &sub);
        t = t + 1;
    }
    out.push(TAG_END);
    out
}

/// Encodes a value tree into bencode bytes, pure and deterministic. For a
/// [`canonical`] value the output is exactly its canonical wire form; a
/// dictionary whose stored pairs are out of order is still emitted with its
/// keys sorted byte-wise, never in storage order.
#[verifier::loop_isolation(false)]
#[verifier::rlimit(60)]
pub fn encode(b: &Bencode) -> (r: Vec<u8>)
    ensures
        canonical(b@) ==> r@ == encoded(b@),
    decreases b,
{
    match b {
        Bencode::Integer(n) => {
            let mut out: Vec<u8> = Vec::new();
            encode_integer(*n, &mut out);
            proof {
                assert(out@ =~= encoded(BValue::Int(*n as int)));
            }
            out
        },
        Bencode::String(s) => {
            let mut out: Vec<u8> = Vec::new();
            encode_bytestring(s, &mut out);
            proof {
                assert(out@ =~= bytes_encoded(s@));
            }
            out
        },
        Bencode::List(items) => {
            let mut out: Vec<u8> = Vec::new();
            out.push(TAG_LIST);
            let ghost iv = items_view(items@);
            proof {
                lemma_items_view_index(items@);
                assert(iv.take(0) =~= Seq::<BValue>::empty());
                assert(encoded_list(iv.take(0)) =~= Seq::<u8>::empty());
                assert(out@ =~= seq![TAG_LIST] + encoded_list(iv.take(0)));
            }
            let mut i: usize = 0;
            while i < items.len()
                invariant
                    i <= items.len(),
                    canonical(value_view(*b)) ==> out@ == seq![TAG_LIST] + encoded_list(
                        iv.take(i as int),
                    ),
                decreases items.len() - i,
            {
                let sub = encode(&items[i]);
                append_bytes(&mut out, &sub);
                proof {
                    if canonical(value_view(*b)) {
                        crate::model::lemma_canonical_list_index(iv);
                        assert(canonical(iv[i as int]));
                        assert(sub@ == encoded(iv[i as int]));
                        crate::model::lemma_encoded_list_snoc(iv.take(i as int), iv[i as int]);
                        assert(iv.take(i + 1) =~= iv.take(i as int).push(iv[i as int]));
                        assert(out@ =~= seq![TAG_LIST] + encoded_list(iv.take(i + 1)));
                    }
                }
                i = i + 1;
            }
            out.push(TAG_END);
            proof {
                if canonical(value_view(*b)) {
                    assert(iv.take(items@.len() as int) =~= iv);
                    assert(out@ =~= seq![TAG_LIST] + encoded_list(iv) + seq![TAG_END]);
                }
            }
            out
        },
        Bencode::Dictionary(ps) => {
            let ghost pv = pairs_view(ps@);
            proof {
                lemma_pairs_view_index(ps@);
            }
            // determine whether the stored pairs are already sorted
            let mut sorted = true;
            let mut i: usize = 1;
            while i < ps.len()
                invariant
                    1 <= i,
                    ps.len() > 0 ==> i <= ps.len(),
                    sorted ==> (forall|t: int|
                        0 <= t && t + 1 < i ==> lex_lt((#[trigger] pv[t]).0, pv[t + 1].0)),
                    !sorted ==> !keys_sorted(pv),
                decreases ps.len() - i,
            {
                if !key_less(&ps[i - 1].0, &ps[i].0) {
                    proof {
                        crate::model::lemma_lex_lt_trichotomy(pv[i - 1].0, pv[i as int].0);
                    }
                    sorted = false;
                }
                i = i + 1;
            }
            if sorted {
                encode_sorted_dictionary(ps)
            } else {
                proof {
                    assert(!canonical(value_view(*b)));
                }
                encode_unsorted_dictionary(ps)
            }
        },
    }
}

} // verus!
