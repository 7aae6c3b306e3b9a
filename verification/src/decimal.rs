//! Minimal decimal representations of integers, as byte sequences.
//!
//! The bencode wire format writes integers and string lengths in base 10
//! with no padding: no leading zeros (except the single digit `0`) and no
//! negative zero. This module defines that representation as a spec-level
//! function, proves it injective, and provides the facts the codec needs to
//! parse and print such numbers.

use vstd::prelude::*;

verus! {

/// ASCII `0`.
pub const DIGIT_ZERO: u8 = 48;

/// ASCII `-`.
pub const MINUS: u8 = 45;

pub open spec fn is_digit(b: u8) -> bool {
    48 <= b <= 57
}

pub open spec fn all_digits(s: Seq<u8>) -> bool {
    forall|i: int| 0 <= i < s.len() ==> is_digit(#[trigger] s[i])
}

/// The decimal digits of `n`, empty when `n <= 0`.
pub open spec fn dec_digits(n: int) -> Seq<u8>
    decreases n,
{
    if n <= 0 {
        Seq::empty()
    } else {
        dec_digits(n / 10).push((48 + n % 10) as u8)
    }
}

/// The minimal decimal representation of a non-negative number: `"0"` for
/// zero, otherwise its digits with no leading zero.
pub open spec fn nat_repr(n: int) -> Seq<u8> {
    if n <= 0 {
        seq![DIGIT_ZERO]
    } else {
        dec_digits(n)
    }
}

/// The minimal decimal representation of a signed number: a leading `-`
/// exactly for negative values, and never `-0`.
pub open spec fn int_repr(n: int) -> Seq<u8> {
    if n < 0 {
        seq![MINUS] + nat_repr(-n)
    } else {
        nat_repr(n)
    }
}

/// The number denoted by a sequence of decimal digits (most significant
/// first); meaningful when `all_digits(s)`.
pub open spec fn digits_value(s: Seq<u8>) -> int
    decreases s.len(),
{
    if s.len() == 0 {
        0
    } else {
        digits_value(s.drop_last()) * 10 + (s.last() - 48)
    }
}

pub proof fn lemma_dec_digits_shape(n: int)
    requires
        n >= 1,
    ensures
        dec_digits(n).len() >= 1,
        all_digits(dec_digits(n)),
        dec_digits(n)[0] != DIGIT_ZERO,
    decreases n,
{
    if n >= 10 {
        lemma_dec_digits_shape(n / 10);
        assert(dec_digits(n) == dec_digits(n / 10).push((48 + n % 10) as u8));
    } else {
        assert(dec_digits(n) == dec_digits(0).push((48 + n) as u8));
        assert(dec_digits(n) =~= seq![(48 + n) as u8]);
    }
}

pub proof fn lemma_nat_repr_shape(n: int)
    requires
        n >= 0,
    ensures
        nat_repr(n).len() >= 1,
        all_digits(nat_repr(n)),
        n == 0 ==> nat_repr(n) == seq![DIGIT_ZERO],
        n >= 1 ==> nat_repr(n)[0] != DIGIT_ZERO,
{
    if n >= 1 {
        lemma_dec_digits_shape(n);
    } else {
        assert(all_digits(seq![DIGIT_ZERO]));
    }
}

/// A minimal representation denotes the number it was built from.
pub proof fn lemma_dec_digits_value(n: int)
    requires
        n >= 0,
    ensures
        digits_value(dec_digits(n)) == n,
    decreases n,
{
    if n > 0 {
        lemma_dec_digits_value(n / 10);
        let s = dec_digits(n);
        assert(s == dec_digits(n / 10).push((48 + n % 10) as u8));
        assert(s.drop_last() =~= dec_digits(n / 10));
        assert(s.last() == (48 + n % 10) as u8);
    }
}

pub proof fn lemma_nat_repr_value(n: int)
    requires
        n >= 0,
    ensures
        digits_value(nat_repr(n)) == n,
{
    if n == 0 {
        assert(nat_repr(0) == seq![DIGIT_ZERO]);
        assert(digits_value(seq![DIGIT_ZERO]) == 0) by {
            assert(seq![DIGIT_ZERO].drop_last() =~= Seq::<u8>::empty());
            assert(digits_value(Seq::<u8>::empty()) == 0);
        }
    } else {
        lemma_dec_digits_value(n);
    }
}

pub proof fn lemma_digits_value_nonneg(s: Seq<u8>)
    requires
        all_digits(s),
    ensures
        digits_value(s) >= 0,
    decreases s.len(),
{
    if s.len() > 0 {
        assert(all_digits(s.drop_last())) by {
            assert(forall|i: int| 0 <= i < s.len() - 1 ==> s.drop_last()[i] == s[i]);
        }
        lemma_digits_value_nonneg(s.drop_last());
    }
}

/// A digit string with a non-zero leading digit denotes a positive number.
pub proof fn lemma_digits_value_pos(s: Seq<u8>)
    requires
        all_digits(s),
        s.len() >= 1,
        s[0] != DIGIT_ZERO,
    ensures
        digits_value(s) >= 1,
    decreases s.len(),
{
    if s.len() == 1 {
        assert(s.drop_last() =~= Seq::<u8>::empty());
        assert(digits_value(Seq::<u8>::empty()) == 0);
        assert(digits_value(s) == s[0] - 48);
    } else {
        let p = s.drop_last();
        assert(all_digits(p) && p.len() >= 1 && p[0] == s[0]) by {
            assert(forall|i: int| 0 <= i < s.len() - 1 ==> p[i] == s[i]);
        }
        lemma_digits_value_pos(p);
        assert(s.last() >= 48);
    }
}

/// Every digit string in canonical shape (non-empty, and with no leading
/// zero unless it is exactly `"0"`) is the minimal representation of the
/// number it denotes.
pub proof fn lemma_canonical_digits(s: Seq<u8>)
    requires
        all_digits(s),
        s.len() >= 1,
        s.len() > 1 ==> s[0] != DIGIT_ZERO,
    ensures
        s == nat_repr(digits_value(s)),
    decreases s.len(),
{
    let v = digits_value(s);
    if s.len() == 1 {
        assert(s.drop_last() =~= Seq::<u8>::empty());
        assert(digits_value(Seq::<u8>::empty()) == 0);
        assert(v == s[0] - 48);
        if s[0] == DIGIT_ZERO {
            assert(s =~= seq![DIGIT_ZERO]);
        } else {
            assert(1 <= v <= 9);
            assert(dec_digits(v) == dec_digits(0).push((48 + v) as u8));
            assert(s =~= dec_digits(v));
        }
    } else {
        let p = s.drop_last();
        assert(all_digits(p) && p.len() >= 1 && p[0] == s[0]) by {
            assert(forall|i: int| 0 <= i < s.len() - 1 ==> p[i] == s[i]);
        }
        lemma_digits_value_pos(p);
        lemma_canonical_digits(p);
        let w = digits_value(p);
        let d = s.last();
        assert(v == w * 10 + (d - 48));
        assert(w >= 1);
        assert(v >= 10);
        assert(v / 10 == w && v % 10 == d - 48) by {
            assert(0 <= d - 48 < 10);
            vstd::arithmetic::div_mod::lemma_fundamental_div_mod_converse(
                v, 10, w, (d - 48) as int);
        }
        assert(dec_digits(v) == dec_digits(w).push((48 + v % 10) as u8));
        assert(nat_repr(v) == p.push(d));
        assert(s =~= p.push(d));
    }
}

/// Appending digits never shrinks the denoted number.
pub proof fn lemma_digits_value_prefix(s: Seq<u8>, m: int)
    requires
        all_digits(s),
        0 <= m <= s.len(),
    ensures
        digits_value(s) >= digits_value(s.take(m)),
    decreases s.len() - m,
{
    if m < s.len() {
        let t = s.take(m + 1);
        assert(t.drop_last() =~= s.take(m));
        assert(all_digits(t)) by {
            assert(forall|i: int| 0 <= i < t.len() ==> t[i] == s[i]);
        }
        assert(all_digits(s.take(m))) by {
            assert(forall|i: int| 0 <= i < m ==> s.take(m)[i] == s[i]);
        }
        lemma_digits_value_nonneg(s.take(m));
        assert(digits_value(t) == digits_value(s.take(m)) * 10 + (t.last() - 48));
        assert(digits_value(t) >= digits_value(s.take(m)));
        lemma_digits_value_prefix(s, m + 1);
        assert(s.take(s.len() as int) =~= s);
    } else {
        assert(s.take(m) =~= s);
    }
}

/// The minimal representation is injective: equal representations mean
/// equal numbers.
pub proof fn lemma_nat_repr_injective(a: int, b: int)
    requires
        a >= 0,
        b >= 0,
        nat_repr(a) == nat_repr(b),
    ensures
        a == b,
{
    lemma_nat_repr_value(a);
    lemma_nat_repr_value(b);
}

/// Equal signed representations mean equal numbers.
pub proof fn lemma_int_repr_injective(a: int, b: int)
    requires
        int_repr(a) == int_repr(b),
    ensures
        a == b,
{
    if a < 0 && b < 0 {
        lemma_nat_repr_shape(-a);
        lemma_nat_repr_shape(-b);
        assert(int_repr(a) == seq![MINUS] + nat_repr(-a));
        assert(int_repr(b) == seq![MINUS] + nat_repr(-b));
        assert((seq![MINUS] + nat_repr(-a)).len() == 1 + nat_repr(-a).len());
        assert((seq![MINUS] + nat_repr(-b)).len() == 1 + nat_repr(-b).len());
        assert(nat_repr(-a) =~= nat_repr(-b)) by {
            assert(forall|i: int| 0 <= i < nat_repr(-a).len() ==> #[trigger] nat_repr(-a)[i]
                == (seq![MINUS] + nat_repr(-a))[i + 1]);
            assert(forall|i: int| 0 <= i < nat_repr(-b).len() ==> #[trigger] nat_repr(-b)[i]
                == (seq![MINUS] + nat_repr(-b))[i + 1]);
        }
        lemma_nat_repr_injective(-a, -b);
    } else if a >= 0 && b >= 0 {
        lemma_nat_repr_injective(a, b);
    } else if a < 0 {
        lemma_nat_repr_shape(b);
        assert(int_repr(a)[0] == MINUS);
        assert(int_repr(b)[0] == nat_repr(b)[0]);
        assert(is_digit(nat_repr(b)[0]));
    } else {
        lemma_nat_repr_shape(a);
        assert(int_repr(b)[0] == MINUS);
        assert(int_repr(a)[0] == nat_repr(a)[0]);
        assert(is_digit(nat_repr(a)[0]));
    }
}

/// `int_repr` never contains the terminator byte `e`, and a minus sign only
/// in front.
pub proof fn lemma_int_repr_shape(n: int)
    ensures
        int_repr(n).len() >= 1,
        forall|i: int| 0 <= i < int_repr(n).len() ==>
            (is_digit(#[trigger] int_repr(n)[i]) || (i == 0 && int_repr(n)[i] == MINUS)),
        n >= 0 ==> int_repr(n) == nat_repr(n),
        n < 0 ==> int_repr(n) == seq![MINUS] + nat_repr(-n),
{
    if n < 0 {
        lemma_nat_repr_shape(-n);
        let s = int_repr(n);
        assert(forall|i: int| 1 <= i < s.len() ==> s[i] == nat_repr(-n)[i - 1]);
    } else {
        lemma_nat_repr_shape(n);
    }
}

} // verus!
