//! Decimal digit strings for relocation timestamps.
//!
//! A bin entry's name ends in `.` followed by the relocation time in
//! seconds, written in decimal. Formatting and parsing of that suffix are
//! verified against one pair of spec functions, and proved to round-trip,
//! which is what makes the entry-naming scheme unambiguous.

use vstd::prelude::*;

verus! {

/// `'0'` as a byte.
pub const ZERO_DIGIT: u8 = 48;

/// The decimal digits of `n`, most significant first, as ASCII bytes.
pub open spec fn dec_spec(n: nat) -> Seq<u8>
    decreases n,
{
    if n < 10 {
        seq![(ZERO_DIGIT + n) as u8]
    } else {
        dec_spec(n / 10).push((ZERO_DIGIT + n % 10) as u8)
    }
}

pub open spec fn is_digit(b: u8) -> bool {
    ZERO_DIGIT <= b <= ZERO_DIGIT + 9
}

pub open spec fn all_digits(s: Seq<u8>) -> bool {
    forall|i: int| 0 <= i < s.len() ==> is_digit(s[i])
}

pub open spec fn digit_val(b: u8) -> nat {
    (b - ZERO_DIGIT) as nat
}

/// The numeric value of a digit string (most significant digit first).
pub open spec fn val_of(s: Seq<u8>) -> nat
    decreases s.len(),
{
    if s.len() == 0 {
        0
    } else {
        val_of(s.drop_last()) * 10 + digit_val(s.last())
    }
}

/// A decimal rendering consists of digits and is never empty.
pub proof fn lemma_dec_spec_shape(n: nat)
    ensures
        dec_spec(n).len() >= 1,
        all_digits(dec_spec(n)),
    decreases n,
{
    if n >= 10 {
        lemma_dec_spec_shape(n / 10);
        assert(dec_spec(n) == dec_spec(n / 10).push((ZERO_DIGIT + n % 10) as u8));
    }
}

/// Reading the decimal rendering back yields the number: the codec
/// round-trips, hence distinct timestamps render to distinct suffixes.
pub proof fn lemma_dec_spec_val(n: nat)
    ensures
        val_of(dec_spec(n)) == n,
    decreases n,
{
    if n < 10 {
        assert(dec_spec(n).drop_last() =~= Seq::<u8>::empty());
        assert(val_of(dec_spec(n)) == val_of(Seq::<u8>::empty()) * 10 + digit_val(dec_spec(n).last()));
    } else {
        lemma_dec_spec_val(n / 10);
        let d = (ZERO_DIGIT + n % 10) as u8;
        assert(dec_spec(n / 10).push(d).drop_last() =~= dec_spec(n / 10));
        assert(digit_val(d) == n % 10);
        assert(val_of(dec_spec(n)) == val_of(dec_spec(n / 10)) * 10 + digit_val(d));
        assert(n / 10 * 10 + n % 10 == n) by (nonlinear_arith);
    }
}

/// The value of a digit string never shrinks as the string grows rightward.
pub proof fn lemma_val_of_prefix_le(s: Seq<u8>, i: int)
    requires
        0 <= i <= s.len(),
    ensures
        val_of(s.take(i)) <= val_of(s),
    decreases s.len() - i,
{
    if i < s.len() {
        let t = s.take(i + 1);
        assert(t.drop_last() =~= s.take(i));
        assert(val_of(t) == val_of(s.take(i)) * 10 + digit_val(t.last()));
        assert(val_of(s.take(i)) * 10 >= val_of(s.take(i))) by (nonlinear_arith)
            requires val_of(s.take(i)) >= 0;
        lemma_val_of_prefix_le(s, i + 1);
        assert(s.take(s.len() as int) =~= s);
    } else {
        assert(s.take(i) =~= s);
    }
}

/// Renders `n` in decimal, most significant digit first.
pub fn dec_bytes(n: u64) -> (v: Vec<u8>)
    ensures
        v@ == dec_spec(n as nat),
    decreases n,
{
    if n < 10 {
        let mut v: Vec<u8> = Vec::new();
        v.push(ZERO_DIGIT + n as u8);
        proof {
            assert(v@ =~= dec_spec(n as nat));
        }
        v
    } else {
        let mut v = dec_bytes(n / 10);
        v.push(ZERO_DIGIT + (n % 10) as u8);
        v
    }
}

/// Parses a decimal digit string into a `u64`. Succeeds exactly on
/// non-empty all-digit strings whose value fits.
pub fn parse_dec(s: &[u8]) -> (r: Option<u64>)
    ensures
        r is Some <==> s@.len() > 0 && all_digits(s@) && val_of(s@) <= u64::MAX,
        r matches Some(v) ==> v as nat == val_of(s@),
{
    if s.len() == 0 {
        return None;
    }
    let mut acc: u64 = 0;
    let mut i: usize = 0;
    while i < s.len()
        invariant
            0 <= i <= s@.len(),
            s@.len() > 0,
            acc as nat == val_of(s@.take(i as int)),
            all_digits(s@.take(i as int)),
        decreases s@.len() - i,
    {
        let b = s[i];
        if !(ZERO_DIGIT <= b && b <= ZERO_DIGIT + 9) {
            proof {
                assert(s@.take(i as int + 1).last() == s@[i as int]);
                assert(!all_digits(s@.take(i as int + 1)));
                assert forall|j: int| 0 <= j < s@.len() && !is_digit(s@[j]) implies !all_digits(s@) by {}
            }
            return None;
        }
        let d: u64 = (b - ZERO_DIGIT) as u64;
        proof {
            assert(s@.take(i as int + 1).drop_last() =~= s@.take(i as int));
            assert(val_of(s@.take(i as int + 1)) == val_of(s@.take(i as int)) * 10 + d);
        }
        let wide = acc.checked_mul(10);
        match wide {
            Some(w) => {
                match w.checked_add(d) {
                    Some(next) => {
                        acc = next;
                    },
                    None => {
                        proof {
                            lemma_val_of_prefix_le(s@, i as int + 1);
                        }
                        return None;
                    },
                }
            },
            None => {
                proof {
                    lemma_val_of_prefix_le(s@, i as int + 1);
                }
                return None;
            },
        }
        proof {
            assert forall|j: int| 0 <= j < i as int + 1 implies is_digit(#[trigger] s@.take(i as int + 1)[j]) by {
                if j < i as int {
                    assert(is_digit(s@.take(i as int)[j]));
                }
            }
        }
        i = i + 1;
    }
    proof {
        assert(s@.take(s@.len() as int) =~= s@);
    }
    Some(acc)
}

} // verus!
