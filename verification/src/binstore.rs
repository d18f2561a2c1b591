//! The bin's entry naming scheme.
//!
//! A relocated file lives in the bin directory under
//! `<original-basename>.<seconds>`: the base name, a dot, and the
//! relocation time in decimal. Parsing splits at the *last* dot, so base
//! names containing dots survive; the suffix must be a parseable number,
//! and entries without such a suffix are not managed by this system.
//! The scheme is proved to round-trip, which makes a bin entry's stamp
//! and base name unambiguous.

use vstd::prelude::*;

use crate::digits::{
    all_digits, dec_bytes, dec_spec, is_digit, lemma_dec_spec_shape, lemma_dec_spec_val, parse_dec,
    val_of,
};
use crate::resolve::{copy_bytes, DOT};

verus! {

/// The bin entry name for a file of base name `base` recycled at `t`.
pub open spec fn entry_name_spec(base: Seq<u8>, t: u64) -> Seq<u8> {
    base + seq![DOT] + dec_spec(t as nat)
}

/// The index of the last occurrence of `b` in `s`, or `-1`.
pub open spec fn last_index_of(s: Seq<u8>, b: u8) -> int
    decreases s.len(),
{
    if s.len() == 0 {
        -1
    } else if s.last() == b {
        s.len() - 1
    } else {
        last_index_of(s.drop_last(), b)
    }
}

/// Splits an entry name at its last dot into the base name and the
/// numeric stamp; `None` when there is no dot or the suffix is not a
/// number that fits.
pub open spec fn split_stamp(name: Seq<u8>) -> Option<(Seq<u8>, u64)> {
    let i = last_index_of(name, DOT);
    if i >= 0 {
        let suffix = name.subrange(i + 1, name.len() as int);
        if suffix.len() > 0 && all_digits(suffix) && val_of(suffix) <= u64::MAX {
            Some((name.take(i), val_of(suffix) as u64))
        } else {
            None
        }
    } else {
        None
    }
}

pub proof fn lemma_last_index_of_bounds(s: Seq<u8>, b: u8)
    ensures
        -1 <= last_index_of(s, b) < s.len(),
        last_index_of(s, b) >= 0 ==> s[last_index_of(s, b)] == b,
        forall|j: int| last_index_of(s, b) < j < s.len() ==> s[j] != b,
    decreases s.len(),
{
    if s.len() > 0 && s.last() != b {
        lemma_last_index_of_bounds(s.drop_last(), b);
        assert forall|j: int| last_index_of(s, b) < j < s.len() implies s[j] != b by {
            if j < s.len() - 1 {
                assert(s.drop_last()[j] != b);
            }
        }
        if last_index_of(s, b) >= 0 {
            assert(s.drop_last()[last_index_of(s, b)] == b);
        }
    }
}

/// The last index is pinned by witnessing `b` at `k` with nothing after.
pub proof fn lemma_last_index_of_unique(s: Seq<u8>, b: u8, k: int)
    requires
        0 <= k < s.len(),
        s[k] == b,
        forall|j: int| k < j < s.len() ==> s[j] != b,
    ensures
        last_index_of(s, b) == k,
    decreases s.len(),
{
    if s.last() == b {
        assert(k == s.len() - 1);
    } else {
        assert(k < s.len() - 1);
        assert(s.drop_last()[k] == b);
        assert forall|j: int| k < j < s.drop_last().len() implies s.drop_last()[j] != b by {
            assert(s.drop_last()[j] == s[j]);
        }
        lemma_last_index_of_unique(s.drop_last(), b, k);
    }
}

/// Parsing an entry name undoes building it: the naming scheme is
/// lossless, whatever dots the base name itself contains.
pub proof fn lemma_entry_name_roundtrip(base: Seq<u8>, t: u64)
    ensures
        split_stamp(entry_name_spec(base, t)) == Some((base, t)),
{
    let name = entry_name_spec(base, t);
    let k = base.len() as int;
    lemma_dec_spec_shape(t as nat);
    assert(name[k] == DOT);
    assert forall|j: int| k < j < name.len() implies name[j] != DOT by {
        assert(name[j] == dec_spec(t as nat)[j - k - 1]);
        assert(is_digit(dec_spec(t as nat)[j - k - 1]));
    }
    lemma_last_index_of_unique(name, DOT, k);
    assert(name.take(k) =~= base);
    assert(name.subrange(k + 1, name.len() as int) =~= dec_spec(t as nat));
    lemma_dec_spec_val(t as nat);
}

/// Distinct stamps give distinct entry names for the same base name.
pub proof fn lemma_entry_name_stamp_injective(base: Seq<u8>, t1: u64, t2: u64)
    requires
        t1 != t2,
    ensures
        entry_name_spec(base, t1) != entry_name_spec(base, t2),
{
    lemma_entry_name_roundtrip(base, t1);
    lemma_entry_name_roundtrip(base, t2);
}

/// An entry name built from a real base name is itself a well-formed
/// path segment: non-empty, free of `/`, and not `.` or `..`.
pub proof fn lemma_entry_name_seg_wf(base: Seq<u8>, t: u64)
    requires
        base.len() > 0,
        crate::resolve::no_slash(base),
    ensures
        crate::resolve::seg_wf(entry_name_spec(base, t)),
{
    let name = entry_name_spec(base, t);
    lemma_dec_spec_shape(t as nat);
    assert(name.len() >= 3);
    assert forall|i: int| 0 <= i < name.len() implies name[i] != crate::resolve::SLASH by {
        if i < base.len() {
            assert(name[i] == base[i]);
        } else if i == base.len() {
            assert(name[i] == DOT);
        } else {
            assert(name[i] == dec_spec(t as nat)[i - base.len() - 1]);
            assert(is_digit(dec_spec(t as nat)[i - base.len() - 1]));
        }
    }
    assert(name != seq![DOT]) by {
        if name == seq![DOT] {
            assert(name.len() == 1);
        }
    }
    assert(name != seq![DOT, DOT]) by {
        if name == seq![DOT, DOT] {
            assert(name.len() == 2);
        }
    }
}

/// Builds the bin entry name `base` + `.` + `t` in decimal.
pub fn entry_name(base: &Vec<u8>, t: u64) -> (r: Vec<u8>)
    ensures
        r@ == entry_name_spec(base@, t),
{
    let mut r = copy_bytes(base);
    r.push(DOT);
    let ghost mid = base@ + seq![DOT];
    proof {
        assert(r@ =~= mid);
    }
    let d = dec_bytes(t);
    let mut k: usize = 0;
    while k < d.len()
        invariant
            0 <= k <= d@.len(),
            r@ == mid + d@.take(k as int),
        decreases d@.len() - k,
    {
        r.push(d[k]);
        proof {
            assert(r@ =~= mid + d@.take(k as int + 1));
        }
        k = k + 1;
    }
    proof {
        assert(d@.take(d@.len() as int) =~= d@);
        assert(r@ =~= entry_name_spec(base@, t));
    }
    r
}

/// Splits an entry name at its last dot; `None` exactly when the name
/// carries no parseable stamp.
pub fn parse_entry_name(name: &Vec<u8>) -> (r: Option<(Vec<u8>, u64)>)
    ensures
        r is Some <==> split_stamp(name@) is Some,
        r matches Some(p) ==> split_stamp(name@) == Some((p.0@, p.1)),
{
    proof {
        lemma_last_index_of_bounds(name@, DOT);
    }
    // find the last dot
    let mut i: usize = name.len();
    let mut found = false;
    while i > 0 && !found
        invariant
            0 <= i <= name@.len(),
            forall|j: int| i <= j < name@.len() ==> name@[j] != DOT,
            found ==> i >= 1 && name@[i - 1] == DOT,
        decreases i, (if found { 0int } else { 1int }),
    {
        if name[i - 1] == DOT {
            found = true;
        } else {
            i = i - 1;
        }
    }
    if !found {
        proof {
            assert(last_index_of(name@, DOT) < 0) by {
                if last_index_of(name@, DOT) >= 0 {
                    assert(name@[last_index_of(name@, DOT)] == DOT);
                }
            }
        }
        return None;
    }
    let k = i - 1;
    proof {
        lemma_last_index_of_unique(name@, DOT, k as int);
    }
    // the suffix after the dot
    let mut suffix: Vec<u8> = Vec::new();
    let mut j: usize = k + 1;
    while j < name.len()
        invariant
            k as int + 1 <= j <= name@.len(),
            suffix@ == name@.subrange(k as int + 1, j as int),
        decreases name@.len() - j,
    {
        suffix.push(name[j]);
        proof {
            assert(suffix@ =~= name@.subrange(k as int + 1, j as int + 1));
        }
        j = j + 1;
    }
    match parse_dec(suffix.as_slice()) {
        Some(v) => {
            // the base name before the dot
            let mut base: Vec<u8> = Vec::new();
            let mut m: usize = 0;
            while m < k
                invariant
                    0 <= m <= k < name@.len(),
                    base@ == name@.take(m as int),
                decreases k - m,
            {
                base.push(name[m]);
                proof {
                    assert(base@ =~= name@.take(m as int + 1));
                }
                m = m + 1;
            }
            Some((base, v))
        },
        None => None,
    }
}

} // verus!
