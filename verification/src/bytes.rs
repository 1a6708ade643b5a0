//! Byte-string helpers.
//!
//! Column names, metadata keys and values, object-store locations and file
//! paths are held as byte strings (`Vec<u8>`), viewed as `Seq<u8>`.

use vstd::prelude::*;

verus! {

/// Index of the first occurrence of `b` in `s`, if any.
pub open spec fn spec_find_byte(s: Seq<u8>, b: u8) -> Option<int>
    decreases s.len(),
{
    if s.len() == 0 {
        None
    } else if s[0] == b {
        Some(0)
    } else {
        match spec_find_byte(s.skip(1), b) {
            Some(i) => Some(i + 1),
            None => None,
        }
    }
}

/// `spec_find_byte` returns the least index holding `b`, or `None` when `b`
/// does not occur.
pub proof fn lemma_find_byte_characterization(s: Seq<u8>, b: u8)
    ensures
        match spec_find_byte(s, b) {
            Some(i) => 0 <= i < s.len() && s[i] == b && forall|j: int| 0 <= j < i ==> s[j] != b,
            None => forall|j: int| 0 <= j < s.len() ==> s[j] != b,
        },
    decreases s.len(),
{
    if s.len() != 0 && s[0] != b {
        lemma_find_byte_characterization(s.skip(1), b);
        match spec_find_byte(s, b) {
            Some(i) => {
                assert forall|j: int| 0 <= j < i implies s[j] != b by {
                    if j >= 1 {
                        assert(s.skip(1)[j - 1] == s[j]);
                    }
                }
            },
            None => {
                assert forall|j: int| 0 <= j < s.len() implies s[j] != b by {
                    if j >= 1 {
                        assert(s.skip(1)[j - 1] == s[j]);
                    }
                }
            },
        }
    }
}

/// Whether `b` occurs in `s`.
pub open spec fn spec_contains_byte(s: Seq<u8>, b: u8) -> bool {
    spec_find_byte(s, b) is Some
}

/// First occurrence of `b` in `v`, scanning from the front.
pub fn find_byte(v: &Vec<u8>, b: u8) -> (r: Option<usize>)
    ensures
        match r {
            Some(i) => spec_find_byte(v@, b) == Some(i as int) && i < v@.len() && v@[i as int] == b
                && forall|j: int| 0 <= j < i ==> v@[j] != b,
            None => spec_find_byte(v@, b) is None && forall|j: int| 0 <= j < v@.len() ==> v@[j]
                != b,
        },
{
    proof {
        lemma_find_byte_characterization(v@, b);
    }
    let mut i: usize = 0;
    while i < v.len()
        invariant
            i <= v.len(),
            forall|j: int| 0 <= j < i ==> v@[j] != b,
            match spec_find_byte(v@, b) {
                Some(k) => 0 <= k < v@.len() && v@[k] == b && forall|j: int| 0 <= j < k ==> v@[j] != b,
                None => forall|j: int| 0 <= j < v@.len() ==> v@[j] != b,
            },
        decreases v.len() - i,
    {
        if v[i] == b {
            return Some(i);
        }
        i = i + 1;
    }
    None
}

/// Whether `b` occurs in `v`.
pub fn contains_byte(v: &Vec<u8>, b: u8) -> (r: bool)
    ensures
        r == spec_contains_byte(v@, b),
{
    find_byte(v, b).is_some()
}

/// Byte-wise equality of two byte strings.
pub fn bytes_eq(a: &Vec<u8>, b: &Vec<u8>) -> (r: bool)
    ensures
        r == (a@ == b@),
{
    if a.len() != b.len() {
        proof {
            assert(a@ != b@);
        }
        return false;
    }
    let mut i: usize = 0;
    while i < a.len()
        invariant
            a@.len() == b@.len(),
            i <= a.len(),
            forall|j: int| 0 <= j < i ==> a@[j] == b@[j],
        decreases a.len() - i,
    {
        if a[i] != b[i] {
            return false;
        }
        i = i + 1;
    }
    proof {
        assert(a@ =~= b@);
    }
    true
}

/// Copy of `v`.
pub fn clone_bytes(v: &Vec<u8>) -> (r: Vec<u8>)
    ensures
        r@ == v@,
{
    let mut r: Vec<u8> = Vec::new();
    let mut i: usize = 0;
    while i < v.len()
        invariant
            i <= v.len(),
            r@ == v@.take(i as int),
        decreases v.len() - i,
    {
        r.push(v[i]);
        i = i + 1;
        proof {
            assert(r@ =~= v@.take(i as int));
        }
    }
    proof {
        assert(v@.take(v@.len() as int) =~= v@);
    }
    r
}

/// Copy of the range `[from, to)` of `v`.
pub fn subvec(v: &Vec<u8>, from: usize, to: usize) -> (r: Vec<u8>)
    requires
        from <= to <= v@.len(),
    ensures
        r@ == v@.subrange(from as int, to as int),
{
    let mut r: Vec<u8> = Vec::new();
    let mut i: usize = from;
    while i < to
        invariant
            from <= i <= to <= v@.len(),
            r@ == v@.subrange(from as int, i as int),
        decreases to - i,
    {
        r.push(v[i]);
        i = i + 1;
        proof {
            assert(r@ =~= v@.subrange(from as int, i as int));
        }
    }
    r
}

/// The unsigned integer encoded by `s` in little-endian byte order.
pub open spec fn spec_le_bytes(s: Seq<u8>) -> int
    decreases s.len(),
{
    if s.len() == 0 {
        0
    } else {
        s[0] + 256 * spec_le_bytes(s.skip(1))
    }
}

/// A little-endian value is never negative.
pub proof fn lemma_le_bytes_nonneg(s: Seq<u8>)
    ensures
        spec_le_bytes(s) >= 0,
    decreases s.len(),
{
    if s.len() > 0 {
        lemma_le_bytes_nonneg(s.skip(1));
    }
}

/// Dropping low-order bytes cannot increase a little-endian value.
pub proof fn lemma_le_bytes_suffix_le(s: Seq<u8>, i: int)
    requires
        0 <= i <= s.len(),
    ensures
        spec_le_bytes(s.skip(i)) <= spec_le_bytes(s),
    decreases i,
{
    if i == 0 {
        assert(s.skip(0) =~= s);
    } else {
        lemma_le_bytes_suffix_le(s, i - 1);
        let t = s.skip(i - 1);
        if t.len() > 0 {
            assert(t.skip(1) =~= s.skip(i));
            lemma_le_bytes_nonneg(t.skip(1));
        } else {
            assert(s.skip(i) =~= t);
        }
    }
}

/// The little-endian value of an all-zero byte string is zero.
pub proof fn lemma_le_bytes_zero(s: Seq<u8>)
    requires
        forall|j: int| 0 <= j < s.len() ==> s[j] == 0,
    ensures
        spec_le_bytes(s) == 0,
    decreases s.len(),
{
    if s.len() > 0 {
        assert forall|j: int| 0 <= j < s.skip(1).len() implies s.skip(1)[j] == 0 by {
            assert(s.skip(1)[j] == s[j + 1]);
        }
        lemma_le_bytes_zero(s.skip(1));
    }
}

} // verus!
