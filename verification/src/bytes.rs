//! Byte strings: where one first occurs in another, and which of two comes
//! first in the order of the dictionary.

use vstd::prelude::*;

verus! {

/// Whether `needle` occurs in `hay` at offset `i`.
pub open spec fn occurs_at(hay: Seq<u8>, needle: Seq<u8>, i: int) -> bool {
    &&& 0 <= i
    &&& i + needle.len() <= hay.len()
    &&& hay.subrange(i, i + needle.len()) == needle
}

/// The least offset from `from` on at which `needle` occurs in `hay`.
pub open spec fn occurrence_from(hay: Seq<u8>, needle: Seq<u8>, from: int) -> Option<int>
    decreases hay.len() + 1 - from,
{
    if from < 0 || from + needle.len() > hay.len() {
        None
    } else if occurs_at(hay, needle, from) {
        Some(from)
    } else {
        occurrence_from(hay, needle, from + 1)
    }
}

/// The least offset at which `needle` occurs in `hay`, if it occurs at all.
pub open spec fn first_occurrence(hay: Seq<u8>, needle: Seq<u8>) -> Option<int> {
    occurrence_from(hay, needle, 0)
}

/// The offset that a search gives is an occurrence and no occurrence lies
/// between `from` and it; a search that gives none has none from `from` on.
pub proof fn lemma_occurrence_from(hay: Seq<u8>, needle: Seq<u8>, from: int)
    requires
        0 <= from,
    ensures
        match occurrence_from(hay, needle, from) {
            Some(at) => {
                &&& from <= at
                &&& occurs_at(hay, needle, at)
                &&& forall|j: int| from <= j < at ==> !occurs_at(hay, needle, j)
            },
            None => forall|j: int| from <= j ==> !occurs_at(hay, needle, j),
        },
    decreases hay.len() + 1 - from,
{
    if from + needle.len() > hay.len() {
    } else if occurs_at(hay, needle, from) {
    } else {
        lemma_occurrence_from(hay, needle, from + 1);
    }
}

/// Whether `needle` stands in `hay` at offset `at`.
fn matches_at(hay: &[u8], needle: &[u8], at: usize) -> (r: bool)
    requires
        at + needle.len() <= hay.len(),
    ensures
        r == occurs_at(hay@, needle@, at as int),
{
    let mut k: usize = 0;
    while k < needle.len()
        invariant
            at + needle.len() <= hay.len(),
            k <= needle.len(),
            forall|j: int| 0 <= j < k ==> hay[at + j] == needle[j],
        decreases needle.len() - k,
    {
        if hay[at + k] != needle[k] {
            assert(hay@.subrange(at as int, at + needle.len())[k as int] == hay[at + k]);
            return false;
        }
        k = k + 1;
    }
    assert(hay@.subrange(at as int, at + needle.len()) =~= needle@);
    true
}

/// Finds the first place at which `needle` occurs in `hay`.
pub fn find_bytes(hay: &[u8], needle: &[u8]) -> (found: Option<usize>)
    ensures
        match found {
            Some(at) => first_occurrence(hay@, needle@) == Some(at as int),
            None => first_occurrence(hay@, needle@) is None,
        },
{
    if needle.len() > hay.len() {
        return None;
    }
    let last = hay.len() - needle.len();
    let mut at: usize = 0;
    loop
        invariant
            last == hay.len() - needle.len(),
            at <= last,
            first_occurrence(hay@, needle@) == occurrence_from(hay@, needle@, at as int),
        decreases last - at,
    {
        if matches_at(hay, needle, at) {
            return Some(at);
        }
        if at == last {
            return None;
        }
        at = at + 1;
    }
}

/// The place of the first difference between `a` and `b` from place `k` on:
/// the length of one of them where the shorter runs out first.
pub open spec fn first_difference_from(a: Seq<u8>, b: Seq<u8>, k: int) -> int
    decreases a.len() - k,
{
    if k < 0 || k >= a.len() || k >= b.len() || a[k] != b[k] {
        k
    } else {
        first_difference_from(a, b, k + 1)
    }
}

/// The number of bytes that `a` and `b` have in common at their start.
pub open spec fn common_prefix(a: Seq<u8>, b: Seq<u8>) -> int {
    first_difference_from(a, b, 0)
}

/// Whether `a` comes before `b` in the order of the dictionary, byte by
/// byte: at the first difference `a` has the lesser byte, or `a` ends there
/// and `b` goes on.
pub open spec fn bytes_precede(a: Seq<u8>, b: Seq<u8>) -> bool {
    let k = common_prefix(a, b);
    if k < a.len() && k < b.len() {
        a[k] < b[k]
    } else {
        a.len() < b.len()
    }
}

/// Up to their first difference two byte strings agree, and there they
/// differ unless one of them ends; the difference is at the same place
/// whichever of the two is named first.
pub proof fn lemma_first_difference(a: Seq<u8>, b: Seq<u8>, k: int)
    requires
        0 <= k <= a.len(),
        k <= b.len(),
        forall|j: int| 0 <= j < k ==> a[j] == b[j],
    ensures
        k <= first_difference_from(a, b, k) <= a.len(),
        first_difference_from(a, b, k) <= b.len(),
        first_difference_from(a, b, k) == first_difference_from(b, a, k),
        forall|j: int| 0 <= j < first_difference_from(a, b, k) ==> a[j] == b[j],
        first_difference_from(a, b, k) < a.len() && first_difference_from(a, b, k) < b.len()
            ==> a[first_difference_from(a, b, k)] != b[first_difference_from(a, b, k)],
        (first_difference_from(a, b, k) == a.len() && a.len() == b.len()) <==> a == b,
    decreases a.len() - k,
{
    if k >= a.len() || k >= b.len() || a[k] != b[k] {
        if k == a.len() && a.len() == b.len() {
            assert(a =~= b);
        }
    } else {
        lemma_first_difference(a, b, k + 1);
    }
}

/// Of two byte strings one comes before the other or they are equal, and
/// only one of the three.
pub proof fn lemma_bytes_order(a: Seq<u8>, b: Seq<u8>)
    ensures
        bytes_precede(a, b) || bytes_precede(b, a) || a == b,
        !(bytes_precede(a, b) && bytes_precede(b, a)),
        !(bytes_precede(a, b) && a == b),
        !(bytes_precede(b, a) && a == b),
{
    lemma_first_difference(a, b, 0);
}

/// Two byte strings that agree before place `k`, and differ there or end
/// there, have `k` bytes in common at their start.
pub proof fn lemma_common_prefix_is(a: Seq<u8>, b: Seq<u8>, k: int)
    requires
        0 <= k <= a.len(),
        k <= b.len(),
        forall|j: int| 0 <= j < k ==> a[j] == b[j],
        k == a.len() || k == b.len() || a[k] != b[k],
    ensures
        common_prefix(a, b) == k,
{
    lemma_first_difference_reaches(a, b, 0, k);
}

/// The first difference from a place on, before which there is none up to
/// `k`, is the first difference from `k` on.
proof fn lemma_first_difference_reaches(a: Seq<u8>, b: Seq<u8>, from: int, k: int)
    requires
        0 <= from <= k <= a.len(),
        k <= b.len(),
        forall|j: int| from <= j < k ==> a[j] == b[j],
    ensures
        first_difference_from(a, b, from) == first_difference_from(a, b, k),
    decreases k - from,
{
    if from < k {
        lemma_first_difference_reaches(a, b, from + 1, k);
    }
}

/// The order of the dictionary is transitive.
pub proof fn lemma_bytes_precede_transitive(a: Seq<u8>, b: Seq<u8>, c: Seq<u8>)
    requires
        bytes_precede(a, b),
        bytes_precede(b, c),
    ensures
        bytes_precede(a, c),
{
    lemma_first_difference(a, b, 0);
    lemma_first_difference(b, c, 0);
    let ab = common_prefix(a, b);
    let bc = common_prefix(b, c);
    let at = if ab <= bc {
        ab
    } else {
        bc
    };
    assert forall|j: int| 0 <= j < at implies a[j] == c[j] by {
        assert(a[j] == b[j]);
        assert(b[j] == c[j]);
    }
    lemma_common_prefix_is(a, c, at);
}

/// Counts the bytes that `a` and `b` have in common at their start.
pub fn common_prefix_len(a: &[u8], b: &[u8]) -> (k: usize)
    ensures
        k == common_prefix(a@, b@),
        k <= a.len(),
        k <= b.len(),
        (k == a.len() && a.len() == b.len()) <==> a@ == b@,
        k < a.len() && k < b.len() ==> a[k as int] != b[k as int],
{
    let mut k: usize = 0;
    while k < a.len() && k < b.len() && a[k] == b[k]
        invariant
            k <= a.len(),
            k <= b.len(),
            forall|j: int| 0 <= j < k ==> a[j] == b[j],
            common_prefix(a@, b@) == first_difference_from(a@, b@, k as int),
        decreases a.len() - k,
    {
        k = k + 1;
    }
    proof {
        lemma_first_difference(a@, b@, k as int);
    }
    k
}

} // verus!
