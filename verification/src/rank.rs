//! The order in which results are listed: by falling score, and among equal
//! scores by falling text, the texts compared byte by byte.

use crate::bytes::{
    bytes_precede, common_prefix_len, lemma_bytes_order, lemma_bytes_precede_transitive,
};
use crate::filter::{FilterMatch, FuzzyFilterResult};
use rayon::slice::ParallelSliceMut;
use std::cmp::Ordering;
use vstd::prelude::*;
use vstd::string::*;
use vstd::utf8::*;

verus! {

/// Whether `a` is listed before `b`: it has the higher score, or the same
/// score and the greater text, byte by byte.
pub open spec fn ranks_before(a: FilterMatch, b: FilterMatch) -> bool {
    ||| a.score > b.score
    ||| a.score == b.score && bytes_precede(encode_utf8(b.item), encode_utf8(a.item))
}

/// Whether neither of `a` and `b` is listed before the other: they have the
/// same score and the same text.
pub open spec fn ranks_with(a: FilterMatch, b: FilterMatch) -> bool {
    a.score == b.score && a.item == b.item
}

/// The results as values of the mathematics.
pub open spec fn views(results: Seq<FuzzyFilterResult<'_>>) -> Seq<FilterMatch> {
    results.map_values(|result: FuzzyFilterResult<'_>| result@)
}

/// Whether `listed` holds the results `given` in the order of the listing,
/// `places[i]` being the place in `given` of the result at place `i` of
/// `listed`. Every result is listed once; of two results the one that ranks
/// before the other is listed first; and two that rank with each other stay
/// in the order in which they were given.
pub open spec fn is_listing_of(
    listed: Seq<FilterMatch>,
    given: Seq<FilterMatch>,
    places: Seq<int>,
) -> bool {
    &&& listed.len() == given.len()
    &&& places.len() == given.len()
    &&& forall|i: int|
        0 <= i < listed.len() ==> 0 <= #[trigger] places[i] < given.len() && listed[i]
            == given[places[i]]
    &&& forall|i: int, j: int|
        0 <= i < j < listed.len() ==> #[trigger] places[i] != #[trigger] places[j]
    &&& forall|i: int, j: int|
        0 <= i < j < listed.len() ==> {
            ||| ranks_before(#[trigger] listed[i], #[trigger] listed[j])
            ||| ranks_with(listed[i], listed[j]) && places[i] < places[j]
        }
}

/// Of two results one ranks before the other or they rank with each other,
/// and only one of the three.
pub proof fn lemma_ranks_total(a: FilterMatch, b: FilterMatch)
    ensures
        ranks_before(a, b) || ranks_before(b, a) || ranks_with(a, b),
        !(ranks_before(a, b) && ranks_before(b, a)),
        !(ranks_before(a, b) && ranks_with(a, b)),
        !(ranks_before(b, a) && ranks_with(a, b)),
{
    lemma_bytes_order(encode_utf8(a.item), encode_utf8(b.item));
    encode_utf8_decode_utf8(a.item);
    encode_utf8_decode_utf8(b.item);
}

/// How `a` compares with `b`: greater where it is listed before `b`, less
/// where it is listed after `b`, equal where they rank with each other.
pub open spec fn rank_order(a: FilterMatch, b: FilterMatch) -> Ordering {
    if ranks_before(a, b) {
        Ordering::Greater
    } else if ranks_before(b, a) {
        Ordering::Less
    } else {
        Ordering::Equal
    }
}

/// The order of the listing is transitive: with [`lemma_ranks_total`], a
/// total order on scores and texts.
pub proof fn lemma_ranks_transitive(a: FilterMatch, b: FilterMatch, c: FilterMatch)
    requires
        ranks_before(a, b),
        ranks_before(b, c),
    ensures
        ranks_before(a, c),
{
    if a.score == b.score && b.score == c.score {
        lemma_bytes_precede_transitive(
            encode_utf8(c.item),
            encode_utf8(b.item),
            encode_utf8(a.item),
        );
    }
}

impl<'a> FuzzyFilterResult<'a> {
    /// Compares two results by score, and results of one score by text,
    /// byte by byte. The greater of two results is the one that is listed
    /// first.
    pub fn cmp(&self, other: &Self) -> (order: Ordering)
        ensures
            order == rank_order(self@, other@),
            (order == Ordering::Greater) == ranks_before(self@, other@),
            (order == Ordering::Less) == ranks_before(other@, self@),
            (order == Ordering::Equal) == ranks_with(self@, other@),
    {
        proof {
            lemma_ranks_total(self@, other@);
        }
        if self.score < other.score {
            Ordering::Less
        } else if self.score > other.score {
            Ordering::Greater
        } else {
            let mine = self.item.as_bytes();
            let theirs = other.item.as_bytes();
            let shared = common_prefix_len(mine, theirs);
            if shared < mine.len() && shared < theirs.len() {
                if mine[shared] < theirs[shared] {
                    Ordering::Less
                } else {
                    Ordering::Greater
                }
            } else if mine.len() < theirs.len() {
                Ordering::Less
            } else if mine.len() > theirs.len() {
                Ordering::Greater
            } else {
                proof {
                    encode_utf8_decode_utf8(self.item@);
                    encode_utf8_decode_utf8(other.item@);
                }
                Ordering::Equal
            }
        }
    }
}

impl<'a> PartialEq for FuzzyFilterResult<'a> {
    /// Two results are equal where they have the same score and the same
    /// text.
    fn eq(&self, other: &Self) -> (equal: bool) {
        let mine = self.item.as_bytes();
        let theirs = other.item.as_bytes();
        proof {
            encode_utf8_decode_utf8(self.item@);
            encode_utf8_decode_utf8(other.item@);
        }
        self.score == other.score && mine.len() == theirs.len() && common_prefix_len(mine, theirs)
            == mine.len()
    }
}

impl<'a> vstd::std_specs::cmp::PartialEqSpecImpl for FuzzyFilterResult<'a> {
    open spec fn obeys_eq_spec() -> bool {
        true
    }

    open spec fn eq_spec(&self, other: &Self) -> bool {
        ranks_with(self@, other@)
    }
}

impl<'a> Eq for FuzzyFilterResult<'a> {

}

impl<'a> PartialOrd for FuzzyFilterResult<'a> {
    /// The order of [`FuzzyFilterResult::cmp`].
    fn partial_cmp(&self, other: &Self) -> (order: Option<Ordering>) {
        Some(self.cmp(other))
    }
}

impl<'a> vstd::std_specs::cmp::PartialOrdSpecImpl for FuzzyFilterResult<'a> {
    open spec fn obeys_partial_cmp_spec() -> bool {
        true
    }

    open spec fn partial_cmp_spec(&self, other: &Self) -> Option<Ordering> {
        Some(rank_order(self@, other@))
    }
}

/// Sorts the results with rayon's `par_sort_by`, which is handed the
/// comparison of [`FuzzyFilterResult::cmp`] with its sides exchanged, so
/// that the greater result comes first. Assumed, not proved: the sort keeps
/// every result, brings them into the order of that comparison, and leaves
/// results that compare equal in the order in which they stood.
#[verifier::external_body]
pub(crate) fn par_sort_ranked(results: &mut Vec<FuzzyFilterResult<'_>>)
    ensures
        exists|places: Seq<int>|
            is_listing_of(views(final(results)@), views(old(results)@), places),
{
    results.par_sort_by(|a, b| b.cmp(a));
}

} // verus!
