//! The matching kernel: one text, one query, one scored match or none.
//!
//! A query is first sought in the fold of the text as it stands. Only where
//! that fails, and the query is longer than one byte and does not open with
//! a quote, is it aligned with the units of the text. Spans are found in the
//! fold and given as spans of the text; the score is that of the spans of
//! the text.

use crate::align::{fuzzy_prefix_match, lemma_align_units, prefix_alignment};
use crate::boundaries::{
    boundaries_of, get_target_skips, is_boundary_index, lemma_boundaries_of_wf, target_wf, Target,
};
use crate::bytes::{find_bytes, first_occurrence, lemma_occurrence_from, occurs_at};
use crate::fold::{
    fold_of, fold_text, fold_units, fold_wf, lemma_fold_of_wf, lemma_fold_order,
    lemma_units_of_wf, span_of, units_of, units_wf, Fold, FoldedText,
};
use crate::highlight::ranges_fit;
use crate::range::{covered, range_score, ranges_apart, ranges_ordered, total_score, Range};
use crate::text::{char_is_alphanumeric, is_alphanumeric};
use vstd::prelude::*;
use vstd::slice::slice_subrange;
use vstd::string::*;
use vstd::utf8::*;

verus! {

/// The byte that opens, and may close, a query that is to be found as it
/// stands.
pub const QUOTE: u8 = 0x22;

/// The longest span whose score fits in 32 bits.
pub const MAX_SCORED_LEN: usize = 3783;

/// The score of a match and the spans of the text that matched.
pub struct StringScore {
    /// The score of the query against the text.
    pub score: u32,
    /// The spans of the text that match the query, in order.
    pub ranges: Vec<Range>,
}

/// A scored match as a value of the mathematics: the score and the spans.
pub ghost struct ScoredMatch {
    pub score: int,
    pub ranges: Seq<Range>,
}

impl View for StringScore {
    type V = ScoredMatch;

    open spec fn view(&self) -> ScoredMatch {
        ScoredMatch { score: self.score as int, ranges: self.ranges@ }
    }
}

/// Whether a query opens with a quote.
pub open spec fn is_quoted(search: Seq<u8>) -> bool {
    search.len() > 0 && search[0] == QUOTE
}

/// What is sought in the text: the query itself, or for a quoted one what
/// follows the opening quote, without the closing quote if there is one.
pub open spec fn needle_of(search: Seq<u8>) -> Seq<u8> {
    if !is_quoted(search) {
        search
    } else if search.len() >= 2 && search.last() == QUOTE {
        search.subrange(1, search.len() - 1)
    } else {
        search.subrange(1, search.len() as int)
    }
}

/// Whether a word starts at byte `at` of the encoded text: a character ends
/// there, and it is neither a letter nor a number.
pub open spec fn follows_word_break(text: Seq<u8>, at: int) -> bool {
    &&& 0 < at <= text.len()
    &&& is_char_boundary(text, at)
    &&& !is_alphanumeric(decode_utf8(text.subrange(0, at)).last())
}

/// The first alignment of `query` with the units of the fold, tried at each
/// unit from `from` on whose first byte is the first byte of the query.
pub open spec fn first_alignment(
    fold: Fold,
    units: Seq<usize>,
    query: Seq<u8>,
    from: int,
) -> Option<Seq<Range>>
    decreases units.len() - from,
{
    if from < 0 || from + 1 >= units.len() {
        None
    } else if fold.bytes[units[from] as int] == query[0] && prefix_alignment(
        from,
        query,
        fold,
        units,
    ) is Some {
        prefix_alignment(from, query, fold, units)
    } else {
        first_alignment(fold, units, query, from + 1)
    }
}

/// The match of `search` against the text `text`, whose fold is `fold`.
/// `cached` is the boundary index that came with the text, if one did.
///
/// An empty text matches nothing, and the empty query matches with score 0
/// and no span. A quoted query with nothing in it matches at the start of
/// the text, with an empty span. Any other query matches where what is
/// sought first occurs in the fold; the span is what those bytes of the fold
/// came from. Where it occurs nowhere, a query of two bytes or more that is
/// not quoted matches by its first alignment with the units of the text.
pub open spec fn folded_match(
    text: Seq<char>,
    cached: Option<Seq<usize>>,
    fold: Fold,
    search: Seq<u8>,
) -> Option<ScoredMatch> {
    let needle = needle_of(search);
    let bytes = encode_utf8(text);
    if bytes.len() == 0 {
        None
    } else if search.len() == 0 {
        Some(ScoredMatch { score: 0, ranges: Seq::empty() })
    } else if needle.len() == 0 {
        Some(ScoredMatch { score: range_score(0, 0, false), ranges: seq![Range(0, 0)] })
    } else if let Some(at) = first_occurrence(fold.bytes, needle) {
        let span = span_of(fold, at, needle.len() as int);
        Some(
            ScoredMatch {
                score: range_score(
                    span.start(),
                    span.len(),
                    follows_word_break(bytes, span.start()),
                ),
                ranges: seq![span],
            },
        )
    } else if needle.len() == 1 || is_quoted(search) {
        None
    } else {
        let index = match cached {
            Some(index) => index,
            None => boundaries_of(text),
        };
        match first_alignment(fold, units_of(fold, index), search, 0) {
            Some(ranges) => Some(ScoredMatch { score: total_score(ranges), ranges }),
            None => None,
        }
    }
}

/// The match of `search` against a text: its match against the fold of the
/// text.
pub open spec fn item_match(text: Seq<char>, cached: Option<Seq<usize>>, search: Seq<u8>) -> Option<
    ScoredMatch,
> {
    folded_match(text, cached, fold_of(text), search)
}

/// The boundary index that a target carries, as a value of the mathematics.
pub open spec fn cached_index(target: Target<'_>) -> Option<Seq<usize>> {
    match target.1 {
        Some(index) => Some(index@),
        None => None,
    }
}

/// The texts and queries that the kernel scores: the text is no longer than
/// the longest span whose score fits in 32 bits, or the query is no longer
/// than a quarter of that, a byte of the query standing for at most four of
/// the text.
pub open spec fn can_score(text: Seq<u8>, search: Seq<u8>) -> bool {
    text.len() <= MAX_SCORED_LEN || 4 * search.len() <= MAX_SCORED_LEN
}

/// Spans that lie in order cover no more than the text they lie in.
pub proof fn lemma_covered_within(ranges: Seq<Range>, len: int)
    requires
        ranges_ordered(ranges, len),
        0 <= len,
    ensures
        0 <= covered(ranges) <= len,
        (forall|k: int| 0 <= k < ranges.len() ==> (#[trigger] ranges[k]).len() > 0) ==> covered(
            ranges,
        ) >= ranges.len(),
    decreases ranges.len(),
{
    if ranges.len() > 0 {
        let head = ranges.drop_last();
        let last = ranges.last();
        assert forall|k: int| 0 <= k < head.len() implies (#[trigger] head[k]).end()
            <= last.start() by {
            assert(ranges[k].end() <= ranges[ranges.len() - 1].start());
        }
        lemma_covered_within(head, last.start());
        if forall|k: int| 0 <= k < ranges.len() ==> (#[trigger] ranges[k]).len() > 0 {
            assert forall|k: int| 0 <= k < head.len() implies (#[trigger] head[k]).len() > 0 by {
                assert(ranges[k].len() > 0);
            }
        }
    }
}

/// The scores of spans that lie in order and apart sum to no more than the
/// score of one span at the start of the text that covers as much.
pub proof fn lemma_total_score_bound(ranges: Seq<Range>, len: int)
    requires
        ranges_ordered(ranges, len),
        ranges_apart(ranges),
    ensures
        0 <= total_score(ranges),
        ranges.len() > 0 ==> total_score(ranges) <= range_score(0, covered(ranges), true),
        ranges.len() > 0 ==> range_score(ranges.last().start(), ranges.last().len(), true)
            <= total_score(ranges),
    decreases ranges.len(),
{
    if ranges.len() > 0 {
        let head = ranges.drop_last();
        let last = ranges.last();
        assert forall|k: int| 0 <= k < head.len() implies (#[trigger] head[k]).end()
            <= last.start() by {
            assert(ranges[k].end() <= ranges[ranges.len() - 1].start());
        }
        assert(ranges_ordered(head, last.start()));
        assert(ranges_apart(head));
        lemma_total_score_bound(head, last.start());
        lemma_covered_within(head, last.start());
        let s = covered(head);
        let l = last.len();
        assert(l > 0);
        assert(0 <= 300 * l * l) by (nonlinear_arith)
            requires
                0 <= l,
        ;
        if head.len() > 0 {
            assert(head[0].len() > 0);
            assert(ranges[0].end() < ranges[ranges.len() - 1].start());
            assert(last.start() > 0);
            assert(s >= 1);
            assert(300 * s * s + 300 * l * l + 200 <= 300 * (s + l) * (s + l)) by (nonlinear_arith)
                requires
                    s >= 1,
                    l >= 1,
            ;
        } else {
            assert(s == 0);
        }
    }
}

/// The score of every span that the kernel can meet fits in 32 bits.
pub proof fn lemma_score_fits(covered_len: int)
    requires
        0 <= covered_len <= MAX_SCORED_LEN,
    ensures
        range_score(0, covered_len, true) <= u32::MAX,
{
    assert(300 * covered_len * covered_len <= 300 * 3783 * 3783) by (nonlinear_arith)
        requires
            0 <= covered_len <= 3783,
    ;
}

/// What a first alignment gives can be cut out of the text, with no span
/// empty and no two touching, and covers at most four bytes for each byte
/// of the query.
pub proof fn lemma_first_alignment(
    text: Seq<u8>,
    fold: Fold,
    units: Seq<usize>,
    query: Seq<u8>,
    from: int,
)
    requires
        fold_wf(text, fold),
        units_wf(fold, units),
        text.len() <= usize::MAX,
        0 <= from,
    ensures
        first_alignment(fold, units, query, from) matches Some(found) ==> {
            &&& ranges_fit(text, found)
            &&& ranges_apart(found)
            &&& covered(found) <= 4 * query.len()
            &&& query.len() > 0 ==> found.len() > 0
        },
    decreases units.len() - from,
{
    if from + 1 < units.len() {
        if fold.bytes[units[from] as int] == query[0] && prefix_alignment(from, query, fold, units)
            is Some {
            lemma_align_units(text, fold, units, from, query, 0, Seq::empty());
        } else {
            lemma_first_alignment(text, fold, units, query, from + 1);
        }
    }
}

/// The span that an occurrence in the fold carries back to lies in the
/// text, between characters, and takes at most four bytes for each byte of
/// the occurrence.
pub proof fn lemma_occurrence_span(text: Seq<u8>, fold: Fold, at: int, len: int)
    requires
        fold_wf(text, fold),
        0 <= at,
        0 < len,
        at + len <= fold.bytes.len(),
    ensures
        fold.starts[at] < fold.ends[at + len - 1],
        0 < span_of(fold, at, len).len() <= 4 * len,
        span_of(fold, at, len).end() <= text.len(),
        span_of(fold, at, len).start() == fold.starts[at],
        is_char_boundary(text, span_of(fold, at, len).start()),
        is_char_boundary(text, span_of(fold, at, len).end()),
{
    lemma_fold_order(text, fold, at, at + len - 1);
    assert(fold.starts[at + len - 1] < fold.ends[at + len - 1]);
    assert(fold.starts[at] < fold.ends[at]);
}

/// The spans of a match can be cut out of the text. Unless the query is a
/// quoted one with nothing between its quotes, no span is empty and no two
/// touch. The score of a match by alignment is the sum of the scores of its
/// spans. Only the empty query has the score 0.
pub proof fn lemma_folded_match_spans(
    text: Seq<char>,
    cached: Option<Seq<usize>>,
    fold: Fold,
    search: Seq<u8>,
)
    requires
        fold_wf(encode_utf8(text), fold),
        encode_utf8(text).len() <= usize::MAX,
        fold.bytes.len() <= usize::MAX,
        cached matches Some(index) ==> is_boundary_index(index, encode_utf8(text).len() as int),
    ensures
        folded_match(text, cached, fold, search) matches Some(scored) ==> {
            &&& ranges_fit(encode_utf8(text), scored.ranges)
            &&& covered(scored.ranges) <= 4 * search.len()
            &&& needle_of(search).len() > 0 ==> ranges_apart(scored.ranges)
            &&& search.len() == 0 ==> scored.score == 0 && scored.ranges.len() == 0
            &&& search.len() > 0 ==> scored.score > 0 && scored.ranges.len() > 0
        },
{
    let needle = needle_of(search);
    let bytes = encode_utf8(text);
    encode_utf8_valid_utf8(text);
    is_char_boundary_start_end_of_seq(bytes);
    if bytes.len() == 0 || search.len() == 0 {
    } else if needle.len() == 0 {
        let span = Range(0, 0);
        assert(seq![span].drop_last() =~= Seq::<Range>::empty());
        assert(covered(seq![span]) == 0) by {
            reveal_with_fuel(covered, 2);
        }
    } else if let Some(at) = first_occurrence(fold.bytes, needle) {
        lemma_occurrence_from(fold.bytes, needle, 0);
        lemma_occurrence_span(bytes, fold, at, needle.len() as int);
        let span = span_of(fold, at, needle.len() as int);
        assert(seq![span].drop_last() =~= Seq::<Range>::empty());
        assert(covered(seq![span]) == span.len()) by {
            reveal_with_fuel(covered, 2);
        }
        assert(0 < 300 * span.len() * span.len()) by (nonlinear_arith)
            requires
                0 < span.len(),
        ;
    } else if needle.len() == 1 || is_quoted(search) {
    } else {
        let index = match cached {
            Some(index) => index,
            None => boundaries_of(text),
        };
        lemma_boundaries_of_wf(text);
        lemma_units_of_wf(bytes, fold, index);
        let units = units_of(fold, index);
        lemma_first_alignment(bytes, fold, units, search, 0);
        if let Some(found) = first_alignment(fold, units, search, 0) {
            lemma_total_score_bound(found, bytes.len() as int);
            let last = found.last();
            assert(last.len() > 0);
            assert(0 < 300 * last.len() * last.len()) by (nonlinear_arith)
                requires
                    0 < last.len(),
            ;
        }
    }
}

/// What [`lemma_folded_match_spans`] says of a match against a fold holds
/// of every match of the kernel.
pub proof fn lemma_item_match_spans(text: Seq<char>, cached: Option<Seq<usize>>, search: Seq<u8>)
    requires
        encode_utf8(text).len() <= usize::MAX,
        fold_of(text).bytes.len() <= usize::MAX,
        cached matches Some(index) ==> is_boundary_index(index, encode_utf8(text).len() as int),
    ensures
        item_match(text, cached, search) matches Some(scored) ==> {
            &&& ranges_fit(encode_utf8(text), scored.ranges)
            &&& covered(scored.ranges) <= 4 * search.len()
            &&& needle_of(search).len() > 0 ==> ranges_apart(scored.ranges)
            &&& search.len() == 0 ==> scored.score == 0 && scored.ranges.len() == 0
            &&& search.len() > 0 ==> scored.score > 0 && scored.ranges.len() > 0
        },
{
    lemma_fold_of_wf(text);
    lemma_folded_match_spans(text, cached, fold_of(text), search);
}

/// A query of one byte, and a quoted query, match a text exactly where what
/// they seek occurs in the fold of the text, and never by alignment: the one
/// span of the match is what the first occurrence came from.
pub proof fn lemma_literal_queries(text: Seq<char>, cached: Option<Seq<usize>>, search: Seq<u8>)
    requires
        encode_utf8(text).len() > 0,
        needle_of(search).len() > 0,
        needle_of(search).len() == 1 || is_quoted(search),
    ensures
        item_match(text, cached, search) is Some <==> first_occurrence(
            fold_of(text).bytes,
            needle_of(search),
        ) is Some,
        item_match(text, cached, search) matches Some(scored) ==> scored.ranges == seq![
            span_of(
                fold_of(text),
                first_occurrence(fold_of(text).bytes, needle_of(search))->0,
                needle_of(search).len() as int,
            ),
        ],
{
}

/// The sum of the scores of `ranges`, each taken as the start of a word.
pub fn sum_scores(ranges: &Vec<Range>) -> (sum: u32)
    requires
        total_score(ranges@) <= u32::MAX,
    ensures
        sum == total_score(ranges@),
{
    let mut sum: u32 = 0;
    let mut k: usize = 0;
    proof {
        lemma_prefix_scores(ranges@, 0);
    }
    while k < ranges.len()
        invariant
            k <= ranges.len(),
            total_score(ranges@) <= u32::MAX,
            sum == total_score(ranges@.take(k as int)),
        decreases ranges.len() - k,
    {
        proof {
            lemma_prefix_scores(ranges@, k + 1);
            assert(ranges@.take(k + 1).drop_last() =~= ranges@.take(k as int));
        }
        let score = ranges[k].get_score(true);
        sum = sum + score;
        k = k + 1;
    }
    assert(ranges@.take(k as int) =~= ranges@);
    sum
}

/// The scores of the first `k` spans sum to no more than the scores of all,
/// and the score of span `k - 1` is no more than that sum.
pub proof fn lemma_prefix_scores(ranges: Seq<Range>, k: int)
    requires
        0 <= k <= ranges.len(),
    ensures
        0 <= total_score(ranges.take(k)) <= total_score(ranges),
        k > 0 ==> 0 <= range_score(ranges[k - 1].start(), ranges[k - 1].len(), true)
            <= total_score(ranges.take(k)),
    decreases ranges.len() - k,
{
    lemma_scores_not_negative(ranges.take(k));
    if k > 0 {
        lemma_scores_not_negative(ranges.take(k - 1));
        assert(ranges.take(k).drop_last() =~= ranges.take(k - 1));
        let last = ranges[k - 1];
        assert(0 <= 300 * last.len() * last.len()) by (nonlinear_arith)
            requires
                0 <= last.len(),
        ;
    }
    if k < ranges.len() {
        lemma_prefix_scores(ranges, k + 1);
        assert(ranges.take(k + 1).drop_last() =~= ranges.take(k));
    } else {
        assert(ranges.take(k) =~= ranges);
    }
}

/// No sum of scores is negative.
proof fn lemma_scores_not_negative(ranges: Seq<Range>)
    ensures
        0 <= total_score(ranges),
    decreases ranges.len(),
{
    if ranges.len() > 0 {
        lemma_scores_not_negative(ranges.drop_last());
        let last = ranges.last();
        assert(0 <= 300 * last.len() * last.len()) by (nonlinear_arith)
            requires
                0 <= last.len(),
        ;
    }
}

/// Decides whether a word starts at byte `at` of `target`.
pub fn starts_word(target: &str, at: usize) -> (starts: bool)
    ensures
        starts == follows_word_break(target.spec_bytes(), at as int),
{
    proof {
        encode_utf8_valid_utf8(target@);
    }
    if at == 0 || !target.is_char_boundary(at) {
        return false;
    }
    let (head, _) = target.split_at(at);
    proof {
        encode_utf8_decode_utf8(head@);
    }
    let count = head.unicode_len();
    let before = head.get_char(count - 1);
    !char_is_alphanumeric(before)
}

/// Scores `search` against `target`, whose fold is `folded`.
///
/// Returns the match that [`folded_match`] describes.
#[verifier::loop_isolation(false)]
pub fn score_folded(target: &Target<'_>, folded: &FoldedText, search: &str) -> (found: Option<
    StringScore,
>)
    requires
        target_wf(*target),
        fold_wf(target.0.spec_bytes(), folded@),
        can_score(target.0.spec_bytes(), search.spec_bytes()),
    ensures
        match found {
            Some(scored) => folded_match(
                target.0@,
                cached_index(*target),
                folded@,
                search.spec_bytes(),
            ) == Some(scored@),
            None => folded_match(target.0@, cached_index(*target), folded@, search.spec_bytes())
                is None,
        },
        found matches Some(scored) ==> ranges_fit(target.0.spec_bytes(), scored.ranges@),
{
    let text = target.0.as_bytes();
    if text.len() == 0 {
        return None;
    }
    let query = search.as_bytes();
    if query.len() == 0 {
        proof {
            encode_utf8_valid_utf8(target.0@);
        }
        return Some(StringScore { score: 0, ranges: Vec::new() });
    }
    let hay = folded.text.as_str().as_bytes();
    let is_quoted_search = query[0] == QUOTE;
    let needle = if is_quoted_search {
        let end = if query.len() >= 2 && query[query.len() - 1] == QUOTE {
            query.len() - 1
        } else {
            query.len()
        };
        slice_subrange(query, 1, end)
    } else {
        query
    };
    let hay_len = hay.len();
    proof {
        assert(hay@ == folded@.bytes);
        lemma_folded_match_spans(
            target.0@,
            cached_index(*target),
            folded@,
            search.spec_bytes(),
        );
        lemma_occurrence_from(hay@, needle@, 0);
    }
    if needle.len() == 0 {
        let match_range = Range(0, 0);
        let score = match_range.get_score(false);
        let mut ranges: Vec<Range> = Vec::new();
        ranges.push(match_range);
        assert(ranges@ =~= seq![match_range]);
        return Some(StringScore { score, ranges });
    }
    match find_bytes(hay, needle) {
        Some(at) => {
            proof {
                assert(occurs_at(hay@, needle@, at as int));
                lemma_occurrence_span(text@, folded@, at as int, needle.len() as int);
            }
            let start = folded.starts[at];
            let end = folded.ends[at + needle.len() - 1];
            let match_range = Range(start, end - start);
            let is_word_prefix = starts_word(target.0, start);
            proof {
                lemma_score_fits(match_range.len());
                assert(range_score(start as int, match_range.len(), is_word_prefix)
                    <= range_score(0, match_range.len(), true));
            }
            let score = match_range.get_score(is_word_prefix);
            let mut ranges: Vec<Range> = Vec::new();
            ranges.push(match_range);
            assert(ranges@ =~= seq![match_range]);
            return Some(StringScore { score, ranges });
        },
        None => {},
    }
    if needle.len() == 1 || is_quoted_search {
        return None;
    }
    let computed: Vec<usize>;
    let target_skips: &Vec<usize> = match &target.1 {
        Some(index) => index,
        None => {
            computed = get_target_skips(target.0);
            &computed
        },
    };
    let units = fold_units(folded, target_skips);
    let first_search_char = query[0];
    let count = units.len() - 1;
    let mut skip_idx: usize = 0;
    while skip_idx < count
        invariant
            count == units.len() - 1,
            units_wf(folded@, units@),
            first_alignment(folded@, units@, query@, 0) == first_alignment(
                folded@,
                units@,
                query@,
                skip_idx as int,
            ),
        decreases count - skip_idx,
    {
        let tgt_idx = units[skip_idx];
        proof {
            assert(units[skip_idx as int] < units[units.len() - 1]);
        }
        if hay[tgt_idx] == first_search_char {
            match fuzzy_prefix_match(skip_idx, search, folded, &units) {
                Some(ranges) => {
                    proof {
                        lemma_first_alignment(
                            text@,
                            folded@,
                            units@,
                            query@,
                            skip_idx as int,
                        );
                        lemma_covered_within(ranges@, text@.len() as int);
                        lemma_total_score_bound(ranges@, text@.len() as int);
                        if ranges@.len() > 0 {
                            lemma_score_fits(covered(ranges@));
                        }
                    }
                    let score = sum_scores(&ranges);
                    return Some(StringScore { score, ranges });
                },
                None => {},
            }
        }
        skip_idx = skip_idx + 1;
    }
    None
}

/// Scores `search`, which is taken as it stands, against the fold of the
/// text of `target`.
///
/// Returns none for an empty text and the empty match, with score 0, for an
/// empty query; else the match of the query in the fold or with its units,
/// with spans of the text.
pub fn fuzzy_score_item(target: &Target<'_>, search: &str) -> (found: Option<StringScore>)
    requires
        target_wf(*target),
        can_score(target.0.spec_bytes(), search.spec_bytes()),
    ensures
        match found {
            Some(scored) => item_match(target.0@, cached_index(*target), search.spec_bytes())
                == Some(scored@),
            None => item_match(target.0@, cached_index(*target), search.spec_bytes()) is None,
        },
        found matches Some(scored) ==> ranges_fit(target.0.spec_bytes(), scored.ranges@),
{
    if target.0.as_bytes().len() == 0 {
        return None;
    }
    if search.as_bytes().len() == 0 {
        proof {
            encode_utf8_valid_utf8(target.0@);
        }
        return Some(StringScore { score: 0, ranges: Vec::new() });
    }
    let folded = fold_text(target.0);
    score_folded(target, &folded, search)
}

} // verus!
