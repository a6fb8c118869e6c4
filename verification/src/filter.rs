//! Matching with highlights: one text against a query, and many texts
//! against one query.

use crate::boundaries::{is_boundary_index, target_wf, Target};
use crate::fold::fold_of;
use crate::highlight::{
    characters, encodings, highlights_from_ranges, lemma_decoded_pieces_round_trip, pieces,
    Highlights,
};
use crate::range::Range;
use crate::rank::{is_listing_of, par_sort_ranked, views};
use crate::score::{
    cached_index, can_score, fuzzy_score_item, item_match, lemma_item_match_spans, MAX_SCORED_LEN,
};
use crate::text::{
    is_whitespace, lemma_blank_is_trimmed_away, lemma_trimmed_idempotent, lowercase_of,
    str_to_lowercase, str_trim, trimmed,
};
use rayon::iter::{IntoParallelRefIterator, ParallelIterator};
use vstd::prelude::*;
use vstd::string::*;
use vstd::utf8::*;

verus! {

/// A text that matched a query, with its score and its highlights.
#[derive(Debug)]
pub struct FuzzyFilterResult<'a> {
    /// The text that the query was matched against.
    pub item: &'a str,
    /// The score of the query against the text.
    pub score: u32,
    /// The pieces of the text, every second of which matched. `None` stands
    /// for no match; no function of this crate returns it.
    pub highlights: Option<Highlights<'a>>,
}

/// A result as a value of the mathematics: the text, the score and the
/// pieces of the text.
pub ghost struct FilterMatch {
    pub item: Seq<char>,
    pub score: int,
    pub highlights: Option<Seq<Seq<char>>>,
}

impl<'a> View for FuzzyFilterResult<'a> {
    type V = FilterMatch;

    open spec fn view(&self) -> FilterMatch {
        FilterMatch {
            item: self.item@,
            score: self.score as int,
            highlights: match self.highlights {
                Some(highlights) => Some(characters(highlights@)),
                None => None,
            },
        }
    }
}

/// The pieces of `text` cut at `ranges`, as texts.
pub open spec fn highlights_of(text: Seq<char>, ranges: Seq<Range>) -> Seq<Seq<char>> {
    pieces(encode_utf8(text), ranges).map_values(|piece: Seq<u8>| decode_utf8(piece))
}

/// The form in which a query is matched: trimmed and in lowercase.
pub open spec fn query_key(search: Seq<char>) -> Seq<char> {
    if trimmed(search).len() == 0 {
        Seq::empty()
    } else {
        lowercase_of(trimmed(search))
    }
}

/// The result for one text and a query in the form in which it is matched.
///
/// There is one where the kernel scores the pair and finds a match. It holds
/// the text, the score of the match and the text cut at its spans.
pub open spec fn evaluation(text: Seq<char>, cached: Option<Seq<usize>>, key: Seq<char>) -> Option<
    FilterMatch,
> {
    if !can_score(encode_utf8(text), encode_utf8(key)) {
        None
    } else {
        match item_match(text, cached, encode_utf8(key)) {
            Some(scored) => Some(
                FilterMatch {
                    item: text,
                    score: scored.score,
                    highlights: Some(highlights_of(text, scored.ranges)),
                },
            ),
            None => None,
        }
    }
}

/// Whether `found` is the result for `target` and the query `key`.
pub open spec fn is_evaluation(
    target: Target<'_>,
    key: Seq<char>,
    found: Option<FuzzyFilterResult<'_>>,
) -> bool {
    match found {
        Some(result) => evaluation(target.0@, cached_index(target), key) == Some(result@),
        None => evaluation(target.0@, cached_index(target), key) is None,
    }
}

/// The highlights of a result, put together, are its text.
pub proof fn lemma_evaluation_round_trip(
    text: Seq<char>,
    cached: Option<Seq<usize>>,
    key: Seq<char>,
)
    requires
        encode_utf8(text).len() <= usize::MAX,
        fold_of(text).bytes.len() <= usize::MAX,
        cached matches Some(index) ==> is_boundary_index(index, encode_utf8(text).len() as int),
    ensures
        evaluation(text, cached, key) matches Some(result) ==> {
            &&& result.item == text
            &&& result.highlights matches Some(highlights)
            &&& highlights.flatten() == text
        },
{
    if let Some(result) = evaluation(text, cached, key) {
        let scored = item_match(text, cached, encode_utf8(key))->0;
        lemma_item_match_spans(text, cached, encode_utf8(key));
        lemma_decoded_pieces_round_trip(text, scored.ranges);
    }
}

/// White space around a query does not change the form in which it is
/// matched, and so not what it matches.
pub proof fn lemma_query_key_of_trimmed(search: Seq<char>)
    ensures
        query_key(trimmed(search)) == query_key(search),
{
    lemma_trimmed_idempotent(search);
}

/// A query of white space, like the empty query, is matched as the empty
/// query.
pub proof fn lemma_blank_query_key(search: Seq<char>)
    requires
        forall|i: int| 0 <= i < search.len() ==> is_whitespace(#[trigger] search[i]),
    ensures
        query_key(search).len() == 0,
{
    lemma_blank_is_trimmed_away(search);
}

/// The characters of texts are what their encodings decode to.
pub proof fn lemma_characters_decode(texts: Seq<&str>)
    ensures
        characters(texts) == encodings(texts).map_values(|piece: Seq<u8>| decode_utf8(piece)),
{
    let decoded = encodings(texts).map_values(|piece: Seq<u8>| decode_utf8(piece));
    assert forall|i: int| 0 <= i < texts.len() implies characters(texts)[i] == decoded[i] by {
        encode_utf8_decode_utf8(texts[i]@);
    }
    assert(characters(texts) =~= decoded);
}

/// Brings a query into the form in which it is matched.
pub fn fold_query(search: &str) -> (key: String)
    ensures
        key@ == query_key(search@),
{
    let trimmed_search = str_trim(search);
    if trimmed_search.is_empty() {
        String::new()
    } else {
        str_to_lowercase(trimmed_search)
    }
}

/// Matches the query `key`, taken as it stands, against `target`.
///
/// Returns the text with its score and highlights where the kernel finds a
/// match. Returns `None` where it finds none, and where the text is longer
/// than [`MAX_SCORED_LEN`] and the query longer than a quarter of that, so
/// that a score might not fit in 32 bits.
pub fn evaluate<'a>(target: &Target<'a>, key: &str) -> (found: Option<FuzzyFilterResult<'a>>)
    requires
        target_wf(*target),
    ensures
        is_evaluation(*target, key@, found),
        found matches Some(result) ==> {
            &&& result.item == target.0
            &&& result.highlights matches Some(highlights)
            &&& characters(highlights@).flatten() == target.0@
        },
{
    if target.0.as_bytes().len() > MAX_SCORED_LEN && key.as_bytes().len() > MAX_SCORED_LEN / 4 {
        return None;
    }
    match fuzzy_score_item(target, key) {
        Some(scored) => {
            let highlights = highlights_from_ranges(target.0, scored.ranges);
            proof {
                lemma_characters_decode(highlights@);
            }
            Some(
                FuzzyFilterResult {
                    item: target.0,
                    score: scored.score,
                    highlights: Some(highlights),
                },
            )
        },
        None => None,
    }
}

/// The characters of a query that may be absent: none where it is.
pub open spec fn query_of(search: Option<&str>) -> Seq<char> {
    match search {
        Some(query) => query@,
        None => Seq::empty(),
    }
}

/// Matches `search` against `target`. No query stands for the empty one.
///
/// The query is trimmed and brought to lowercase before it is matched.
pub fn fuzzy_match<'t>(target: &'t str, search: Option<&str>) -> (found: Option<FuzzyFilterResult<
    't,
>>)
    ensures
        match found {
            Some(result) => evaluation(target@, None, query_key(query_of(search))) == Some(
                result@,
            ),
            None => evaluation(target@, None, query_key(query_of(search))) is None,
        },
        found matches Some(result) ==> {
            &&& result.item == target
            &&& result.highlights matches Some(highlights)
            &&& characters(highlights@).flatten() == target@
        },
{
    let key = match search {
        Some(query) => fold_query(query),
        None => String::new(),
    };
    let pair: Target<'t> = (target, None);
    evaluate(&pair, key.as_str())
}

/// The results for the first `n` of `items` and the query `key`, in the
/// order of the items. An item that has no result leaves no trace.
pub open spec fn matches_upto(items: Seq<Target<'_>>, key: Seq<char>, n: int) -> Seq<FilterMatch>
    decreases n,
{
    if n <= 0 {
        Seq::empty()
    } else {
        match evaluation(items[n - 1].0@, cached_index(items[n - 1]), key) {
            Some(result) => matches_upto(items, key, n - 1).push(result),
            None => matches_upto(items, key, n - 1),
        }
    }
}

/// The results for `items` and the query `key`, in the order of the items.
pub open spec fn matches_of(items: Seq<Target<'_>>, key: Seq<char>) -> Seq<FilterMatch> {
    matches_upto(items, key, items.len() as int)
}

/// The result that holds a whole text as its one piece, with score 0.
pub open spec fn whole_text(text: Seq<char>) -> FilterMatch {
    FilterMatch { item: text, score: 0, highlights: Some(seq![text]) }
}

/// The empty query gives every text that is not empty one result, with score
/// 0 and the whole text as its one piece.
pub proof fn lemma_empty_key_matches(text: Seq<char>, cached: Option<Seq<usize>>, key: Seq<char>)
    requires
        key.len() == 0,
        text.len() > 0,
    ensures
        evaluation(text, cached, key) == Some(whole_text(text)),
{
    let bytes = encode_utf8(text);
    let none = Seq::<Range>::empty();
    assert(encode_utf8(key) =~= Seq::<u8>::empty());
    assert(bytes.len() > 0) by {
        char_is_scalar(text[0]);
    }
    assert(pieces(bytes, none) =~= seq![bytes]) by {
        assert(bytes.subrange(0, bytes.len() as int) =~= bytes);
    }
    encode_utf8_decode_utf8(text);
    assert(highlights_of(text, none) =~= seq![text]);
}

/// The empty query lists all texts, none of which is empty, in the order in
/// which they were given, each with score 0 and the whole text as its one
/// piece.
pub proof fn lemma_empty_key_lists_all(items: Seq<Target<'_>>, key: Seq<char>, n: int)
    requires
        key.len() == 0,
        0 <= n <= items.len(),
        forall|i: int| 0 <= i < items.len() ==> (#[trigger] items[i]).0@.len() > 0,
    ensures
        matches_upto(items, key, n).len() == n,
        forall|i: int|
            0 <= i < n ==> #[trigger] matches_upto(items, key, n)[i] == whole_text(items[i].0@),
    decreases n,
{
    if n > 0 {
        lemma_empty_key_lists_all(items, key, n - 1);
        lemma_empty_key_matches(items[n - 1].0@, cached_index(items[n - 1]), key);
    }
}

/// Every result of a query has highlights.
pub proof fn lemma_matches_have_highlights(items: Seq<Target<'_>>, key: Seq<char>, n: int)
    requires
        0 <= n <= items.len(),
    ensures
        forall|i: int|
            0 <= i < matches_upto(items, key, n).len() ==> (#[trigger] matches_upto(
                items,
                key,
                n,
            )[i]).highlights is Some,
    decreases n,
{
    if n > 0 {
        lemma_matches_have_highlights(items, key, n - 1);
    }
}

/// Evaluates every item against `key` with rayon: `par_iter` over the
/// items, `map` with [`evaluate`], `collect` into a vector. Assumed, not
/// proved: the vector holds, for each item in turn, what a call of
/// `evaluate` on that item and `key` returned.
#[verifier::external_body]
pub(crate) fn par_evaluate<'a>(items: &Vec<Target<'a>>, key: &str) -> (found: Vec<
    Option<FuzzyFilterResult<'a>>,
>)
    requires
        forall|i: int|
            0 <= i < items.len() ==> call_requires(evaluate, (&#[trigger] items[i], key)),
    ensures
        found.len() == items.len(),
        forall|i: int|
            0 <= i < items.len() ==> call_ensures(evaluate, (&items[i], key), #[trigger] found[i]),
{
    items.par_iter().map(|target| evaluate(target, key)).collect()
}

/// Matches the query `key`, taken as it stands, against every item, and
/// lists the results.
///
/// An item without a result is left out. For the empty query the results
/// stand in the order of their items; for any other they are listed by
/// falling score, those of one score by falling text, and those of one
/// score and text in the order of their items.
pub fn rank_matches<'a>(items: &Vec<Target<'a>>, key: &str) -> (results: Vec<FuzzyFilterResult<'a>>)
    requires
        forall|i: int| 0 <= i < items.len() ==> target_wf(#[trigger] items[i]),
    ensures
        key@.len() == 0 ==> views(results@) == matches_of(items@, key@),
        key@.len() > 0 ==> exists|places: Seq<int>|
            is_listing_of(views(results@), matches_of(items@, key@), places),
        forall|i: int| 0 <= i < results.len() ==> (#[trigger] results[i]).highlights is Some,
{
    let found = par_evaluate(items, key);
    let ghost all = found@;
    let mut results: Vec<FuzzyFilterResult<'a>> = Vec::new();
    for entry in it: found
        invariant
            it.seq() == all,
            all.len() == items.len(),
            forall|i: int|
                0 <= i < items.len() ==> is_evaluation(items[i], key@, #[trigger] all[i]),
            views(results@) == matches_upto(items@, key@, it.index()),
            forall|i: int| 0 <= i < results.len() ==> (#[trigger] results[i]).highlights is Some,
    {
        let ghost before = results@;
        match entry {
            Some(result) => {
                results.push(result);
                assert(views(results@) =~= views(before).push(result@));
            },
            None => {},
        }
    }
    if !key.is_empty() {
        let ghost unsorted = results@;
        par_sort_ranked(&mut results);
        proof {
            let places = choose|places: Seq<int>|
                is_listing_of(views(results@), views(unsorted), places);
            assert(is_listing_of(views(results@), matches_of(items@, key@), places));
            assert forall|i: int| 0 <= i < results.len() implies (#[trigger] results[i]).highlights
                is Some by {
                assert(views(results@)[i] == views(unsorted)[places[i]]);
                assert(unsorted[places[i]].highlights is Some);
            }
        }
    }
    results
}

/// Matches `search` against every item and lists the results.
///
/// The query is trimmed and brought to lowercase before it is matched. An
/// item without a result is left out. Where nothing is left of the query,
/// the results stand in the order of their items; else they are listed by
/// falling score, those of one score by falling text, and those of one
/// score and text in the order of their items.
pub fn fuzzy_filter<'a>(items: &Vec<Target<'a>>, search: &str) -> (results: Vec<
    FuzzyFilterResult<'a>,
>)
    requires
        forall|i: int| 0 <= i < items.len() ==> target_wf(#[trigger] items[i]),
    ensures
        query_key(search@).len() == 0 ==> views(results@) == matches_of(
            items@,
            query_key(search@),
        ),
        query_key(search@).len() > 0 ==> exists|places: Seq<int>|
            is_listing_of(views(results@), matches_of(items@, query_key(search@)), places),
        forall|i: int| 0 <= i < results.len() ==> (#[trigger] results[i]).highlights is Some,
        search@.len() == 0 ==> query_key(search@).len() == 0,
        query_key(search@).len() == 0 && (forall|i: int|
            0 <= i < items.len() ==> (#[trigger] items[i]).0@.len() > 0) ==> {
            &&& results.len() == items.len()
            &&& forall|i: int|
                0 <= i < items.len() ==> (#[trigger] results[i])@ == whole_text(items[i].0@)
        },
{
    let key = fold_query(search);
    let results = rank_matches(items, key.as_str());
    proof {
        if key@.len() == 0 && (forall|i: int|
            0 <= i < items.len() ==> (#[trigger] items[i]).0@.len() > 0) {
            lemma_empty_key_lists_all(items@, key@, items.len() as int);
            assert forall|i: int| 0 <= i < items.len() implies (#[trigger] results[i])@
                == whole_text(items[i].0@) by {
                assert(views(results@)[i] == matches_of(items@, key@)[i]);
            }
        }
    }
    results
}

} // verus!
