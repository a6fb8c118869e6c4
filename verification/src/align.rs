//! Alignment of a query with the units of a text.
//!
//! The query is walked once against the units of the fold of the text, from
//! a chosen unit on. Inside a unit, equal bytes are consumed from both sides,
//! a space on either side is passed over, and the first other difference
//! ends the unit. What a unit matched becomes a span of the text: the bytes
//! of the fold at the start of the unit, as many as matched, carried back to
//! the characters they came from. The span is joined to the span before it
//! when the two touch. The alignment succeeds when the query is used up.

use crate::fold::{
    fold_wf, frontier, lemma_fold_order, span_of, units_wf, Fold, FoldedText,
};
use crate::highlight::ranges_fit;
use crate::range::{covered, ranges_apart, ranges_ordered, Range};
use vstd::prelude::*;
use vstd::string::*;
use vstd::utf8::*;

verus! {

/// The byte that is passed over on either side.
pub const SPACE: u8 = 0x20;

/// Walks the bytes of `text` from `t` up to `stop` against the bytes of
/// `query` from `q`. Gives the number of bytes that matched and the place in
/// the query where the walk ended.
pub open spec fn walk_unit(text: Seq<u8>, t: int, stop: int, query: Seq<u8>, q: int) -> (int, int)
    decreases stop - t, query.len() - q,
{
    if t >= stop || q >= query.len() {
        (0, q)
    } else if text[t] == query[q] {
        let rest = walk_unit(text, t + 1, stop, query, q + 1);
        (rest.0 + 1, rest.1)
    } else if text[t] == SPACE {
        walk_unit(text, t + 1, stop, query, q)
    } else if query[q] == SPACE {
        walk_unit(text, t, stop, query, q + 1)
    } else {
        (0, q)
    }
}

/// Adds the span of `len` bytes at `start` to `ranges`: the last span grows
/// by it where it ends at `start`, else the span is appended.
pub open spec fn push_merged(ranges: Seq<Range>, start: usize, len: usize) -> Seq<Range> {
    if ranges.len() > 0 && ranges.last().end() == start {
        ranges.drop_last().push(Range(ranges.last().0, (ranges.last().1 + len) as usize))
    } else {
        ranges.push(Range(start, len))
    }
}

/// Aligns the query from place `q` on with the units of the fold from unit
/// `i` on, after the earlier units gave `ranges`. `None` when the units run
/// out first.
pub open spec fn align_units(
    fold: Fold,
    units: Seq<usize>,
    i: int,
    query: Seq<u8>,
    q: int,
    ranges: Seq<Range>,
) -> Option<Seq<Range>>
    decreases units.len() - i,
{
    if i < 0 || i + 1 >= units.len() {
        None
    } else {
        let walked = walk_unit(fold.bytes, units[i] as int, units[i + 1] as int, query, q);
        let span = span_of(fold, units[i] as int, walked.0);
        let grown = if walked.0 > 0 {
            push_merged(ranges, span.0, span.1)
        } else {
            ranges
        };
        if walked.1 >= query.len() {
            Some(grown)
        } else {
            align_units(fold, units, i + 1, query, walked.1, grown)
        }
    }
}

/// The spans of the text at which `query` aligns with the units of its fold
/// from unit `skip_idx` on, or `None` when it does not align there.
pub open spec fn prefix_alignment(
    skip_idx: int,
    query: Seq<u8>,
    fold: Fold,
    units: Seq<usize>,
) -> Option<Seq<Range>> {
    align_units(fold, units, skip_idx, query, 0, Seq::empty())
}

/// A walk matches no more bytes than the unit has and than it consumes of
/// the query, and it ends inside the query.
pub proof fn lemma_walk_unit_bounds(text: Seq<u8>, t: int, stop: int, query: Seq<u8>, q: int)
    requires
        t <= stop,
        0 <= q <= query.len(),
    ensures
        0 <= walk_unit(text, t, stop, query, q).0 <= stop - t,
        walk_unit(text, t, stop, query, q).0 <= walk_unit(text, t, stop, query, q).1 - q,
        q <= walk_unit(text, t, stop, query, q).1 <= query.len(),
    decreases stop - t, query.len() - q,
{
    if t >= stop || q >= query.len() {
    } else if text[t] == query[q] {
        lemma_walk_unit_bounds(text, t + 1, stop, query, q + 1);
    } else if text[t] == SPACE {
        lemma_walk_unit_bounds(text, t + 1, stop, query, q);
    } else if query[q] == SPACE {
        lemma_walk_unit_bounds(text, t, stop, query, q + 1);
    }
}

/// Adding the match of a unit keeps the spans in order, apart and between
/// characters, and adds its length to what they cover.
pub proof fn lemma_push_merged(
    text: Seq<u8>,
    ranges: Seq<Range>,
    start: usize,
    len: usize,
    stop: int,
)
    requires
        ranges_fit(text, ranges),
        ranges_ordered(ranges, start as int),
        ranges_apart(ranges),
        0 < len,
        start + len <= stop <= text.len(),
        text.len() <= usize::MAX,
        is_char_boundary(text, start as int),
        is_char_boundary(text, start + len),
    ensures
        ranges_fit(text, push_merged(ranges, start, len)),
        ranges_ordered(push_merged(ranges, start, len), stop),
        ranges_apart(push_merged(ranges, start, len)),
        covered(push_merged(ranges, start, len)) == covered(ranges) + len,
        push_merged(ranges, start, len).len() >= ranges.len(),
        push_merged(ranges, start, len).len() > 0,
{
    let grown = push_merged(ranges, start, len);
    if ranges.len() > 0 && ranges.last().end() == start {
        let last = ranges.last();
        let joined = Range(last.0, (last.1 + len) as usize);
        assert(grown.drop_last() =~= ranges.drop_last());
        assert(grown.last() == joined);
        assert(is_char_boundary(text, ranges[ranges.len() - 1].start()));
        assert forall|k: int| 0 <= k < grown.len() implies (#[trigger] grown[k]).end() <= stop
            && is_char_boundary(text, grown[k].start()) && is_char_boundary(
            text,
            grown[k].end(),
        ) by {
            if k < grown.len() - 1 {
                assert(grown[k] == ranges[k]);
            }
        }
        assert forall|i: int, j: int| 0 <= i < j < grown.len() implies (#[trigger] grown[i]).end()
            < (#[trigger] grown[j]).start() by {
            assert(grown[i] == ranges[i]);
            if j < grown.len() - 1 {
                assert(grown[j] == ranges[j]);
            } else {
                assert(ranges[i].end() < ranges[j].start());
            }
        }
        assert forall|k: int| 0 <= k < grown.len() implies (#[trigger] grown[k]).len() > 0 by {
            if k < grown.len() - 1 {
                assert(grown[k] == ranges[k]);
            }
        }
    } else {
        assert(grown.drop_last() =~= ranges);
        assert forall|k: int| 0 <= k < grown.len() implies (#[trigger] grown[k]).end() <= stop
            && is_char_boundary(text, grown[k].start()) && is_char_boundary(
            text,
            grown[k].end(),
        ) by {
            if k < grown.len() - 1 {
                assert(grown[k] == ranges[k]);
            }
        }
        assert forall|i: int, j: int| 0 <= i < j < grown.len() implies (#[trigger] grown[i]).end()
            < (#[trigger] grown[j]).start() by {
            assert(grown[i] == ranges[i]);
            if j < grown.len() - 1 {
                assert(grown[j] == ranges[j]);
            } else {
                if i == ranges.len() - 1 {
                } else {
                    assert(ranges[i].end() <= ranges[ranges.len() - 1].start());
                }
            }
        }
    }
}

/// What the bytes at the start of a unit carry back to: a span of the text
/// that begins where the unit begins, ends before the next unit does, lies
/// between characters and takes at most four bytes for each byte of the
/// fold.
pub proof fn lemma_unit_span(text: Seq<u8>, fold: Fold, units: Seq<usize>, i: int, matched: int)
    requires
        fold_wf(text, fold),
        units_wf(fold, units),
        0 <= i < units.len() - 1,
        0 < matched <= units[i + 1] - units[i],
    ensures
        fold.starts[units[i] as int] < fold.ends[units[i] + matched - 1],
        span_of(fold, units[i] as int, matched).start() == frontier(text, fold, units[i] as int),
        0 < span_of(fold, units[i] as int, matched).len() <= 4 * matched,
        span_of(fold, units[i] as int, matched).end() <= frontier(
            text,
            fold,
            units[i + 1] as int,
        ) <= text.len(),
        is_char_boundary(text, span_of(fold, units[i] as int, matched).start()),
        is_char_boundary(text, span_of(fold, units[i] as int, matched).end()),
{
    let start = units[i] as int;
    let stop = units[i + 1] as int;
    let last = start + matched - 1;
    assert(units[i] < units[i + 1]);
    assert(stop <= fold.bytes.len()) by {
        if i + 1 < units.len() - 1 {
            assert(units[i + 1] < units[units.len() - 1]);
        }
    }
    lemma_fold_order(text, fold, start, last);
    lemma_fold_order(text, fold, last, stop - 1);
    assert(fold.starts[last] < fold.ends[last]);
    assert(fold.starts[stop - 1] < fold.ends[stop - 1]);
}

/// What an alignment gives can be cut out of the text, with no span empty
/// and no two touching, and covers at most four bytes for each byte of the
/// query.
pub proof fn lemma_align_units(
    text: Seq<u8>,
    fold: Fold,
    units: Seq<usize>,
    i: int,
    query: Seq<u8>,
    q: int,
    ranges: Seq<Range>,
)
    requires
        fold_wf(text, fold),
        units_wf(fold, units),
        text.len() <= usize::MAX,
        0 <= i < units.len(),
        0 <= q <= query.len(),
        ranges_fit(text, ranges),
        ranges_ordered(ranges, frontier(text, fold, units[i] as int)),
        ranges_apart(ranges),
        covered(ranges) <= 4 * q,
    ensures
        align_units(fold, units, i, query, q, ranges) matches Some(found) ==> {
            &&& ranges_fit(text, found)
            &&& ranges_apart(found)
            &&& covered(found) <= 4 * query.len()
            &&& found.len() >= ranges.len()
            &&& q < query.len() && fold.bytes[units[i] as int] == query[q] ==> found.len() > 0
        },
    decreases units.len() - i,
{
    if i + 1 < units.len() {
        let start = units[i];
        let stop = units[i + 1];
        assert(start < stop);
        lemma_walk_unit_bounds(fold.bytes, start as int, stop as int, query, q);
        if q < query.len() && fold.bytes[start as int] == query[q] {
            lemma_walk_unit_bounds(fold.bytes, start + 1, stop as int, query, q + 1);
        }
        let walked = walk_unit(fold.bytes, start as int, stop as int, query, q);
        let span = span_of(fold, start as int, walked.0);
        let grown = if walked.0 > 0 {
            push_merged(ranges, span.0, span.1)
        } else {
            ranges
        };
        let next = frontier(text, fold, stop as int);
        if walked.0 > 0 {
            lemma_unit_span(text, fold, units, i, walked.0);
            lemma_push_merged(text, ranges, span.0, span.1, next);
        } else {
            lemma_unit_span(text, fold, units, i, 1);
        }
        assert(ranges_ordered(grown, next));
        if walked.1 >= query.len() {
        } else {
            lemma_align_units(text, fold, units, i + 1, query, walked.1, grown);
        }
    }
}

/// Aligns `search` with the units of the folded text `target` from unit
/// `skip_idx` on. `target_skips` is the boundary index of the fold.
///
/// Returns the matched spans of the text when every byte of `search` is used
/// up, `None` when the units run out before that.
pub fn fuzzy_prefix_match(
    skip_idx: usize,
    search: &str,
    target: &FoldedText,
    target_skips: &Vec<usize>,
) -> (found: Option<Vec<Range>>)
    requires
        exists|text: Seq<u8>| fold_wf(text, target@) && text.len() <= usize::MAX,
        units_wf(target@, target_skips@),
    ensures
        match found {
            Some(ranges) => prefix_alignment(
                skip_idx as int,
                search.spec_bytes(),
                target@,
                target_skips@,
            ) == Some(ranges@),
            None => prefix_alignment(
                skip_idx as int,
                search.spec_bytes(),
                target@,
                target_skips@,
            ) is None,
        },
{
    let ghost text = choose|text: Seq<u8>| fold_wf(text, target@) && text.len() <= usize::MAX;
    let fold = target.text.as_str().as_bytes();
    let query = search.as_bytes();
    let units = target_skips.len() - 1;
    let mut ranges: Vec<Range> = Vec::new();
    let mut q: usize = 0;
    let mut i: usize = skip_idx;
    while i < units
        invariant
            units == target_skips.len() - 1,
            fold_wf(text, target@),
            text.len() <= usize::MAX,
            units_wf(target@, target_skips@),
            fold@ == target@.bytes,
            query@ == search.spec_bytes(),
            skip_idx <= i,
            q <= query.len(),
            prefix_alignment(skip_idx as int, query@, target@, target_skips@) == align_units(
                target@,
                target_skips@,
                i as int,
                query@,
                q as int,
                ranges@,
            ),
            ranges_fit(text, ranges@),
            ranges_apart(ranges@),
            i < target_skips.len() ==> ranges_ordered(
                ranges@,
                frontier(text, target@, target_skips[i as int] as int),
            ),
        decreases units - i,
    {
        let start_idx = target_skips[i];
        let stop_idx = target_skips[i + 1];
        let mut t: usize = start_idx;
        let mut match_len: usize = 0;
        let ghost q0 = q;
        proof {
            if i + 1 < target_skips.len() - 1 {
                assert(target_skips[i + 1] < target_skips[target_skips.len() - 1]);
            }
            assert(target_skips[i as int] < target_skips[i + 1]);
        }
        while t < stop_idx && q < query.len()
            invariant
                start_idx <= t <= stop_idx <= fold.len(),
                q0 <= q <= query.len(),
                match_len <= t - start_idx,
                walk_unit(fold@, start_idx as int, stop_idx as int, query@, q0 as int) == (
                    match_len + walk_unit(fold@, t as int, stop_idx as int, query@, q as int).0,
                    walk_unit(fold@, t as int, stop_idx as int, query@, q as int).1,
                ),
            ensures
                start_idx <= t <= stop_idx,
                q0 <= q <= query.len(),
                match_len <= t - start_idx,
                walk_unit(fold@, start_idx as int, stop_idx as int, query@, q0 as int) == (
                    match_len as int,
                    q as int,
                ),
            decreases stop_idx - t, query.len() - q,
        {
            let t_char = fold[t];
            let s_char = query[q];
            if t_char == s_char {
                t = t + 1;
                q = q + 1;
                match_len = match_len + 1;
            } else if t_char == SPACE {
                t = t + 1;
            } else if s_char == SPACE {
                q = q + 1;
            } else {
                break ;
            }
        }
        proof {
            lemma_unit_span(text, target@, target_skips@, i as int, 1);
        }
        if match_len > 0 {
            proof {
                lemma_unit_span(text, target@, target_skips@, i as int, match_len as int);
            }
            let start = target.starts[start_idx];
            let end = target.ends[start_idx + match_len - 1];
            let this_range = Range(start, end - start);
            let count = ranges.len();
            let ghost before = ranges@;
            proof {
                lemma_push_merged(
                    text,
                    before,
                    start,
                    (end - start) as usize,
                    frontier(text, target@, stop_idx as int),
                );
            }
            if count > 0 && ranges[count - 1].end_index() == start {
                let mut prev_range = ranges[count - 1];
                prev_range.merge(this_range);
                ranges.set(count - 1, prev_range);
                assert(ranges@ =~= push_merged(before, start, (end - start) as usize));
            } else {
                ranges.push(this_range);
            }
        }
        if q >= query.len() {
            return Some(ranges);
        }
        i = i + 1;
    }
    None
}

} // verus!
