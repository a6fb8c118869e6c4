//! Highlights: a text cut at its matched spans.
//!
//! The pieces alternate between unmatched and matched text and begin with an
//! unmatched piece, which is empty when the first span starts the text. A
//! last unmatched piece follows only where text is left after the last span.
//! Put together again, the pieces give the text.

use crate::range::{ranges_ordered, Range};
use crate::text::lemma_encode_concat;
use vstd::prelude::*;
use vstd::string::*;
use vstd::utf8::*;

verus! {

/// The pieces of a text, every second of which is a matched one.
pub type Highlights<'a> = Vec<&'a str>;

/// The spans can be cut out of the encoded text: they lie in order inside it
/// and begin and end between characters.
pub open spec fn ranges_fit(text: Seq<u8>, ranges: Seq<Range>) -> bool {
    &&& ranges_ordered(ranges, text.len() as int)
    &&& forall|k: int|
        0 <= k < ranges.len() ==> {
            &&& is_char_boundary(text, (#[trigger] ranges[k]).start())
            &&& is_char_boundary(text, ranges[k].end())
        }
}

/// Where the span before span `k` ends: the start of the text for the first.
pub open spec fn end_before(ranges: Seq<Range>, k: int) -> int {
    if k <= 0 {
        0
    } else {
        ranges[k - 1].end()
    }
}

/// The pieces up to the end of span `k - 1`: for each span the text between
/// it and the span before, then the text of the span.
pub open spec fn pieces_upto(text: Seq<u8>, ranges: Seq<Range>, k: int) -> Seq<Seq<u8>>
    decreases k,
{
    if k <= 0 {
        Seq::empty()
    } else {
        pieces_upto(text, ranges, k - 1).push(
            text.subrange(end_before(ranges, k - 1), ranges[k - 1].start()),
        ).push(text.subrange(ranges[k - 1].start(), ranges[k - 1].end()))
    }
}

/// The pieces of the encoded text `text` cut at `ranges`.
pub open spec fn pieces(text: Seq<u8>, ranges: Seq<Range>) -> Seq<Seq<u8>> {
    let n = ranges.len() as int;
    if end_before(ranges, n) < text.len() {
        pieces_upto(text, ranges, n).push(text.subrange(end_before(ranges, n), text.len() as int))
    } else {
        pieces_upto(text, ranges, n)
    }
}

/// The encodings of the given texts.
pub open spec fn encodings(texts: Seq<&str>) -> Seq<Seq<u8>> {
    texts.map_values(|s: &str| s.spec_bytes())
}

/// The characters of the given texts.
pub open spec fn characters(texts: Seq<&str>) -> Seq<Seq<char>> {
    texts.map_values(|s: &str| s@)
}

/// There are two pieces for each of the first `k` spans, and together they
/// are the text up to the end of span `k - 1`.
pub proof fn lemma_pieces_upto(text: Seq<u8>, ranges: Seq<Range>, k: int)
    requires
        ranges_ordered(ranges, text.len() as int),
        0 <= k <= ranges.len(),
    ensures
        pieces_upto(text, ranges, k).len() == 2 * k,
        pieces_upto(text, ranges, k).flatten() == text.subrange(0, end_before(ranges, k)),
        0 <= end_before(ranges, k) <= text.len(),
    decreases k,
{
    if k > 0 {
        lemma_pieces_upto(text, ranges, k - 1);
        let r = ranges[k - 1];
        let before = end_before(ranges, k - 1);
        if k > 1 {
            assert(ranges[k - 2].end() <= ranges[k - 1].start());
        }
        let earlier = pieces_upto(text, ranges, k - 1);
        let gap = text.subrange(before, r.start());
        let hit = text.subrange(r.start(), r.end());
        earlier.lemma_flatten_push(gap);
        earlier.push(gap).lemma_flatten_push(hit);
        assert(text.subrange(0, before) + gap + hit =~= text.subrange(0, r.end()));
    } else {
        assert(text.subrange(0, 0) =~= Seq::<u8>::empty());
    }
}

/// The pieces of a text, put together, are the text; and each span has its
/// own piece: the piece after piece `2 k` is the text of span `k`.
pub proof fn lemma_pieces_round_trip(text: Seq<u8>, ranges: Seq<Range>)
    requires
        ranges_ordered(ranges, text.len() as int),
    ensures
        pieces(text, ranges).flatten() == text,
        2 * ranges.len() <= pieces(text, ranges).len() <= 2 * ranges.len() + 1,
        forall|k: int|
            0 <= k < ranges.len() ==> #[trigger] pieces(text, ranges)[2 * k + 1] == text.subrange(
                ranges[k].start(),
                ranges[k].end(),
            ),
{
    let n = ranges.len() as int;
    lemma_pieces_upto(text, ranges, n);
    let cut = pieces_upto(text, ranges, n);
    let last = end_before(ranges, n);
    if last < text.len() {
        cut.lemma_flatten_push(text.subrange(last, text.len() as int));
        assert(text.subrange(0, last) + text.subrange(last, text.len() as int) =~= text);
    } else {
        assert(text.subrange(0, last) =~= text);
    }
    assert forall|k: int| 0 <= k < ranges.len() implies #[trigger] pieces(text, ranges)[2 * k + 1]
        == text.subrange(ranges[k].start(), ranges[k].end()) by {
        lemma_piece_of_span(text, ranges, n, k);
    }
}

/// Among the pieces of the first `n` spans, the one at `2 k + 1` is the text
/// of span `k`.
proof fn lemma_piece_of_span(text: Seq<u8>, ranges: Seq<Range>, n: int, k: int)
    requires
        ranges_ordered(ranges, text.len() as int),
        0 <= k < n <= ranges.len(),
    ensures
        pieces_upto(text, ranges, n).len() == 2 * n,
        pieces_upto(text, ranges, n)[2 * k + 1] == text.subrange(
            ranges[k].start(),
            ranges[k].end(),
        ),
    decreases n,
{
    lemma_pieces_upto(text, ranges, n);
    lemma_pieces_upto(text, ranges, n - 1);
    if k < n - 1 {
        lemma_piece_of_span(text, ranges, n - 1, k);
    }
}

/// Encoding the characters of several texts in a row gives their encodings
/// in a row.
pub proof fn lemma_encode_flatten(texts: Seq<&str>)
    ensures
        encode_utf8(characters(texts).flatten()) == encodings(texts).flatten(),
    decreases texts.len(),
{
    let chars = characters(texts);
    let bytes = encodings(texts);
    if texts.len() == 0 {
    } else {
        let head = texts.drop_last();
        lemma_encode_flatten(head);
        assert(chars.drop_last() =~= characters(head));
        assert(bytes.drop_last() =~= encodings(head));
        assert(chars =~= characters(head).push(texts.last()@));
        assert(bytes =~= encodings(head).push(texts.last().spec_bytes()));
        characters(head).lemma_flatten_push(texts.last()@);
        encodings(head).lemma_flatten_push(texts.last().spec_bytes());
        lemma_encode_concat(characters(head).flatten(), texts.last()@);
    }
}

/// A place between characters of a text is a place between characters of
/// what is left of the text after an earlier such place.
pub proof fn lemma_boundary_in_rest(text: Seq<u8>, from: int, at: int)
    requires
        valid_utf8(text),
        is_char_boundary(text, from),
        is_char_boundary(text, at),
        0 <= from <= at <= text.len(),
    ensures
        valid_utf8(text.subrange(from, text.len() as int)),
        is_char_boundary(text.subrange(from, text.len() as int), at - from),
{
    let rest = text.subrange(from, text.len() as int);
    valid_utf8_split(text, from);
    if at == from {
    } else if at == text.len() {
        is_char_boundary_start_end_of_seq(rest);
    } else {
        is_char_boundary_iff_not_is_continuation_byte(text, at);
        is_char_boundary_iff_not_is_continuation_byte(rest, at - from);
    }
}

/// Decoding two encoded texts in a row gives their characters in a row.
pub proof fn lemma_decode_concat(a: Seq<u8>, b: Seq<u8>)
    requires
        valid_utf8(a),
        valid_utf8(b),
    ensures
        decode_utf8(a + b) == decode_utf8(a) + decode_utf8(b),
{
    decode_utf8_encode_utf8(a);
    decode_utf8_encode_utf8(b);
    lemma_encode_concat(decode_utf8(a), decode_utf8(b));
    encode_utf8_decode_utf8(decode_utf8(a) + decode_utf8(b));
}

/// The part of an encoded text between two places that lie between
/// characters is an encoded text.
pub proof fn lemma_part_is_valid(text: Seq<u8>, from: int, to: int)
    requires
        valid_utf8(text),
        is_char_boundary(text, from),
        is_char_boundary(text, to),
        0 <= from <= to <= text.len(),
    ensures
        valid_utf8(text.subrange(from, to)),
{
    let rest = text.subrange(from, text.len() as int);
    lemma_boundary_in_rest(text, from, to);
    valid_utf8_split(rest, to - from);
    assert(rest.subrange(0, to - from) =~= text.subrange(from, to));
}

/// The pieces of a text, decoded and put together, are the characters of the
/// text.
pub proof fn lemma_decoded_pieces_round_trip(text: Seq<char>, ranges: Seq<Range>)
    requires
        ranges_fit(encode_utf8(text), ranges),
    ensures
        pieces(encode_utf8(text), ranges).map_values(|piece: Seq<u8>| decode_utf8(piece)).flatten()
            == text,
{
    let bytes = encode_utf8(text);
    let n = ranges.len() as int;
    let decode = |piece: Seq<u8>| decode_utf8(piece);
    encode_utf8_valid_utf8(text);
    encode_utf8_decode_utf8(text);
    is_char_boundary_start_end_of_seq(bytes);
    lemma_decoded_pieces_upto(bytes, ranges, n);
    lemma_pieces_upto(bytes, ranges, n);
    let cut = pieces_upto(bytes, ranges, n);
    let last = end_before(ranges, n);
    if last < bytes.len() {
        let tail = bytes.subrange(last, bytes.len() as int);
        lemma_part_is_valid(bytes, 0, last);
        lemma_part_is_valid(bytes, last, bytes.len() as int);
        assert(cut.push(tail).map_values(decode) =~= cut.map_values(decode).push(
            decode_utf8(tail),
        ));
        cut.map_values(decode).lemma_flatten_push(decode_utf8(tail));
        lemma_decode_concat(bytes.subrange(0, last), tail);
        assert(bytes.subrange(0, last) + tail =~= bytes);
    } else {
        assert(bytes.subrange(0, last) =~= bytes);
    }
}

/// The pieces of the first `k` spans, decoded and put together, are the
/// characters of the text up to the end of span `k - 1`.
proof fn lemma_decoded_pieces_upto(text: Seq<u8>, ranges: Seq<Range>, k: int)
    requires
        valid_utf8(text),
        ranges_fit(text, ranges),
        0 <= k <= ranges.len(),
    ensures
        pieces_upto(text, ranges, k).map_values(|piece: Seq<u8>| decode_utf8(piece)).flatten()
            == decode_utf8(text.subrange(0, end_before(ranges, k))),
        is_char_boundary(text, end_before(ranges, k)),
        0 <= end_before(ranges, k) <= text.len(),
    decreases k,
{
    let decode = |piece: Seq<u8>| decode_utf8(piece);
    is_char_boundary_start_end_of_seq(text);
    if k > 0 {
        lemma_decoded_pieces_upto(text, ranges, k - 1);
        let r = ranges[k - 1];
        let before = end_before(ranges, k - 1);
        if k > 1 {
            assert(ranges[k - 2].end() <= ranges[k - 1].start());
        }
        let earlier = pieces_upto(text, ranges, k - 1);
        let gap = text.subrange(before, r.start());
        let hit = text.subrange(r.start(), r.end());
        assert(earlier.push(gap).push(hit).map_values(decode) =~= earlier.map_values(decode).push(
            decode_utf8(gap),
        ).push(decode_utf8(hit)));
        earlier.map_values(decode).lemma_flatten_push(decode_utf8(gap));
        earlier.map_values(decode).push(decode_utf8(gap)).lemma_flatten_push(decode_utf8(hit));
        lemma_part_is_valid(text, 0, before);
        lemma_part_is_valid(text, before, r.start());
        lemma_part_is_valid(text, r.start(), r.end());
        lemma_part_is_valid(text, 0, r.start());
        lemma_decode_concat(text.subrange(0, before), gap);
        assert(text.subrange(0, before) + gap =~= text.subrange(0, r.start()));
        lemma_decode_concat(text.subrange(0, r.start()), hit);
        assert(text.subrange(0, r.start()) + hit =~= text.subrange(0, r.end()));
    } else {
        assert(text.subrange(0, 0) =~= Seq::<u8>::empty());
        assert(pieces_upto(text, ranges, 0).map_values(decode) =~= Seq::<Seq<char>>::empty());
    }
}

/// Decides whether `ranges` can be cut out of `target`.
pub fn ranges_fit_text(target: &str, ranges: &Vec<Range>) -> (fit: bool)
    ensures
        fit == ranges_fit(target.spec_bytes(), ranges@),
{
    let total = target.as_bytes().len();
    let ghost text = target.spec_bytes();
    let mut last_index: usize = 0;
    let mut k: usize = 0;
    while k < ranges.len()
        invariant
            k <= ranges.len(),
            text == target.spec_bytes(),
            total == text.len(),
            last_index <= total,
            last_index == end_before(ranges@, k as int),
            ranges_fit(text, ranges@.take(k as int)),
        decreases ranges.len() - k,
    {
        let range = ranges[k];
        let fits_here = range.0 >= last_index && range.0 <= total && range.1 <= total - range.0
            && target.is_char_boundary(range.0) && target.is_char_boundary(range.0 + range.1);
        if !fits_here {
            proof {
                if ranges_fit(text, ranges@) {
                    assert(ranges@[k as int].end() <= text.len());
                    if k > 0 {
                        assert(ranges@[k - 1].end() <= ranges@[k as int].start());
                    }
                }
            }
            return false;
        }
        proof {
            let seen = ranges@.take(k as int);
            let more = ranges@.take(k + 1);
            assert forall|i: int, j: int| 0 <= i < j < more.len() implies (#[trigger] more[i]).end()
                <= (#[trigger] more[j]).start() by {
                if j < k {
                    assert(seen[i].end() <= seen[j].start());
                } else if k > 0 {
                    if i < k - 1 {
                        assert(seen[i].end() <= seen[k - 1].start());
                    }
                }
            }
            assert forall|i: int| 0 <= i < more.len() implies {
                &&& (#[trigger] more[i]).end() <= text.len()
                &&& is_char_boundary(text, more[i].start())
                &&& is_char_boundary(text, more[i].end())
            } by {
                if i < k {
                    assert(more[i] == seen[i]);
                }
            }
        }
        last_index = range.0 + range.1;
        k = k + 1;
    }
    assert(ranges@.take(k as int) =~= ranges@);
    true
}

/// Cuts `target` at `ranges`.
///
/// The result holds, for each span in turn, the text between it and the span
/// before and then the text of the span, and at last what is left of the
/// text, if anything is.
pub fn highlights_from_ranges<'a>(target: &'a str, ranges: Vec<Range>) -> (highlights: Highlights<
    'a,
>)
    requires
        ranges_fit(target.spec_bytes(), ranges@),
    ensures
        encodings(highlights@) == pieces(target.spec_bytes(), ranges@),
        2 * ranges.len() <= highlights.len() <= 2 * ranges.len() + 1,
        forall|k: int|
            0 <= k < ranges.len() ==> (#[trigger] highlights[2 * k + 1]).spec_bytes()
                == target.spec_bytes().subrange(ranges[k].start(), ranges[k].end()),
        encodings(highlights@).flatten() == target.spec_bytes(),
        characters(highlights@).flatten() == target@,
{
    let total = target.as_bytes().len();
    let ghost text = target.spec_bytes();
    let mut highlights: Vec<&'a str> = Vec::new();
    let mut rest: &'a str = target;
    let mut last_index: usize = 0;
    let mut k: usize = 0;
    proof {
        assert(text.subrange(0, text.len() as int) =~= text);
        encode_utf8_valid_utf8(target@);
        is_char_boundary_start_end_of_seq(text);
    }
    while k < ranges.len()
        invariant
            k <= ranges.len(),
            text == target.spec_bytes(),
            total == text.len(),
            valid_utf8(text),
            ranges_fit(text, ranges@),
            last_index <= total,
            last_index == end_before(ranges@, k as int),
            is_char_boundary(text, last_index as int),
            rest.spec_bytes() == text.subrange(last_index as int, total as int),
            encodings(highlights@) == pieces_upto(text, ranges@, k as int),
        decreases ranges.len() - k,
    {
        let range = ranges[k];
        let start_index = range.0;
        let end_index = range.end_index();
        proof {
            if k > 0 {
                assert(ranges@[k - 1].end() <= ranges@[k as int].start());
            }
            lemma_boundary_in_rest(text, last_index as int, start_index as int);
            lemma_boundary_in_rest(text, start_index as int, end_index as int);
        }
        let (gap, tail) = rest.split_at(start_index - last_index);
        assert(tail.spec_bytes() =~= text.subrange(start_index as int, total as int));
        let (hit, after) = tail.split_at(end_index - start_index);
        proof {
            assert(gap.spec_bytes() =~= text.subrange(last_index as int, start_index as int));
            assert(hit.spec_bytes() =~= text.subrange(start_index as int, end_index as int));
            assert(after.spec_bytes() =~= text.subrange(end_index as int, total as int));
            assert(encodings(highlights@.push(gap).push(hit)) =~= encodings(highlights@).push(
                gap.spec_bytes(),
            ).push(hit.spec_bytes()));
        }
        highlights.push(gap);
        highlights.push(hit);
        rest = after;
        last_index = end_index;
        k = k + 1;
    }
    if last_index < total {
        proof {
            assert(encodings(highlights@.push(rest)) =~= encodings(highlights@).push(
                rest.spec_bytes(),
            ));
        }
        highlights.push(rest);
    }
    proof {
        lemma_pieces_round_trip(text, ranges@);
        assert forall|k: int| 0 <= k < ranges.len() implies (#[trigger] highlights[2 * k
            + 1]).spec_bytes() == text.subrange(ranges[k].start(), ranges[k].end()) by {
            assert(encodings(highlights@)[2 * k + 1] == pieces(text, ranges@)[2 * k + 1]);
        }
        lemma_encode_flatten(highlights@);
        encode_utf8_decode_utf8(characters(highlights@).flatten());
        encode_utf8_decode_utf8(target@);
    }
    highlights
}

} // verus!
