//! The lowercase form of a text, made character by character, with the
//! place in the text from which each of its bytes came.
//!
//! The lowercase form of a character may take more bytes than the character,
//! or fewer. A match is found in the lowercase form and shown in the text, so
//! every byte of the form keeps where its character begins and ends there.

use crate::boundaries::is_boundary_index;
use crate::range::Range;
use crate::text::{
    byte_offset, char_width, lemma_byte_offset_step, lemma_encode_concat, lowercase_of,
    str_to_lowercase,
};
use vstd::prelude::*;
use vstd::string::*;
use vstd::utf8::*;

verus! {

/// The lowercase form of a text and, for each byte of that form, the byte
/// offsets in the text at which the character that it came from begins and
/// ends.
pub struct FoldedText {
    /// The lowercase form.
    pub text: String,
    /// For each byte of the form, where its character begins in the text.
    pub starts: Vec<usize>,
    /// For each byte of the form, where its character ends in the text.
    pub ends: Vec<usize>,
}

/// A folded text as a value of the mathematics.
pub ghost struct Fold {
    pub bytes: Seq<u8>,
    pub starts: Seq<usize>,
    pub ends: Seq<usize>,
}

impl View for FoldedText {
    type V = Fold;

    open spec fn view(&self) -> Fold {
        Fold { bytes: encode_utf8(self.text@), starts: self.starts@, ends: self.ends@ }
    }
}

/// The form in which a character is compared: its lowercase form, or the
/// character itself should that form be empty.
pub open spec fn folded_char(c: char) -> Seq<char> {
    if lowercase_of(seq![c]).len() == 0 {
        seq![c]
    } else {
        lowercase_of(seq![c])
    }
}

/// The fold of the first `n` characters of a text.
pub open spec fn fold_upto(text: Seq<char>, n: int) -> Fold
    decreases n,
{
    if n <= 0 {
        Fold { bytes: Seq::empty(), starts: Seq::empty(), ends: Seq::empty() }
    } else {
        let before = fold_upto(text, n - 1);
        let piece = encode_utf8(folded_char(text[n - 1]));
        Fold {
            bytes: before.bytes + piece,
            starts: before.starts + Seq::new(
                piece.len(),
                |j: int| byte_offset(text, n - 1) as usize,
            ),
            ends: before.ends + Seq::new(piece.len(), |j: int| byte_offset(text, n) as usize),
        }
    }
}

/// The fold of a text: the forms of its characters in a row, each byte with
/// the place of its character.
pub open spec fn fold_of(text: Seq<char>) -> Fold {
    fold_upto(text, text.len() as int)
}

/// Whether byte `j + 1` of the fold comes from the same character as byte
/// `j` or from the character that follows it in the text.
pub open spec fn steps_on(fold: Fold, j: int) -> bool {
    ||| fold.starts[j + 1] == fold.starts[j] && fold.ends[j + 1] == fold.ends[j]
    ||| fold.starts[j + 1] == fold.ends[j]
}

/// What every fold of the encoded text `text` has: each of its bytes comes
/// from one character of the text, of at most four bytes; the characters
/// come in the order of the text, none is left out, and the first and the
/// last one are the first and the last of the text.
pub open spec fn fold_wf(text: Seq<u8>, fold: Fold) -> bool {
    &&& fold.starts.len() == fold.bytes.len()
    &&& fold.ends.len() == fold.bytes.len()
    &&& (fold.bytes.len() == 0) == (text.len() == 0)
    &&& fold.bytes.len() > 0 ==> fold.starts[0] == 0 && fold.ends[fold.bytes.len() - 1]
        == text.len()
    &&& forall|j: int|
        0 <= j < fold.bytes.len() ==> {
            &&& (#[trigger] fold.starts[j]) < fold.ends[j] <= text.len()
            &&& fold.ends[j] - fold.starts[j] <= 4
            &&& is_char_boundary(text, fold.starts[j] as int)
            &&& is_char_boundary(text, fold.ends[j] as int)
        }
    &&& forall|j: int| 0 <= j < fold.bytes.len() - 1 ==> #[trigger] steps_on(fold, j)
}

/// The span of the text from which the `len` bytes of the fold from byte
/// `at` on came: from the start of the character of the first of them to
/// the end of the character of the last.
pub open spec fn span_of(fold: Fold, at: int, len: int) -> Range {
    Range(fold.starts[at], (fold.ends[at + len - 1] - fold.starts[at]) as usize)
}

/// The first byte of the fold from byte `j` on that comes from a character
/// at or after the byte offset `offset` of the text; the length of the fold
/// where there is none.
pub open spec fn position_from(fold: Fold, offset: int, j: int) -> int
    decreases fold.starts.len() - j,
{
    if j < 0 || j >= fold.starts.len() || fold.starts[j] >= offset {
        j
    } else {
        position_from(fold, offset, j + 1)
    }
}

/// The place in the fold of the byte offset `offset` of the text: the first
/// byte of the fold that comes from a character at or after it.
pub open spec fn position_of(fold: Fold, offset: int) -> int {
    position_from(fold, offset, 0)
}

/// The places in the fold of the first `k` offsets of a boundary index of
/// the text, without those at which no byte of the fold begins a unit of
/// its own.
pub open spec fn units_upto(fold: Fold, index: Seq<usize>, k: int) -> Seq<usize>
    decreases k,
{
    if k <= 0 {
        Seq::empty()
    } else {
        let before = units_upto(fold, index, k - 1);
        let at = position_of(fold, index[k - 1] as int) as usize;
        if before.len() > 0 && before.last() >= at {
            before
        } else {
            before.push(at)
        }
    }
}

/// The boundary index of a fold that belongs to the boundary index `index`
/// of its text: the units of the text, in the fold.
pub open spec fn units_of(fold: Fold, index: Seq<usize>) -> Seq<usize> {
    units_upto(fold, index, index.len() as int)
}

/// A boundary index of a fold: its offsets rise strictly up to the length
/// of the fold, and at each of them a character begins.
pub open spec fn units_wf(fold: Fold, units: Seq<usize>) -> bool {
    &&& is_boundary_index(units, fold.bytes.len() as int)
    &&& forall|k: int|
        0 <= k < units.len() && 0 < (#[trigger] units[k]) < fold.bytes.len() ==> fold.ends[units[k]
            - 1] == fold.starts[units[k] as int]
}

/// Where in the text the unit begins that begins at byte `at` of the fold:
/// the end of the text for the end of the fold.
pub open spec fn frontier(text: Seq<u8>, fold: Fold, at: int) -> int {
    if at < fold.bytes.len() {
        fold.starts[at] as int
    } else {
        text.len() as int
    }
}

/// Later bytes of a fold come from the same or from later characters, and
/// bytes take no more than four bytes of the text each.
pub proof fn lemma_fold_order(text: Seq<u8>, fold: Fold, i: int, j: int)
    requires
        fold_wf(text, fold),
        0 <= i <= j < fold.bytes.len(),
    ensures
        fold.starts[i] <= fold.starts[j],
        fold.ends[i] <= fold.ends[j],
        fold.starts[i] == fold.starts[j] && fold.ends[i] == fold.ends[j] || fold.ends[i]
            <= fold.starts[j],
        fold.ends[j] - fold.starts[i] <= 4 * (j - i + 1),
    decreases j - i,
{
    if i < j {
        lemma_fold_order(text, fold, i, j - 1);
        assert(steps_on(fold, j - 1));
        assert(fold.starts[j] < fold.ends[j]);
        assert(fold.starts[j - 1] < fold.ends[j - 1]);
    } else {
        assert(fold.starts[i] < fold.ends[i]);
    }
}

/// Every character of a text starts between characters of its encoding.
pub proof fn lemma_offset_is_boundary(chars: Seq<char>, k: int)
    requires
        0 <= k <= chars.len(),
    ensures
        is_char_boundary(encode_utf8(chars), byte_offset(chars, k)),
        0 <= byte_offset(chars, k) <= encode_utf8(chars).len(),
    decreases k,
{
    let bytes = encode_utf8(chars);
    encode_utf8_valid_utf8(chars);
    if k == 0 {
        assert(chars.take(0) =~= Seq::<char>::empty());
    } else {
        let rest = chars.drop_first();
        lemma_offset_is_boundary(rest, k - 1);
        encode_utf8_first_scalar(chars);
        assert(pop_first_scalar(bytes) =~= encode_utf8(rest));
        assert(chars.take(k).drop_first() =~= rest.take(k - 1));
        assert(chars.take(k)[0] == chars[0]);
        assert(byte_offset(chars, k) == encode_scalar(chars[0] as u32).len() + byte_offset(
            rest,
            k - 1,
        ));
        char_is_scalar(chars[0]);
    }
}

/// Makes a text of one character. Calls `String::from` on the character.
/// Assumed, not proved: the text holds that character and no other.
#[verifier::external_body]
pub(crate) fn char_to_string(c: char) -> (r: String)
    ensures
        r@ == seq![c],
{
    String::from(c)
}

/// The fold of a text is well formed.
pub proof fn lemma_fold_upto_wf(text: Seq<char>, n: int)
    requires
        0 <= n <= text.len(),
        encode_utf8(text).len() <= usize::MAX,
    ensures
        ({
            let fold = fold_upto(text, n);
            let bytes = encode_utf8(text);
            &&& fold.starts.len() == fold.bytes.len()
            &&& fold.ends.len() == fold.bytes.len()
            &&& (fold.bytes.len() == 0) == (n == 0)
            &&& fold.bytes.len() > 0 ==> fold.starts[0] == 0 && fold.ends[fold.bytes.len() - 1]
                == byte_offset(text, n)
            &&& forall|j: int|
                0 <= j < fold.bytes.len() ==> {
                    &&& (#[trigger] fold.starts[j]) < fold.ends[j] <= byte_offset(text, n)
                    &&& fold.ends[j] - fold.starts[j] <= 4
                    &&& is_char_boundary(bytes, fold.starts[j] as int)
                    &&& is_char_boundary(bytes, fold.ends[j] as int)
                }
            &&& forall|j: int| 0 <= j < fold.bytes.len() - 1 ==> #[trigger] steps_on(fold, j)
        }),
    decreases n,
{
    if n > 0 {
        lemma_fold_upto_wf(text, n - 1);
        lemma_byte_offset_step(text, n - 1);
        lemma_offset_is_boundary(text, n - 1);
        lemma_offset_is_boundary(text, n);
        let before = fold_upto(text, n - 1);
        let fold = fold_upto(text, n);
        let c = text[n - 1];
        let piece = encode_utf8(folded_char(c));
        char_is_scalar(c);
        lemma_piece_not_empty(folded_char(c));
        assert(text.take(0) =~= Seq::<char>::empty());
        let m = before.bytes.len() as int;
        assert forall|j: int| 0 <= j < fold.bytes.len() - 1 implies #[trigger] steps_on(
            fold,
            j,
        ) by {
            if j + 1 < m {
                assert(steps_on(before, j));
            }
        }
    } else {
        assert(text.take(0) =~= Seq::<char>::empty());
    }
}

/// A text that is not empty has an encoding that is not empty.
pub proof fn lemma_piece_not_empty(chars: Seq<char>)
    requires
        chars.len() > 0,
    ensures
        encode_utf8(chars).len() > 0,
{
    char_is_scalar(chars[0]);
}

/// The fold of a text is well formed for the encoding of the text.
pub proof fn lemma_fold_of_wf(text: Seq<char>)
    requires
        encode_utf8(text).len() <= usize::MAX,
    ensures
        fold_wf(encode_utf8(text), fold_of(text)),
{
    lemma_fold_upto_wf(text, text.len() as int);
    if text.len() > 0 {
        lemma_byte_offset_step(text, text.len() - 1);
        lemma_piece_not_empty(text);
    }
}

/// Folds `target`: brings each of its characters to lowercase and notes for
/// every byte of the result where that character stands in `target`.
pub fn fold_text(target: &str) -> (folded: FoldedText)
    ensures
        folded@ == fold_of(target@),
        fold_wf(target.spec_bytes(), folded@),
{
    let total = target.as_bytes().len();
    let mut text = String::new();
    let mut starts: Vec<usize> = Vec::new();
    let mut ends: Vec<usize> = Vec::new();
    let mut offset: usize = 0;
    proof {
        assert(target@.take(0) =~= Seq::<char>::empty());
    }
    for c in it: target.chars()
        invariant
            it.seq() == target@,
            total == encode_utf8(target@).len(),
            offset == byte_offset(target@, it.index() as int),
            encode_utf8(text@) == fold_upto(target@, it.index() as int).bytes,
            starts@ == fold_upto(target@, it.index() as int).starts,
            ends@ == fold_upto(target@, it.index() as int).ends,
    {
        proof {
            lemma_byte_offset_step(target@, it.index() as int);
        }
        let one = char_to_string(c);
        let lower = str_to_lowercase(one.as_str());
        let piece: &str = if lower.as_str().is_empty() {
            one.as_str()
        } else {
            lower.as_str()
        };
        assert(piece@ == folded_char(c));
        let width = char_width(c);
        let count = piece.as_bytes().len();
        proof {
            lemma_encode_concat(text@, piece@);
        }
        text.append(piece);
        let ghost starts_before = starts@;
        let ghost ends_before = ends@;
        let mut k: usize = 0;
        while k < count
            invariant
                k <= count,
                offset + width <= usize::MAX,
                starts@ == starts_before + Seq::new(k as nat, |j: int| offset),
                ends@ == ends_before + Seq::new(k as nat, |j: int| (offset + width) as usize),
            decreases count - k,
        {
            starts.push(offset);
            ends.push(offset + width);
            k = k + 1;
            assert(starts@ =~= starts_before + Seq::new(k as nat, |j: int| offset));
            assert(ends@ =~= ends_before + Seq::new(
                k as nat,
                |j: int| (offset + width) as usize,
            ));
        }
        proof {
            let n = it.index() as int;
            assert(Seq::new(count as nat, |j: int| offset) =~= Seq::new(
                encode_utf8(folded_char(c)).len(),
                |j: int| byte_offset(target@, n) as usize,
            ));
            assert(Seq::new(count as nat, |j: int| (offset + width) as usize) =~= Seq::new(
                encode_utf8(folded_char(c)).len(),
                |j: int| byte_offset(target@, n + 1) as usize,
            ));
        }
        offset = offset + width;
    }
    proof {
        lemma_fold_of_wf(target@);
    }
    FoldedText { text, starts, ends }
}

/// The place of an offset lies in the fold or at its end, every byte before
/// it comes from a character before the offset, and a character begins
/// there.
pub proof fn lemma_position_from(text: Seq<u8>, fold: Fold, offset: int, j: int)
    requires
        fold_wf(text, fold),
        0 <= j <= fold.bytes.len(),
        forall|i: int| 0 <= i < j ==> fold.starts[i] < offset,
    ensures
        j <= position_from(fold, offset, j) <= fold.bytes.len(),
        position_from(fold, offset, j) == position_of(fold, offset),
        forall|i: int| 0 <= i < position_of(fold, offset) ==> fold.starts[i] < offset,
        position_of(fold, offset) < fold.bytes.len() ==> fold.starts[position_of(fold, offset)]
            >= offset,
        0 < position_of(fold, offset) < fold.bytes.len() ==> fold.ends[position_of(fold, offset)
            - 1] == fold.starts[position_of(fold, offset)],
    decreases fold.bytes.len() - j,
{
    lemma_position_reaches(fold, offset, 0, j);
    if j < fold.bytes.len() && fold.starts[j] < offset {
        lemma_position_from(text, fold, offset, j + 1);
    } else if 0 < j < fold.bytes.len() {
        assert(steps_on(fold, j - 1));
    }
}

/// The place of an offset from a byte on, before which no byte up to `j`
/// comes from a character at or after the offset, is its place from `j` on.
proof fn lemma_position_reaches(fold: Fold, offset: int, from: int, j: int)
    requires
        0 <= from <= j <= fold.starts.len(),
        forall|i: int| from <= i < j ==> fold.starts[i] < offset,
    ensures
        position_from(fold, offset, from) == position_from(fold, offset, j),
    decreases j - from,
{
    if from < j {
        lemma_position_reaches(fold, offset, from + 1, j);
    }
}

/// The units of a text, carried over to its fold, are a boundary index of
/// the fold.
pub proof fn lemma_units_upto(text: Seq<u8>, fold: Fold, index: Seq<usize>, k: int)
    requires
        fold_wf(text, fold),
        is_boundary_index(index, text.len() as int),
        fold.bytes.len() <= usize::MAX,
        0 <= k <= index.len(),
    ensures
        ({
            let units = units_upto(fold, index, k);
            &&& units.len() <= k
            &&& k > 0 ==> units.len() > 0
            &&& k > 0 ==> units.last() == position_of(fold, index[k - 1] as int)
            &&& forall|i: int, j: int| 0 <= i < j < units.len() ==> units[i] < units[j]
            &&& forall|i: int|
                0 <= i < units.len() && 0 < (#[trigger] units[i]) < fold.bytes.len()
                    ==> fold.ends[units[i] - 1] == fold.starts[units[i] as int]
            &&& forall|i: int| 0 <= i < units.len() ==> (#[trigger] units[i]) <= fold.bytes.len()
        }),
    decreases k,
{
    if k > 0 {
        lemma_units_upto(text, fold, index, k - 1);
        lemma_position_from(text, fold, index[k - 1] as int, 0);
        if k > 1 {
            lemma_position_from(text, fold, index[k - 2] as int, 0);
            assert(index[k - 2] < index[k - 1]);
            let p = position_of(fold, index[k - 2] as int);
            lemma_position_from(text, fold, index[k - 1] as int, p);
        }
    }
}

/// The units of a text, carried over to its fold, are a boundary index of
/// the fold.
pub proof fn lemma_units_of_wf(text: Seq<u8>, fold: Fold, index: Seq<usize>)
    requires
        fold_wf(text, fold),
        is_boundary_index(index, text.len() as int),
        fold.bytes.len() <= usize::MAX,
    ensures
        units_wf(fold, units_of(fold, index)),
{
    let k = index.len() as int;
    lemma_units_upto(text, fold, index, k);
    lemma_position_from(text, fold, text.len() as int, 0);
    let p = position_of(fold, text.len() as int);
    if p < fold.bytes.len() {
        assert(fold.starts[p] < fold.ends[p]);
    }
}

/// Carries the boundary index `index` of a text over to its fold.
pub fn fold_units(folded: &FoldedText, index: &Vec<usize>) -> (units: Vec<usize>)
    requires
        exists|text: Seq<u8>|
            fold_wf(text, folded@) && is_boundary_index(index@, text.len() as int),
    ensures
        units@ == units_of(folded@, index@),
        units_wf(folded@, units@),
{
    let ghost text = choose|text: Seq<u8>|
        fold_wf(text, folded@) && is_boundary_index(index@, text.len() as int);
    let count = folded.starts.len();
    let mut units: Vec<usize> = Vec::new();
    let mut at: usize = 0;
    let mut k: usize = 0;
    while k < index.len()
        invariant
            k <= index.len(),
            count == folded@.bytes.len(),
            at <= count,
            fold_wf(text, folded@),
            is_boundary_index(index@, text.len() as int),
            units@ == units_upto(folded@, index@, k as int),
            k > 0 ==> at == position_of(folded@, index[k - 1] as int),
            k == 0 ==> at == 0,
        decreases index.len() - k,
    {
        let offset = index[k];
        proof {
            if k > 0 {
                lemma_position_from(text, folded@, index[k - 1] as int, 0);
                assert(index[k - 1] < index[k as int]);
            }
        }
        while at < count && folded.starts[at] < offset
            invariant
                at <= count,
                count == folded@.bytes.len(),
                count == folded.starts.len(),
                fold_wf(text, folded@),
                forall|i: int| 0 <= i < at ==> folded@.starts[i] < offset,
            decreases count - at,
        {
            at = at + 1;
        }
        proof {
            lemma_position_from(text, folded@, offset as int, at as int);
        }
        let known = units.len();
        if known == 0 || units[known - 1] < at {
            units.push(at);
        }
        k = k + 1;
    }
    proof {
        lemma_units_of_wf(text, folded@, index@);
    }
    units
}

} // verus!
