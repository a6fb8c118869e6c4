//! The boundary index of a text: the byte offsets at which its matchable
//! units begin.
//!
//! A unit begins at the start of a word, where the case shifts to upper, and
//! at every ASCII punctuation character. The index ends with the length of
//! the text, so that each unit is the span between two neighbours.

use crate::text::{
    byte_offset, char_is_alphanumeric, char_is_ascii_punctuation, char_is_uppercase, char_width,
    is_alphanumeric, is_ascii_punctuation, is_uppercase, lemma_byte_offset_step,
};
use vstd::prelude::*;
use vstd::string::*;
use vstd::utf8::*;

verus! {

/// A text to search in, with its boundary index where the caller has one.
pub type Target<'a> = (&'a str, Option<Vec<usize>>);

/// Whether character `i` of `chars` begins a unit: it is a letter or number
/// after one that is not, an uppercase letter after one that is not, or ASCII
/// punctuation.
pub open spec fn starts_unit(chars: Seq<char>, i: int) -> bool {
    let after_alphanumeric = i > 0 && is_alphanumeric(chars[i - 1]);
    let after_uppercase = i > 0 && is_uppercase(chars[i - 1]);
    ||| is_alphanumeric(chars[i]) && !after_alphanumeric
    ||| is_uppercase(chars[i]) && !after_uppercase
    ||| is_ascii_punctuation(chars[i])
}

/// The byte offsets of those among the first `n` characters that begin a
/// unit, in order.
pub open spec fn unit_starts(chars: Seq<char>, n: int) -> Seq<usize>
    decreases n,
{
    if n <= 0 {
        Seq::empty()
    } else if starts_unit(chars, n - 1) {
        unit_starts(chars, n - 1).push(byte_offset(chars, n - 1) as usize)
    } else {
        unit_starts(chars, n - 1)
    }
}

/// The boundary index of a text: where its units begin, then its length in
/// bytes.
pub open spec fn boundaries_of(chars: Seq<char>) -> Seq<usize> {
    unit_starts(chars, chars.len() as int).push(encode_utf8(chars).len() as usize)
}

/// What every boundary index of a text of `len` bytes has: its offsets rise
/// strictly and the last of them is `len`.
pub open spec fn is_boundary_index(index: Seq<usize>, len: int) -> bool {
    &&& index.len() > 0
    &&& index.last() == len
    &&& forall|i: int, j: int| 0 <= i < j < index.len() ==> index[i] < index[j]
}

/// A target is well formed when the index it carries, if any, is a boundary
/// index for the length of its text.
pub open spec fn target_wf(target: Target<'_>) -> bool {
    target.1 matches Some(index) ==> is_boundary_index(index@, target.0.spec_bytes().len() as int)
}

/// The unit starts among the first `n` characters rise strictly and lie
/// before the offset of character `n`.
pub proof fn lemma_unit_starts_rise(chars: Seq<char>, n: int)
    requires
        0 <= n <= chars.len(),
        encode_utf8(chars).len() <= usize::MAX,
    ensures
        forall|i: int, j: int|
            0 <= i < j < unit_starts(chars, n).len() ==> unit_starts(chars, n)[i] < unit_starts(
                chars,
                n,
            )[j],
        forall|i: int|
            0 <= i < unit_starts(chars, n).len() ==> (#[trigger] unit_starts(chars, n)[i])
                < byte_offset(chars, n),
        unit_starts(chars, n).len() <= n,
        0 <= byte_offset(chars, n) <= encode_utf8(chars).len(),
    decreases n,
{
    if n > 0 {
        lemma_unit_starts_rise(chars, n - 1);
        lemma_byte_offset_step(chars, n - 1);
    } else {
        assert(chars.take(0) =~= Seq::<char>::empty());
    }
}

/// The boundary index of a text is a boundary index for its length.
pub proof fn lemma_boundaries_of_wf(chars: Seq<char>)
    requires
        encode_utf8(chars).len() <= usize::MAX,
    ensures
        is_boundary_index(boundaries_of(chars), encode_utf8(chars).len() as int),
{
    let n = chars.len() as int;
    lemma_unit_starts_rise(chars, n);
    if n > 0 {
        lemma_byte_offset_step(chars, n - 1);
    }
}

/// Decides whether `target` is well formed.
#[verifier::loop_isolation(false)]
pub fn is_well_formed(target: &Target<'_>) -> (ok: bool)
    ensures
        ok == target_wf(*target),
{
    match &target.1 {
        None => true,
        Some(index) => {
            let len = target.0.as_bytes().len();
            let count = index.len();
            if count == 0 || index[count - 1] != len {
                return false;
            }
            let mut k: usize = 1;
            while k < count
                invariant
                    1 <= k <= count,
                    count == index.len(),
                    forall|i: int, j: int| 0 <= i < j < k ==> index[i] < index[j],
                decreases count - k,
            {
                if index[k - 1] >= index[k] {
                    assert(!(index@[k - 1] < index@[k as int]));
                    return false;
                }
                k = k + 1;
            }
            true
        },
    }
}

/// Computes the boundary index of `target` in one pass over its characters.
pub fn get_target_skips(target: &str) -> (skips: Vec<usize>)
    ensures
        skips@ == boundaries_of(target@),
        is_boundary_index(skips@, target.spec_bytes().len() as int),
{
    let total = target.as_bytes().len();
    let mut skips: Vec<usize> = Vec::new();
    let mut was_alpha_num = false;
    let mut was_upper_case = false;
    let mut offset: usize = 0;
    proof {
        assert(target@.take(0) =~= Seq::<char>::empty());
    }
    for c in it: target.chars()
        invariant
            it.seq() == target@,
            total == encode_utf8(target@).len(),
            offset == byte_offset(target@, it.index() as int),
            skips@ == unit_starts(target@, it.index() as int),
            was_alpha_num == (it.index() > 0 && is_alphanumeric(target@[it.index() - 1])),
            was_upper_case == (it.index() > 0 && is_uppercase(target@[it.index() - 1])),
    {
        proof {
            lemma_byte_offset_step(target@, it.index() as int);
        }
        let is_alpha_num = char_is_alphanumeric(c);
        let is_upper_case = char_is_uppercase(c);
        if (is_alpha_num && !was_alpha_num) || (is_upper_case && !was_upper_case)
            || char_is_ascii_punctuation(c) {
            skips.push(offset);
        }
        was_alpha_num = is_alpha_num;
        was_upper_case = is_upper_case;
        offset = offset + char_width(c);
    }
    skips.push(total);
    proof {
        lemma_boundaries_of_wf(target@);
    }
    skips
}

/// Pairs each item with its boundary index.
pub fn precompute_skips_for_items<'a>(items: Vec<&'a str>) -> (targets: Vec<Target<'a>>)
    ensures
        targets.len() == items.len(),
        forall|i: int|
            0 <= i < items.len() ==> {
                &&& (#[trigger] targets[i]).0 == items[i]
                &&& targets[i].1 matches Some(index)
                &&& index@ == boundaries_of(items[i]@)
                &&& target_wf(targets[i])
            },
{
    let mut targets: Vec<Target<'a>> = Vec::new();
    let mut k: usize = 0;
    while k < items.len()
        invariant
            k <= items.len(),
            targets.len() == k,
            forall|i: int|
                0 <= i < k ==> {
                    &&& (#[trigger] targets[i]).0 == items[i]
                    &&& targets[i].1 matches Some(index)
                    &&& index@ == boundaries_of(items[i]@)
                    &&& target_wf(targets[i])
                },
        decreases items.len() - k,
    {
        let item: &'a str = items[k];
        targets.push((item, Some(get_target_skips(item))));
        k = k + 1;
    }
    targets
}

} // verus!
