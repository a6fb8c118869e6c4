//! Matched spans of a text and the score of a span.

use vstd::prelude::*;

verus! {

/// Bonus of a span that starts the text.
pub const SCORE_START_STR: u32 = 1000;

/// Bonus of a span that starts a word at offset 1; it falls by one with each
/// further byte and is never negative.
pub const SCORE_PREFIX: u32 = 200;

/// Weight of the squared length of a span.
pub const SCORE_CONTIGUOUS: u32 = 300;

/// A matched span of a text: the byte offset where it starts and its length
/// in bytes.
#[derive(Debug, Clone, Copy)]
pub struct Range(pub usize, pub usize);

/// What the position of a span adds to its score: the start bonus at offset
/// 0; for a span that starts a word, the prefix bonus less the offset, as
/// long as that is positive; nothing otherwise.
pub open spec fn position_bonus(start: int, is_prefix: bool) -> int {
    if start == 0 {
        SCORE_START_STR as int
    } else if is_prefix && start < SCORE_PREFIX {
        SCORE_PREFIX - start
    } else {
        0
    }
}

/// The score of one span: the weighted square of its length plus what its
/// position adds.
pub open spec fn range_score(start: int, len: int, is_prefix: bool) -> int {
    SCORE_CONTIGUOUS * len * len + position_bonus(start, is_prefix)
}

/// The sum of the scores of `ranges`, each taken as the start of a word.
pub open spec fn total_score(ranges: Seq<Range>) -> int
    decreases ranges.len(),
{
    if ranges.len() == 0 {
        0
    } else {
        total_score(ranges.drop_last()) + range_score(
            ranges.last().start(),
            ranges.last().len(),
            true,
        )
    }
}

/// The spans lie one after another inside a text of `len` bytes, without
/// overlap.
pub open spec fn ranges_ordered(ranges: Seq<Range>, len: int) -> bool {
    &&& forall|k: int| 0 <= k < ranges.len() ==> (#[trigger] ranges[k]).end() <= len
    &&& forall|i: int, j: int|
        0 <= i < j < ranges.len() ==> (#[trigger] ranges[i]).end() <= (#[trigger] ranges[j]).start()
}

/// No span is empty and no two of them touch.
pub open spec fn ranges_apart(ranges: Seq<Range>) -> bool {
    &&& forall|k: int| 0 <= k < ranges.len() ==> (#[trigger] ranges[k]).len() > 0
    &&& forall|i: int, j: int|
        0 <= i < j < ranges.len() ==> (#[trigger] ranges[i]).end() < (#[trigger] ranges[j]).start()
}

/// The number of bytes that the spans cover together.
pub open spec fn covered(ranges: Seq<Range>) -> int
    decreases ranges.len(),
{
    if ranges.len() == 0 {
        0
    } else {
        covered(ranges.drop_last()) + ranges.last().len()
    }
}

impl Range {
    /// The byte offset where the span starts.
    pub open spec fn start(&self) -> int {
        self.0 as int
    }

    /// The number of bytes in the span.
    pub open spec fn len(&self) -> int {
        self.1 as int
    }

    /// The byte offset just past the span.
    pub open spec fn end(&self) -> int {
        self.0 + self.1
    }

    /// The byte offset just past the span.
    pub fn end_index(&self) -> (end: usize)
        requires
            self.end() <= usize::MAX,
        ensures
            end == self.end(),
    {
        self.0 + self.1
    }

    /// Lengthens the span by one that starts where it ends.
    pub fn merge(&mut self, other: Range)
        requires
            old(self).end() == other.start(),
            other.end() <= usize::MAX,
        ensures
            final(self).start() == old(self).start(),
            final(self).len() == old(self).len() + other.len(),
            final(self).end() == other.end(),
    {
        self.1 = self.1 + other.1;
    }

    /// The score of the span. `is_prefix` says that the span starts a word.
    pub fn get_score(&self, is_prefix: bool) -> (score: u32)
        requires
            range_score(self.start(), self.len(), is_prefix) <= u32::MAX,
        ensures
            score == range_score(self.start(), self.len(), is_prefix),
    {
        let len = self.1;
        assert(len < 3784) by (nonlinear_arith)
            requires
                300 * len * len <= u32::MAX,
        ;
        let n: u32 = len as u32;
        assert(n * n <= 3783 * 3783) by (nonlinear_arith)
            requires
                0 <= n <= 3783,
        ;
        assert(SCORE_CONTIGUOUS * (n * n) == SCORE_CONTIGUOUS * len * len) by (nonlinear_arith)
            requires
                n == len,
        ;
        let square: u32 = n * n;
        let contiguous: u32 = SCORE_CONTIGUOUS * square;
        let bonus: u32 = if self.0 == 0 {
            SCORE_START_STR
        } else if is_prefix && self.0 < SCORE_PREFIX as usize {
            SCORE_PREFIX - self.0 as u32
        } else {
            0
        };
        contiguous + bonus
    }
}

} // verus!
