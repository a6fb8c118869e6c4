//! Fuzzy matching of texts against a query that is typed in, with a score
//! for ranking and highlights for display.
//!
//! A query matches a text where it occurs in it as it stands, case aside, or
//! where it can be aligned with the beginnings of the text's units: the
//! starts of words, the shifts to upper case and the punctuation characters.
//! A match has a score, which rewards long unbroken spans and spans near the
//! start of the text, and the spans of the text that matched. From the spans
//! come the highlights: the text cut into pieces of which every second one
//! matched.
//!
//! [`fuzzy_match`] matches one text, [`fuzzy_filter`] many, listing the
//! best first. [`fuzzy_score_item`] gives score and spans only, and
//! [`highlights_from_ranges`] cuts a text at spans. [`get_target_skips`]
//! computes the boundary index of a text, which may be kept with the text
//! and handed in again with every query.
//!
//! All offsets are byte offsets into the UTF-8 encoding of a text.

pub mod align;
pub mod boundaries;
pub mod bytes;
pub mod filter;
pub mod fold;
pub mod highlight;
pub mod listing;
pub mod range;
pub mod rank;
pub mod score;
pub mod text;

pub use crate::boundaries::{get_target_skips, precompute_skips_for_items, Target};
pub use crate::filter::{fuzzy_filter, fuzzy_match, FuzzyFilterResult};
pub use crate::highlight::{highlights_from_ranges, Highlights};
pub use crate::range::Range;
pub use crate::score::{fuzzy_score_item, StringScore};
