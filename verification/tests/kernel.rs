use fuzzbunny_rs::boundaries::is_well_formed;
use fuzzbunny_rs::bytes::{common_prefix_len, find_bytes};
use fuzzbunny_rs::fold::{fold_text, fold_units, FoldedText};
use fuzzbunny_rs::score::{score_folded, starts_word, sum_scores, MAX_SCORED_LEN};
use fuzzbunny_rs::text::{char_is_ascii_punctuation, char_is_whitespace, char_width};
use fuzzbunny_rs::{fuzzy_score_item, get_target_skips, precompute_skips_for_items, Range, Target};

fn spans(ranges: &Vec<Range>) -> Vec<(usize, usize)> {
    ranges.iter().map(|range| (range.0, range.1)).collect()
}

fn score_of(text: &str, search: &str) -> Option<(u32, Vec<(usize, usize)>)> {
    let target: Target<'_> = (text, None);
    fuzzy_score_item(&target, search).map(|scored| (scored.score, spans(&scored.ranges)))
}

#[test]
fn boundaries_mark_words_case_shifts_and_punctuation() {
    assert_eq!(get_target_skips("FuzzBunny"), vec![0, 4, 9]);
    assert_eq!(get_target_skips("fuzzBunny.ts"), vec![0, 4, 9, 10, 12]);
    assert_eq!(get_target_skips("ab cdefg"), vec![0, 3, 8]);
    assert_eq!(get_target_skips("the united states"), vec![0, 4, 11, 17]);
    assert_eq!(get_target_skips("a--b"), vec![0, 1, 2, 3, 4]);
    assert_eq!(get_target_skips("ABc"), vec![0, 3]);
    assert_eq!(get_target_skips("x1 Y"), vec![0, 3, 4]);
}

#[test]
fn boundaries_of_empty_text_hold_only_the_length() {
    assert_eq!(get_target_skips(""), vec![0]);
    assert_eq!(get_target_skips("   "), vec![3]);
}

#[test]
fn boundaries_are_byte_offsets() {
    // 'é' takes two bytes, '€' three.
    assert_eq!(get_target_skips("é b"), vec![0, 3, 4]);
    assert_eq!(get_target_skips("€ x!"), vec![4, 5, 6]);
    assert_eq!(get_target_skips("éÉ"), vec![0, 2, 4]);
}

#[test]
fn boundaries_rise_and_end_with_the_length() {
    for text in ["", "a", "Hello, World!", "snake_case and camelCase", "é€ ß"] {
        let index = get_target_skips(text);
        assert_eq!(*index.last().unwrap(), text.len());
        assert!(index.windows(2).all(|pair| pair[0] < pair[1]));
        assert!(is_well_formed(&(text, Some(index))));
    }
}

#[test]
fn malformed_boundary_indices_are_told_apart() {
    assert!(is_well_formed(&("abc", None)));
    assert!(is_well_formed(&("abc", Some(vec![0, 3]))));
    assert!(is_well_formed(&("abc", Some(vec![3]))));
    assert!(!is_well_formed(&("abc", Some(vec![]))));
    assert!(!is_well_formed(&("abc", Some(vec![0, 2]))));
    assert!(!is_well_formed(&("abc", Some(vec![0, 0, 3]))));
    assert!(!is_well_formed(&("abc", Some(vec![2, 1, 3]))));
}

#[test]
fn precompute_pairs_each_item_with_its_index() {
    let targets = precompute_skips_for_items(vec!["apple", "FuzzBunny", ""]);
    assert_eq!(targets.len(), 3);
    assert_eq!(targets[0], ("apple", Some(vec![0, 5])));
    assert_eq!(targets[1], ("FuzzBunny", Some(vec![0, 4, 9])));
    assert_eq!(targets[2], ("", Some(vec![0])));
}

#[test]
fn ascii_punctuation_is_four_runs() {
    for c in ['!', '/', ':', '@', '[', '`', '{', '~', '.', ',', '_', '-', '"'] {
        assert!(char_is_ascii_punctuation(c));
    }
    for c in [' ', '0', '9', 'A', 'Z', 'a', 'z', '\u{7f}', '\n', 'é', '€', '。'] {
        assert!(!char_is_ascii_punctuation(c));
    }
    for c in '\0'..='\u{ff}' {
        assert_eq!(char_is_ascii_punctuation(c), c.is_ascii_punctuation());
    }
}

#[test]
fn white_space_is_what_the_standard_library_trims() {
    for c in [' ', '\t', '\n', '\r', '\u{b}', '\u{c}', '\u{85}', '\u{a0}', '\u{2003}', '\u{3000}'] {
        assert!(char_is_whitespace(c));
    }
    for c in ['a', '0', '-', '\u{8}', '\u{e}', '\u{180e}', '\u{200b}', '\u{feff}'] {
        assert!(!char_is_whitespace(c));
    }
    for c in '\0'..=char::MAX {
        assert_eq!(char_is_whitespace(c), c.is_whitespace());
        let padded = format!("{c}a{c}");
        assert_eq!(padded.trim() == "a", char_is_whitespace(c));
    }
}

#[test]
fn char_width_is_the_length_in_utf8() {
    assert_eq!(char_width('a'), 1);
    assert_eq!(char_width('\u{7f}'), 1);
    assert_eq!(char_width('\u{80}'), 2);
    assert_eq!(char_width('é'), 2);
    assert_eq!(char_width('\u{7ff}'), 2);
    assert_eq!(char_width('\u{800}'), 3);
    assert_eq!(char_width('€'), 3);
    assert_eq!(char_width('\u{ffff}'), 3);
    assert_eq!(char_width('\u{10000}'), 4);
    assert_eq!(char_width('\u{10ffff}'), 4);
}

#[test]
fn fold_keeps_where_each_byte_came_from() {
    let folded = fold_text("AbC");
    assert_eq!(folded.text, "abc");
    assert_eq!(folded.starts, vec![0, 1, 2]);
    assert_eq!(folded.ends, vec![1, 2, 3]);
    let folded = fold_text("É b");
    assert_eq!(folded.text, "é b");
    assert_eq!(folded.starts, vec![0, 0, 2, 3]);
    assert_eq!(folded.ends, vec![2, 2, 3, 4]);
    let folded = fold_text("");
    assert_eq!(folded.text, "");
    assert!(folded.starts.is_empty() && folded.ends.is_empty());
}

#[test]
fn fold_of_a_character_may_be_longer_or_shorter_than_the_character() {
    // The dotted capital I takes two bytes, its lowercase form three.
    let folded = fold_text("\u{130}x");
    assert_eq!(folded.text, "i\u{307}x");
    assert_eq!(folded.starts, vec![0, 0, 0, 2]);
    assert_eq!(folded.ends, vec![2, 2, 2, 3]);
    // The Kelvin sign takes three bytes, the letter it folds to one.
    let folded = fold_text("a\u{212a}b");
    assert_eq!(folded.text, "akb");
    assert_eq!(folded.starts, vec![0, 1, 4]);
    assert_eq!(folded.ends, vec![1, 4, 5]);
}

#[test]
fn units_of_the_text_are_carried_over_to_the_fold() {
    let text = "\u{130}x Y-\u{212a}";
    let folded = fold_text(text);
    let index = get_target_skips(text);
    assert_eq!(index, vec![0, 4, 5, 6, 9]);
    assert_eq!(fold_units(&folded, &index), vec![0, 5, 6, 7, 8]);
    // Offsets inside a character go to the character after it; offsets
    // that fall together are kept once.
    assert_eq!(fold_units(&folded, &vec![1, 2, 9]), vec![3, 8]);
    assert_eq!(fold_units(&fold_text("abc"), &vec![3]), vec![3]);
}

#[test]
fn score_formula() {
    assert_eq!(Range(0, 3).get_score(false), 3700);
    assert_eq!(Range(0, 3).get_score(true), 3700);
    assert_eq!(Range(7, 8).get_score(true), 19393);
    assert_eq!(Range(7, 8).get_score(false), 19200);
    assert_eq!(Range(1, 1).get_score(true), 499);
    assert_eq!(Range(199, 1).get_score(true), 301);
    assert_eq!(Range(0, 0).get_score(false), 1000);
}

#[test]
fn prefix_bonus_is_zero_from_its_own_size_on() {
    assert_eq!(Range(200, 1).get_score(true), 300);
    assert_eq!(Range(201, 2).get_score(true), 1200);
    assert_eq!(Range(5000, 2).get_score(true), 1200);
}

#[test]
fn longest_scored_span_fits() {
    assert_eq!(Range(0, MAX_SCORED_LEN).get_score(true), 4_293_327_700);
    assert_eq!(Range(1, MAX_SCORED_LEN).get_score(true), 4_293_326_899);
}

#[test]
fn range_end_and_merge() {
    let mut range = Range(2, 3);
    assert_eq!(range.end_index(), 5);
    range.merge(Range(5, 4));
    assert_eq!((range.0, range.1), (2, 7));
    assert_eq!(range.end_index(), 9);
}

#[test]
fn sum_of_scores() {
    assert_eq!(sum_scores(&vec![]), 0);
    assert_eq!(sum_scores(&vec![Range(0, 1), Range(4, 1)]), 1300 + 496);
    assert_eq!(sum_scores(&vec![Range(3, 2), Range(300, 1)]), 1397 + 300);
}

#[test]
fn find_gives_the_first_occurrence() {
    assert_eq!(find_bytes(b"abcabc", b"bc"), Some(1));
    assert_eq!(find_bytes(b"abcabc", b"abc"), Some(0));
    assert_eq!(find_bytes(b"abcabc", b"cab"), Some(2));
    assert_eq!(find_bytes(b"abcabc", b"abcabc"), Some(0));
    assert_eq!(find_bytes(b"aab", b"ab"), Some(1));
    assert_eq!(find_bytes(b"abcabc", b"cb"), None);
    assert_eq!(find_bytes(b"abc", b"abcd"), None);
    assert_eq!(find_bytes(b"abc", b""), Some(0));
    assert_eq!(find_bytes(b"", b""), Some(0));
    assert_eq!(find_bytes(b"", b"a"), None);
}

#[test]
fn common_prefix_stops_at_the_first_difference() {
    assert_eq!(common_prefix_len(b"abc", b"abd"), 2);
    assert_eq!(common_prefix_len(b"abc", b"abc"), 3);
    assert_eq!(common_prefix_len(b"abc", b"abcd"), 3);
    assert_eq!(common_prefix_len(b"", b"abc"), 0);
    assert_eq!(common_prefix_len(b"xbc", b"abc"), 0);
}

#[test]
fn word_starts_after_a_character_that_is_no_letter_or_number() {
    assert!(starts_word("ab cd", 3));
    assert!(starts_word("ab-cd", 3));
    assert!(starts_word("ab - cd", 3));
    assert!(!starts_word("ab cd", 0));
    assert!(!starts_word("ab cd", 1));
    assert!(!starts_word("ab cd", 4));
    assert!(!starts_word("ab1cd", 3));
    assert!(!starts_word("ab cd", 6));
}

#[test]
fn word_start_looks_at_the_whole_character_before() {
    // 'é' is a letter of two bytes, '€' a sign of three.
    assert!(!starts_word("éa", 2));
    assert!(starts_word("€a", 3));
    assert!(!starts_word("€a", 1));
    assert!(!starts_word("€a", 2));
}

#[test]
fn empty_text_never_matches() {
    assert_eq!(score_of("", ""), None);
    assert_eq!(score_of("", "a"), None);
    assert_eq!(score_of("", "\""), None);
}

#[test]
fn empty_query_matches_with_score_zero_and_no_span() {
    assert_eq!(score_of("abc", ""), Some((0, vec![])));
    assert_eq!(score_of(" ", ""), Some((0, vec![])));
}

#[test]
fn substring_at_the_start_gets_the_start_bonus() {
    assert_eq!(score_of("abcdefg", "abc"), Some((300 * 9 + 1000, vec![(0, 3)])));
}

#[test]
fn substring_at_a_word_start_gets_the_prefix_bonus() {
    assert_eq!(score_of("Angela Petrelli", "petrelli"), Some((300 * 64 + 200 - 7, vec![(7, 8)])));
    assert_eq!(score_of("ab-cd", "cd"), Some((300 * 4 + 200 - 3, vec![(3, 2)])));
}

#[test]
fn substring_inside_a_word_gets_no_bonus() {
    assert_eq!(score_of("abcdefg", "def"), Some((300 * 9, vec![(3, 3)])));
    assert_eq!(score_of("ab1cd", "cd"), Some((300 * 4, vec![(3, 2)])));
}

#[test]
fn substring_is_the_first_occurrence() {
    assert_eq!(score_of("xab ab", "ab"), Some((300 * 4, vec![(1, 2)])));
}

#[test]
fn substring_far_from_the_start_gets_no_prefix_bonus() {
    let text = format!("{} cd", "x".repeat(250));
    assert_eq!(score_of(&text, "cd"), Some((300 * 4, vec![(251, 2)])));
}

#[test]
fn the_query_is_taken_as_it_stands() {
    assert_eq!(score_of("abc", "ABC"), None);
    assert_eq!(score_of("ABC", "abc"), Some((3700, vec![(0, 3)])));
}

#[test]
fn single_byte_query_is_not_aligned() {
    assert_eq!(score_of("abcdefg", "z"), None);
    assert_eq!(score_of("abcdefg", "x"), None);
    assert_eq!(score_of("abcdefg", "d"), Some((300, vec![(3, 1)])));
}

#[test]
fn quoted_query_is_only_sought_as_it_stands() {
    assert_eq!(score_of("Las Vegas", "\"la"), Some((300 * 4 + 1000, vec![(0, 2)])));
    assert_eq!(score_of("Las Vegas", "\"la\""), Some((300 * 4 + 1000, vec![(0, 2)])));
    assert_eq!(score_of("Los Angeles", "\"la"), None);
    assert_eq!(
        score_of("Los Angeles", "la"),
        Some((300 + 1000 + 300 + 200 - 4, vec![(0, 1), (4, 1)])),
    );
    assert_eq!(score_of("a bc def", "\"abc d\""), None);
}

#[test]
fn quoted_query_with_nothing_in_it_matches_at_the_start() {
    assert_eq!(score_of("abc", "\"\""), Some((1000, vec![(0, 0)])));
    assert_eq!(score_of("abc", "\""), Some((1000, vec![(0, 0)])));
}

#[test]
fn quote_inside_the_query_is_a_byte_like_any_other() {
    assert_eq!(
        score_of("abc \"def\"", "a\"def\""),
        Some((300 + 1000 + 300 * 25 + 200 - 4, vec![(0, 1), (4, 5)])),
    );
    assert_eq!(score_of("Las Vegas", "la\""), None);
}

#[test]
fn alignment_with_unit_starts() {
    assert_eq!(
        score_of("FuzzBunny", "fb"),
        Some((300 + 1000 + 300 + 200 - 4, vec![(0, 1), (4, 1)])),
    );
    assert_eq!(score_of("fuzzbunny", "fb"), None);
    let target: Target<'_> = ("FuzzBunny", None);
    let scored = score_folded(&target, &fold_text("FuzzBunny"), "fb").unwrap();
    assert_eq!(scored.score, 300 + 1000 + 300 + 200 - 4);
    assert_eq!(spans(&scored.ranges), vec![(0, 1), (4, 1)]);
    // Against the text as it stands the first byte of the query is not found.
    let unfolded = FoldedText {
        text: String::from("FuzzBunny"),
        starts: (0..9).collect(),
        ends: (1..10).collect(),
    };
    assert!(score_folded(&target, &unfolded, "fb").is_none());
}

#[test]
fn alignment_joins_spans_that_touch() {
    // "a", "b" and "c" each fill a unit together with the dash before the next.
    let target: Target<'_> = ("a-b-c", None);
    let scored = fuzzy_score_item(&target, "a-bc").unwrap();
    assert_eq!(spans(&scored.ranges), vec![(0, 3), (4, 1)]);
    assert_eq!(scored.score, 300 * 9 + 1000 + 300 + 200 - 4);
}

#[test]
fn alignment_passes_over_spaces_on_both_sides() {
    assert_eq!(score_of("ab cd", "a c"), Some((300 + 1000 + 300 + 200 - 3, vec![(0, 1), (3, 1)])));
    assert_eq!(score_of("abcd efg", "bcd efg"), Some((300 * 49, vec![(1, 7)])));
    assert_eq!(
        score_of("united states", "us"),
        Some((300 + 1000 + 300 + 200 - 7, vec![(0, 1), (7, 1)])),
    );
}

#[test]
fn alignment_starts_at_the_first_unit_that_works() {
    assert_eq!(
        score_of("the united states of america", "usam"),
        Some((300 + 196 + 300 + 189 + 1200 + 179, vec![(4, 1), (11, 1), (21, 2)])),
    );
}

#[test]
fn alignment_does_not_retry_inside_a_unit() {
    assert_eq!(score_of("abcdefg", "abc xxx"), None);
    assert_eq!(score_of("abab abc", "abc"), Some((300 * 9 + 200 - 5, vec![(5, 3)])));
    assert_eq!(score_of("aab ab", "abab"), None);
}

#[test]
fn cached_index_is_used_as_it_is() {
    let whole: Target<'_> = ("FuzzBunny", Some(vec![0, 9]));
    assert!(fuzzy_score_item(&whole, "fb").is_none());
    let split: Target<'_> = ("FuzzBunny", Some(vec![0, 4, 9]));
    assert_eq!(spans(&fuzzy_score_item(&split, "fb").unwrap().ranges), vec![(0, 1), (4, 1)]);
    let other: Target<'_> = ("fuzzbunny", Some(vec![0, 4, 9]));
    assert_eq!(spans(&fuzzy_score_item(&other, "fb").unwrap().ranges), vec![(0, 1), (4, 1)]);
}

#[test]
fn text_beyond_ascii_is_matched_by_its_bytes() {
    assert_eq!(score_of("Crème Brûlée", "brûlée"), Some((300 * 64 + 200 - 7, vec![(7, 8)])));
    assert_eq!(
        score_of("Crème Brûlée", "cb"),
        Some((300 + 1000 + 300 + 200 - 7, vec![(0, 1), (7, 1)])),
    );
    assert_eq!(score_of("ÉCOLE", "école"), Some((300 * 36 + 1000, vec![(0, 6)])));
}

#[test]
fn match_in_a_lowercase_form_of_another_length_is_a_span_of_the_text() {
    // The dotted capital I takes two bytes, its lowercase form three.
    assert_eq!(score_of("\u{130}stanbul", "stan"), Some((300 * 16, vec![(2, 4)])));
    assert_eq!(score_of("\u{130}stanbul", "s"), Some((300, vec![(2, 1)])));
    assert_eq!(score_of("\u{130}stanbul", "i"), Some((300 * 4 + 1000, vec![(0, 2)])));
    assert_eq!(score_of("\u{130}stanbul", ""), Some((0, vec![])));
    // The Kelvin sign takes three bytes, the letter it folds to one.
    assert_eq!(score_of("\u{212a}elvin", "kelvin"), Some((300 * 64 + 1000, vec![(0, 8)])));
    assert_eq!(score_of("0 \u{212a}", "k"), Some((300 * 9 + 200 - 2, vec![(2, 3)])));
    // The capital sharp s takes three bytes, the small one two.
    assert_eq!(score_of("STRA\u{1e9e}E", "stra\u{df}e"), Some((300 * 64 + 1000, vec![(0, 8)])));
    assert_eq!(
        score_of("x-\u{1e9e}E", "x\u{df}"),
        Some((300 + 1000 + 300 * 9 + 198, vec![(0, 1), (2, 3)])),
    );
}

#[test]
fn span_covers_whole_characters() {
    // The space is passed over but not counted: the span of four bytes of
    // the fold ends inside the sign and is given with the whole of it.
    assert_eq!(score_of("5 \u{20ac}", "5\u{20ac}"), Some((300 * 25 + 1000, vec![(0, 5)])));
}

#[test]
fn long_text_is_scored_against_a_short_query() {
    let text = format!("{}needle", "x".repeat(10_000));
    assert_eq!(score_of(&text, "needle"), Some((300 * 36, vec![(10_000, 6)])));
}
