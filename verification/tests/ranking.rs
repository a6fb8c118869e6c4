use fuzzbunny_rs::filter::{evaluate, fold_query, rank_matches};
use fuzzbunny_rs::score::MAX_SCORED_LEN;
use fuzzbunny_rs::{
    fuzzy_filter, fuzzy_match, precompute_skips_for_items, FuzzyFilterResult, Target,
};
use std::cmp::Ordering;

fn plain<'a>(items: &[&'a str]) -> Vec<Target<'a>> {
    items.iter().map(|item| (*item, None)).collect()
}

fn items_of<'a>(results: &Vec<FuzzyFilterResult<'a>>) -> Vec<&'a str> {
    results.iter().map(|result| result.item).collect()
}

fn result(item: &str, score: u32) -> FuzzyFilterResult<'_> {
    FuzzyFilterResult { item, score, highlights: Some(vec![item]) }
}

#[test]
fn filter_lists_matches_with_highlights() {
    let items = vec!["apple", "application", "banana"];
    let targets = precompute_skips_for_items(items);
    let results = fuzzy_filter(&targets, "app");
    assert_eq!(results.len(), 2);
    assert_eq!(*results[0].highlights.as_ref().unwrap(), vec!["", "app", "lication"]);
    assert_eq!(*results[1].highlights.as_ref().unwrap(), vec!["", "app", "le"]);
    assert_eq!(results[0].score, 3700);
    assert_eq!(results[1].score, 3700);
}

#[test]
fn empty_query_keeps_every_text_in_its_place() {
    let items = ["pear", "Apple", "fig", "apple", "  ", "Zebra crossing"];
    for targets in [plain(&items), precompute_skips_for_items(items.to_vec())] {
        let results = fuzzy_filter(&targets, "");
        assert_eq!(items_of(&results), items.to_vec());
        for (result, item) in results.iter().zip(items) {
            assert_eq!(result.score, 0);
            assert_eq!(result.highlights, Some(vec![item]));
        }
    }
}

#[test]
fn query_of_white_space_is_the_empty_query() {
    let items = ["pear", "Apple", "fig", "apple"];
    let targets = plain(&items);
    for query in [" ", "   ", "\t", " \n "] {
        let results = fuzzy_filter(&targets, query);
        assert_eq!(items_of(&results), items.to_vec());
        assert!(results.iter().all(|result| result.score == 0));
    }
}

#[test]
fn empty_text_is_never_listed() {
    let targets = plain(&["a", "", "b"]);
    assert_eq!(items_of(&fuzzy_filter(&targets, "")), vec!["a", "b"]);
    assert_eq!(items_of(&fuzzy_filter(&targets, "a")), vec!["a"]);
    assert!(fuzzy_match("", None).is_none());
    assert!(fuzzy_match("", Some("")).is_none());
}

#[test]
fn equal_scores_are_listed_by_falling_text() {
    let expected = vec!["Peterr Petrelli", "Arthur Petrelli", "Angela Petrelli"];
    let orders = [
        ["Angela Petrelli", "Arthur Petrelli", "Peterr Petrelli"],
        ["Angela Petrelli", "Peterr Petrelli", "Arthur Petrelli"],
        ["Arthur Petrelli", "Angela Petrelli", "Peterr Petrelli"],
        ["Arthur Petrelli", "Peterr Petrelli", "Angela Petrelli"],
        ["Peterr Petrelli", "Angela Petrelli", "Arthur Petrelli"],
        ["Peterr Petrelli", "Arthur Petrelli", "Angela Petrelli"],
    ];
    for order in orders {
        let results = fuzzy_filter(&plain(&order), "petrelli");
        assert_eq!(items_of(&results), expected);
        assert!(results.iter().all(|result| result.score == 300 * 64 + 200 - 7));
    }
}

#[test]
fn higher_score_is_listed_first() {
    let targets = plain(&["xx abc", "zabc", "abc", "x abc", "ab c"]);
    let results = fuzzy_filter(&targets, "abc");
    assert_eq!(items_of(&results), vec!["abc", "x abc", "xx abc", "zabc", "ab c"]);
    let scores: Vec<u32> = results.iter().map(|result| result.score).collect();
    assert_eq!(scores, vec![3700, 2898, 2897, 2700, 1200 + 1000 + 300 + 200 - 3]);
}

#[test]
fn longer_text_comes_before_its_beginning() {
    let targets = plain(&["abc", "ab", "abcd"]);
    assert_eq!(items_of(&fuzzy_filter(&targets, "ab")), vec!["abcd", "abc", "ab"]);
}

#[test]
fn texts_are_ordered_by_their_bytes() {
    let targets = plain(&["abc z", "abc Z", "abc é", "abc a"]);
    assert_eq!(items_of(&fuzzy_filter(&targets, "abc")), vec!["abc é", "abc z", "abc a", "abc Z"]);
}

#[test]
fn equal_texts_keep_their_order() {
    let first = String::from("same text");
    let second = String::from("same text");
    let third = String::from("same text");
    let targets = plain(&[first.as_str(), "other text", second.as_str(), third.as_str()]);
    let results = fuzzy_filter(&targets, "text");
    assert_eq!(items_of(&results), vec!["same text", "same text", "same text", "other text"]);
    assert_eq!(results[0].item.as_ptr(), first.as_ptr());
    assert_eq!(results[1].item.as_ptr(), second.as_ptr());
    assert_eq!(results[2].item.as_ptr(), third.as_ptr());
}

#[test]
fn every_listed_result_has_highlights() {
    let items = ["Claire Bennet", "Elle Bishop", "", "Monica Dawson", "EL Hawkins", "5 €"];
    for query in ["", "e", "el", "eb", "\"b", "5€", "zzz", " E "] {
        for result in fuzzy_filter(&plain(&items), query) {
            assert!(result.highlights.is_some());
            assert_eq!(result.highlights.unwrap().concat(), result.item);
        }
    }
}

#[test]
fn filter_folds_the_query_and_rank_matches_does_not() {
    let targets = plain(&["Abc", "xyz"]);
    assert_eq!(items_of(&fuzzy_filter(&targets, "  ABC ")), vec!["Abc"]);
    assert_eq!(items_of(&rank_matches(&targets, "abc")), vec!["Abc"]);
    assert!(rank_matches(&targets, "ABC").is_empty());
    assert!(rank_matches(&targets, " abc").is_empty());
}

#[test]
fn query_is_trimmed_and_brought_to_lowercase() {
    assert_eq!(fold_query("  AbC "), "abc");
    assert_eq!(fold_query("a  B"), "a  b");
    assert_eq!(fold_query("\t\n"), "");
    assert_eq!(fold_query(""), "");
    assert_eq!(fold_query("ÉCOLE "), "école");
}

#[test]
fn white_space_around_the_query_changes_nothing() {
    for text in ["abcdefg", "ab cd", "FuzzBunny"] {
        for query in ["def", "ac", "fb", "zz"] {
            let padded = format!("  {query}\t ");
            let bare = fuzzy_match(text, Some(query));
            let with_space = fuzzy_match(text, Some(&padded));
            assert_eq!(bare.is_some(), with_space.is_some());
            if let (Some(bare), Some(with_space)) = (bare, with_space) {
                assert_eq!(bare.score, with_space.score);
                assert_eq!(bare.highlights, with_space.highlights);
            }
        }
    }
}

#[test]
fn single_character_query_matches_only_where_it_occurs() {
    assert!(fuzzy_match("abcdefg", Some("z")).is_none());
    assert!(fuzzy_match("abcdefg", Some("x")).is_none());
    assert!(fuzzy_match("Fuzz Bunny", Some("z")).is_some());
    let found = fuzzy_match("abcdefg", Some("D")).unwrap();
    assert_eq!(found.highlights, Some(vec!["abc", "d", "efg"]));
    assert_eq!(found.score, 300);
}

#[test]
fn quoted_query_is_not_aligned_with_word_starts() {
    assert!(fuzzy_match("Los Angeles", Some("\"LA")).is_none());
    assert!(fuzzy_match("Los Angeles", Some("LA")).is_some());
    let found = fuzzy_match("Las Vegas", Some("\"la")).unwrap();
    assert_eq!(found.highlights, Some(vec!["", "La", "s Vegas"]));
}

#[test]
fn match_holds_text_score_and_highlights() {
    let found = fuzzy_match("Angela Petrelli", Some("PETRELLI")).unwrap();
    assert_eq!(found.item, "Angela Petrelli");
    assert_eq!(found.score, 300 * 64 + 200 - 7);
    assert_eq!(found.highlights, Some(vec!["Angela ", "Petrelli"]));
}

#[test]
fn match_beyond_ascii() {
    let found = fuzzy_match("Crème Brûlée", Some("BRÛ")).unwrap();
    assert_eq!(found.highlights, Some(vec!["Crème ", "Brû", "lée"]));
    assert_eq!(found.score, 300 * 16 + 200 - 7);
}

#[test]
fn text_and_query_too_long_to_score_do_not_match() {
    let long = "a".repeat(MAX_SCORED_LEN + 1);
    let fits = "a".repeat(MAX_SCORED_LEN);
    let quarter = "a".repeat(MAX_SCORED_LEN / 4);
    assert!(evaluate(&(long.as_str(), None), &long).is_none());
    assert!(evaluate(&(long.as_str(), None), &fits).is_none());
    assert!(fuzzy_match(&long, Some(&long)).is_none());
    // One of the two short enough, and the pair is scored.
    let found = evaluate(&(long.as_str(), None), &quarter).unwrap();
    assert_eq!(found.score, 300 * 945 * 945 + 1000);
    let found = evaluate(&(fits.as_str(), None), &fits).unwrap();
    assert_eq!(found.score, 4_293_327_700);
    assert!(evaluate(&(fits.as_str(), None), &long).is_none());
    assert!(evaluate(&(long.as_str(), None), "").is_some());
}

#[test]
fn results_compare_by_score_then_by_text() {
    assert_eq!(result("a", 2).cmp(&result("a", 1)), Ordering::Greater);
    assert_eq!(result("a", 1).cmp(&result("b", 2)), Ordering::Less);
    assert_eq!(result("b", 1).cmp(&result("a", 2)), Ordering::Less);
    assert_eq!(result("a", 1).cmp(&result("b", 1)), Ordering::Less);
    assert_eq!(result("b", 1).cmp(&result("a", 1)), Ordering::Greater);
    assert_eq!(result("a", 1).cmp(&result("ab", 1)), Ordering::Less);
    assert_eq!(result("ab", 1).cmp(&result("a", 1)), Ordering::Greater);
    assert_eq!(result("ab", 1).cmp(&result("ab", 1)), Ordering::Equal);
    assert_eq!(result("", 0).cmp(&result("", 0)), Ordering::Equal);
}

#[test]
fn results_are_equal_by_score_and_text() {
    let with_other_highlights = FuzzyFilterResult { item: "ab", score: 1, highlights: None };
    assert!(result("ab", 1) == with_other_highlights);
    assert!(result("ab", 1) != result("ab", 2));
    assert!(result("ab", 1) != result("abc", 1));
    assert!(result("ab", 1) != result("ac", 1));
}

#[test]
fn results_are_ordered_as_they_compare() {
    assert!(result("a", 1) < result("a", 2));
    assert!(result("b", 1) > result("a", 1));
    assert!(result("a", 1) < result("ab", 1));
    assert!(result("a", 1) <= result("a", 1));
    assert_eq!(result("a", 1).partial_cmp(&result("b", 1)), Some(Ordering::Less));
    assert_eq!(result("a", 1).partial_cmp(&result("a", 1)), Some(Ordering::Equal));
}
