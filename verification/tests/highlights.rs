use fuzzbunny_rs::highlight::ranges_fit_text;
use fuzzbunny_rs::{fuzzy_match, fuzzy_score_item, highlights_from_ranges, Range};

#[test]
fn highlights_cut_the_text_at_a_span() {
    let hls = highlights_from_ranges("my example", vec![Range(3, 2)]);
    assert_eq!(hls, vec!["my ", "ex", "ample"]);
}

#[test]
fn highlights_begin_with_an_empty_piece_for_a_span_at_the_start() {
    assert_eq!(highlights_from_ranges("abc", vec![Range(0, 2)]), vec!["", "ab", "c"]);
}

#[test]
fn highlights_have_no_last_piece_after_a_span_at_the_end() {
    assert_eq!(highlights_from_ranges("abc", vec![Range(1, 2)]), vec!["a", "bc"]);
    assert_eq!(highlights_from_ranges("abc", vec![Range(0, 3)]), vec!["", "abc"]);
}

#[test]
fn highlights_without_spans_are_the_text() {
    assert_eq!(highlights_from_ranges("abc", vec![]), vec!["abc"]);
    assert_eq!(highlights_from_ranges("", vec![]), Vec::<&str>::new());
}

#[test]
fn highlights_of_several_spans_alternate() {
    let hls = highlights_from_ranges(
        "the united states of america",
        vec![Range(4, 1), Range(11, 1), Range(21, 2)],
    );
    assert_eq!(hls, vec!["the ", "u", "nited ", "s", "tates of ", "am", "erica"]);
}

#[test]
fn highlights_keep_empty_pieces_between_spans_that_touch() {
    assert_eq!(
        highlights_from_ranges("abcd", vec![Range(0, 2), Range(2, 1)]),
        vec!["", "ab", "", "c", "d"],
    );
    assert_eq!(highlights_from_ranges("abc", vec![Range(0, 0)]), vec!["", "", "abc"]);
}

#[test]
fn highlights_put_together_give_the_text() {
    let cases: Vec<(&str, Vec<Range>)> = vec![
        ("abcdefg", vec![Range(3, 3)]),
        ("abcdefg", vec![]),
        ("abcdefg", vec![Range(0, 7)]),
        ("ab cd ef", vec![Range(0, 1), Range(3, 2), Range(7, 1)]),
        ("Crème Brûlée", vec![Range(0, 4), Range(7, 4)]),
        ("", vec![]),
    ];
    for (text, ranges) in cases {
        let count = ranges.len();
        let hls = highlights_from_ranges(text, ranges);
        assert_eq!(hls.concat(), text);
        assert!(hls.len() == 2 * count || hls.len() == 2 * count + 1);
    }
}

#[test]
fn highlights_of_a_match_give_the_text() {
    let texts =
        ["abcdefg", "the united states of america", "FuzzBunny", "Crème Brûlée", "a b c abC def"];
    let queries = ["", "a", "abc", "usam", "fb", "cb", "abc d", "\"a", "e"];
    for text in texts {
        for query in queries {
            if let Some(result) = fuzzy_match(text, Some(query)) {
                assert_eq!(result.item, text);
                assert_eq!(result.highlights.unwrap().concat(), text);
            }
        }
    }
}

#[test]
fn highlights_cut_between_characters() {
    let hls = highlights_from_ranges("Crème Brûlée", vec![Range(7, 4)]);
    assert_eq!(hls, vec!["Crème ", "Brû", "lée"]);
}

#[test]
fn spans_that_fit_are_told_from_those_that_do_not() {
    assert!(ranges_fit_text("abcdef", &vec![]));
    assert!(ranges_fit_text("abcdef", &vec![Range(0, 6)]));
    assert!(ranges_fit_text("abcdef", &vec![Range(1, 2), Range(3, 1), Range(6, 0)]));
    assert!(ranges_fit_text("", &vec![Range(0, 0)]));
    // beyond the end
    assert!(!ranges_fit_text("abcdef", &vec![Range(4, 3)]));
    assert!(!ranges_fit_text("abcdef", &vec![Range(7, 0)]));
    assert!(!ranges_fit_text("abcdef", &vec![Range(1, usize::MAX)]));
    // out of order, overlapping
    assert!(!ranges_fit_text("abcdef", &vec![Range(3, 1), Range(1, 1)]));
    assert!(!ranges_fit_text("abcdef", &vec![Range(1, 3), Range(3, 1)]));
    // inside a character: 'è' takes bytes 2 and 3
    assert!(ranges_fit_text("Crème", &vec![Range(2, 2)]));
    assert!(!ranges_fit_text("Crème", &vec![Range(3, 1)]));
    assert!(!ranges_fit_text("Crème", &vec![Range(1, 2)]));
}

#[test]
fn spans_of_a_match_can_always_be_cut_out() {
    let scored = fuzzy_score_item(&("5 €", None), "5€").unwrap();
    assert!(ranges_fit_text("5 €", &scored.ranges));
    let found = fuzzy_match("5 €", Some("5€")).unwrap();
    assert_eq!(found.highlights, Some(vec!["", "5 €"]));
    let found = fuzzy_match("\u{130}stanbul", Some("STAN")).unwrap();
    assert_eq!(found.highlights, Some(vec!["\u{130}", "stan", "bul"]));
    let found = fuzzy_match("0 \u{212a}elvin", Some("kel")).unwrap();
    assert_eq!(found.highlights, Some(vec!["0 ", "\u{212a}el", "vin"]));
}
