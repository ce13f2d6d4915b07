use regex_ansi::grammar::{back_to_digit, skip_block, skip_digits, skip_osc_body, skip_params};
use regex_ansi::grammar::{csi_body_end_at, osc_end_at, status_end_at};
use regex_ansi::scanner::{find_all_in, find_next_in, recognize, replace_all_in};
use regex_ansi::text::to_chars;
use regex_ansi::{find_all, find_first, matched_text, replace_all, Match, Category};

fn first_text(s: &str) -> Option<&str> {
    match find_first(s) {
        Some(m) => matched_text(s, &m),
        None => None,
    }
}

#[test]
fn plain_text_has_no_match() {
    for text in ["", "plain", "[0m ]8;; (B #3 5n", "caf\u{e9} \u{11c} \u{2603}"] {
        assert!(find_all(text).is_empty());
        assert_eq!(replace_all(text, ""), text);
    }
}

#[test]
fn incomplete_sequences_are_rejected() {
    assert!(find_first("\x1b").is_none());
    assert!(find_first("\x1b[").is_none());
    assert!(find_first("\x1b]8;;https://example.com").is_none());
    assert!(find_first("\x1b]8;;\x1bX").is_none());
    assert!(find_first("\x1b[?X").is_none());
    assert!(find_first("\u{9b}").is_none());
    assert!(find_first("\x1b(").is_none());
    assert!(find_first("\x1b#7").is_none());
    assert!(find_first("\x1bn").is_none());
}

#[test]
fn incomplete_sequences_are_kept_by_replace() {
    assert_eq!(replace_all("a\x1b[?Xb\x1b", ""), "a\x1b[?Xb\x1b");
    assert_eq!(replace_all("\x1b]0;t", "-"), "\x1b]0;t");
}

#[test]
fn osc_terminators_are_equivalent() {
    let payload = "\x1b]8;;https://example.com";
    for st in ["\x07", "\x1b\\", "\u{9c}"] {
        let text = format!("{payload}{st}label\x1b]8;;{st}");
        let found = find_all(&text);
        assert_eq!(found.len(), 2);
        assert_eq!(found[0].start, 0);
        assert_eq!(found[0].end, payload.chars().count() + st.chars().count());
        assert_eq!(found[0].category, Category::Osc);
        assert_eq!(replace_all(&text, ""), "label");
    }
}

#[test]
fn osc_body_stops_at_nearest_terminator() {
    let text = "\x1b]0;a\x07b\x07c";
    assert_eq!(first_text(text), Some("\x1b]0;a\x07"));
    assert_eq!(replace_all(text, ""), "b\x07c");
}

#[test]
fn parameter_block_with_mixed_separators() {
    let seq = "\x1b[38:2::12:34:56m";
    assert_eq!(first_text(seq), Some(seq));
    let followed = format!("{seq}X");
    assert_eq!(first_text(&followed), Some(seq));
    assert_eq!(find_first(&followed), Some(Match { start: 0, end: 17, category: Category::CsiEscape }));
}

#[test]
fn concrete_scenario() {
    let text = "foo\x1b[4mcake\x1b[0m";
    let found = find_all(text);
    assert_eq!(
        found,
        vec![
            Match { start: 3, end: 7, category: Category::CsiEscape },
            Match { start: 11, end: 15, category: Category::CsiEscape },
        ]
    );
    assert_eq!(matched_text(text, &found[0]), Some("\x1b[4m"));
    assert_eq!(matched_text(text, &found[1]), Some("\x1b[0m"));
    assert_eq!(replace_all(text, ""), "foocake");
    assert_eq!(replace_all(text, "|"), "foo|cake|");
}

#[test]
fn spans_count_characters_not_bytes() {
    let text = "\u{e9}\u{e9}\u{9b}1m\u{2603}";
    let m = find_first(text).unwrap();
    assert_eq!((m.start, m.end), (2, 5));
    assert_eq!(m.category, Category::CsiSingle);
    assert_eq!(matched_text(text, &m), Some("\u{9b}1m"));
    assert_eq!(replace_all(text, ""), "\u{e9}\u{e9}\u{2603}");
}

#[test]
fn digit_groups_hold_at_most_four_digits() {
    assert_eq!(first_text("\x1b[12345m"), Some("\x1b[12345"));
    assert_eq!(first_text("\x1b[1234m"), Some("\x1b[1234m"));
    assert_eq!(first_text("\x1b[1;12345m"), Some("\x1b[1;12345"));
}

#[test]
fn last_digit_closes_a_block_without_final_byte() {
    assert_eq!(first_text("\x1b[12X"), Some("\x1b[12"));
    assert_eq!(first_text("\x1b[1;2;X"), Some("\x1b[1;2"));
    assert_eq!(first_text("\x1b[1;;"), Some("\x1b[1"));
    assert_eq!(first_text("\x1b[7"), Some("\x1b[7"));
}

#[test]
fn earlier_category_wins() {
    // ESC 7 is a short escape before it is the start of a status report.
    let m = find_first("\x1b7n").unwrap();
    assert_eq!((m.start, m.end, m.category), (0, 2, Category::ShortEscape));
    let m = find_first("\x1b5n").unwrap();
    assert_eq!((m.start, m.end, m.category), (0, 3, Category::StatusReport));
}

#[test]
fn stripping_twice_changes_nothing_when_nothing_is_left() {
    for text in [
        "foo\x1b[4mcake\x1b[0m",
        "\x1b]0;t\x07a\x1bMb\x1b(0c\x1b#3d\x1b12n",
        "plain",
    ] {
        let once = replace_all(text, "");
        assert!(find_first(&once).is_none());
        assert_eq!(replace_all(&once, ""), once);
    }
}

#[test]
fn stripping_can_join_a_new_sequence() {
    let once = replace_all("\x1b\x1b[0m[0m", "");
    assert_eq!(once, "\x1b[0m");
    assert_eq!(replace_all(&once, ""), "");
}

#[test]
fn a_following_character_is_not_captured() {
    for seq in ["\x1b[1;2H", "\x1b]0;t\x07", "\x1bM", "\x1b(B", "\x1b#3", "\x1b15n", "\u{9b}?25l"] {
        for c in "aZ09;:[m~ \x1b".chars() {
            let text = format!("{seq}{c}");
            assert_eq!(first_text(&text), Some(seq), "{text:?}");
        }
    }
}

#[test]
fn a_digit_final_may_be_extended() {
    assert_eq!(first_text("\x1b[1"), Some("\x1b[1"));
    assert_eq!(first_text("\x1b[1m"), Some("\x1b[1m"));
}

#[test]
fn matched_text_rejects_spans_outside_the_text() {
    let m = Match { start: 2, end: 9, category: Category::Osc };
    assert_eq!(matched_text("short", &m), None);
    let m = Match { start: 3, end: 2, category: Category::Osc };
    assert_eq!(matched_text("short", &m), None);
    let m = Match { start: 1, end: 3, category: Category::Osc };
    assert_eq!(matched_text("short", &m), Some("ho"));
}

#[test]
fn slice_functions_agree_with_string_functions() {
    let text = "a\x1b[31mb\x1b]0;t\x1b\\c";
    let chars = to_chars(text);
    assert_eq!(chars.len(), 15);
    assert_eq!(find_all_in(&chars), find_all(text));
    assert_eq!(find_next_in(&chars, 0), find_first(text));
    assert_eq!(find_next_in(&chars, 2).map(|m| m.start), Some(7));
    assert_eq!(find_next_in(&chars, 99), None);
    assert_eq!(recognize(&chars, 0), None);
    assert_eq!(recognize(&chars, 1), Some(Match { start: 1, end: 6, category: Category::CsiEscape }));
    assert_eq!(recognize(&chars, 15), None);
    let with: Vec<char> = vec!['-', '-'];
    let out: String = replace_all_in(&chars, &with).iter().collect();
    assert_eq!(out, "a--b--c");
    assert_eq!(replace_all(text, "--"), "a--b--c");
}

#[test]
fn category_functions_give_exact_ends() {
    let chars = to_chars("\x1b]0;t\x07\x1b12n;?12;3mX");
    assert_eq!(osc_end_at(&chars, 0), Some(6));
    assert_eq!(osc_end_at(&chars, 6), None);
    assert_eq!(status_end_at(&chars, 6), Some(10));
    assert_eq!(status_end_at(&chars, 0), None);
    assert_eq!(csi_body_end_at(&chars, 10), Some(17));
    assert_eq!(csi_body_end_at(&chars, 17), None);
    assert_eq!(csi_body_end_at(&chars, 18), None);
}

#[test]
fn positions_outside_the_text_are_answered() {
    let chars = to_chars("\x1b[12;3m");
    assert_eq!(skip_params(&chars, 99), 99);
    assert_eq!(skip_digits(&chars, 99), 99);
    assert_eq!(skip_osc_body(&chars, 99), 99);
    assert_eq!(skip_block(&chars, 99), 99);
    assert_eq!(back_to_digit(&chars, 2, 99), 99);
    assert_eq!(back_to_digit(&chars, 5, 2), 2);
    assert_eq!(csi_body_end_at(&chars, 99), None);
    assert_eq!(osc_end_at(&chars, usize::MAX), None);
    assert_eq!(recognize(&chars, usize::MAX), None);
}

#[test]
fn helpers_give_exact_positions() {
    let chars = to_chars("[?;12:345;;x\x07");
    assert_eq!(skip_params(&chars, 0), 3);
    assert_eq!(skip_digits(&chars, 3), 5);
    assert_eq!(skip_block(&chars, 4), 11);
    assert_eq!(back_to_digit(&chars, 3, 11), 9);
    assert_eq!(back_to_digit(&chars, 3, 4), 4);
    assert_eq!(skip_osc_body(&chars, 0), 12);
    let long = to_chars("123456;1");
    assert_eq!(skip_block(&long, 1), 4);
    assert_eq!(skip_digits(&long, 0), 6);
}
