use regex::Regex;
use regex_ansi::{find_all, find_first, pattern, replace_all, Category};

fn char_index(text: &str, byte: usize) -> usize {
    text[..byte].chars().count()
}

// The scanner and a regular expression engine run on the pattern must find
// the same spans and strip to the same text.
fn agree(re: &Regex, text: &str) {
    let expected: Vec<(usize, usize)> = re
        .find_iter(text)
        .map(|m| (char_index(text, m.start()), char_index(text, m.end())))
        .collect();
    let got: Vec<(usize, usize)> = find_all(text).iter().map(|m| (m.start, m.end)).collect();
    assert_eq!(got, expected, "spans differ on {text:?}");
    let first: Option<(usize, usize)> = find_first(text).map(|m| (m.start, m.end));
    assert_eq!(first, expected.first().copied(), "first span differs on {text:?}");
    assert_eq!(replace_all(text, ""), re.replace_all(text, "").into_owned());
    assert_eq!(
        replace_all(text, "<>"),
        re.replace_all(text, regex::NoExpand("<>")).into_owned()
    );
}

fn next_random(state: &mut u64) -> u64 {
    *state = state
        .wrapping_mul(6364136223846793005)
        .wrapping_add(1442695040888963407);
    *state >> 33
}

fn random_text(state: &mut u64, alphabet: &[char], max_len: u64) -> String {
    let len: u64 = next_random(state) % (max_len + 1);
    let mut text = String::new();
    for _ in 0..len {
        let k: usize = (next_random(state) % (alphabet.len() as u64)) as usize;
        text.push(alphabet[k]);
    }
    text
}

// Every text over `alphabet` of exactly `len` characters, behind `prefix`.
fn every_text(re: &Regex, prefix: &str, alphabet: &[char], len: u32) {
    let total: usize = alphabet.len().pow(len);
    for n in 0..total {
        let mut text = String::from(prefix);
        let mut rest: usize = n;
        for _ in 0..len {
            text.push(alphabet[rest % alphabet.len()]);
            rest /= alphabet.len();
        }
        agree(re, &text);
    }
}

#[test]
fn agrees_on_random_control_text() {
    let re = Regex::new(pattern()).unwrap();
    let alphabet: Vec<char> = "\x1b\x1b\x1b\u{9b}\u{9c}\x07\\[]()#;:?0123456789nmAHXx<=>~ é`"
        .chars()
        .collect();
    let mut state: u64 = 0x2545F4914F6CDD1D;
    for _ in 0..40_000 {
        let text = random_text(&mut state, &alphabet, 14);
        agree(&re, &text);
    }
}

#[test]
fn agrees_on_random_parameter_blocks() {
    let re = Regex::new(pattern()).unwrap();
    let alphabet: Vec<char> = "\x1b[[;:;:0123456789mX".chars().collect();
    let mut state: u64 = 42;
    for _ in 0..40_000 {
        let text = format!("\x1b[{}", random_text(&mut state, &alphabet, 16));
        agree(&re, &text);
    }
}

#[test]
fn agrees_on_random_osc_text() {
    let re = Regex::new(pattern()).unwrap();
    let alphabet: Vec<char> = "\x1b]\\\x07\u{9c}\u{9b}ab;8[0m".chars().collect();
    let mut state: u64 = 7;
    for _ in 0..40_000 {
        let text = format!("\x1b]{}", random_text(&mut state, &alphabet, 12));
        agree(&re, &text);
    }
}

#[test]
fn agrees_on_every_short_csi_body() {
    let re = Regex::new(pattern()).unwrap();
    let alphabet: Vec<char> = "19;:m?X[".chars().collect();
    for len in 0..=6 {
        every_text(&re, "\x1b[", &alphabet, len);
    }
    for len in 0..=5 {
        every_text(&re, "\u{9b}", &alphabet, len);
    }
}

#[test]
fn agrees_on_every_short_escape_text() {
    let re = Regex::new(pattern()).unwrap();
    let alphabet: Vec<char> = "\x1b[](#7n5A<\x07\\".chars().collect();
    for len in 0..=4 {
        every_text(&re, "", &alphabet, len);
    }
}

#[test]
fn agrees_on_long_digit_runs() {
    let re = Regex::new(pattern()).unwrap();
    for text in [
        "\x1b[12345m",
        "\x1b[123456789",
        "\x1b[1234;12345m",
        "\x1b[1;;;;X",
        "\x1b[1;2;X",
        "\x1b[12X",
        "\x1b[1X",
        "\x1b[;1;m",
        "\x1b[?;12;;",
        "\x1b123456n",
        "\x1b7n",
        "\x1b5",
    ] {
        agree(&re, text);
    }
}

#[test]
fn categories_are_reported() {
    let cases: [(&str, Category); 7] = [
        ("\x1b]0;t\x07", Category::Osc),
        ("\x1b[1m", Category::CsiEscape),
        ("\u{9b}1m", Category::CsiSingle),
        ("\x1bM", Category::ShortEscape),
        ("\x1b(B", Category::CharsetSelect),
        ("\x1b#8", Category::HashSequence),
        ("\x1b5n", Category::StatusReport),
    ];
    for (text, category) in cases {
        let m = find_first(text).unwrap();
        assert_eq!(m.category, category);
        assert_eq!((m.start, m.end), (0, text.chars().count()));
    }
}
