use edge_scan::text::{
    find_chars, has_prefix, join_chars, lower_char, space, split_chars, split_lines, split_words,
    subrange, to_chars, to_text, trim_chars, upper_char, Separator,
};

fn strings(parts: Vec<Vec<char>>) -> Vec<String> {
    parts.iter().map(|part| part.iter().collect()).collect()
}

fn all_chars() -> impl Iterator<Item = char> {
    (0u32..=0x10ffff).filter_map(char::from_u32)
}

#[test]
fn white_space_is_that_of_unicode() {
    for c in all_chars() {
        assert_eq!(space(c), c.is_whitespace(), "{:x}", c as u32);
    }
}

#[test]
fn case_changes_touch_ascii_letters_only() {
    for c in all_chars() {
        assert_eq!(lower_char(c), c.to_ascii_lowercase());
        assert_eq!(upper_char(c), c.to_ascii_uppercase());
    }
}

#[test]
fn characters_and_text_convert_both_ways() {
    let text = "a\u{e9}\u{1f600}z";
    assert_eq!(to_chars(text), vec!['a', '\u{e9}', '\u{1f600}', 'z']);
    assert_eq!(to_text(&to_chars(text)), text);
    assert_eq!(to_text(&to_chars("")), "");
}

#[test]
fn lines_end_as_standard_lines_do() {
    let samples = [
        "", "\n", "\r\n", "\r", "a", "a\n", "a\r\n", "a\r", "a\nb", "a\r\nb\r", "\n\n", "a\n\r\nb\n",
        "a\r\r\nb", "x\n\ny",
    ];
    for sample in samples {
        let expected: Vec<String> = sample.lines().map(String::from).collect();
        assert_eq!(strings(split_lines(&to_chars(sample))), expected, "{:?}", sample);
    }
}

#[test]
fn words_are_those_of_split_whitespace() {
    let samples = ["", " ", "a", " a ", "a b", "\ta\u{a0}b\u{2003}c\n", "HTTP/1.1  200 OK"];
    for sample in samples {
        let expected: Vec<String> = sample.split_whitespace().map(String::from).collect();
        assert_eq!(strings(split_words(&to_chars(sample))), expected, "{:?}", sample);
    }
}

#[test]
fn splitting_keeps_empty_pieces() {
    for sample in ["", ",", "a", "a,b", ",a,,b,"] {
        let expected: Vec<String> = sample.split(',').map(String::from).collect();
        let parts = split_chars(&to_chars(sample), Separator::Is(','));
        assert_eq!(strings(parts.clone()), expected);
        assert_eq!(to_text(&join_chars(&parts, ',')), sample);
    }
}

#[test]
fn trimming_removes_white_space_at_both_ends() {
    for sample in ["", " ", "a", " a", "a ", "\t a b \u{3000}", "\u{85}x\u{2028}"] {
        assert_eq!(to_text(&trim_chars(&to_chars(sample))), sample.trim());
    }
}

#[test]
fn the_first_occurrence_is_found() {
    let text = to_chars("abcabc");
    assert_eq!(find_chars(&text, &to_chars("bc")), Some(1));
    assert_eq!(find_chars(&text, &to_chars("")), Some(0));
    assert_eq!(find_chars(&text, &to_chars("abcabc")), Some(0));
    assert_eq!(find_chars(&text, &to_chars("ac")), None);
    assert_eq!(find_chars(&text, &to_chars("abcabcd")), None);
    assert_eq!(find_chars(&[], &[]), Some(0));
    assert!(has_prefix(&text, &to_chars("abc")));
    assert!(!has_prefix(&text, &to_chars("bc")));
    assert_eq!(subrange(&text, 2, 4), vec!['c', 'a']);
}
