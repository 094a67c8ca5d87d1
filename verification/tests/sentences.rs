use llm_rag::sentences::{chars_of, split_chars, split_sentences, trim_bounds};

fn trimmed(text: &str) -> String {
    let chars: Vec<char> = text.chars().collect();
    let (lo, hi) = trim_bounds(&chars);
    chars[lo..hi].iter().collect()
}

#[test]
fn chars_of_gives_every_character() {
    assert_eq!(chars_of("a\u{e9}\u{4e16}!"), vec!['a', '\u{e9}', '\u{4e16}', '!']);
    assert_eq!(chars_of(""), Vec::<char>::new());
}

#[test]
fn split_ends_sentences_at_period_question_and_exclamation() {
    assert_eq!(split_sentences("One. Two? Three! Four"), vec!["One", " Two", " Three", " Four"]);
}

#[test]
fn split_drops_only_the_empty_rest_after_the_last_end() {
    assert_eq!(split_sentences("One."), vec!["One"]);
    assert_eq!(split_sentences("One"), vec!["One"]);
    assert_eq!(split_sentences(""), Vec::<String>::new());
    assert_eq!(split_sentences("."), vec![""]);
    assert_eq!(split_sentences("a..b"), vec!["a", "", "b"]);
    assert_eq!(split_sentences("?!"), vec!["", ""]);
    assert_eq!(split_sentences("a. "), vec!["a", " "]);
}

#[test]
fn split_replaces_line_breaks_by_spaces() {
    assert_eq!(split_sentences("One\ntwo.\r\nThree"), vec!["One two", "  Three"]);
}

#[test]
fn split_agrees_with_split_terminator() {
    for text in ["", "a", "a.b", "a.b.", "..", "Hi! You? Me.", "tail. ", "\n.\n", "x?!y"] {
        let cleaned = text.replace("\n", " ").replace("\r", " ");
        let expected: Vec<String> = cleaned
            .split_terminator(|c| c == '.' || c == '?' || c == '!')
            .map(String::from)
            .collect();
        assert_eq!(split_sentences(text), expected);
    }
}

#[test]
fn split_chars_gives_the_same_sentences() {
    let chars: Vec<char> = "Up. Down".chars().collect();
    assert_eq!(split_chars(&chars), vec![vec!['U', 'p'], vec![' ', 'D', 'o', 'w', 'n']]);
}

#[test]
fn trim_removes_white_space_at_both_ends_only() {
    assert_eq!(trimmed("  a b \t\n"), "a b");
    assert_eq!(trimmed("a"), "a");
    assert_eq!(trimmed(""), "");
    assert_eq!(trimmed(" \t "), "");
    assert_eq!(trimmed("\u{a0}\u{2003}x\u{3000}\u{85}"), "x");
    assert_eq!(trimmed("\u{200b}x\u{200b}"), "\u{200b}x\u{200b}");
}

#[test]
fn trim_agrees_with_std_on_every_white_space_character() {
    for code in 0..0x3100u32 {
        if let Some(c) = char::from_u32(code) {
            let text: String = [c, 'x', c].iter().collect();
            assert_eq!(trimmed(&text), text.trim());
        }
    }
}
