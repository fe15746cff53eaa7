use ahash::AHashSet;
use typing_monkey::dictionary::{dictionary_of, longest_word_len};
use typing_monkey::lines::{is_space_char, trimmed_lines};

fn by_std(text: &str) -> Vec<String> {
    text.lines().map(|line| line.trim().to_string()).collect()
}

#[test]
fn empty_text_has_no_lines() {
    assert_eq!(trimmed_lines(""), Vec::<String>::new());
}

#[test]
fn one_word_per_line() {
    assert_eq!(trimmed_lines("cat\ndog\nbird\n"), vec!["cat", "dog", "bird"]);
}

#[test]
fn last_line_needs_no_line_feed() {
    assert_eq!(trimmed_lines("cat\ndog"), vec!["cat", "dog"]);
}

#[test]
fn white_space_at_both_ends_is_stripped() {
    assert_eq!(trimmed_lines("  cat \t\n\tdog\r\n bird"), vec!["cat", "dog", "bird"]);
    assert_eq!(trimmed_lines("\u{a0}cat\u{3000}\n\u{2003}dog\u{85}"), vec!["cat", "dog"]);
}

#[test]
fn white_space_inside_a_line_is_kept() {
    assert_eq!(trimmed_lines(" hot  dog \n a\tb\n"), vec!["hot  dog", "a\tb"]);
}

#[test]
fn empty_lines_are_kept() {
    assert_eq!(trimmed_lines("cat\n\n  \ndog\n"), vec!["cat", "", "", "dog"]);
    assert_eq!(trimmed_lines("\n"), vec![""]);
    assert_eq!(trimmed_lines("\n\n"), vec!["", ""]);
    assert_eq!(trimmed_lines("cat\n "), vec!["cat", ""]);
    assert_eq!(trimmed_lines(" "), vec![""]);
}

#[test]
fn repeated_lines_are_all_returned() {
    assert_eq!(trimmed_lines("cat\ncat\n cat\n"), vec!["cat", "cat", "cat"]);
}

#[test]
fn lines_agree_with_the_standard_library() {
    let texts = [
        "",
        "\n",
        "\r\n",
        "\r",
        "a",
        "a\n",
        "a\r\n",
        "a\rb\n",
        " a \n b \n",
        "\n\na\n\n",
        "über\n  naïve \n日本語\u{3000}\n",
        "one two\n\tthree\u{b}\n\u{c}four\u{2028}five\n",
        "x\n\u{1680}\u{2000}\u{200a}y\u{202f}\u{205f}\n\u{2029}",
        "zero\u{200b}\n\u{180e}width\u{feff}\n",
    ];
    for text in texts {
        assert_eq!(trimmed_lines(text), by_std(text));
    }
}

#[test]
fn white_space_is_what_the_standard_library_calls_it() {
    for code in 0..=0x10FFFFu32 {
        if let Some(c) = char::from_u32(code) {
            assert_eq!(is_space_char(c), c.is_whitespace());
        }
    }
}

#[test]
fn dictionary_holds_each_line_once() {
    let dict = dictionary_of(" cat\ndog \ncat\n\n  \nbird");
    let want: AHashSet<String> =
        ["cat", "dog", "bird", ""].iter().map(|w| w.to_string()).collect();
    assert_eq!(dict, want);
    assert_eq!(dict.len(), 4);
    assert_eq!(longest_word_len(&dict), Some(4));
}

#[test]
fn dictionary_of_empty_text_is_empty() {
    assert!(dictionary_of("").is_empty());
    assert_eq!(longest_word_len(&dictionary_of("")), None);
}
