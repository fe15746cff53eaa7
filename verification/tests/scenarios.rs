use ahash::AHashSet;
use typing_monkey::{StartError, TypingMonkey};

fn words_of(words: &[&str]) -> AHashSet<String> {
    words.iter().map(|w| w.to_string()).collect()
}

fn letters() -> Vec<char> {
    "abcdefghijklmnopqrstuvwxyz".chars().collect()
}

fn at(c: char) -> usize {
    (c as u8 - b'a') as usize
}

fn ranked(monkey: &TypingMonkey) -> Vec<String> {
    monkey.longest_words().clone()
}

#[test]
fn cat_is_marked_and_ranked() {
    let mut monkey = TypingMonkey::start(words_of(&["cat"]), letters(), Vec::new(), 5).unwrap();
    assert_eq!(monkey.max_buffer_len(), 3);
    assert!(!monkey.is_primed());
    for c in ['c', 'a', 't'] {
        monkey.type_symbol(at(c));
    }
    assert!(monkey.is_primed());
    assert_eq!(monkey.buffer(), vec![('c', true), ('a', true), ('t', true)]);
    assert_eq!(ranked(&monkey), vec!["cat".to_string()]);
    assert_eq!(monkey.take_ranking_file(), Some("cat\n".to_string()));
    assert_eq!(monkey.take_ranking_file(), None);

    assert_eq!(monkey.tick(at('x')), ('c', true));
    assert_eq!(monkey.buffer(), vec![('a', true), ('t', true), ('x', false)]);
    assert_eq!(monkey.tick(at('x')), ('a', true));
    assert_eq!(monkey.tick(at('x')), ('t', true));
    assert_eq!(monkey.buffer(), vec![('x', false), ('x', false), ('x', false)]);
    assert_eq!(monkey.tick(at('x')), ('x', false));
    assert_eq!(monkey.tick(at('x')), ('x', false));
    assert_eq!(monkey.tick(at('x')), ('x', false));
    assert_eq!(ranked(&monkey), vec!["cat".to_string()]);
    assert_eq!(monkey.take_ranking_file(), None);
}

#[test]
fn longer_word_takes_over_marks_during_priming() {
    let mut monkey =
        TypingMonkey::start(words_of(&["a", "bat"]), letters(), Vec::new(), 5).unwrap();
    assert_eq!(monkey.max_buffer_len(), 3);

    monkey.type_symbol(at('b'));
    assert_eq!(monkey.buffer(), vec![('b', false)]);
    assert_eq!(monkey.take_ranking_file(), None);

    monkey.type_symbol(at('a'));
    assert_eq!(monkey.buffer(), vec![('b', false), ('a', true)]);
    assert_eq!(monkey.take_ranking_file(), Some("a\n".to_string()));

    monkey.type_symbol(at('t'));
    assert_eq!(monkey.buffer(), vec![('b', true), ('a', true), ('t', true)]);
    assert_eq!(ranked(&monkey), vec!["a".to_string(), "bat".to_string()]);
    assert_eq!(monkey.take_ranking_file(), Some("a\nbat\n".to_string()));

    assert_eq!(monkey.tick(at('z')), ('b', true));
    assert_eq!(monkey.tick(at('z')), ('a', true));
    assert_eq!(monkey.tick(at('z')), ('t', true));
}

#[test]
fn both_prefix_and_full_word_are_ranked() {
    let mut monkey =
        TypingMonkey::start(words_of(&["ab", "abc"]), letters(), Vec::new(), 5).unwrap();
    monkey.type_symbol(at('a'));
    assert_eq!(ranked(&monkey), Vec::<String>::new());
    monkey.type_symbol(at('b'));
    assert_eq!(ranked(&monkey), vec!["ab".to_string()]);
    assert_eq!(monkey.buffer(), vec![('a', true), ('b', true)]);
    monkey.type_symbol(at('c'));
    assert_eq!(monkey.buffer(), vec![('a', true), ('b', true), ('c', true)]);
    assert_eq!(ranked(&monkey), vec!["ab".to_string(), "abc".to_string()]);
    assert_eq!(monkey.take_ranking_file(), Some("ab\nabc\n".to_string()));
}

#[test]
fn endless_x_keeps_one_word() {
    let mut monkey = TypingMonkey::new(words_of(&["xx"]), vec!['x'], Vec::new(), 2).unwrap();
    assert!(monkey.is_primed());
    assert_eq!(monkey.max_buffer_len(), 2);
    assert_eq!(monkey.buffer(), vec![('x', true), ('x', true)]);
    assert_eq!(monkey.take_ranking_file(), Some("xx\n".to_string()));
    for _ in 0..50 {
        assert_eq!(monkey.print_next(), ('x', true));
        assert_eq!(monkey.buffer(), vec![('x', true), ('x', true)]);
        assert_eq!(ranked(&monkey), vec!["xx".to_string()]);
        assert_eq!(monkey.take_ranking_file(), None);
    }
}

#[test]
fn shortest_word_is_displaced_by_a_longer_one() {
    let mut monkey =
        TypingMonkey::start(words_of(&["a", "bb", "ccc"]), letters(), Vec::new(), 2).unwrap();
    for c in ['x', 'x', 'a'] {
        monkey.type_symbol(at(c));
    }
    assert_eq!(ranked(&monkey), vec!["a".to_string()]);
    assert_eq!(monkey.take_ranking_file(), Some("a\n".to_string()));

    monkey.tick(at('b'));
    assert_eq!(monkey.take_ranking_file(), None);
    monkey.tick(at('b'));
    assert_eq!(ranked(&monkey), vec!["a".to_string(), "bb".to_string()]);
    assert_eq!(monkey.take_ranking_file(), Some("a\nbb\n".to_string()));

    monkey.tick(at('c'));
    monkey.tick(at('c'));
    assert_eq!(monkey.take_ranking_file(), None);
    monkey.tick(at('c'));
    assert_eq!(ranked(&monkey), vec!["bb".to_string(), "ccc".to_string()]);
    assert_eq!(monkey.take_ranking_file(), Some("bb\nccc\n".to_string()));
}

#[test]
fn empty_ranking_takes_first_word() {
    let mut monkey = TypingMonkey::start(words_of(&["no"]), letters(), Vec::new(), 5).unwrap();
    assert_eq!(ranked(&monkey), Vec::<String>::new());
    monkey.type_symbol(at('n'));
    assert_eq!(ranked(&monkey), Vec::<String>::new());
    monkey.type_symbol(at('o'));
    assert_eq!(ranked(&monkey), vec!["no".to_string()]);
    assert_eq!(monkey.take_ranking_file(), Some("no\n".to_string()));
}

#[test]
fn empty_dictionary_is_refused() {
    let r = TypingMonkey::start(AHashSet::new(), letters(), Vec::new(), 5);
    assert_eq!(r.err(), Some(StartError::EmptyDictionary));
    let r = TypingMonkey::new(AHashSet::new(), letters(), Vec::new(), 5);
    assert_eq!(r.err(), Some(StartError::EmptyDictionary));
}

#[test]
fn dictionary_of_empty_lines_is_refused() {
    let r = TypingMonkey::start(words_of(&[""]), letters(), Vec::new(), 5);
    assert_eq!(r.err(), Some(StartError::EmptyDictionary));
}

#[test]
fn empty_alphabet_is_refused() {
    let r = TypingMonkey::start(words_of(&["cat"]), Vec::new(), Vec::new(), 5);
    assert_eq!(r.err(), Some(StartError::EmptyAlphabet));
    let r = TypingMonkey::new(words_of(&["cat"]), Vec::new(), Vec::new(), 5);
    assert_eq!(r.err(), Some(StartError::EmptyAlphabet));
}

#[test]
fn empty_dictionary_is_reported_before_empty_alphabet() {
    let r = TypingMonkey::start(AHashSet::new(), Vec::new(), Vec::new(), 5);
    assert_eq!(r.err(), Some(StartError::EmptyDictionary));
}

#[test]
fn empty_entry_never_matches() {
    let mut monkey =
        TypingMonkey::start(words_of(&["", "ab"]), letters(), Vec::new(), 5).unwrap();
    assert_eq!(monkey.max_buffer_len(), 2);
    monkey.type_symbol(at('x'));
    monkey.type_symbol(at('y'));
    assert_eq!(monkey.buffer(), vec![('x', false), ('y', false)]);
    assert_eq!(ranked(&monkey), Vec::<String>::new());
    assert_eq!(monkey.take_ranking_file(), None);
}

#[test]
fn seed_is_kept_when_valid() {
    let seed = vec!["zebra".to_string(), "ox".to_string(), "gnu".to_string()];
    let monkey = TypingMonkey::start(words_of(&["cat"]), letters(), seed.clone(), 5).unwrap();
    assert_eq!(ranked(&monkey), seed);
    assert_eq!(monkey.longest_words_count(), 5);
    assert_eq!(monkey.alphabet(), &letters());
}

#[test]
fn seed_with_repeats_and_too_many_words_is_reduced() {
    let seed = vec![
        "a".to_string(),
        "a".to_string(),
        "bb".to_string(),
        "ccc".to_string(),
        "dd".to_string(),
    ];
    let monkey = TypingMonkey::start(words_of(&["cat"]), letters(), seed, 2).unwrap();
    assert_eq!(ranked(&monkey), vec!["ccc".to_string(), "bb".to_string()]);
}

#[test]
fn word_outside_the_window_start_still_marks_emitted_symbols() {
    let mut monkey =
        TypingMonkey::start(words_of(&["cat", "at"]), letters(), Vec::new(), 5).unwrap();
    for c in ['x', 'c', 'a'] {
        monkey.type_symbol(at(c));
    }
    assert_eq!(monkey.tick(at('t')), ('x', false));
    assert_eq!(monkey.buffer(), vec![('c', true), ('a', true), ('t', true)]);
    assert_eq!(ranked(&monkey), vec!["cat".to_string()]);
    assert_eq!(monkey.tick(at('a')), ('c', true));
    assert_eq!(monkey.tick(at('t')), ('a', true));
    assert_eq!(monkey.buffer(), vec![('t', true), ('a', true), ('t', true)]);
    assert_eq!(ranked(&monkey), vec!["at".to_string(), "cat".to_string()]);
}

#[test]
fn symbols_beyond_ascii_are_counted_by_character() {
    let alphabet = vec!['é', 't', 'ü'];
    let mut monkey =
        TypingMonkey::start(words_of(&["été", "tü"]), alphabet, Vec::new(), 5).unwrap();
    assert_eq!(monkey.max_buffer_len(), 3);
    monkey.type_symbol(0);
    monkey.type_symbol(1);
    monkey.type_symbol(0);
    assert_eq!(monkey.buffer(), vec![('é', true), ('t', true), ('é', true)]);
    assert_eq!(monkey.tick(1), ('é', true));
    assert_eq!(monkey.tick(2), ('t', true));
    assert_eq!(monkey.buffer(), vec![('é', true), ('t', true), ('ü', true)]);
    assert_eq!(ranked(&monkey), vec!["tü".to_string(), "été".to_string()]);
    assert_eq!(monkey.take_ranking_file(), Some("tü\nété\n".to_string()));
}

#[test]
fn monkey_reads_its_words_from_a_word_file() {
    let words = typing_monkey::dictionary::dictionary_of("  cat\nat \n\ncat\n");
    let mut monkey = TypingMonkey::start(words, letters(), Vec::new(), 5).unwrap();
    assert_eq!(monkey.max_buffer_len(), 3);
    for c in ['c', 'a', 't'] {
        monkey.type_symbol(at(c));
    }
    assert_eq!(ranked(&monkey), vec!["cat".to_string()]);
    assert_eq!(monkey.tick(at('a')), ('c', true));
    assert_eq!(monkey.tick(at('t')), ('a', true));
    assert_eq!(ranked(&monkey), vec!["at".to_string(), "cat".to_string()]);
}
