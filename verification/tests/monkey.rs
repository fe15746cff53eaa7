use ahash::AHashSet;
use typing_monkey::TypingMonkey;

fn small_words() -> AHashSet<String> {
    ["a", "at", "cat", "to", "tot", "cot", "coat", "taco", "act"]
        .iter()
        .map(|w| w.to_string())
        .collect()
}

fn few_letters() -> Vec<char> {
    vec!['a', 'c', 'o', 't']
}

fn is_canonical(words: &[String]) -> bool {
    words.windows(2).all(|p| {
        let (a, b) = (&p[0], &p[1]);
        let (la, lb) = (a.chars().count(), b.chars().count());
        la < lb || (la == lb && a < b)
    })
}

#[test]
fn test() {
    let wordlist: AHashSet<String> = small_words();
    let longest_words: Vec<String> = Vec::new();

    let alphabet: Vec<char> = "abcdefghijklmnopqrstuvwxyz".chars().collect();

    let mut typing_monkey = TypingMonkey::new(wordlist, alphabet, longest_words, 5).unwrap();

    typing_monkey.benchmark_next_without_print(10_000_000);
}

#[test]
fn new_monkey_is_primed_with_symbols_of_the_alphabet() {
    let monkey = TypingMonkey::new(small_words(), few_letters(), Vec::new(), 5).unwrap();
    assert!(monkey.is_primed());
    assert_eq!(monkey.max_buffer_len(), 4);
    let window = monkey.buffer();
    assert_eq!(window.len(), 4);
    for (c, _) in window {
        assert!(few_letters().contains(&c));
    }
}

#[test]
fn window_stays_full_and_within_the_alphabet() {
    let mut monkey = TypingMonkey::new(small_words(), few_letters(), Vec::new(), 5).unwrap();
    for _ in 0..2000 {
        let before = monkey.buffer();
        let (c, m) = monkey.print_next();
        assert_eq!((c, m), before[0]);
        let after = monkey.buffer();
        assert_eq!(after.len(), 4);
        for i in 0..3 {
            assert_eq!(after[i].0, before[i + 1].0);
            assert!(!before[i + 1].1 || after[i].1);
        }
        assert!(few_letters().contains(&after[3].0));
    }
}

#[test]
fn marks_lie_inside_words_of_the_typed_text() {
    let words = small_words();
    let mut monkey = TypingMonkey::new(words.clone(), few_letters(), Vec::new(), 5).unwrap();
    let mut typed: Vec<char> = monkey.buffer().iter().map(|p| p.0).collect();
    let mut emitted: Vec<(char, bool)> = Vec::new();
    for _ in 0..500 {
        emitted.push(monkey.print_next());
        typed.push(monkey.buffer()[3].0);
    }
    for (p, (c, m)) in emitted.iter().enumerate() {
        assert_eq!(*c, typed[p]);
        let mut inside = false;
        for from in 0..=p {
            for to in (p + 1)..=typed.len().min(from + 4) {
                let s: String = typed[from..to].iter().collect();
                if words.contains(&s) {
                    inside = true;
                }
            }
        }
        assert_eq!(*m, inside);
    }
}

#[test]
fn new_marks_appear_only_in_a_recognised_suffix() {
    let words = small_words();
    let mut monkey = TypingMonkey::new(words.clone(), few_letters(), Vec::new(), 5).unwrap();
    for _ in 0..2000 {
        let before = monkey.buffer();
        monkey.print_next();
        let after = monkey.buffer();
        let text: Vec<char> = after.iter().map(|p| p.0).collect();
        let start = (0..4).find(|&s| words.contains(&text[s..].iter().collect::<String>()));
        for i in 0..4 {
            let was = i < 3 && before[i + 1].1;
            let newly = after[i].1 && !was;
            assert_eq!(newly, !was && start.map_or(false, |s| s <= i));
        }
    }
}

#[test]
fn ranking_file_is_the_sorted_ranking() {
    let mut monkey = TypingMonkey::new(small_words(), few_letters(), Vec::new(), 3).unwrap();
    let mut last = monkey.longest_words().clone();
    let _ = monkey.take_ranking_file();
    for _ in 0..20000 {
        monkey.print_next();
        let now = monkey.longest_words().clone();
        match monkey.take_ranking_file() {
            Some(text) => {
                assert_ne!(now, last);
                assert!(is_canonical(&now));
                let lines: String = now.iter().map(|w| format!("{}\n", w)).collect();
                assert_eq!(text, lines);
            }
            None => assert_eq!(now, last),
        }
        assert!(now.len() <= 3);
        last = now;
    }
    assert_eq!(last.len(), 3);
    assert!(last.contains(&"coat".to_string()));
    assert!(last.contains(&"taco".to_string()));
}

#[test]
fn benchmark_advances_without_emitting() {
    let mut monkey = TypingMonkey::new(small_words(), few_letters(), Vec::new(), 2).unwrap();
    let _ = monkey.take_ranking_file();
    monkey.benchmark_next_without_print(0);
    assert_eq!(monkey.take_ranking_file(), None);
    monkey.benchmark_next_without_print(20000);
    assert!(monkey.is_primed());
    assert_eq!(monkey.buffer().len(), 4);
    let ranked = monkey.longest_words().clone();
    assert_eq!(ranked, vec!["coat".to_string(), "taco".to_string()]);
    assert_eq!(monkey.take_ranking_file(), Some("coat\ntaco\n".to_string()));
    assert_eq!(monkey.take_ranking_file(), None);
}

#[test]
fn single_letter_alphabet_is_deterministic() {
    let words: AHashSet<String> = ["aaa".to_string()].into_iter().collect();
    let mut monkey = TypingMonkey::new(words, vec!['a'], vec!["zz".to_string()], 1).unwrap();
    assert_eq!(monkey.buffer(), vec![('a', true), ('a', true), ('a', true)]);
    assert_eq!(monkey.longest_words(), &vec!["aaa".to_string()]);
    assert_eq!(monkey.take_ranking_file(), Some("aaa\n".to_string()));
    monkey.benchmark_next_without_print(10);
    assert_eq!(monkey.print_next(), ('a', true));
    assert_eq!(monkey.take_ranking_file(), None);
}
