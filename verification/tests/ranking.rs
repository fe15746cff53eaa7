use typing_monkey::ranking::Ranking;
use typing_monkey::words::word_le;

fn strings(words: &[&str]) -> Vec<String> {
    words.iter().map(|w| w.to_string()).collect()
}

#[test]
fn new_ranking_is_empty() {
    let r = Ranking::new(3);
    assert_eq!(r.len(), 0);
    assert_eq!(r.limit(), 3);
    assert_eq!(r.words(), &Vec::<String>::new());
    assert_eq!(r.listing(), "");
}

#[test]
fn consider_appends_while_there_is_room() {
    let mut r = Ranking::new(3);
    assert!(r.consider("pear"));
    assert!(r.consider("fig"));
    assert!(r.consider("banana"));
    assert_eq!(r.words(), &strings(&["pear", "fig", "banana"]));
    assert_eq!(r.len(), 3);
    assert!(r.contains("fig"));
    assert!(!r.contains("plum"));
}

#[test]
fn consider_known_word_changes_nothing() {
    let mut r = Ranking::from_words(&strings(&["pear", "fig"]), 3);
    assert!(!r.consider("fig"));
    assert_eq!(r.words(), &strings(&["pear", "fig"]));
}

#[test]
fn consider_replaces_first_shortest_when_longer() {
    let mut r = Ranking::from_words(&strings(&["pear", "fig", "yam", "banana"]), 4);
    assert!(r.consider("apple"));
    assert_eq!(r.words(), &strings(&["pear", "apple", "yam", "banana"]));
}

#[test]
fn consider_rejects_word_that_is_not_longer() {
    let mut r = Ranking::from_words(&strings(&["pear", "fig"]), 2);
    assert!(!r.consider("yam"));
    assert!(!r.consider("ox"));
    assert_eq!(r.words(), &strings(&["pear", "fig"]));
}

#[test]
fn consider_twice_is_consider_once() {
    let mut once = Ranking::from_words(&strings(&["pear", "fig"]), 2);
    let mut twice = Ranking::from_words(&strings(&["pear", "fig"]), 2);
    assert!(once.consider("apple"));
    assert!(twice.consider("apple"));
    assert!(!twice.consider("apple"));
    assert_eq!(once.words(), twice.words());

    let mut rejected = Ranking::from_words(&strings(&["pear", "fig"]), 2);
    assert!(!rejected.consider("ox"));
    assert!(!rejected.consider("ox"));
    assert_eq!(rejected.words(), &strings(&["pear", "fig"]));
}

#[test]
fn ranking_without_room_takes_nothing() {
    let mut r = Ranking::new(0);
    assert!(!r.consider("pear"));
    assert_eq!(r.record("fig"), None);
    assert_eq!(r.len(), 0);
}

#[test]
fn ranking_never_exceeds_limit_nor_repeats() {
    let mut r = Ranking::new(3);
    for w in ["a", "bb", "a", "ccc", "dddd", "bb", "eeeee", "ccc", "f"] {
        r.consider(w);
        assert!(r.len() <= 3);
        let words = r.words().clone();
        for i in 0..words.len() {
            for j in 0..i {
                assert_ne!(words[i], words[j]);
            }
        }
    }
    assert_eq!(r.words(), &strings(&["dddd", "eeeee", "ccc"]));
}

#[test]
fn sort_orders_by_length_then_by_letters() {
    let mut r = Ranking::from_words(&strings(&["pear", "fig", "apple", "yam", "date", "kiwi"]), 6);
    r.sort();
    assert_eq!(r.words(), &strings(&["fig", "yam", "date", "kiwi", "pear", "apple"]));
    assert_eq!(r.listing(), "fig\nyam\ndate\nkiwi\npear\napple\n");
}

#[test]
fn listing_follows_held_order() {
    let r = Ranking::from_words(&strings(&["pear", "fig"]), 5);
    assert_eq!(r.listing(), "pear\nfig\n");
}

#[test]
fn record_returns_sorted_listing_on_change_only() {
    let mut r = Ranking::new(2);
    assert_eq!(r.record("a"), Some("a\n".to_string()));
    assert_eq!(r.words(), &strings(&["a"]));
    assert_eq!(r.record("a"), None);
    assert_eq!(r.record("bb"), Some("a\nbb\n".to_string()));
    assert_eq!(r.words(), &strings(&["a", "bb"]));
    assert_eq!(r.record("ccc"), Some("bb\nccc\n".to_string()));
    assert_eq!(r.words(), &strings(&["bb", "ccc"]));
    assert_eq!(r.record("dd"), None);
    assert_eq!(r.record("a"), None);
    assert_eq!(r.words(), &strings(&["bb", "ccc"]));
}

#[test]
fn rejected_word_is_never_longer_than_any_ranked_word() {
    let mut r = Ranking::new(2);
    r.record("aaa");
    r.record("bbbb");
    assert_eq!(r.record("cc"), None);
    for w in ["ddddd", "e", "ffffff", "ggg"] {
        r.record(w);
        assert_eq!(r.len(), 2);
        for held in r.words() {
            assert!(held.chars().count() >= 2);
        }
    }
}

#[test]
fn sorted_lengths_never_go_down() {
    let limit = 3;
    let mut r = Ranking::new(limit);
    let mut before = vec![0usize; limit];
    for w in ["bb", "a", "bb", "cccc", "dd", "eeeee", "f", "gggggg", "hhh"] {
        r.record(w);
        let mut after: Vec<usize> = r.words().iter().map(|x| x.chars().count()).collect();
        while after.len() < limit {
            after.push(0);
        }
        after.sort();
        for i in 0..limit {
            assert!(before[i] <= after[i]);
        }
        before = after;
    }
    assert_eq!(before, vec![4, 5, 6]);
}

#[test]
fn from_words_keeps_a_valid_list() {
    let seed = strings(&["pear", "fig", "banana"]);
    let r = Ranking::from_words(&seed, 3);
    assert_eq!(r.words(), &seed);
}

#[test]
fn from_words_drops_repeats_and_overflow() {
    let r = Ranking::from_words(&strings(&["a", "a", "bb", "ccc", "dd"]), 2);
    assert_eq!(r.words(), &strings(&["ccc", "bb"]));
}

#[test]
fn word_order_is_length_then_letters() {
    assert!(word_le("b", "aa"));
    assert!(!word_le("aa", "b"));
    assert!(word_le("abc", "abd"));
    assert!(!word_le("abd", "abc"));
    assert!(word_le("abc", "abc"));
    assert!(word_le("", ""));
    assert!(word_le("", "a"));
    assert!(!word_le("a", ""));
    assert!(word_le("zz", "éa"));
    assert!(word_le("éa", "éb"));
    assert!(!word_le("éb", "éa"));
}

#[test]
fn length_counts_characters_not_bytes() {
    let mut r = Ranking::from_words(&strings(&["été", "abcd"]), 2);
    assert!(!r.consider("xyz"));
    assert!(r.consider("wxyz"));
    assert_eq!(r.words(), &strings(&["wxyz", "abcd"]));
}
