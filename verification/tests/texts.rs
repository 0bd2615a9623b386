use ballot_box::key::{generate_key, key_from_words};
use ballot_box::lists::has_repeat;
use ballot_box::names::{clone_names, find_name, insert_name, sorted_names};
use ballot_box::text::{is_callsign_text, read_rank_key, split_text, text_equal, text_less};

fn names(list: &[&str]) -> Vec<String> {
    list.iter().map(|s| s.to_string()).collect()
}

#[test]
fn texts_are_ordered_as_strings_are() {
    let samples = ["", "A", "AB", "B", "a", "KD9AAA", "KD9AAB", "KD9", "É", "Z", "0", "10", "9"];
    for a in samples {
        for b in samples {
            assert_eq!(text_less(a, b), a < b);
            assert_eq!(text_equal(a, b), a == b);
        }
    }
}

#[test]
fn call_signs_are_recognised() {
    for good in ["W9YB", "KD9ABC", "AA1A", "0000", "N0CAL"] {
        assert!(is_callsign_text(good));
    }
    for bad in ["", "W9Y", "W9YBABC", "w9yb", "W9 YB", "W9YÉ", "W9Y-"] {
        assert!(!is_callsign_text(bad));
    }
}

#[test]
fn rank_keys_are_read() {
    assert_eq!(read_rank_key("rank1"), Some(Some(1)));
    assert_eq!(read_rank_key("rank0"), Some(Some(0)));
    assert_eq!(read_rank_key("rank255"), Some(Some(255)));
    assert_eq!(read_rank_key("rank+12"), Some(Some(12)));
    assert_eq!(read_rank_key("rank0000012"), Some(Some(12)));
    assert_eq!(read_rank_key("rank256"), Some(None));
    assert_eq!(read_rank_key("rank99999999999999999999"), Some(None));
    assert_eq!(read_rank_key("rank"), Some(None));
    assert_eq!(read_rank_key("rank+"), Some(None));
    assert_eq!(read_rank_key("rank++1"), Some(None));
    assert_eq!(read_rank_key("rank-1"), Some(None));
    assert_eq!(read_rank_key("rank1x"), Some(None));
    assert_eq!(read_rank_key("ran"), None);
    assert_eq!(read_rank_key("Rank1"), None);
    assert_eq!(read_rank_key("callsign"), None);
    assert_eq!(read_rank_key(""), None);
}

#[test]
fn rank_keys_are_read_as_numbers_are_parsed() {
    for tail in ["", "+", "-", "0", "7", "+7", "-7", "007", "255", "256", "1000", "1 ", " 1", "1e1", "٣"] {
        let key = format!("rank{}", tail);
        assert_eq!(read_rank_key(&key), Some(tail.parse::<u8>().ok()));
    }
}

#[test]
fn texts_are_cut_at_commas() {
    assert_eq!(split_text("a,b,c", ','), names(&["a", "b", "c"]));
    assert_eq!(split_text("", ','), names(&[""]));
    assert_eq!(split_text(",", ','), names(&["", ""]));
    assert_eq!(split_text("abc", ','), names(&["abc"]));
    assert_eq!(split_text("a,,b,", ','), names(&["a", "", "b", ""]));
    assert_eq!(split_text("KD9AAA, KD9BBB", ','), names(&["KD9AAA", " KD9BBB"]));
    assert_eq!(split_text("é,ü", ','), names(&["é", "ü"]));
}

#[test]
fn texts_are_cut_as_split_cuts_them() {
    for s in ["", ",", "a", "a,b", ",a", "a,", ",,", "ab,cd,,ef", "é,,ü,"] {
        let expected: Vec<String> = s.split(',').map(|p| p.to_owned()).collect();
        assert_eq!(split_text(s, ','), expected);
    }
}

#[test]
fn names_are_kept_in_order() {
    let mut list: Vec<String> = Vec::new();
    assert_eq!(insert_name(&mut list, "B".to_string()), Some(0));
    assert_eq!(insert_name(&mut list, "A".to_string()), Some(0));
    assert_eq!(insert_name(&mut list, "C".to_string()), Some(2));
    assert_eq!(insert_name(&mut list, "B".to_string()), None);
    assert_eq!(insert_name(&mut list, "AB".to_string()), Some(1));
    assert_eq!(list, names(&["A", "AB", "B", "C"]));
    assert_eq!(find_name(&list, &"B".to_string()), Some(2));
    assert_eq!(find_name(&list, &"D".to_string()), None);
    assert_eq!(clone_names(&list), list);
}

#[test]
fn names_are_sorted_as_a_set_sorts_them() {
    let items = names(&["delta", "alpha", "", "charlie", "alpha", "Bravo", "bravo", "alpha"]);
    let expected: Vec<String> =
        items.iter().cloned().collect::<std::collections::BTreeSet<String>>().into_iter().collect();
    assert_eq!(sorted_names(&items), expected);
}

#[test]
fn key_is_written_in_base_32() {
    assert_eq!(key_from_words(&Vec::new()), "");
    assert_eq!(key_from_words(&vec![0]), "000000");
    assert_eq!(key_from_words(&vec![u32::MAX]), "vvvvvv");
    // 1 + 2 * 32 + 10 * 32^2 + 31 * 32^3 + 9 * 32^4 + 16 * 32^5
    let word: u32 = 1 + (2 << 5) + (10 << 10) + (31 << 15) + (9 << 20) + (16 << 25);
    assert_eq!(key_from_words(&vec![word]), "12av9g");
    assert_eq!(key_from_words(&vec![word, 0, 33]), "12av9g000000110000");
}

#[test]
fn fresh_key_has_54_digits() {
    let key = generate_key();
    assert_eq!(key.chars().count(), 54);
    assert!(key.chars().all(|c| c.is_ascii_digit() || ('a'..='v').contains(&c)));
    assert_ne!(generate_key(), key);
}

#[test]
fn repeats_are_found() {
    assert!(!has_repeat(&Vec::<usize>::new()));
    assert!(!has_repeat(&vec![3usize, 1, 2]));
    assert!(has_repeat(&vec![3usize, 1, 3]));
    assert!(!has_repeat(&names(&["A", "B", "a"])));
    assert!(has_repeat(&names(&["A", "B", "C", "B"])));
}
