//! Tests for the anagram and letter-removal helpers.

use oddments::ana;
use oddments::gram;

#[test]
fn str_ord_works() {
    assert_eq!(ana::str_ord("abc"), 3);
    assert_eq!(ana::str_ord("lewis"), 63);
    assert_eq!(ana::str_ord("wiles"), 63);
}

#[test]
fn single_word_anagrams_works() {
    let words = ["lewis"].to_vec();
    let dict = ["apple", "box", "cat", "wiles", "zoo"].to_vec();
    let res = ana::single_word_anagrams(&words, &dict);
    assert_eq!(res.len(), 1);
    assert_eq!(res[0], "wiles");
}

#[test]
fn lib_str_ord_works() {
    assert_eq!(gram::str_ord("abc"), 3);
    assert_eq!(gram::str_ord("lewis"), 63);
    assert_eq!(gram::str_ord("wiles"), 63);
}

#[test]
fn lib_single_word_anagrams_works() {
    let words = ["lewis"];
    let dict = ["apple", "box", "cat", "wiles", "zoo"];
    let res = gram::single_word_anagrams(&words, &dict);
    assert_eq!(res.len(), 1);
    assert_eq!(res[0], "wiles");
}

#[test]
fn without_letter_works() {
    assert_eq!(gram::without_letter("word", 'w'), Some("ord".to_owned()));
    assert_eq!(gram::without_letter("word", 'o'), Some("wrd".to_owned()));
    assert_eq!(gram::without_letter("word", 'd'), Some("wor".to_owned()));
    assert_eq!(gram::without_letter("word", 'z'), None);
}

#[test]
fn without_letters_works() {
    let word = "haman";
    let letters = ['h', 'a', 'm'];
    assert_eq!(gram::without_letters(&word, &letters, 0), "an".to_owned());
    assert_eq!(gram::without_letters(&word, &['z'], 0), word.to_owned());
    assert_eq!(gram::without_letters(&word, &[], 0), word.to_owned());
}

#[test]
fn remove_letters_from_sentence_works() {
    let sentence = ["haman", "is", "cool"];
    let letters = ['h', 'i', 'c'];
    let res = vec!["aman", "s", "ool"];
    assert_eq!(gram::remove_letters_from_sentence(&sentence, &letters), res);

    let letters = ['h', 'a', 'm', 'a', 'n'];
    let res = vec!["is", "cool"];
    assert_eq!(gram::remove_letters_from_sentence(&sentence, &letters), res);

    let letters = ['a', 'h', 'i', 'l', 'm', 's'];
    let res = vec!["an", "coo"];
    assert_eq!(gram::remove_letters_from_sentence(&sentence, &letters), res);

    let sentence = ["aaa"];
    let letters = ['a', 'a', 'a', 'a'];
    assert_eq!(gram::remove_letters_from_sentence(&sentence, &letters).len(), 0);

    assert_eq!(
        gram::remove_letters_from_sentence(&["tab", "target"], &['t', 't']),
        vec!["ab", "arget"]
    );
}

#[test]
fn are_anagrams_works() {
    assert!(gram::are_anagrams("listen", "silent"));
    assert!(gram::are_anagrams("", ""));
    assert!(!gram::are_anagrams("listen", "listens"));
    assert!(!gram::are_anagrams("aab", "abb"));
}

#[test]
fn dict_anagrams_work() {
    let mut dict = gram::Dict::new();
    dict.load("stop");
    dict.load("tops");
    dict.load("spot");
    dict.load("cat");
    let found = dict.anagrams("post");
    assert_eq!(found, vec!["stop", "tops", "spot"]);
    let self_excluded = dict.anagrams("stop");
    assert_eq!(self_excluded, vec!["tops", "spot"]);
}
