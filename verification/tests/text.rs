//! Characters, words and vocabularies.

use nano_nes_model_builder::text::{chars_of, find_char, is_whitespace, tile, to_upper, N_CHARS};
use nano_nes_model_builder::vocab::{is_punct_text, order_text, search, Order};
use nano_nes_model_builder::{
    char_ids, chars_from_ids, normalize_chars, split_words, word_ids, words_to_text, WordVocab,
    MAX_TYPED_CHARS, VOCAB,
};

fn vocab(words: &[&str]) -> WordVocab {
    WordVocab { words: words.iter().map(|w| w.to_string()).collect() }
}

#[test]
fn ids_are_places_in_the_alphabet() {
    assert_eq!(VOCAB.chars().count(), N_CHARS as usize);
    for (i, c) in VOCAB.chars().enumerate() {
        assert_eq!(find_char(c), Some(i as u8));
        assert_eq!(tile(i as u8), c);
    }
    assert_eq!(find_char('a'), None);
    assert_eq!(find_char('@'), None);
    assert_eq!(find_char('\t'), None);
}

#[test]
fn char_ids_fold_case_and_blanks() {
    assert_eq!(char_ids("Hi?"), vec![8, 9, 42]);
    assert_eq!(char_ids("a\tb\u{3000}c"), vec![1, 0, 2, 0, 3]);
    assert_eq!(char_ids("a@b#\u{e9}"), vec![1, 2]);
    assert_eq!(char_ids("0.9,'-!"), vec![27, 37, 36, 38, 39, 40, 41]);
    assert_eq!(char_ids(""), Vec::<u8>::new());
}

#[test]
fn chars_from_ids_skip_what_has_no_tile() {
    assert_eq!(chars_from_ids(&[8, 9, 42]), "HI?");
    assert_eq!(chars_from_ids(&[43, 1, 200, 2]), "AB");
    assert_eq!(chars_from_ids(&[]), "");
}

#[test]
fn white_space_is_that_of_the_standard() {
    for n in 0..=0x10FFFFu32 {
        if let Some(c) = char::from_u32(n) {
            assert_eq!(is_whitespace(c), c.is_whitespace(), "{n:x}");
            assert_eq!(to_upper(c), c.to_ascii_uppercase(), "{n:x}");
        }
    }
}

#[test]
fn display_roundtrips() {
    let text = "WHY DO LLAMAS HUM? 1-2, 'A'!";
    assert_eq!(chars_from_ids(&char_ids(text)), text);
    let ids: Vec<u8> = (0..N_CHARS).collect();
    assert_eq!(char_ids(&chars_from_ids(&ids)), ids);
}

#[test]
fn normalization_caps_and_is_idempotent() {
    let ids = normalize_chars("what is the meaning of all this, llama?");
    assert_eq!(ids.len(), MAX_TYPED_CHARS);
    assert_eq!(chars_from_ids(&ids), "WHAT IS THE MEANING OF A");
    assert_eq!(normalize_chars(&chars_from_ids(&ids)), ids);
    assert_eq!(normalize_chars("@@@"), Vec::<u8>::new());
}

#[test]
fn words_are_runs_and_marks() {
    assert_eq!(
        split_words("Don't panic, it's 42!? yes-no..."),
        vec!["DON'T", "PANIC", ",", "IT'S", "42", "!", "?", "YES", "NO", ".", ".", "."]
    );
    assert_eq!(split_words("  \n--\t"), Vec::<String>::new());
    assert_eq!(split_words("na\u{ef}ve"), vec!["NA", "VE"]);
}

#[test]
fn dictionary_order() {
    assert!(order_text("AB", "ABC") == Order::Less);
    assert!(order_text("B", "ABC") == Order::More);
    assert!(order_text("", "") == Order::Same);
    assert!(order_text("!", ".") == Order::Less);
    let words: Vec<String> = vec!["!".into(), "A".into(), "HUM".into()];
    assert_eq!(search(&words, "HUM"), Ok(2));
    assert_eq!(search(&words, "B"), Err(2));
    assert_eq!(search(&words, ""), Err(0));
    assert_eq!(search(&words, "Z"), Err(3));
}

#[test]
fn ids_of_words() {
    let v = vocab(&["?", "A", "HUM", "LLAMA"]);
    assert_eq!(v.id("LLAMA"), Some(3));
    assert_eq!(v.id("?"), Some(0));
    assert_eq!(v.id("llama"), None);
    assert_eq!(word_ids(&v, "a llama, hum? zzz"), vec![1, 3, 2, 0]);
}

#[test]
fn words_to_text_puts_blanks_before_words_only() {
    let v = vocab(&[",", "?", "A", "HUM"]);
    assert_eq!(words_to_text(&v, &[2, 3, 1]), "A HUM?");
    assert_eq!(words_to_text(&v, &[0, 2, 9, 3]), ", A HUM");
    assert_eq!(words_to_text(&v, &[]), "");
    assert!(is_punct_text("?") && !is_punct_text("??") && !is_punct_text("'"));
}

#[test]
fn serialized_vocabulary() {
    let v = vocab(&["?", "HUM"]);
    let b = v.to_bytes();
    assert_eq!(b.len(), 496 + 6);
    assert_eq!(&b[0..3], &[0, 2, 0]);
    assert!(b[3..496].iter().all(|&x| x == 0));
    assert_eq!(&b[496..], &[1, 42, 3, 8, 21, 13]);
}

#[test]
fn characters_come_one_by_one() {
    assert_eq!(chars_of("a\u{e9}z"), vec!['a', '\u{e9}', 'z']);
}

#[test]
fn ids_join_and_ignore_case() {
    let (a, b) = ("Why\u{e9} do", " LLAMAS hum?@");
    let both = format!("{a}{b}");
    assert_eq!(char_ids(&both), [char_ids(a), char_ids(b)].concat());
    for s in [both.to_ascii_lowercase(), both.to_ascii_uppercase()] {
        assert_eq!(char_ids(&s), char_ids(&both));
        assert_eq!(normalize_chars(&s), normalize_chars(&both));
        assert_eq!(split_words(&s), split_words(&both));
    }
}

#[test]
fn texts_read_back_without_ids_past_the_vocabulary() {
    let v = vocab(&["!", "HUM", "WHY"]);
    let ids = [2, 9, 1, 0, 255, 1, 3];
    assert_eq!(words_to_text(&v, &ids), "WHY HUM! HUM");
    assert_eq!(word_ids(&v, &words_to_text(&v, &ids)), vec![2, 1, 0, 1]);
}
