//! Records and biases.

use nano_nes_model_builder::records::{biases, record};

fn counts(list: &[(u8, u32)]) -> Vec<u32> {
    let mut c = vec![0u32; 256];
    for &(t, n) in list {
        c[t as usize] = n;
    }
    c
}

fn marks(list: &[u8]) -> Vec<bool> {
    (0..256).map(|t| list.contains(&(t as u8))).collect()
}

#[test]
fn higher_counts_first_and_punctuation_loses_ties() {
    let c = counts(&[(2, 3), (5, 7), (9, 3), (1, 3)]);
    let rec = record(&c, &marks(&[1]));
    // 5 leads; 2 and 9 tie in id order; the mark 1 comes last of the tie
    assert_eq!(
        rec,
        vec![5, 63, 2, 27, 9, 27, 1, 27, 0xFF, 0, 0xFF, 0, 0xFF, 0, 0xFF, 0]
    );
}

#[test]
fn a_mark_with_more_hits_still_leads() {
    let rec = record(&counts(&[(0, 2), (7, 1)]), &marks(&[0]));
    assert_eq!(&rec[0..4], &[0, 63, 7, 32]);
}

#[test]
fn nothing_counted_gives_an_empty_record() {
    let rec = record(&counts(&[]), &marks(&[]));
    assert_eq!(rec, vec![0xFF, 0, 0xFF, 0, 0xFF, 0, 0xFF, 0, 0xFF, 0, 0xFF, 0, 0xFF, 0, 0xFF, 0]);
}

#[test]
fn only_the_first_eight_stay() {
    let list: Vec<(u8, u32)> = (0..12).map(|t| (t, 12 - t as u32)).collect();
    let rec = record(&counts(&list), &marks(&[]));
    let toks: Vec<u8> = rec.iter().step_by(2).copied().collect();
    assert_eq!(toks, vec![0, 1, 2, 3, 4, 5, 6, 7]);
    let scores: Vec<u8> = rec.iter().skip(1).step_by(2).copied().collect();
    assert_eq!(scores, vec![63, 57, 52, 47, 42, 37, 32, 26]);
}

#[test]
fn biases_round_up_to_fifteenths() {
    let page = biases(&counts(&[(3, 30), (4, 1), (5, 15), (6, 16)]));
    assert_eq!(page.len(), 256);
    assert_eq!((page[3], page[4], page[5], page[6], page[7]), (15, 1, 8, 8, 0));
    assert!(biases(&counts(&[])).iter().all(|&b| b == 0));
}
