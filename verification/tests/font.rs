//! Pattern tiles.

use nano_nes_model_builder::{char_ids, font_chr, TILE_BLOCK, TILE_LLAMA, TILE_SELECTOR};

#[test]
fn tiles_of_the_font() {
    let chr = font_chr();
    assert_eq!(chr.len(), 8192);
    // the blank is empty
    assert!(chr[0..16].iter().all(|&b| b == 0));
    // A: rows shifted left by two, then nothing
    let a = char_ids("A")[0] as usize * 16;
    assert_eq!(&chr[a..a + 8], &[0x38, 0x44, 0x44, 0x7C, 0x44, 0x44, 0x44, 0]);
    assert!(chr[a + 8..a + 16].iter().all(|&b| b == 0));
    let q = char_ids("?")[0] as usize * 16;
    assert_eq!(&chr[q..q + 7], &[0x38, 0x44, 0x04, 0x08, 0x10, 0x00, 0x10]);
}

#[test]
fn selector_block_and_llama() {
    let chr = font_chr();
    let s = TILE_SELECTOR as usize * 16;
    assert_eq!(&chr[s..s + 8], &[0x20, 0x10, 0x08, 0x04, 0x08, 0x10, 0x20, 0]);
    let b = TILE_BLOCK as usize * 16;
    assert!(chr[b..b + 8].iter().all(|&x| x == 0xFF));
    assert!(chr[b + 8..].iter().all(|&x| x == 0));
    let l = TILE_LLAMA as usize * 16;
    // first row of the first tile: ..##....
    assert_eq!(chr[l], 0b0011_0000);
    // row 9 starts "..######": second row of the tile below
    assert_eq!(chr[l + 3 * 16 + 1], 0b0011_1111);
    // row 8 ends in "#": first row of the last tile of the second row
    assert_eq!(chr[l + 5 * 16], 0b0000_0001);
    // row 23 is empty
    assert_eq!(chr[l + 8 * 16 + 7], 0);
    // tiles 57 to 61 are free
    assert!(chr[57 * 16..62 * 16].iter().all(|&x| x == 0));
}
