//! The pattern tiles: one per display character (tile == character id), the
//! selector, the block cursor and the llama.

use vstd::prelude::*;
use crate::text::N_CHARS;

verus! {

/// Length of the pattern memory image.
pub const CHR_LEN: usize = 8192;

pub const TILE_SELECTOR: u8 = 62;

pub const TILE_BLOCK: u8 = 63;

/// First of the nine tiles of the llama.
pub const TILE_LLAMA: u8 = 48;

/// Glyphs of five columns and seven rows, in tile order.
pub const GLYPHS: [[u8; 7]; 43] = [
    [0b00000, 0b00000, 0b00000, 0b00000, 0b00000, 0b00000, 0b00000],
    [0b01110, 0b10001, 0b10001, 0b11111, 0b10001, 0b10001, 0b10001],
    [0b11110, 0b10001, 0b10001, 0b11110, 0b10001, 0b10001, 0b11110],
    [0b01110, 0b10001, 0b10000, 0b10000, 0b10000, 0b10001, 0b01110],
    [0b11100, 0b10010, 0b10001, 0b10001, 0b10001, 0b10010, 0b11100],
    [0b11111, 0b10000, 0b10000, 0b11110, 0b10000, 0b10000, 0b11111],
    [0b11111, 0b10000, 0b10000, 0b11110, 0b10000, 0b10000, 0b10000],
    [0b01110, 0b10001, 0b10000, 0b10111, 0b10001, 0b10001, 0b01111],
    [0b10001, 0b10001, 0b10001, 0b11111, 0b10001, 0b10001, 0b10001],
    [0b01110, 0b00100, 0b00100, 0b00100, 0b00100, 0b00100, 0b01110],
    [0b00111, 0b00010, 0b00010, 0b00010, 0b00010, 0b10010, 0b01100],
    [0b10001, 0b10010, 0b10100, 0b11000, 0b10100, 0b10010, 0b10001],
    [0b10000, 0b10000, 0b10000, 0b10000, 0b10000, 0b10000, 0b11111],
    [0b10001, 0b11011, 0b10101, 0b10101, 0b10001, 0b10001, 0b10001],
    [0b10001, 0b11001, 0b10101, 0b10011, 0b10001, 0b10001, 0b10001],
    [0b01110, 0b10001, 0b10001, 0b10001, 0b10001, 0b10001, 0b01110],
    [0b11110, 0b10001, 0b10001, 0b11110, 0b10000, 0b10000, 0b10000],
    [0b01110, 0b10001, 0b10001, 0b10001, 0b10101, 0b10010, 0b01101],
    [0b11110, 0b10001, 0b10001, 0b11110, 0b10100, 0b10010, 0b10001],
    [0b01111, 0b10000, 0b10000, 0b01110, 0b00001, 0b00001, 0b11110],
    [0b11111, 0b00100, 0b00100, 0b00100, 0b00100, 0b00100, 0b00100],
    [0b10001, 0b10001, 0b10001, 0b10001, 0b10001, 0b10001, 0b01110],
    [0b10001, 0b10001, 0b10001, 0b10001, 0b10001, 0b01010, 0b00100],
    [0b10001, 0b10001, 0b10001, 0b10101, 0b10101, 0b11011, 0b10001],
    [0b10001, 0b10001, 0b01010, 0b00100, 0b01010, 0b10001, 0b10001],
    [0b10001, 0b10001, 0b01010, 0b00100, 0b00100, 0b00100, 0b00100],
    [0b11111, 0b00001, 0b00010, 0b00100, 0b01000, 0b10000, 0b11111],
    [0b01110, 0b10001, 0b10011, 0b10101, 0b11001, 0b10001, 0b01110],
    [0b00100, 0b01100, 0b00100, 0b00100, 0b00100, 0b00100, 0b01110],
    [0b01110, 0b10001, 0b00001, 0b00010, 0b00100, 0b01000, 0b11111],
    [0b11111, 0b00010, 0b00100, 0b00010, 0b00001, 0b10001, 0b01110],
    [0b00010, 0b00110, 0b01010, 0b10010, 0b11111, 0b00010, 0b00010],
    [0b11111, 0b10000, 0b11110, 0b00001, 0b00001, 0b10001, 0b01110],
    [0b00110, 0b01000, 0b10000, 0b11110, 0b10001, 0b10001, 0b01110],
    [0b11111, 0b00001, 0b00010, 0b00100, 0b01000, 0b01000, 0b01000],
    [0b01110, 0b10001, 0b10001, 0b01110, 0b10001, 0b10001, 0b01110],
    [0b01110, 0b10001, 0b10001, 0b01111, 0b00001, 0b00010, 0b01100],
    [0b00000, 0b00000, 0b00000, 0b00000, 0b00000, 0b01100, 0b01100],
    [0b00000, 0b00000, 0b00000, 0b00000, 0b01100, 0b00100, 0b01000],
    [0b01100, 0b00100, 0b01000, 0b00000, 0b00000, 0b00000, 0b00000],
    [0b00000, 0b00000, 0b00000, 0b11111, 0b00000, 0b00000, 0b00000],
    [0b00100, 0b00100, 0b00100, 0b00100, 0b00100, 0b00000, 0b00100],
    [0b01110, 0b10001, 0b00001, 0b00010, 0b00100, 0b00000, 0b00100],
];

/// The selector's rows.
pub const SELECTOR: [u8; 7] = [0b01000, 0b00100, 0b00010, 0b00001, 0b00010, 0b00100, 0b01000];

/// The llama, 24 rows of three tiles side by side.
pub const LLAMA: [[u8; 3]; 24] = [
    [0b00110000, 0b00000000, 0b00000000],
    [0b01110100, 0b00000000, 0b00000000],
    [0b01111100, 0b00000000, 0b00000000],
    [0b00111100, 0b00000000, 0b00000000],
    [0b00111000, 0b00000000, 0b00000000],
    [0b00111000, 0b00000000, 0b00000000],
    [0b00111000, 0b00000000, 0b00000000],
    [0b00111000, 0b00000000, 0b00000000],
    [0b00111000, 0b00000000, 0b00000001],
    [0b00111111, 0b11111111, 0b11111101],
    [0b00111111, 0b11111111, 0b11111111],
    [0b01111111, 0b11111111, 0b11111111],
    [0b01111111, 0b11111111, 0b11111111],
    [0b01111111, 0b11111111, 0b11111111],
    [0b01111111, 0b11111111, 0b11111111],
    [0b01111111, 0b11111111, 0b11111110],
    [0b00111001, 0b11000000, 0b11100111],
    [0b00111001, 0b11000000, 0b11100111],
    [0b00111001, 0b11000000, 0b11100111],
    [0b00111001, 0b11000000, 0b11100111],
    [0b00111001, 0b11000000, 0b11100111],
    [0b00110000, 0b11000000, 0b11000110],
    [0b00000000, 0b00000000, 0b00000000],
    [0b00000000, 0b00000000, 0b00000000],
];

/// Byte `i` of the pattern memory: a tile takes 16 bytes, of which the first
/// seven or eight are its rows. Glyph rows leave two columns free on the right.
pub open spec fn chr_byte(i: int) -> u8 {
    let tile = i / 16;
    let r = i % 16;
    if tile < N_CHARS && r < 7 {
        (GLYPHS@[tile]@[r] * 4) as u8
    } else if tile == TILE_SELECTOR && r < 7 {
        (SELECTOR@[r] * 4) as u8
    } else if tile == TILE_BLOCK && r < 8 {
        0xFF
    } else if TILE_LLAMA <= tile < TILE_LLAMA + 9 && r < 8 {
        LLAMA@[(tile - TILE_LLAMA) / 3 * 8 + r]@[(tile - TILE_LLAMA) % 3]
    } else {
        0
    }
}

/// The pattern memory image.
pub open spec fn chr_of() -> Seq<u8> {
    Seq::new(CHR_LEN as nat, |i: int| chr_byte(i))
}

/// Glyph rows are five bits wide.
pub proof fn lemma_glyph_rows(tile: int, r: int)
    requires
        0 <= tile < 43,
        0 <= r < 7,
    ensures
        GLYPHS@[tile]@[r] < 32,
{
    if tile < 8 {
        assert(tile == 0 || tile == 1 || tile == 2 || tile == 3 || tile == 4 || tile == 5 || tile == 6 || tile == 7);
    } else if tile < 16 {
        assert(tile == 8 || tile == 9 || tile == 10 || tile == 11 || tile == 12 || tile == 13 || tile == 14 || tile == 15);
    } else if tile < 24 {
        assert(tile == 16 || tile == 17 || tile == 18 || tile == 19 || tile == 20 || tile == 21 || tile == 22 || tile == 23);
    } else if tile < 32 {
        assert(tile == 24 || tile == 25 || tile == 26 || tile == 27 || tile == 28 || tile == 29 || tile == 30 || tile == 31);
    } else if tile < 40 {
        assert(tile == 32 || tile == 33 || tile == 34 || tile == 35 || tile == 36 || tile == 37 || tile == 38 || tile == 39);
    } else {
        assert(tile == 40 || tile == 41 || tile == 42);
    }
    assert(r == 0 || r == 1 || r == 2 || r == 3 || r == 4 || r == 5 || r == 6);
}

/// The pattern memory image with all tiles.
pub fn font_chr() -> (chr: Vec<u8>)
    ensures
        chr@ == chr_of(),
{
    let mut chr: Vec<u8> = Vec::new();
    let mut i: usize = 0;
    while i < CHR_LEN
        invariant
            i <= CHR_LEN,
            chr@ == chr_of().take(i as int),
        decreases CHR_LEN - i,
    {
        let tile: usize = i / 16;
        let r: usize = i % 16;
        let byte: u8 = if tile < N_CHARS as usize && r < 7 {
            proof {
                lemma_glyph_rows(tile as int, r as int);
            }
            GLYPHS[tile][r] * 4
        } else if tile == TILE_SELECTOR as usize && r < 7 {
            assert(r == 0 || r == 1 || r == 2 || r == 3 || r == 4 || r == 5 || r == 6);
            SELECTOR[r] * 4
        } else if tile == TILE_BLOCK as usize && r < 8 {
            0xFF
        } else if TILE_LLAMA as usize <= tile && tile < TILE_LLAMA as usize + 9 && r < 8 {
            let t: usize = tile - TILE_LLAMA as usize;
            LLAMA[t / 3 * 8 + r][t % 3]
        } else {
            0
        };
        chr.push(byte);
        i = i + 1;
    }
    assert(chr@ =~= chr_of());
    chr
}

} // verus!
