//! Digests.

use nano_nes_model_builder::hash::hex;
use nano_nes_model_builder::sha256_hex;

#[test]
fn digests_of_known_inputs() {
    assert_eq!(
        sha256_hex(b""),
        "e3b0c44298fc1c149afbf4c8996fb92427ae41e4649b934ca495991b7852b855"
    );
    assert_eq!(
        sha256_hex(b"abc"),
        "ba7816bf8f01cfea414140de5dae2223b00361a396177a9cb410ff61f20015ad"
    );
}

#[test]
fn hex_digits() {
    assert_eq!(hex(&[0x00, 0x0F, 0xA9, 0xFF]), "000fa9ff");
    assert_eq!(hex(&[]), "");
}
