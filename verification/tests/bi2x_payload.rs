use bio2_tools::crypt::bi2x_payload::{decrypt_bi2x_payload, encrypt_bi2x_payload};

#[test]
fn encrypt_for_board_scrambles_with_sequence_seed() {
    let clear = [0x00, 0x01, 0x10, 0xAA, 0x7F];
    assert_eq!(
        encrypt_bi2x_payload(0x00, &clear, true),
        vec![0x6A, 0x5A, 0x68, 0xAA, 0x2E]
    );
}

#[test]
fn decrypt_from_board_uses_other_seed() {
    let scrambled = [0x00, 0x01, 0x10, 0xAA, 0x7F];
    assert_eq!(
        decrypt_bi2x_payload(0x12, &scrambled, true),
        vec![0x11, 0x77, 0x67, 0xAA, 0x1B]
    );
}

#[test]
fn bytes_with_all_aa_bits_pass_through() {
    let clear = [0xAA, 0xAB, 0xEE, 0xFF, 0xBA];
    assert_eq!(encrypt_bi2x_payload(0x37, &clear, false), clear.to_vec());
}

#[test]
fn decrypt_undoes_encrypt() {
    let clear: Vec<u8> = (0..=255u8).collect();
    for &for_bio2 in &[true, false] {
        for seq in [0x00u8, 0x01, 0x55, 0xAA, 0xFF] {
            let scrambled = encrypt_bi2x_payload(seq, &clear, for_bio2);
            assert_ne!(scrambled, clear);
            assert_eq!(decrypt_bi2x_payload(seq, &scrambled, !for_bio2), clear);
        }
    }
}

#[test]
fn scrambling_keeps_length_and_empty_input() {
    assert_eq!(encrypt_bi2x_payload(0x10, &[], true), Vec::<u8>::new());
    assert_eq!(decrypt_bi2x_payload(0x10, &[1, 2, 3], false).len(), 3);
}
