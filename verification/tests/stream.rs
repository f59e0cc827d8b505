use pwdgen::digest::generate_word;
use pwdgen::generator::PasswordGenerator;
use pwdgen::mask::get_mask;
use pwdgen::scan::next_from_word;
use sha2::{Digest, Sha256};

fn expected_stream(seed: &[u8], max_index: u8, length: usize) -> Vec<u8> {
    let (mask, width) = get_mask(max_index);
    let mut indices: Vec<u8> = Vec::new();
    let mut nonce: usize = 0;
    while indices.len() < length {
        let word = generate_word(seed, nonce);
        nonce += 1;
        let mut offset: usize = 0;
        while indices.len() < length {
            match next_from_word(&word, offset, max_index, mask, width) {
                Ok((next, value)) => {
                    indices.push(value);
                    offset = next;
                }
                Err(_) => break,
            }
        }
    }
    indices
}

#[test]
fn word_of_nonce_zero_is_digest_of_seed() {
    let empty: [u8; 32] = [
        227, 176, 196, 66, 152, 252, 28, 20, 154, 251, 244, 200, 153, 111, 185, 36, 39, 174, 65,
        228, 100, 155, 147, 76, 164, 149, 153, 27, 120, 82, 184, 85,
    ];
    let abc: [u8; 32] = [
        186, 120, 22, 191, 143, 1, 207, 234, 65, 65, 64, 222, 93, 174, 34, 35, 176, 3, 97, 163,
        150, 23, 122, 156, 180, 16, 255, 97, 242, 0, 21, 173,
    ];
    assert_eq!(generate_word(b"", 0), empty);
    assert_eq!(generate_word(b"abc", 0), abc);
}

#[test]
fn word_appends_counting_bytes() {
    let expected: [u8; 32] = [
        36, 254, 219, 38, 74, 27, 74, 98, 54, 239, 19, 182, 111, 59, 234, 219, 133, 225, 10, 10,
        99, 153, 67, 248, 254, 233, 35, 121, 220, 152, 191, 165,
    ];
    assert_eq!(generate_word(b"abc", 2), expected);
    assert_eq!(generate_word(b"abc", 2), generate_word(b"abc\x00\x01", 0));
    assert_eq!(generate_word(b"", 3), generate_word(&[0, 1, 2], 0));
    assert_eq!(generate_word(b"abc", 3), generate_word(b"abc\x00\x01\x02", 0));
}

#[test]
fn word_counting_bytes_wrap_at_256() {
    let mut data: Vec<u8> = b"seed".to_vec();
    for i in 0..300usize {
        data.push((i % 256) as u8);
    }
    let direct: [u8; 32] = Sha256::digest(&data).into();
    assert_eq!(generate_word(b"seed", 300), direct);
    assert_eq!(data[4 + 256], 0);
    assert_eq!(data[4 + 299], 43);
}

#[test]
fn word_matches_direct_digest() {
    for nonce in 0..6usize {
        let mut data: Vec<u8> = b"example-seed".to_vec();
        for i in 0..nonce {
            data.push(i as u8);
        }
        let direct: [u8; 32] = Sha256::digest(&data).into();
        assert_eq!(generate_word(b"example-seed", nonce), direct);
    }
}

#[test]
fn words_differ_by_nonce() {
    let first = generate_word(b"example-seed", 0);
    let second = generate_word(b"example-seed", 1);
    assert_ne!(first, second);
    assert_ne!(first.to_vec(), b"example-seed".to_vec());
}

#[test]
fn word_is_repeatable() {
    assert_eq!(generate_word(b"example-seed", 4), generate_word(b"example-seed", 4));
}

#[test]
fn fill_end_to_end_example() {
    let generator = PasswordGenerator::new(b"example-seed", 25);
    let mut output = [0xffu8; 10];
    let written = generator.generate_assign(&mut output);
    assert_eq!(written, 10);
    assert_eq!(output, [13, 19, 22, 16, 3, 1, 18, 15, 24, 14]);
    for value in output {
        assert!(value <= 25);
    }
    let mut again = [0u8; 10];
    assert_eq!(generator.generate_assign(&mut again), 10);
    assert_eq!(output, again);
}

#[test]
fn fill_crosses_into_the_next_word() {
    let generator = PasswordGenerator::new(b"example-seed", 25);
    let mut output = [0xffu8; 40];
    assert_eq!(generator.generate_assign(&mut output), 40);
    let expected: [u8; 40] = [
        13, 19, 22, 16, 3, 1, 18, 15, 24, 14, 21, 13, 2, 6, 8, 3, 18, 1, 21, 20, 22, 22, 12, 0,
        25, 23, 2, 1, 5, 10, 14, 24, 18, 19, 25, 6, 0, 12, 20, 2,
    ];
    assert_eq!(output, expected);
}

#[test]
fn fill_starts_each_word_at_its_first_byte() {
    let generator = PasswordGenerator::new(b"k", 200);
    let mut output = [0u8; 70];
    assert_eq!(generator.generate_assign(&mut output), 70);
    let expected: [u8; 70] = [
        130, 84, 195, 41, 169, 40, 80, 57, 55, 111, 72, 22, 39, 100, 81, 125, 165, 35, 85, 20,
        175, 67, 49, 100, 72, 13, 122, 48, 56, 163, 33, 111, 186, 30, 149, 93, 144, 173, 167, 125,
        70, 189, 123, 81, 115, 162, 115, 152, 154, 104, 147, 37, 185, 151, 189, 22, 146, 51, 80,
        147, 4, 92, 77, 113, 17, 93, 124, 0, 98, 69,
    ];
    assert_eq!(output, expected);
}

#[test]
fn fill_with_full_range_copies_digest_bytes() {
    let generator = PasswordGenerator::new(b"seed", 255);
    let mut output = [0u8; 33];
    assert_eq!(generator.generate_assign(&mut output), 33);
    let first = generate_word(b"seed", 0);
    let second = generate_word(b"seed", 1);
    assert_eq!(output[..32], first[..]);
    assert_eq!(output[32], second[0]);
}

#[test]
fn fill_with_single_index_range_gives_zeros() {
    let generator = PasswordGenerator::new(b"seed", 0);
    let mut output = [0xffu8; 40];
    assert_eq!(generator.generate_assign(&mut output), 40);
    assert_eq!(output, [0u8; 40]);
}

#[test]
fn fill_of_empty_buffer_writes_nothing() {
    let generator = PasswordGenerator::new(b"seed", 25);
    let mut output: [u8; 0] = [];
    assert_eq!(generator.generate_assign(&mut output), 0);
}

#[test]
fn fill_with_empty_seed() {
    let generator = PasswordGenerator::new(b"", 9);
    let mut output = [0u8; 5];
    assert_eq!(generator.generate_assign(&mut output), 5);
    assert_eq!(output, [3, 0, 4, 2, 8]);
}

#[test]
fn fill_is_repeatable_and_bounded() {
    for max_index in [0u8, 1, 2, 9, 25, 61, 93, 127, 128, 254, 255] {
        for length in [0usize, 1, 7, 32, 33, 100] {
            let seed: &[u8] = b"another seed";
            let first_generator = PasswordGenerator::new(seed, max_index);
            let second_generator = PasswordGenerator::new(seed, max_index);
            let mut first = vec![0xaau8; length];
            let mut second = vec![0x55u8; length];
            assert_eq!(first_generator.generate_assign(&mut first), length);
            assert_eq!(second_generator.generate_assign(&mut second), length);
            assert_eq!(first.len(), length);
            assert_eq!(first, second);
            for value in &first {
                assert!(*value <= max_index);
            }
            assert_eq!(first, expected_stream(seed, max_index, length));
        }
    }
}

#[test]
fn shorter_fill_is_prefix_of_longer_fill() {
    let generator = PasswordGenerator::new(b"example-seed", 61);
    let mut short = [0u8; 12];
    let mut long = [0u8; 90];
    assert_eq!(generator.generate_assign(&mut short), 12);
    assert_eq!(generator.generate_assign(&mut long), 90);
    assert_eq!(short[..], long[..12]);
}

#[test]
fn different_seeds_give_different_streams() {
    let mut first = [0u8; 32];
    let mut second = [0u8; 32];
    PasswordGenerator::new(b"seed one", 61).generate_assign(&mut first);
    PasswordGenerator::new(b"seed two", 61).generate_assign(&mut second);
    assert_ne!(first, second);
}
