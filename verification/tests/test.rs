#[test]
fn compress_letter() {
    for (letter, expected) in (b'A'..=b'Z').zip(0..) {
        assert_eq!(
            expected,
            letters::compress_letter(letter),
            "A compressed letter should match the expected value.",
        );
    }
}

#[test]
fn decompress_letter() {
    for (letter, expected) in (0..26).zip(b'A'..=b'Z') {
        assert_eq!(
            expected,
            letters::decompress_letter(letter),
            "A decompressed letter should match the expected value.",
        );
    }
}
