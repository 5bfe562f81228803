use letters::compress_letter;
use letters::LetterGrouping;
use letters::LetterSequence;

#[test]
fn letter_sequence_empty() {
    assert!(
        LetterSequence::empty().is_empty(),
        "An empty LetterSequence is empty."
    );

    assert_eq!(
        0,
        LetterSequence::empty().len(),
        "An empty LetterSequence has zero length."
    );
}

#[test]
fn letter_sequence_is_empty() {
    assert!(
        LetterSequence::empty().is_empty(),
        "An empty LetterSequence is empty."
    );

    assert!(
        !LetterSequence::new(b"CONSIDERABLY").is_empty(),
        "A non-empty LetterSequence is not empty."
    );
}

#[test]
fn letter_sequence_len() {
    assert_eq!(
        0,
        LetterSequence::empty().len(),
        "An empty LetterSequence has zero length.",
    );

    let letters = b"ABCDEFGHIJKL";
    for n in 0..=letters.len() {
        assert_eq!(
            n,
            LetterSequence::new(&letters[0..n]).len(),
            "A LetterSequence with {n} letters has a length of {n}",
        );
    }
}

#[test]
fn has_all_letters() {
    assert!(
        !LetterSequence::empty().has_all_letters(),
        "An empty LetterSequence does not have all letters."
    );

    let letters = b"ABCDEFGHIJKL";
    for n in 0..=letters.len() {
        let expected = n == 12;
        assert_eq!(
            expected,
            LetterSequence::new(&letters[0..n]).has_all_letters(),
            "A LetterSequence with {n} letters {}",
            if expected {
                "has all letters."
            } else {
                "does not have all letters."
            }
        );
    }
}

#[test]
fn with_letter() {
    assert!(
        !LetterSequence::empty().with_letter(b'A').is_empty(),
        "A LetterSequence with a letter is not empty."
    );

    let letters = b"ABCDEFGHIJKL";
    let mut sequence = LetterSequence::empty();

    for (n, &letter) in letters.iter().enumerate() {
        let expected = n + 1;
        sequence = sequence.with_letter(letter);

        assert_eq!(
            expected,
            sequence.len(),
            "A LetterSequence with {n} letters has a length of {n}",
        );
    }
}

#[test]
fn new() {
    assert_eq!(
        LetterSequence::new(b""),
        LetterSequence::empty(),
        "A LetterSequence created from an empty string is empty."
    );

    let letters = b"ABCDEFGHIJKL";
    let mut sequence = LetterSequence::empty();

    for n in 0..letters.len() {
        sequence = sequence.with_letter(letters[n]);
        assert_eq!(
            sequence,
            LetterSequence::new(&letters[0..=n]),
            "Two equal LetterSequences constructed with different methods differently should be equal."
        );
    }
}

#[test]
fn cut_from_start() {
    assert!(
        LetterSequence::empty()
            .with_letter(b'A')
            .cut_from_start(1)
            .is_empty(),
        "A LetterSequence with one letter is empty after cutting one letter form the start.",
    );

    let letters = b"ABCDEFGHIJKL";
    let sequence = LetterSequence::new(letters);

    for n in 0..=12 {
        assert_eq!(
            sequence.cut_from_start(n),
            LetterSequence::new(&letters[n..]),
            "Cutting letters from the start of a LetterSequence is equal to slicing letters from the start of a str.",
        );
    }
}

#[test]
fn cut_from_end() {
    assert!(
        LetterSequence::empty()
            .with_letter(b'A')
            .cut_from_end(1)
            .is_empty(),
        "A LetterSequence with one letter is empty after cutting one letter form the end.",
    );

    let letters = b"ABCDEFGHIJKL";
    let sequence = LetterSequence::new(letters);

    for n in 0..=12 {
        assert_eq!(
            sequence.cut_from_end(n),
            LetterSequence::new(&letters[0..(12 - n)]),
            "Cutting letters from the end of a LetterSequence is equal to slicing letters from the end of a str.",
        );
    }
}

#[test]
fn slice() {
    let letters = b"ABCDEFGHIJKL";
    let sequence = LetterSequence::new(letters);

    assert!(
        sequence.slice(0, 0).is_empty(),
        "An slice of no letters from a LetterSequence is empty.",
    );

    for start in 0..12 {
        for end in start..=12 {
            assert_eq!(
                sequence.slice(start, end),
                LetterSequence::new(&letters[start..end]),
                "A slice of a LetterSequence is equal to the slice of a str.",
            );
        }
    }
}

#[test]
fn letters() {
    let letters = b"ABCDEFGHIJKL";
    let sequence = LetterSequence::new(letters);

    for start in 0..12 {
        for end in start..=12 {
            assert_eq!(
                sequence.slice(start, end).letters_rev(),
                letters[start..end]
                    .iter()
                    .rev()
                    .copied()
                    .map(compress_letter)
                    .collect::<Vec<_>>(),
                "The Letters iterator returns the same items as that from a slice of bytes."
            );
        }
    }
}

#[test]
fn letter_sequence_ascii_bytes() {
    let letters = b"ABCDEFGHIJKL";
    let sequence = LetterSequence::new(letters);

    for start in 0..12 {
        for end in start..=12 {
            assert_eq!(
                sequence.slice(start, end).ascii_bytes(),
                letters[start..end].to_vec(),
                "The Letters iterator returns the same items as that from a slice of bytes."
            );
        }
    }
}

#[test]
fn can_append_to() {
    let prefix = LetterSequence::new(b"ABCDEFGHI");

    let valid_suffixes = [
        LetterSequence::new(b"IJK"),
        LetterSequence::new(b"IYZ"),
        LetterSequence::new(b"IJKL"),
    ];

    for suffix in valid_suffixes {
        assert!(
            suffix.can_append_to(prefix),
            r#"The suffix {suffix:?} can be appended to the prefix {prefix:?}."#,
        );
    }

    let invalid_suffixes_with_reasons = [
        (
            LetterSequence::new(b"JKE"),
            "does not join on the same letter.",
        ),
        (
            LetterSequence::new(b"IKJLM"),
            "extends the length beyond 12 letters.",
        ),
        (
            LetterSequence::new(b"IJE"),
            "shares more than one letter with the prefix.",
        ),
    ];

    for (suffix, reason) in invalid_suffixes_with_reasons {
        assert!(
            !suffix.can_append_to(prefix),
            r#"Cannot append the suffix {suffix:?} to the prefix {prefix:?} because it {reason}"#,
        );
    }
}

#[test]
fn can_prepend_to() {
    let prefix = LetterSequence::new(b"ABCDEFGHI");

    let valid_suffixes = [
        LetterSequence::new(b"IJK"),
        LetterSequence::new(b"IYZ"),
        LetterSequence::new(b"IJKL"),
    ];

    for suffix in valid_suffixes {
        assert!(
            prefix.can_prepend_to(suffix),
            r#"The prefix {prefix:?} can be prepended to the suffix {suffix:?}."#,
        );
    }

    let invalid_suffixes_with_reasons = [
        (
            LetterSequence::new(b"JKE"),
            "does not join on the same letter.",
        ),
        (
            LetterSequence::new(b"IKJLM"),
            "extends the length beyond 12 letters.",
        ),
        (
            LetterSequence::new(b"IJE"),
            "shares more than one letter with the suffix.",
        ),
    ];

    for (suffix, reason) in invalid_suffixes_with_reasons {
        assert!(
            !suffix.can_append_to(prefix),
            r#"Cannot prepend the prefix {prefix:?} to the suffix {suffix:?} because it {reason}"#,
        );
    }
}

#[test]
fn append_to() {
    assert_eq!(
        LetterSequence::new(b"FISHOME"),
        LetterSequence::new(b"HOME").append_to(LetterSequence::new(b"FISH")),
    );
    assert_eq!(
        LetterSequence::new(b"HOME").append_to(LetterSequence::new(b"FISH")),
        LetterSequence::new(b"FISH").prepend_to(LetterSequence::new(b"HOME")),
    );
    assert_eq!(
        LetterSequence::new(b"FISHAT"),
        LetterSequence::new(b"HAT").append_to(LetterSequence::new(b"FISH")),
    );
    assert_eq!(
        LetterSequence::new(b"HAT").append_to(LetterSequence::new(b"FISH")),
        LetterSequence::new(b"FISH").prepend_to(LetterSequence::new(b"HAT")),
    );
}

#[test]
fn prepend_to() {
    assert_eq!(
        LetterSequence::new(b"FISHOME"),
        LetterSequence::new(b"FISH").prepend_to(LetterSequence::new(b"HOME")),
    );
    assert_eq!(
        LetterSequence::new(b"FISH").prepend_to(LetterSequence::new(b"HOME")),
        LetterSequence::new(b"HOME").append_to(LetterSequence::new(b"FISH")),
    );
    assert_eq!(
        LetterSequence::new(b"FISHAT"),
        LetterSequence::new(b"FISH").prepend_to(LetterSequence::new(b"HAT")),
    );
    assert_eq!(
        LetterSequence::new(b"FISH").prepend_to(LetterSequence::new(b"HAT")),
        LetterSequence::new(b"HAT").append_to(LetterSequence::new(b"FISH")),
    );
}

#[test]
fn is_valid_word() {
    let grouping = LetterGrouping::new(b"ABCDEFGHIJKL");

    let group1 = "ABC";
    let group2 = "DEF";
    let group3 = "GHI";
    let group4 = "JKL";

    for &g1 in group1.as_bytes() {
        for &g2 in group2.as_bytes() {
            for &g3 in group3.as_bytes() {
                for &g4 in group4.as_bytes() {
                    assert!(
                        LetterSequence::new(&[g1, g2, g3, g4]).is_valid_word(&grouping),
                        "A LetterSequence formed with adjacent letters from each group is valid."
                    );
                }
            }
        }
    }

    for &g1 in group1.as_bytes() {
        for &g1_invalid in group1.as_bytes().iter().filter(|&&byte| byte != g1) {
            for &g2 in group2.as_bytes() {
                for &g3 in group3.as_bytes() {
                    for &g4 in group4.as_bytes() {
                        assert!(
                            !LetterSequence::new(&[g1, g1_invalid, g2, g3, g4])
                                .is_valid_word(&grouping),
                            "A LetterSequence with two adjacent letters from group 1 is invalid.",
                        );
                    }
                }
            }
        }
    }

    for &g1 in group1.as_bytes() {
        for &g2 in group2.as_bytes() {
            for &g2_invalid in group2.as_bytes().iter().filter(|&&byte| byte != g2) {
                for &g3 in group3.as_bytes() {
                    for &g4 in group4.as_bytes() {
                        assert!(
                            !LetterSequence::new(&[g1, g2, g2_invalid, g3, g4])
                                .is_valid_word(&grouping),
                            "A LetterSequence with two adjacent letters from group 2 is invalid.",
                        );
                    }
                }
            }
        }
    }

    for &g1 in group1.as_bytes() {
        for &g2 in group2.as_bytes() {
            for &g3 in group3.as_bytes() {
                for &g3_invalid in group3.as_bytes().iter().filter(|&&byte| byte != g3) {
                    for &g4 in group4.as_bytes() {
                        assert!(
                            !LetterSequence::new(&[g1, g2, g3, g3_invalid, g4])
                                .is_valid_word(&grouping),
                            "A LetterSequence with two adjacent letters from group 3 is invalid.",
                        );
                    }
                }
            }
        }
    }

    for &g1 in group1.as_bytes() {
        for &g2 in group2.as_bytes() {
            for &g3 in group3.as_bytes() {
                for &g4 in group4.as_bytes() {
                    for &g4_invalid in group4.as_bytes().iter().filter(|&&byte| byte != g4) {
                        assert!(
                            !LetterSequence::new(&[g1, g2, g3, g4, g4_invalid])
                                .is_valid_word(&grouping),
                            "A LetterSequence with two adjacent letters from group 4 is invalid.",
                        );
                    }
                }
            }
        }
    }
}

#[test]
fn first_letter() {
    let letters = b"ABCDEFGHIJKL";
    let compress = |letter| letter - b'A';
    for n in 1..=letters.len() {
        let sequence = LetterSequence::new(&letters[0..n]);
        assert_eq!(sequence.first_letter(), compress(b'A'));
    }
}

#[test]
fn last_letter() {
    let letters = b"ABCDEFGHIJKL";
    let compress = |letter| letter - b'A';
    for n in 1..=letters.len() {
        let sequence = LetterSequence::new(&letters[0..n]);
        assert_eq!(sequence.last_letter(), compress(letters[n - 1]));
    }
}
