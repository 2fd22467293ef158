use minicc::lexer::scan::{byte_is_digit, byte_is_space, byte_is_word};

#[test]
fn whitespace_is_the_ascii_whitespace() {
    for b in 0..=255u8 {
        assert_eq!(byte_is_space(b), b.is_ascii_whitespace(), "byte {:#04x}", b);
    }
}

#[test]
fn digits_are_the_ascii_digits() {
    for b in 0..=255u8 {
        assert_eq!(byte_is_digit(b), b.is_ascii_digit(), "byte {:#04x}", b);
    }
}

#[test]
fn word_bytes_are_the_letters_and_the_underscore() {
    for b in 0..=255u8 {
        assert_eq!(
            byte_is_word(b),
            b.is_ascii_alphabetic() || b == b'_',
            "byte {:#04x}",
            b
        );
    }
}

#[test]
fn no_digit_is_a_word_byte() {
    for b in b'0'..=b'9' {
        assert!(!byte_is_word(b), "byte {:#04x}", b);
    }
}
