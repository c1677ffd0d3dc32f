use modem_socket::reply_parser::{
    byte_in_class, int_parameter_fits, int_text_fits, read_identifier, read_tagged_int, run_end,
    ByteClass,
};
use modem_socket::AtError;

#[test]
fn bytes_by_class() {
    assert!(byte_in_class(ByteClass::Space, b' '));
    assert!(!byte_in_class(ByteClass::Space, b'\t'));
    assert!(!byte_in_class(ByteClass::Space, b'\r'));
    for b in 0..=255u8 {
        assert_eq!(byte_in_class(ByteClass::Digit, b), b.is_ascii_digit());
        assert_eq!(
            byte_in_class(ByteClass::Numeric, b),
            b.is_ascii_digit() || b == b'-' || b == b'+'
        );
    }
}

#[test]
fn run_ends_at_first_other_byte() {
    assert_eq!(run_end(b"   12", 0, ByteClass::Space), 3);
    assert_eq!(run_end(b"   12", 3, ByteClass::Space), 3);
    assert_eq!(run_end(b"   12", 3, ByteClass::Digit), 5);
    assert_eq!(run_end(b"   12", 5, ByteClass::Digit), 5);
    assert_eq!(run_end(b"+-12a", 0, ByteClass::Numeric), 4);
    assert_eq!(run_end(b"+-12a", 0, ByteClass::Digit), 0);
    assert_eq!(run_end(b"", 0, ByteClass::Space), 0);
}

#[test]
fn number_text_within_32_bits() {
    let fits = |text: &[u8]| int_text_fits(text, 0, text.len());
    assert!(fits(b"0"));
    assert!(fits(b"2147483647"));
    assert!(!fits(b"2147483648"));
    assert!(fits(b"-2147483648"));
    assert!(!fits(b"-2147483649"));
    assert!(fits(b"2147483648-"));
    assert!(!fits(b"2147483649-"));
    assert!(!fits(b"99999999999"));
    assert!(fits(b"00000000001"));
    // Longer than eleven bytes: never read digit by digit.
    assert!(fits(b"999999999999"));
    assert!(fits(b""));
    assert!(fits(b"-"));
    assert!(fits(b"--"));
    assert!(int_text_fits(b"xx2147483647yy", 2, 12));
    assert!(!int_text_fits(b"xx2147483648yy", 2, 12));
}

#[test]
fn number_parameter_within_32_bits() {
    assert!(int_parameter_fits(b"+CSOC:   5\r\n", 6));
    assert!(int_parameter_fits(b"+CSOC: +2147483647\r\n", 6));
    assert!(!int_parameter_fits(b"+CSOC: +2147483648\r\n", 6));
    assert!(!int_parameter_fits(b"+CSOC: 2147483648\r\n", 7));
    assert!(int_parameter_fits(b"+CSOC: ", 7));
    assert!(int_parameter_fits(b"+CSOC: x", 7));
}

#[test]
fn identifier_is_a_prefix() {
    assert_eq!(read_identifier(b"OK\r\n", b"OK\r\n"), Ok(()));
    assert_eq!(read_identifier(b"OK\r\nrest", b"OK\r\n"), Ok(()));
    assert_eq!(read_identifier(b"anything", b""), Ok(()));
    assert_eq!(read_identifier(b"", b""), Ok(()));
    assert_eq!(read_identifier(b"OK\r", b"OK\r\n"), Err(AtError::MalformedReply));
    assert_eq!(read_identifier(b"OK\r\r", b"OK\r\n"), Err(AtError::MalformedReply));
    assert_eq!(read_identifier(b"", b"OK\r\n"), Err(AtError::MalformedReply));
}

#[test]
fn tagged_number() {
    assert_eq!(read_tagged_int(b"+X:42;", b"+X:", b";"), Ok(42));
    assert_eq!(read_tagged_int(b"+X: -42,  ;", b"+X:", b";"), Ok(-42));
    assert_eq!(read_tagged_int(b"+X: -42 , ;", b"+X:", b";"), Err(AtError::MalformedReply));
    assert_eq!(read_tagged_int(b"+X:42", b"+X:", b""), Ok(42));
    assert_eq!(read_tagged_int(b"42", b"", b""), Ok(42));
    assert_eq!(read_tagged_int(b"+X:2147483647;", b"+X:", b";"), Ok(i32::MAX));
    assert_eq!(read_tagged_int(b"+X:-2147483648;", b"+X:", b";"), Ok(i32::MIN));
    assert_eq!(read_tagged_int(b"+X:2147483648;", b"+X:", b";"), Err(AtError::MalformedReply));
    assert_eq!(read_tagged_int(b"+X:42", b"+X:", b";"), Err(AtError::MalformedReply));
    assert_eq!(read_tagged_int(b"+Y:42;", b"+X:", b";"), Err(AtError::MalformedReply));
    assert_eq!(read_tagged_int(b"+X:;", b"+X:", b";"), Err(AtError::MalformedReply));
    assert_eq!(read_tagged_int(b"+X", b"+X:", b";"), Err(AtError::MalformedReply));
    // A mismatch in front keeps an oversized number from being read at all.
    assert_eq!(read_tagged_int(b"+Y:99999999999;", b"+X:", b";"), Err(AtError::MalformedReply));
}
