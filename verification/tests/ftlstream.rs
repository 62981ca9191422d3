use fluent::parser::errors::{ErrorKind, ParserError};
use fluent::parser::ftlstream::ParserStream;

#[test]
fn stream_skips_blank_lines_and_counts_them() {
    let mut ps = ParserStream::new("  \n\n  key = value");
    assert_eq!(ps.skip_blank_block(), 2);
    assert_eq!(ps.ptr, 4);
    assert_eq!(ps.skip_blank_inline(), 2);
    assert!(ps.is_identifier_start());
    assert!(ps.is_current_byte(b'k'));
    assert!(ps.is_byte_at(b'=', 10));
}

#[test]
fn stream_expect_byte_reports_the_missing_token() {
    let mut ps = ParserStream::new("ab");
    assert_eq!(ps.expect_byte(b'a'), Ok(()));
    assert_eq!(
        ps.expect_byte(b'x'),
        Err(ParserError { pos: (1, 2), slice: None, kind: ErrorKind::ExpectedToken('x') })
    );
    assert!(ps.take_if(b'b'));
    assert!(!ps.take_if(b'b'));
}

#[test]
fn stream_skips_to_next_entry_start() {
    let mut ps = ParserStream::new("junk here\n  more\nkey = v");
    ps.skip_to_next_entry_start();
    assert_eq!(ps.ptr, 0);
    ps.ptr = 1;
    ps.skip_to_next_entry_start();
    assert_eq!(ps.ptr, 17);
}

#[test]
fn stream_value_start() {
    let mut ps = ParserStream::new(" = \n    value");
    ps.ptr = 2;
    assert_eq!(ps.skip_to_value_start(), Some(false));
    assert_eq!(ps.ptr, 4);

    let mut ps = ParserStream::new("= value");
    ps.ptr = 1;
    assert_eq!(ps.skip_to_value_start(), Some(true));
    assert_eq!(ps.ptr, 2);

    let mut ps = ParserStream::new("=\nkey");
    ps.ptr = 1;
    assert_eq!(ps.skip_to_value_start(), None);
}

#[test]
fn stream_digits_and_escapes() {
    let mut ps = ParserStream::new("123x");
    assert_eq!(ps.skip_digits(), Ok(()));
    assert_eq!(ps.ptr, 3);
    assert!(ps.skip_digits().is_err());

    let mut ps = ParserStream::new("00e9\"");
    assert_eq!(ps.skip_unicode_escape_sequence(4), Ok(()));
    assert_eq!(ps.ptr, 4);
}

#[test]
fn stream_line_ends() {
    let mut ps = ParserStream::new("\r\nx");
    assert!(ps.is_eol());
    assert!(ps.skip_eol());
    assert_eq!(ps.ptr, 2);
    assert!(!ps.is_eol());
}

#[test]
fn stream_past_its_end_reads_nothing() {
    let mut ps = ParserStream::new("ab");
    ps.ptr = 5;
    assert!(!ps.is_current_byte(b'a'));
    assert!(!ps.is_byte_at(b'a', 7));
    assert!(!ps.is_eol());
    assert!(!ps.skip_eol());
    assert!(!ps.take_if(b'a'));
    assert_eq!(ps.ptr, 5);
    assert!(ps.expect_byte(b'a').is_err());
    assert!(ps.skip_digits().is_err());
    assert_eq!(ps.ptr, 5);
}
