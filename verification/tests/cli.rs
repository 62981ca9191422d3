use fluent::cli::{annotation_range, get_error_info, get_line_num};
use fluent::parser::errors::ErrorKind;

#[test]
fn line_numbers_count_lines_before_the_position() {
    let source = "foo = Foo\nbar = Bar\nbaz = Baz\n";
    assert_eq!(get_line_num(source, 0), 0);
    assert_eq!(get_line_num(source, 9), 0);
    assert_eq!(get_line_num(source, 10), 1);
    assert_eq!(get_line_num(source, 25), 2);
    assert_eq!(get_line_num(source, 100), 3);
    assert_eq!(get_line_num("", 5), 0);
}

#[test]
fn line_numbers_count_characters() {
    // "żółw" takes eight bytes but four characters.
    let source = "żółw\nx\n";
    assert_eq!(get_line_num(source, 4), 0);
    assert_eq!(get_line_num(source, 5), 1);
    assert_eq!(get_line_num("a\r\nb", 2), 1);
}

#[test]
fn error_info_has_a_placeholder_code() {
    let (id, desc) = get_error_info(&ErrorKind::MissingValue);
    assert_eq!(id, "E0000");
    assert_eq!(desc, "Expected a value");
}

#[test]
fn annotation_range_is_clamped_to_the_junk() {
    assert_eq!(annotation_range((14, 15), (10, 18)), (4, 6));
    assert_eq!(annotation_range((12, 30), (10, 18)), (2, 9));
}
