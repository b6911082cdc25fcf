use hyli::syntax_error::pos_to_line;

#[test]
fn syntax_error_get_line_simple() {
    let src = "first\nsecond\r\nthird";
    //         012345 6789012 3 45678

    assert_eq!(pos_to_line(3, src), 1);
    assert_eq!(pos_to_line(6, src), 2);
    assert_eq!(pos_to_line(15, src), 3);
    assert_eq!(pos_to_line(451, src), 3);
}

#[test]
fn syntax_error_get_line_double_cr() {
    let src = "first\nsecond\r\rthird";
    //         012345 6789012 3 45678

    assert_eq!(pos_to_line(15, src), 4);
}

#[test]
fn line_of_start_and_empty_source() {
    assert_eq!(pos_to_line(0, ""), 1);
    assert_eq!(pos_to_line(10, ""), 1);
    assert_eq!(pos_to_line(0, "a\nb"), 1);
}

#[test]
fn line_break_position_belongs_to_earlier_line() {
    let src = "ab\ncd";
    assert_eq!(pos_to_line(2, src), 1);
    assert_eq!(pos_to_line(3, src), 2);
}

#[test]
fn crlf_counts_once_and_bare_cr_counts() {
    assert_eq!(pos_to_line(4, "a\r\nb"), 2);
    assert_eq!(pos_to_line(3, "a\rb"), 2);
    assert_eq!(pos_to_line(5, "a\n\nb"), 3);
}
