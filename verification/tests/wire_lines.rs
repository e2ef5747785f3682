use round_bank::wire::{parse_return, read_usize, WireError};

#[test]
fn share_line_parses() {
    assert_eq!(read_usize("250\n"), Ok(250));
}

#[test]
fn share_line_without_newline_parses() {
    assert_eq!(read_usize("250"), Ok(250));
}

#[test]
fn share_line_zero() {
    assert_eq!(read_usize("0\n"), Ok(0));
}

#[test]
fn share_line_leading_zeros() {
    assert_eq!(read_usize("00250\n"), Ok(250));
}

#[test]
fn empty_share_line_is_malformed() {
    assert_eq!(read_usize(""), Err(WireError::Malformed));
    assert_eq!(read_usize("\n"), Err(WireError::Malformed));
}

#[test]
fn non_digit_share_line_is_malformed() {
    assert_eq!(read_usize("12x\n"), Err(WireError::Malformed));
    assert_eq!(read_usize("-12\n"), Err(WireError::Malformed));
    assert_eq!(read_usize("+12\n"), Err(WireError::Malformed));
    assert_eq!(read_usize("1 2\n"), Err(WireError::Malformed));
}

#[test]
fn carriage_return_is_not_stripped() {
    // Only the newline is stripped; a carriage return makes the line
    // malformed, as in the original line discipline.
    assert_eq!(read_usize("250\r\n"), Err(WireError::Malformed));
}

#[test]
fn huge_share_line_is_out_of_range() {
    assert_eq!(
        read_usize("99999999999999999999999999\n"),
        Err(WireError::OutOfRange)
    );
}

#[test]
fn overflowing_prefix_with_bad_tail_is_malformed() {
    // Malformed syntax wins over an overflowing value.
    assert_eq!(
        read_usize("99999999999999999999999999x\n"),
        Err(WireError::Malformed)
    );
}

#[test]
fn return_line_parses_signed() {
    assert_eq!(parse_return("300\n"), Ok(300));
    assert_eq!(parse_return("-50\n"), Ok(-50));
    assert_eq!(parse_return("0"), Ok(0));
    assert_eq!(parse_return("-0\n"), Ok(0));
}

#[test]
fn return_line_extremes() {
    assert_eq!(parse_return("9223372036854775807\n"), Ok(i64::MAX));
    assert_eq!(parse_return("-9223372036854775808\n"), Ok(i64::MIN));
    assert_eq!(
        parse_return("9223372036854775808\n"),
        Err(WireError::OutOfRange)
    );
    assert_eq!(
        parse_return("-9223372036854775809\n"),
        Err(WireError::OutOfRange)
    );
}

#[test]
fn return_line_malformed() {
    assert_eq!(parse_return(""), Err(WireError::Malformed));
    assert_eq!(parse_return("\n"), Err(WireError::Malformed));
    assert_eq!(parse_return("-"), Err(WireError::Malformed));
    assert_eq!(parse_return("-\n"), Err(WireError::Malformed));
    assert_eq!(parse_return("--1\n"), Err(WireError::Malformed));
    assert_eq!(parse_return("+1\n"), Err(WireError::Malformed));
    assert_eq!(parse_return("12.5\n"), Err(WireError::Malformed));
}
