use travelling_ant::{parse_cell, parse_u32, Cell, ParseCellError};

#[test]
fn parses_cell_with_parentheses() {
    assert_eq!(parse_cell(b"(3,4)"), Ok(Cell::new(3, 4)));
    assert_eq!(parse_cell(b"((1027,0))"), Ok(Cell::new(1027, 0)));
}

#[test]
fn parses_cell_without_parentheses() {
    assert_eq!(parse_cell(b"25,2010184"), Ok(Cell::new(25, 2010184)));
    assert_eq!(parse_cell(b"(+5,6"), Ok(Cell::new(5, 6)));
}

#[test]
fn cell_without_comma_is_malformed() {
    assert_eq!(parse_cell(b"(3;4)"), Err(ParseCellError::MissingComma));
    assert_eq!(parse_cell(b""), Err(ParseCellError::MissingComma));
    assert_eq!(parse_cell(b"()"), Err(ParseCellError::MissingComma));
}

#[test]
fn cell_with_bad_number_is_refused() {
    assert_eq!(parse_cell(b"(a,4)"), Err(ParseCellError::InvalidNumber));
    assert_eq!(parse_cell(b"(4294967296,0)"), Err(ParseCellError::InvalidNumber));
    assert_eq!(parse_cell(b"(,)"), Err(ParseCellError::InvalidNumber));
    assert_eq!(parse_cell(b"(1,2,3)"), Err(ParseCellError::InvalidNumber));
    assert_eq!(parse_cell(b"(1, 2)"), Err(ParseCellError::InvalidNumber));
    assert_eq!(parse_cell(b"(-1,2)"), Err(ParseCellError::InvalidNumber));
}

#[test]
fn cell_from_str_reads_text() {
    let cell: Cell = "(7,9)".parse().unwrap();
    assert_eq!(cell, Cell::new(7, 9));
    assert_eq!("7".parse::<Cell>(), Err(ParseCellError::MissingComma));
}

#[test]
fn parses_u32_values() {
    assert_eq!(parse_u32(b"123"), Some(123));
    assert_eq!(parse_u32(b"007"), Some(7));
    assert_eq!(parse_u32(b"+42"), Some(42));
    assert_eq!(parse_u32(b"4294967295"), Some(u32::MAX));
    assert_eq!(parse_u32(b"0"), Some(0));
}

#[test]
fn refuses_bad_u32_values() {
    assert_eq!(parse_u32(b""), None);
    assert_eq!(parse_u32(b"+"), None);
    assert_eq!(parse_u32(b"-1"), None);
    assert_eq!(parse_u32(b"4294967296"), None);
    assert_eq!(parse_u32(b"99999999999999999999"), None);
    assert_eq!(parse_u32(b"12a"), None);
}

#[test]
fn cell_from_str_follows_the_format() {
    assert_eq!("((7,8))".parse::<Cell>(), Ok(Cell::new(7, 8)));
    assert_eq!("7,8".parse::<Cell>(), Ok(Cell::new(7, 8)));
    assert_eq!("(1, 2)".parse::<Cell>(), Err(ParseCellError::InvalidNumber));
    assert_eq!("(4294967296,0)".parse::<Cell>(), Err(ParseCellError::InvalidNumber));
    assert_eq!("(-1,2)".parse::<Cell>(), Err(ParseCellError::InvalidNumber));
    assert_eq!("(1,2,3)".parse::<Cell>(), Err(ParseCellError::InvalidNumber));
}

#[test]
fn cell_from_str_reads_back_a_written_cell() {
    for c in [Cell::new(0, 0), Cell::new(25, 2010184), Cell::new(u32::MAX, 1)] {
        let text = format!("({},{})", c.x, c.y);
        assert_eq!(text.parse::<Cell>(), Ok(c));
    }
}
