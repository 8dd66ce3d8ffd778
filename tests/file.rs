use npuzzle::file::{parse_file, parse_int, FileParsingError};

#[test]
fn parse_board_with_comments_and_blank_lines() {
    let text = "# a puzzle\n3 # side\n\n1 2 3\n4 5 6 # middle\n  7\t8 0\n".to_string();
    assert_eq!(
        parse_file(text),
        Ok((3, vec![vec![1, 2, 3], vec![4, 5, 6], vec![7, 8, 0]]))
    );
}

#[test]
fn parse_board_with_crlf_lines() {
    let text = "2\r\n1 0\r\n3 2\r\n".to_string();
    assert_eq!(parse_file(text), Ok((2, vec![vec![1, 0], vec![3, 2]])));
}

#[test]
fn parse_empty_file() {
    assert_eq!(parse_file("".to_string()), Err(FileParsingError::EmptyMap));
    assert_eq!(parse_file("# nothing\n\n   \n".to_string()), Err(FileParsingError::EmptyMap));
}

#[test]
fn parse_bad_sizes() {
    assert_eq!(parse_file("2 2\n1 0\n2 3\n".to_string()), Err(FileParsingError::BadSize));
    assert_eq!(parse_file("0\n".to_string()), Err(FileParsingError::BadSize));
    assert_eq!(parse_file("-1\n".to_string()), Err(FileParsingError::BadSize));
    assert_eq!(parse_file("3\n1 0\n2 3\n".to_string()), Err(FileParsingError::BadSize));
    assert_eq!(parse_file("2\n1 0 4\n2 3\n".to_string()), Err(FileParsingError::BadSize));
}

#[test]
fn parse_missing_empty_cell() {
    assert_eq!(parse_file("2\n1 2\n3 4\n".to_string()), Err(FileParsingError::NoEmptySpace));
}

#[test]
fn parse_invalid_number() {
    assert_eq!(parse_file("2\n1 x\n3 0\n".to_string()), Err(FileParsingError::InvalidNumber));
    assert_eq!(parse_file("two\n".to_string()), Err(FileParsingError::InvalidNumber));
    assert_eq!(
        parse_file("1\n99999999999999999999\n".to_string()),
        Err(FileParsingError::InvalidNumber)
    );
}

#[test]
fn parse_integers() {
    let w = |s: &str| s.chars().collect::<Vec<char>>();
    assert_eq!(parse_int(&w("0")), Some(0));
    assert_eq!(parse_int(&w("+17")), Some(17));
    assert_eq!(parse_int(&w("-42")), Some(-42));
    assert_eq!(parse_int(&w("9223372036854775807")), Some(i64::MAX));
    assert_eq!(parse_int(&w("-9223372036854775808")), Some(i64::MIN));
    assert_eq!(parse_int(&w("9223372036854775808")), None);
    assert_eq!(parse_int(&w("-")), None);
    assert_eq!(parse_int(&w("")), None);
    assert_eq!(parse_int(&w("1-")), None);
    assert_eq!(parse_int(&w("12a")), None);
}

#[test]
fn error_messages() {
    assert_eq!(FileParsingError::EmptyMap.message(), "It seems that the input file is empty");
    assert_eq!(FileParsingError::BadSize.message(), "Map size is incorrect.");
    assert_eq!(FileParsingError::NoEmptySpace.message(), "The empty space (0) is missing");
}
