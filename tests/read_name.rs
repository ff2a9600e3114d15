use noodles::read_name::{is_valid_name, is_valid_name_char, ParseError, ReadName, MAX_LENGTH};

#[test]
fn read_name_test_fmt() -> Result<(), ParseError> {
    let read_name: ReadName = "r0".parse()?;
    assert_eq!(read_name.to_string(), "r0");
    Ok(())
}

#[test]
fn read_name_test_from_str() {
    assert_eq!("r0".parse::<ReadName>().map(|n| n.as_bytes().to_vec()), Ok(b"r0".to_vec()));

    assert_eq!("".parse::<ReadName>(), Err(ParseError::Empty));
    assert_eq!("*".parse::<ReadName>(), Err(ParseError::Invalid));
    assert_eq!("r 0".parse::<ReadName>(), Err(ParseError::Invalid));
    assert_eq!("@r0".parse::<ReadName>(), Err(ParseError::Invalid));

    let s = "n".repeat(MAX_LENGTH + 1);
    assert_eq!(s.parse::<ReadName>(), Err(ParseError::Invalid));
}

#[test]
fn read_name_longest_and_edge_characters() {
    let s = "n".repeat(MAX_LENGTH);
    assert_eq!(s.parse::<ReadName>().map(|n| n.as_str().len()), Ok(MAX_LENGTH));
    assert!(is_valid_name(b"**"));
    assert!(!is_valid_name(b"*"));
    assert!(is_valid_name_char(b'!'));
    assert!(is_valid_name_char(b'~'));
    assert!(!is_valid_name_char(b'@'));
    assert!(!is_valid_name_char(0x7f));
    assert_eq!("r\u{e9}".parse::<ReadName>(), Err(ParseError::Invalid));
}
