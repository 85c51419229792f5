use subnet_garden::format_str::parser::parse;
use subnet_garden::format_str::{FormatError, ParseError, Segment, StringFormat};

fn sample_format() -> StringFormat {
    StringFormat::new(vec![
        Segment::Text("aaa".to_string()),
        Segment::Variable,
        Segment::Text("bbb".to_string()),
        Segment::Variable,
        Segment::Text("ccc".to_string()),
    ])
}

#[test]
fn format_str_not_enough_arguments() {
    let format = sample_format();
    assert_eq!(format.format(&vec!["111"]), Err(FormatError::NotEnoughArguments));
}

#[test]
fn format_str_too_many_arguments() {
    let format = sample_format();
    assert_eq!(
        format.format(&vec!["111", "222", "333"]),
        Err(FormatError::TooManyArguments)
    );
}

#[test]
fn format_str_success() {
    let format = sample_format();
    assert_eq!(
        format.format(&vec!["111", "222"]),
        Ok("aaa111bbb222ccc".to_string())
    );
}

#[test]
fn parser_missing_escape_character() {
    assert_eq!(
        parse("aaa\\"),
        Err(ParseError::InvalidFormat("Unexpected end of format".to_string()))
    );
}

#[test]
fn parser_unexpected_variable_character() {
    assert_eq!(
        parse("aaa{>bbb"),
        Err(ParseError::InvalidFormat("Expected }, found >".to_string()))
    );
}

#[test]
fn parser_unterminated_variable_character() {
    assert_eq!(
        parse("aaa{"),
        Err(ParseError::InvalidFormat("Unexpected end of format".to_string()))
    );
}

#[test]
fn parser_empty() {
    assert_eq!(parse(""), Ok(StringFormat::new(vec![])));
}

#[test]
fn parser_text() {
    assert_eq!(
        parse("aaa"),
        Ok(StringFormat::new(vec![Segment::Text("aaa".to_string())]))
    );
}

#[test]
fn parser_text_with_escape() {
    assert_eq!(
        parse("aaa\\\\bbb\\{}ccc"),
        Ok(StringFormat::new(vec![Segment::Text("aaa\\bbb{}ccc".to_string())]))
    );
}

#[test]
fn parser_text_with_escape_at_end() {
    assert_eq!(
        parse("aaa\\\\"),
        Ok(StringFormat::new(vec![Segment::Text("aaa\\".to_string())]))
    );
}
