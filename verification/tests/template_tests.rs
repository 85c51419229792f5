use subnet_garden::param_str::errors::{ArgumentError, FormatError, FormatStringError, ParseError};
use subnet_garden::param_str::format::{format_strings, StringFormat};
use subnet_garden::param_str::iter::ListCombinationIterator;
use subnet_garden::param_str::parsers::format::{parse, Align, Segment, VarFormat};
use subnet_garden::param_str::parsers::list::parse_list;
use subnet_garden::param_str::parsers::range::parse_range;

fn var_default() -> VarFormat {
    VarFormat::new(' ', 0, Align::Left)
}

#[test]
fn errors_parse_error_display() {
    let err = ParseError::InvalidValue("foo".to_string());
    assert_eq!(err.message(), "InvalidValue: foo");
}

#[test]
fn errors_parse_error_source() {
    let err = FormatStringError::Parse(ParseError::InvalidValue("foo".to_string()));
    assert_eq!(err.source_message().unwrap(), "InvalidValue: foo");
}

#[test]
fn not_enough_arguments_display() {
    let err = FormatError::NotEnoughArguments;
    assert_eq!(err.message(), "Not enough arguments");
}

#[test]
fn too_many_arguments_display() {
    let err = FormatError::TooManyArguments;
    assert_eq!(err.message(), "Too many arguments");
}

#[test]
fn errors_format_error_source() {
    let err = FormatStringError::Format(FormatError::NotEnoughArguments);
    assert_eq!(err.source_message().unwrap(), "Not enough arguments");
}

#[test]
fn errors_argument_error_display() {
    let err = ArgumentError::new(
        "foo".to_string(),
        ParseError::InvalidValue("bar".to_string()),
        ParseError::InvalidValue("baz".to_string()),
    );
    assert_eq!(
        err.message(),
        "arg: foo\nif range: InvalidValue: bar\nif list: InvalidValue: baz"
    );
}

#[test]
fn errors_argument_error_source() {
    let err = FormatStringError::ArgumentParse(ArgumentError::new(
        "foo".to_string(),
        ParseError::InvalidValue("bar".to_string()),
        ParseError::InvalidValue("baz".to_string()),
    ));
    assert_eq!(
        err.source_message().unwrap(),
        "arg: foo\nif range: InvalidValue: bar\nif list: InvalidValue: baz"
    );
}

#[test]
fn from_parse_error() {
    let err = ParseError::InvalidValue("foo".to_string());
    assert_eq!(
        FormatStringError::from(err),
        FormatStringError::Parse(ParseError::InvalidValue("foo".to_string()))
    );
}

#[test]
fn from_format_error() {
    let err = FormatError::NotEnoughArguments;
    assert_eq!(
        FormatStringError::from(err),
        FormatStringError::Format(FormatError::NotEnoughArguments)
    );
}

#[test]
fn format_error_display() {
    let err = FormatStringError::Format(FormatError::NotEnoughArguments);
    assert_eq!(err.message(), "Not enough arguments");
}

#[test]
fn missing_argument_display() {
    let err = FormatStringError::MissingArgument;
    assert_eq!(err.message(), "Missing argument");
}

#[test]
fn missing_argument_source() {
    let err = FormatStringError::MissingArgument;
    assert!(err.source_message().is_none());
}

#[test]
fn test_parse_error_display() {
    let err = ParseError::InvalidValue("foo".to_string());
    assert_eq!(err.message(), "InvalidValue: foo");
}

fn sample_format() -> StringFormat {
    StringFormat::new(vec![
        Segment::Text("aaa".to_string()),
        Segment::Variable(var_default()),
        Segment::Text("bbb".to_string()),
        Segment::Variable(var_default()),
        Segment::Text("ccc".to_string()),
    ])
}

#[test]
fn format_not_enough_arguments() {
    let format = sample_format();
    assert_eq!(format.format(&vec!["111"]), Err(FormatError::NotEnoughArguments));
}

#[test]
fn format_too_many_arguments() {
    let format = sample_format();
    assert_eq!(
        format.format(&vec!["111", "222", "333"]),
        Err(FormatError::TooManyArguments)
    );
}

#[test]
fn format_success() {
    let format = sample_format();
    assert_eq!(
        format.format(&vec!["111", "222"]),
        Ok("aaa111bbb222ccc".to_string())
    );
}

#[test]
fn string_padding() {
    let format = StringFormat::parse("aaa{:5}bbb").unwrap();
    assert_eq!(format.format(&vec!["111"]), Ok("aaa111  bbb".to_string()));
}

#[test]
fn format_numeric_padding() {
    let format = StringFormat::parse("aaa{:05}bbb").unwrap();
    assert_eq!(format.format(&vec!["111"]), Ok("aaa00111bbb".to_string()));
    assert_eq!(
        parse("x{:05}y"),
        Ok(vec![
            Segment::Text("x".to_string()),
            Segment::Variable(VarFormat::new('0', 5, Align::Right)),
            Segment::Text("y".to_string())
        ])
    );
}

#[test]
fn format_missing_escape_character() {
    assert_eq!(
        parse("aaa\\"),
        Err(ParseError::InvalidValue("Unexpected end of format".to_string()))
    );
}

#[test]
fn format_unexpected_variable_character() {
    assert_eq!(
        parse("aaa{>bbb"),
        Err(ParseError::InvalidValue("Expected }, found >".to_string()))
    );
}

#[test]
fn format_unterminated_variable_character() {
    assert_eq!(
        parse("aaa{"),
        Err(ParseError::InvalidValue("Unexpected end of format".to_string()))
    );
}

#[test]
fn unexepected_padding_character() {
    assert_eq!(
        parse("aaa{:x}"),
        Err(ParseError::InvalidValue("Expected 0-9, found x".to_string()))
    );
}

#[test]
fn unexepected_numeric_padding_character() {
    assert_eq!(
        parse("aaa{:05x}"),
        Err(ParseError::InvalidValue("Expected 0-9, found x".to_string()))
    );
}

#[test]
fn format_empty() {
    assert_eq!(parse(""), Ok(vec![]));
}

#[test]
fn format_text() {
    assert_eq!(parse("aaa"), Ok(vec![Segment::Text("aaa".to_string())]));
}

#[test]
fn variables() {
    assert_eq!(
        parse("aaa\\{}bbb{}ccc"),
        Ok(vec![
            Segment::Text("aaa{}bbb".to_string()),
            Segment::Variable(var_default()),
            Segment::Text("ccc".to_string())
        ])
    );
}

#[test]
fn format_text_with_escape() {
    assert_eq!(
        parse("aaa\\\\bbb\\{}ccc"),
        Ok(vec![Segment::Text("aaa\\bbb{}ccc".to_string())])
    );
}

#[test]
fn format_text_with_escape_at_end() {
    assert_eq!(parse("aaa\\\\"), Ok(vec![Segment::Text("aaa\\".to_string())]));
}

#[test]
fn non_numeric_padding() {
    assert_eq!(
        parse("x{:5}y"),
        Ok(vec![
            Segment::Text("x".to_string()),
            Segment::Variable(VarFormat::new(' ', 5, Align::Left)),
            Segment::Text("y".to_string())
        ])
    );
}

#[test]
fn list_empty_string() {
    assert_eq!(
        parse_list(""),
        Err(ParseError::InvalidValue("Empty string".to_string()))
    );
}

#[test]
fn one_item() {
    assert_eq!(parse_list("aaa"), Ok(vec!["aaa".to_string()]));
}

#[test]
fn multiple_items() {
    assert_eq!(
        parse_list("aaa,bbb,ccc"),
        Ok(vec!["aaa".to_string(), "bbb".to_string(), "ccc".to_string()])
    );
}

#[test]
fn trailing_comma() {
    assert_eq!(
        parse_list("aaa,bbb,"),
        Err(ParseError::InvalidValue("Unexpected end of list".to_string()))
    );
}

#[test]
fn range_empty_string() {
    assert_eq!(
        parse_range(""),
        Err(ParseError::InvalidValue("Unexpected end of range".to_string()))
    );
}

#[test]
fn unexpected_start_character() {
    assert_eq!(
        parse_range("0..9"),
        Err(ParseError::InvalidValue("Expected %, found 0".to_string()))
    );
}

#[test]
fn missing_start() {
    assert_eq!(
        parse_range("%-9"),
        Err(ParseError::InvalidValue("Expected digit, found -".to_string()))
    );
}

#[test]
fn unexpected_after_start() {
    assert_eq!(
        parse_range("%0,.9"),
        Err(ParseError::InvalidValue(
            "Expected digit or '.', found ,".to_string()
        ))
    );
}

#[test]
fn unexpected_after_dash() {
    assert_eq!(
        parse_range("%0-,9"),
        Err(ParseError::InvalidValue("Expected digit, found ,".to_string()))
    );
}

#[test]
fn missing_end() {
    assert_eq!(
        parse_range("%0-"),
        Err(ParseError::InvalidValue("Unexpected end of range".to_string()))
    );
}

#[test]
fn unexpected_after_end() {
    assert_eq!(
        parse_range("%0-9,"),
        Err(ParseError::InvalidValue("Expected digit, found ,".to_string()))
    );
}

#[test]
fn end_less_than_start() {
    assert_eq!(
        parse_range("%9-0"),
        Err(ParseError::InvalidValue(
            "End must be greater than or equal to start".to_string()
        ))
    );
}

#[test]
fn range_success() {
    assert_eq!(
        parse_range("%0-9"),
        Ok(vec![
            "0".to_string(),
            "1".to_string(),
            "2".to_string(),
            "3".to_string(),
            "4".to_string(),
            "5".to_string(),
            "6".to_string(),
            "7".to_string(),
            "8".to_string(),
            "9".to_string(),
        ])
    );
}

#[test]
fn parse_double_digits() {
    assert_eq!(
        parse_range("%10-19"),
        Ok(vec![
            "10".to_string(),
            "11".to_string(),
            "12".to_string(),
            "13".to_string(),
            "14".to_string(),
            "15".to_string(),
            "16".to_string(),
            "17".to_string(),
            "18".to_string(),
            "19".to_string(),
        ])
    );
}

#[test]
fn has_empty_list() {
    let list = vec![
        vec!["1".to_string(), "2".to_string()],
        Vec::<String>::new(),
        vec!["5".to_string(), "6".to_string()],
    ];
    assert!(ListCombinationIterator::new(list).is_none());
}

#[test]
fn has_no_lists() {
    let list = Vec::<Vec<String>>::new();
    assert!(ListCombinationIterator::new(list).is_none());
}

#[test]
fn test_list_combination_iterator() {
    let list = vec![
        vec!["1".to_string(), "2".to_string()],
        vec!["3".to_string(), "4".to_string()],
        vec!["5".to_string(), "6".to_string()],
    ];
    let mut iter = ListCombinationIterator::new(list).unwrap();
    assert_eq!(iter.next(), Some(vec!["1".to_string(), "3".to_string(), "5".to_string()]));
    assert_eq!(iter.next(), Some(vec!["1".to_string(), "3".to_string(), "6".to_string()]));
    assert_eq!(iter.next(), Some(vec!["1".to_string(), "4".to_string(), "5".to_string()]));
    assert_eq!(iter.next(), Some(vec!["1".to_string(), "4".to_string(), "6".to_string()]));
    assert_eq!(iter.next(), Some(vec!["2".to_string(), "3".to_string(), "5".to_string()]));
    assert_eq!(iter.next(), Some(vec!["2".to_string(), "3".to_string(), "6".to_string()]));
    assert_eq!(iter.next(), Some(vec!["2".to_string(), "4".to_string(), "5".to_string()]));
    assert_eq!(iter.next(), Some(vec!["2".to_string(), "4".to_string(), "6".to_string()]));
    assert_eq!(iter.next(), None);
}

#[test]
fn format_strings_expansion() {
    let got = format_strings("name-{}-{}", &vec!["%0-1", "a,b"]).unwrap();
    assert_eq!(
        got,
        vec![
            "name-0-a".to_string(),
            "name-0-b".to_string(),
            "name-1-a".to_string(),
            "name-1-b".to_string(),
        ]
    );
}

#[test]
fn format_strings_bad_argument() {
    let got = format_strings("name-{}", &vec!["%0..,"]);
    match got {
        Err(FormatStringError::ArgumentParse(e)) => {
            assert_eq!(
                e.message(),
                "arg: %0..,\nif range: InvalidValue: Expected digit or '.', found .\nif list: InvalidValue: Unexpected end of list"
            );
        },
        _ => panic!("expected an argument parse failure"),
    }
}

#[test]
fn format_strings_no_arguments() {
    let got = format_strings("name-{}", &vec![]);
    assert_eq!(got, Err(FormatStringError::MissingArgument));
}
