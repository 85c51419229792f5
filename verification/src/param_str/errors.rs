//! The error taxonomy of the templating mini-language.

use vstd::prelude::*;
use vstd::string::StringExecFns;

verus! {

/// A value (template, list or range) that could not be parsed.
#[derive(Debug, PartialEq)]
pub enum ParseError {
    InvalidValue(String),
}

impl ParseError {
    /// The characters of the message carried by this error.
    pub open spec fn view_msg(self) -> Seq<char> {
        match self {
            ParseError::InvalidValue(m) => m@,
        }
    }

    /// The human-readable message for this error.
    pub fn message(&self) -> (r: String)
        ensures
            r@ == "InvalidValue: "@ + self.view_msg(),
    {
        let mut out = "InvalidValue: ".to_owned();
        match self {
            ParseError::InvalidValue(m) => {
                out.append(m.as_str());
            },
        }
        out
    }

    /// A copy of this error.
    pub fn duplicate(&self) -> (r: ParseError)
        ensures
            r.view_msg() == self.view_msg(),
    {
        match self {
            ParseError::InvalidValue(m) => ParseError::InvalidValue(m.clone()),
        }
    }
}

/// Formatting failed: the argument list was shorter or longer than the
/// number of placeholders.
#[derive(Debug, PartialEq, Eq, Structural)]
pub enum FormatError {
    NotEnoughArguments,
    TooManyArguments,
}

impl FormatError {
    /// The human-readable message for this error.
    pub fn message(&self) -> (r: String)
        ensures
            self is NotEnoughArguments ==> r@ == "Not enough arguments"@,
            self is TooManyArguments ==> r@ == "Too many arguments"@,
    {
        match self {
            FormatError::NotEnoughArguments => "Not enough arguments".to_owned(),
            FormatError::TooManyArguments => "Too many arguments".to_owned(),
        }
    }
}

/// An argument that parses neither as a numeric range nor as a list,
/// carrying both attempts' errors.
#[derive(Debug, PartialEq)]
pub struct ArgumentError {
    arg: String,
    range_error: ParseError,
    list_error: ParseError,
}

impl ArgumentError {
    /// The argument text and the messages of the two failed parses.
    pub closed spec fn view_parts(self) -> (Seq<char>, Seq<char>, Seq<char>) {
        (self.arg@, self.range_error.view_msg(), self.list_error.view_msg())
    }

    pub fn new(arg: String, range_error: ParseError, list_error: ParseError) -> (r: ArgumentError)
        ensures
            r.view_parts() == (arg@, range_error.view_msg(), list_error.view_msg()),
    {
        ArgumentError { arg, range_error, list_error }
    }

    /// The human-readable message for this error: the argument and what each
    /// of the two parses reported.
    pub fn message(&self) -> (r: String)
        ensures
            r@ == "arg: "@ + self.view_parts().0 + "\nif range: "@ + "InvalidValue: "@
                + self.view_parts().1 + "\nif list: "@ + "InvalidValue: "@ + self.view_parts().2,
    {
        let mut out = "arg: ".to_owned();
        out.append(self.arg.as_str());
        out.append("\nif range: ");
        let rm = self.range_error.message();
        out.append(rm.as_str());
        out.append("\nif list: ");
        let lm = self.list_error.message();
        out.append(lm.as_str());
        out
    }
}

/// A batch expansion that failed: the template did not parse, an argument
/// parsed neither as range nor as list, formatting failed, or no argument
/// was given at all.
#[derive(Debug, PartialEq)]
pub enum FormatStringError {
    Parse(ParseError),
    Format(FormatError),
    ArgumentParse(ArgumentError),
    MissingArgument,
}

impl FormatStringError {
    /// The human-readable message for this error: the wrapped error's
    /// message, or the missing-argument report.
    pub fn message(&self) -> (r: String)
        ensures
            match self {
                FormatStringError::Parse(e) => r@ == "InvalidValue: "@ + e.view_msg(),
                FormatStringError::Format(e) => (e is NotEnoughArguments ==> r@
                    == "Not enough arguments"@) && (e is TooManyArguments ==> r@
                    == "Too many arguments"@),
                FormatStringError::ArgumentParse(e) => r@ == "arg: "@ + e.view_parts().0
                    + "\nif range: "@ + "InvalidValue: "@ + e.view_parts().1 + "\nif list: "@
                    + "InvalidValue: "@ + e.view_parts().2,
                FormatStringError::MissingArgument => r@ == "Missing argument"@,
            },
    {
        match self {
            FormatStringError::Parse(e) => e.message(),
            FormatStringError::Format(e) => e.message(),
            FormatStringError::ArgumentParse(e) => e.message(),
            FormatStringError::MissingArgument => "Missing argument".to_owned(),
        }
    }

    /// The message of the wrapped error, if this error wraps one: what the
    /// error's source reports.
    pub fn source_message(&self) -> (r: Option<String>)
        ensures
            match self {
                FormatStringError::Parse(e) => r matches Some(m) && m@ == "InvalidValue: "@
                    + e.view_msg(),
                FormatStringError::Format(e) => r matches Some(m) && (e is NotEnoughArguments
                    ==> m@ == "Not enough arguments"@) && (e is TooManyArguments ==> m@
                    == "Too many arguments"@),
                FormatStringError::ArgumentParse(e) => r matches Some(m) && m@ == "arg: "@
                    + e.view_parts().0 + "\nif range: "@ + "InvalidValue: "@ + e.view_parts().1
                    + "\nif list: "@ + "InvalidValue: "@ + e.view_parts().2,
                FormatStringError::MissingArgument => r is None,
            },
    {
        match self {
            FormatStringError::Parse(e) => Some(e.message()),
            FormatStringError::Format(e) => Some(e.message()),
            FormatStringError::ArgumentParse(e) => Some(e.message()),
            FormatStringError::MissingArgument => None,
        }
    }
}

impl From<ParseError> for FormatStringError {
    fn from(error: ParseError) -> (r: FormatStringError) {
        FormatStringError::Parse(error)
    }
}

impl vstd::std_specs::convert::FromSpecImpl<ParseError> for FormatStringError {
    open spec fn obeys_from_spec() -> bool {
        true
    }

    open spec fn from_spec(error: ParseError) -> FormatStringError {
        FormatStringError::Parse(error)
    }
}

impl From<FormatError> for FormatStringError {
    fn from(error: FormatError) -> (r: FormatStringError) {
        FormatStringError::Format(error)
    }
}

impl vstd::std_specs::convert::FromSpecImpl<FormatError> for FormatStringError {
    open spec fn obeys_from_spec() -> bool {
        true
    }

    open spec fn from_spec(error: FormatError) -> FormatStringError {
        FormatStringError::Format(error)
    }
}

} // verus!
