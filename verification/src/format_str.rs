//! Escape-aware text templates with positional substitution: a template is a
//! list of literal text segments and variable slots, and formatting fills
//! each slot with one argument, in order.

pub mod parser;

use vstd::prelude::*;
use vstd::string::StringExecFns;

verus! {

pub type Segments = Vec<Segment>;

pub type Args<'a> = Vec<&'a str>;

/// A template that could not be parsed, with its message.
#[derive(Debug, PartialEq)]
pub enum ParseError {
    InvalidFormat(String),
}

impl ParseError {
    /// The characters of the error's message.
    pub open spec fn view_msg(self) -> Seq<char> {
        match self {
            ParseError::InvalidFormat(m) => m@,
        }
    }
}

/// Formatting failed: the argument list was shorter or longer than the
/// number of variable slots.
#[derive(Debug, PartialEq, Eq, Structural)]
pub enum FormatError {
    NotEnoughArguments,
    TooManyArguments,
}

/// One piece of a template: literal text, or a slot for one argument.
#[derive(Debug, PartialEq)]
pub enum Segment {
    Text(String),
    Variable,
}

/// The content of a segment: its literal characters, or a slot.
pub enum SegContent {
    Text(Seq<char>),
    Variable,
}

/// The content of a segment.
pub open spec fn seg_view(seg: Segment) -> SegContent {
    match seg {
        Segment::Text(t) => SegContent::Text(t@),
        Segment::Variable => SegContent::Variable,
    }
}

/// The content of a segment list.
pub open spec fn segs_view(segs: Seq<Segment>) -> Seq<SegContent> {
    segs.map_values(|seg: Segment| seg_view(seg))
}

/// What formatting a template with an argument list yields: each text
/// segment passes through, each variable slot consumes the next argument;
/// too few arguments fail at the first unfilled slot, leftover arguments
/// fail at the end.
pub open spec fn format_spec(segs: Seq<SegContent>, args: Seq<Seq<char>>) -> Result<
    Seq<char>,
    FormatError,
>
    decreases segs.len(),
{
    if segs.len() == 0 {
        if args.len() == 0 {
            Ok(Seq::empty())
        } else {
            Err(FormatError::TooManyArguments)
        }
    } else {
        match segs[0] {
            SegContent::Text(t) => match format_spec(segs.drop_first(), args) {
                Ok(rest) => Ok(t + rest),
                Err(e) => Err(e),
            },
            SegContent::Variable => {
                if args.len() == 0 {
                    Err(FormatError::NotEnoughArguments)
                } else {
                    match format_spec(segs.drop_first(), args.drop_first()) {
                        Ok(rest) => Ok(args[0] + rest),
                        Err(e) => Err(e),
                    }
                }
            },
        }
    }
}

/// The characters of each argument.
pub open spec fn args_view(args: Seq<&str>) -> Seq<Seq<char>> {
    args.map_values(|a: &str| a@)
}

/// A parsed template.
#[derive(Debug, PartialEq)]
pub struct StringFormat {
    segments: Segments,
}

impl StringFormat {
    /// The contents of the template's segments.
    pub closed spec fn view_segs(&self) -> Seq<SegContent> {
        segs_view(self.segments@)
    }

    pub fn new(segments: Segments) -> (r: StringFormat)
        ensures
            r.view_segs() == segs_view(segments@),
    {
        StringFormat { segments }
    }

    /// Fill the template's slots with the arguments, in order.
    pub fn format(&self, args: &Args) -> (r: Result<String, FormatError>)
        ensures
            match r {
                Ok(s) => format_spec(self.view_segs(), args_view(args@)) == Ok::<_, FormatError>(
                    s@,
                ),
                Err(e) => format_spec(self.view_segs(), args_view(args@)) == Err::<Seq<char>, _>(
                    e,
                ),
            },
    {
        let ghost sv = self.view_segs();
        let ghost av = args_view(args@);
        let mut result = String::new();
        let n = self.segments.len();
        let m = args.len();
        let mut i: usize = 0;
        let mut j: usize = 0;
        proof {
            assert(sv.skip(0) =~= sv);
            assert(av.skip(0) =~= av);
        }
        while i < n
            invariant
                n == self.segments@.len(),
                m == args@.len(),
                sv == self.view_segs(),
                av == args_view(args@),
                i <= n,
                j <= m,
                format_spec(sv, av) == (match format_spec(sv.skip(i as int), av.skip(j as int)) {
                    Ok(rest) => Ok::<Seq<char>, FormatError>(result@ + rest),
                    Err(e) => Err::<Seq<char>, FormatError>(e),
                }),
            decreases n - i,
        {
            let ghost r0 = result@;
            proof {
                assert(sv.skip(i as int).len() > 0);
                assert(sv.skip(i as int)[0] == sv[i as int]);
                assert(sv[i as int] == seg_view(self.segments@[i as int]));
                assert(sv.skip(i as int).drop_first() =~= sv.skip(i + 1));
            }
            match &self.segments[i] {
                Segment::Text(t) => {
                    result.append(t.as_str());
                    proof {
                        match format_spec(sv.skip(i + 1), av.skip(j as int)) {
                            Ok(rest) => {
                                assert((r0 + t@) + rest =~= r0 + (t@ + rest));
                            },
                            Err(_) => {},
                        }
                    }
                },
                Segment::Variable => {
                    if j == m {
                        proof {
                            assert(av.skip(j as int).len() == 0);
                        }
                        return Err(FormatError::NotEnoughArguments);
                    }
                    let arg = args[j];
                    result.append(arg);
                    proof {
                        assert(av.skip(j as int)[0] == av[j as int]);
                        assert(av[j as int] == args@[j as int]@);
                        assert(av.skip(j as int).drop_first() =~= av.skip(j + 1));
                        match format_spec(sv.skip(i + 1), av.skip(j + 1)) {
                            Ok(rest) => {
                                assert((r0 + arg@) + rest =~= r0 + (arg@ + rest));
                            },
                            Err(_) => {},
                        }
                    }
                    j = j + 1;
                },
            }
            i = i + 1;
        }
        proof {
            assert(sv.skip(n as int).len() == 0);
        }
        if j < m {
            return Err(FormatError::TooManyArguments);
        }
        proof {
            assert(av.skip(j as int).len() == 0);
            assert(result@ + Seq::<char>::empty() =~= result@);
        }
        Ok(result)
    }
}

} // verus!
