//! Batch expansion: a template with positional placeholders and one
//! argument per position, each a literal list or a numeric range, expanded
//! as a cross product into concrete strings.

use vstd::prelude::*;
use vstd::string::StringExecFns;

use crate::param_str::errors::{ArgumentError, FormatError, FormatStringError, ParseError};
use crate::param_str::iter::{drawn_from, lists_view, ListCombinationIterator};
use crate::param_str::parsers::format::{segs_view, SegContent, Segments, VarFormat};
use crate::param_str::parsers::{format as template, list, range};

verus! {

pub type Args<'a> = Vec<&'a str>;

/// The padded text of one argument, from its characters alone: the argument
/// is measured in the bytes of its encoding.
pub open spec fn var_view(vf: VarFormat, arg: Seq<char>) -> Seq<char> {
    let short = vstd::utf8::encode_utf8(arg).len() as usize;
    let pads: int = if short < vf.padding {
        vf.padding - short
    } else {
        0
    };
    match vf.align {
        crate::param_str::parsers::format::Align::Right => Seq::new(pads as nat, |k: int| vf.pad_char)
            + arg,
        crate::param_str::parsers::format::Align::Left => arg + Seq::new(
            pads as nat,
            |k: int| vf.pad_char,
        ),
    }
}

/// What formatting a template with an argument list yields: each text
/// segment passes through, each placeholder consumes and pads the next
/// argument; too few arguments fail at the first unfilled placeholder,
/// leftover arguments fail at the end.
pub open spec fn format_view(segs: Seq<SegContent>, args: Seq<Seq<char>>) -> Result<
    Seq<char>,
    FormatError,
>
    decreases segs.len(),
{
    if segs.len() == 0 {
        if args.len() == 0 {
            Ok(Seq::empty())
        } else {
            Err(FormatError::TooManyArguments)
        }
    } else {
        match segs[0] {
            SegContent::Text(t) => match format_view(segs.drop_first(), args) {
                Ok(rest) => Ok(t + rest),
                Err(e) => Err(e),
            },
            SegContent::Variable(vf) => {
                if args.len() == 0 {
                    Err(FormatError::NotEnoughArguments)
                } else {
                    match format_view(segs.drop_first(), args.drop_first()) {
                        Ok(rest) => Ok(var_view(vf, args[0]) + rest),
                        Err(e) => Err(e),
                    }
                }
            },
        }
    }
}

/// The characters of each argument.
pub open spec fn args_view(args: Seq<&str>) -> Seq<Seq<char>> {
    args.map_values(|a: &str| a@)
}

/// The candidate strings one argument denotes: the covered numbers' decimal
/// texts where it is a well-ordered range, the items where it is a list,
/// nothing where it is neither.
pub open spec fn arg_options(a: Seq<char>) -> Option<Seq<Seq<char>>> {
    match range::range_spec(a) {
        Ok(b) => if b.0 <= b.1 {
            Some(Seq::new((b.1 - b.0 + 1) as nat, |k: int| range::dec_chars(b.0 + k)))
        } else {
            list_fallback(a)
        },
        Err(_) => list_fallback(a),
    }
}

/// The candidate strings an argument denotes when read as a list.
pub open spec fn list_fallback(a: Seq<char>) -> Option<Seq<Seq<char>>> {
    match list::list_spec(a, Seq::empty(), Seq::empty()) {
        Ok(items) => Some(items),
        Err(_) => None,
    }
}

/// The candidate strings of every argument; meaningful where each argument
/// denotes some.
pub open spec fn options_of(args: Seq<&str>) -> Seq<Seq<Seq<char>>> {
    args.map_values(|a: &str| arg_options(a@)->Some_0)
}

/// Whether `out` is the template `segs` filled with some combination drawn
/// from the per-position candidates `opts`.
pub open spec fn one_output(
    opts: Seq<Seq<Seq<char>>>,
    segs: Seq<SegContent>,
    out: Seq<char>,
) -> bool {
    exists|combo: Seq<Seq<char>>|
        drawn_from(opts, combo) && format_view(segs, combo) == Ok::<_, FormatError>(out)
}

/// Whether filling the template `segs` with some combination drawn from
/// `opts` fails with `e`.
pub open spec fn fails_with(
    opts: Seq<Seq<Seq<char>>>,
    segs: Seq<SegContent>,
    e: FormatError,
) -> bool {
    exists|combo: Seq<Seq<char>>|
        drawn_from(opts, combo) && format_view(segs, combo) == Err::<Seq<char>, _>(e)
}

/// Whether `e` reports that the argument text `a` parses neither as a range
/// nor as a list, carrying both parses' messages.
pub open spec fn arg_parse_failure(a: Seq<char>, e: ArgumentError) -> bool {
    &&& arg_options(a) is None
    &&& e.view_parts().0 == a
    &&& match range::range_spec(a) {
        Err(m) => e.view_parts().1 == m,
        Ok(b) => b.1 < b.0 && e.view_parts().1 == range::order_msg(),
    }
    &&& match list::list_spec(a, Seq::empty(), Seq::empty()) {
        Err(m) => e.view_parts().2 == m,
        Ok(_) => false,
    }
}

/// A parsed template with padded placeholders.
#[derive(Debug, PartialEq)]
pub struct StringFormat {
    segments: Segments,
}

impl StringFormat {
    /// The contents of the template's segments.
    pub closed spec fn view_segs(&self) -> Seq<SegContent> {
        segs_view(self.segments@)
    }

    pub fn new(segments: Segments) -> (r: StringFormat)
        ensures
            r.view_segs() == segs_view(segments@),
    {
        StringFormat { segments }
    }

    /// Parse a template.
    pub fn parse(text: &str) -> (r: Result<StringFormat, ParseError>)
        ensures
            match r {
                Ok(sf) => template::parse_spec(text@, Seq::empty(), Seq::empty()) == Ok::<
                    _,
                    Seq<char>,
                >(sf.view_segs()),
                Err(e) => template::parse_spec(text@, Seq::empty(), Seq::empty()) == Err::<
                    Seq<SegContent>,
                    _,
                >(e.view_msg()),
            },
    {
        match template::parse(text) {
            Ok(segments) => Ok(StringFormat { segments }),
            Err(e) => Err(e),
        }
    }

    /// Fill the template's placeholders with the arguments, in order, each
    /// padded to its placeholder's width.
    pub fn format(&self, args: &Args) -> (r: Result<String, FormatError>)
        ensures
            match r {
                Ok(s) => format_view(self.view_segs(), args_view(args@)) == Ok::<_, FormatError>(
                    s@,
                ),
                Err(e) => format_view(self.view_segs(), args_view(args@)) == Err::<Seq<char>, _>(
                    e,
                ),
            },
    {
        let ghost sv = self.view_segs();
        let ghost av = args_view(args@);
        let mut result = String::new();
        let n = self.segments.len();
        let m = args.len();
        let mut i: usize = 0;
        let mut j: usize = 0;
        proof {
            assert(sv.skip(0) =~= sv);
            assert(av.skip(0) =~= av);
        }
        while i < n
            invariant
                n == self.segments@.len(),
                m == args@.len(),
                sv == self.view_segs(),
                av == args_view(args@),
                i <= n,
                j <= m,
                format_view(sv, av) == (match format_view(sv.skip(i as int), av.skip(j as int)) {
                    Ok(rest) => Ok::<Seq<char>, FormatError>(result@ + rest),
                    Err(e) => Err::<Seq<char>, FormatError>(e),
                }),
            decreases n - i,
        {
            let ghost r0 = result@;
            proof {
                assert(sv.skip(i as int).len() > 0);
                assert(sv.skip(i as int)[0] == sv[i as int]);
                assert(sv[i as int] == template::seg_view(self.segments@[i as int]));
                assert(sv.skip(i as int).drop_first() =~= sv.skip(i + 1));
            }
            match &self.segments[i] {
                template::Segment::Text(t) => {
                    result.append(t.as_str());
                    proof {
                        match format_view(sv.skip(i + 1), av.skip(j as int)) {
                            Ok(rest) => {
                                assert((r0 + t@) + rest =~= r0 + (t@ + rest));
                            },
                            Err(_) => {},
                        }
                    }
                },
                template::Segment::Variable(vf) => {
                    if j == m {
                        proof {
                            assert(av.skip(j as int).len() == 0);
                        }
                        return Err(FormatError::NotEnoughArguments);
                    }
                    let arg = args[j];
                    let field = vf.format(arg);
                    result.append(field.as_str());
                    proof {
                        assert(av.skip(j as int)[0] == av[j as int]);
                        assert(av[j as int] == args@[j as int]@);
                        assert(av.skip(j as int).drop_first() =~= av.skip(j + 1));
                        assert(field@ == var_view(*vf, arg@));
                        match format_view(sv.skip(i + 1), av.skip(j + 1)) {
                            Ok(rest) => {
                                assert((r0 + field@) + rest =~= r0 + (field@ + rest));
                            },
                            Err(_) => {},
                        }
                    }
                    j = j + 1;
                },
            }
            i = i + 1;
        }
        proof {
            assert(sv.skip(n as int).len() == 0);
        }
        if j < m {
            return Err(FormatError::TooManyArguments);
        }
        proof {
            assert(av.skip(j as int).len() == 0);
            assert(result@ + Seq::<char>::empty() =~= result@);
        }
        Ok(result)
    }
}

/// Expand a template against per-position arguments: parse the template,
/// read each argument as a numeric range or, failing that, as a list, and
/// format one string for every combination of candidates, the last position
/// cycling fastest. Every produced string is the template filled with one
/// such combination.
pub fn format_strings(format: &str, args: &Args) -> (r: Result<Vec<String>, FormatStringError>)
    ensures
        match r {
            Ok(v) => {
                &&& template::parse_spec(format@, Seq::empty(), Seq::empty()) is Ok
                &&& args@.len() > 0
                &&& forall|t: int| 0 <= t < args@.len() ==> arg_options((#[trigger] args@[t])@)
                    is Some
                &&& v@.len() > 0
                &&& forall|i: int|
                    0 <= i < v@.len() ==> one_output(
                        options_of(args@),
                        template::parse_spec(format@, Seq::empty(), Seq::empty())->Ok_0,
                        (#[trigger] v@[i])@,
                    )
            },
            Err(FormatStringError::Parse(e)) => template::parse_spec(
                format@,
                Seq::empty(),
                Seq::empty(),
            ) == Err::<Seq<SegContent>, _>(e.view_msg()),
            Err(FormatStringError::ArgumentParse(e)) => {
                &&& template::parse_spec(format@, Seq::empty(), Seq::empty()) is Ok
                &&& exists|i: int|
                    0 <= i < args@.len() && arg_parse_failure((#[trigger] args@[i])@, e)
            },
            Err(FormatStringError::MissingArgument) => {
                &&& template::parse_spec(format@, Seq::empty(), Seq::empty()) is Ok
                &&& forall|t: int| 0 <= t < args@.len() ==> arg_options((#[trigger] args@[t])@)
                    is Some
                &&& args@.len() == 0
            },
            Err(FormatStringError::Format(e)) => {
                &&& template::parse_spec(format@, Seq::empty(), Seq::empty()) is Ok
                &&& fails_with(
                    options_of(args@),
                    template::parse_spec(format@, Seq::empty(), Seq::empty())->Ok_0,
                    e,
                )
            },
        },
{
    let sf = match StringFormat::parse(format) {
        Ok(sf) => sf,
        Err(e) => {
            return Err(FormatStringError::Parse(e));
        },
    };
    proof {
        assert(template::parse_spec(format@, Seq::empty(), Seq::empty()) == Ok::<_, Seq<char>>(
            sf.view_segs(),
        ));
    }
    let na = args.len();
    let mut parsed: Vec<Vec<String>> = Vec::new();
    let mut i: usize = 0;
    while i < na
        invariant
            template::parse_spec(format@, Seq::empty(), Seq::empty()) == Ok::<_, Seq<char>>(
                sf.view_segs(),
            ),
            na == args@.len(),
            i <= na,
            parsed@.len() == i,
            forall|t: int|
                0 <= t < i ==> (arg_options((#[trigger] args@[t])@) matches Some(opts) && opts
                    == lists_view(parsed@)[t]),
        decreases na - i,
    {
        let arg = args[i];
        let ghost before = lists_view(parsed@);
        match range::parse_range(arg) {
            Ok(items) => {
                parsed.push(items);
                proof {
                    assert(lists_view(parsed@) =~= before.push(parsed@[i as int].deep_view()));
                    let opts = arg_options(args@[i as int]@);
                    assert(opts is Some);
                    assert(opts->Some_0 =~= lists_view(parsed@)[i as int]);
                }
            },
            Err(range_error) => {
                match list::parse_list(arg) {
                    Ok(items) => {
                        parsed.push(items);
                        proof {
                            assert(lists_view(parsed@) =~= before.push(
                                parsed@[i as int].deep_view(),
                            ));
                            let opts = arg_options(args@[i as int]@);
                            assert(opts is Some);
                            assert(opts->Some_0 =~= lists_view(parsed@)[i as int]);
                        }
                    },
                    Err(list_error) => {
                        let err = ArgumentError::new(arg.to_owned(), range_error, list_error);
                        proof {
                            assert(args@[i as int]@ == arg@);
                            assert(list_fallback(arg@) is None);
                            assert(arg_options(args@[i as int]@) is None);
                            assert(arg_parse_failure(args@[i as int]@, err));
                        }
                        return Err(FormatStringError::ArgumentParse(err));
                    },
                }
            },
        }
        i = i + 1;
    }
    proof {
        assert(lists_view(parsed@) =~= options_of(args@));
        assert forall|t: int| 0 <= t < parsed@.len() implies (#[trigger] parsed@[t])@.len() > 0 by {
            let a = args@[t]@;
            match range::range_spec(a) {
                Ok(b) => {
                    if !(b.0 <= b.1) {
                        list::lemma_list_nonempty(a, Seq::empty(), Seq::empty());
                    }
                },
                Err(_) => {
                    list::lemma_list_nonempty(a, Seq::empty(), Seq::empty());
                },
            }
            assert(parsed@[t].deep_view().len() == parsed@[t]@.len());
        }
    }
    let ghost opts = options_of(args@);
    let ghost parsedv = parsed@;
    let mut iterator = match ListCombinationIterator::new(parsed) {
        Some(it) => it,
        None => {
            proof {
                assert(parsedv.len() == args@.len());
                if parsedv.len() > 0 {
                    assert(false);
                }
            }
            return Err(FormatStringError::MissingArgument);
        },
    };
    proof {
        assert(lists_view(parsedv) == opts);
        assert(args@.len() == parsedv.len());
    }
    let mut result: Vec<String> = Vec::new();
    loop
        invariant
            template::parse_spec(format@, Seq::empty(), Seq::empty()) == Ok::<_, Seq<char>>(
                sf.view_segs(),
            ),
            opts == options_of(args@),
            forall|i2: int|
                0 <= i2 < iterator.remaining().len() ==> drawn_from(
                    opts,
                    #[trigger] iterator.remaining()[i2],
                ),
            forall|i2: int|
                0 <= i2 < result@.len() ==> one_output(
                    opts,
                    sf.view_segs(),
                    (#[trigger] result@[i2])@,
                ),
            result@.len() + iterator.remaining().len() > 0,
        ensures
            forall|i2: int|
                0 <= i2 < result@.len() ==> one_output(
                    opts,
                    sf.view_segs(),
                    (#[trigger] result@[i2])@,
                ),
            result@.len() > 0,
        decreases iterator.remaining().len(),
    {
        let ghost rem0 = iterator.remaining();
        let params = match iterator.next() {
            Some(params) => params,
            None => {
                break ;
            },
        };
        let ghost combo = params.deep_view();
        let m = params.len();
        let mut next_args: Vec<&str> = Vec::new();
        let mut t: usize = 0;
        while t < m
            invariant
                m == params@.len(),
                t <= m,
                next_args@.len() == t,
                forall|u: int| 0 <= u < t ==> (#[trigger] next_args@[u])@ == params@[u]@,
            decreases m - t,
        {
            next_args.push(params[t].as_str());
            t = t + 1;
        }
        proof {
            assert(args_view(next_args@) =~= combo);
            assert(drawn_from(opts, combo));
        }
        let ghost res0 = result@;
        match sf.format(&next_args) {
            Ok(s) => {
                let ghost sv = s@;
                result.push(s);
                proof {
                    assert(drawn_from(opts, combo));
                    assert(format_view(sf.view_segs(), combo) == Ok::<_, FormatError>(sv));
                    assert(one_output(opts, sf.view_segs(), sv));
                    assert forall|i2: int| 0 <= i2 < result@.len() implies one_output(
                        opts,
                        sf.view_segs(),
                        (#[trigger] result@[i2])@,
                    ) by {
                        if i2 < res0.len() {
                            assert(result@[i2] == res0[i2]);
                        } else {
                            assert(result@[i2]@ == sv);
                        }
                    }
                }
            },
            Err(e) => {
                proof {
                    assert(drawn_from(opts, combo));
                    assert(format_view(sf.view_segs(), combo) == Err::<Seq<char>, _>(e));
                    assert(fails_with(opts, sf.view_segs(), e));
                    assert(sf.view_segs() == template::parse_spec(
                        format@,
                        Seq::empty(),
                        Seq::empty(),
                    )->Ok_0);
                }
                return Err(FormatStringError::Format(e));
            },
        }
    }
    proof {
        assert(args@.len() == parsedv.len());
        assert(sf.view_segs() == template::parse_spec(format@, Seq::empty(), Seq::empty())->Ok_0);
    }
    Ok(result)
}

} // verus!
