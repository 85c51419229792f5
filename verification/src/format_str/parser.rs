//! The template grammar: plain characters accumulate into text segments, a
//! backslash escapes the next character, and a `{` must immediately be
//! closed by `}` to form one variable slot.

use vstd::prelude::*;

use crate::format_str::{segs_view, ParseError, SegContent, Segment, StringFormat};
use crate::text::str_chars;

verus! {

/// The message reported when a template ends inside an escape or a slot.
pub open spec fn end_msg() -> Seq<char> {
    "Unexpected end of format"@
}

/// The message reported when a slot holds anything but `}`.
pub open spec fn expected_msg(c: char) -> Seq<char> {
    "Expected }, found "@.push(c)
}

/// Close the pending text segment, if any characters accumulated.
pub open spec fn finish(cur: Seq<char>, acc: Seq<SegContent>) -> Seq<SegContent> {
    if cur.len() > 0 {
        acc.push(SegContent::Text(cur))
    } else {
        acc
    }
}

/// What parsing the rest of a template yields, given the pending text and
/// the segments read so far.
pub open spec fn parse_spec(s: Seq<char>, cur: Seq<char>, acc: Seq<SegContent>) -> Result<
    Seq<SegContent>,
    Seq<char>,
>
    decreases s.len(),
{
    if s.len() == 0 {
        Ok(finish(cur, acc))
    } else if s[0] == '\\' {
        if s.len() == 1 {
            Err(end_msg())
        } else {
            parse_spec(s.skip(2), cur.push(s[1]), acc)
        }
    } else if s[0] == '{' {
        if s.len() == 1 {
            Err(end_msg())
        } else if s[1] == '}' {
            parse_spec(s.skip(2), Seq::empty(), finish(cur, acc).push(SegContent::Variable))
        } else {
            Err(expected_msg(s[1]))
        }
    } else {
        parse_spec(s.skip(1), cur.push(s[0]), acc)
    }
}

/// Where the parser stands between characters.
#[derive(Clone, Copy)]
enum Mode {
    /// Reading literal text.
    Text,
    /// A backslash was read; the next character is literal.
    Escape,
    /// A `{` was read; only `}` may follow.
    Variable,
}

/// What parsing yields from a given mode, with `rest` still to read.
spec fn resume(mode: Mode, rest: Seq<char>, cur: Seq<char>, acc: Seq<SegContent>) -> Result<
    Seq<SegContent>,
    Seq<char>,
> {
    match mode {
        Mode::Text => parse_spec(rest, cur, acc),
        Mode::Escape => {
            if rest.len() == 0 {
                Err(end_msg())
            } else {
                parse_spec(rest.drop_first(), cur.push(rest[0]), acc)
            }
        },
        Mode::Variable => {
            if rest.len() == 0 {
                Err(end_msg())
            } else if rest[0] == '}' {
                parse_spec(
                    rest.drop_first(),
                    Seq::empty(),
                    finish(cur, acc).push(SegContent::Variable),
                )
            } else {
                Err(expected_msg(rest[0]))
            }
        },
    }
}

/// Parse a template into its segments.
pub fn parse(format: &str) -> (r: Result<StringFormat, ParseError>)
    ensures
        match r {
            Ok(sf) => parse_spec(format@, Seq::empty(), Seq::empty()) == Ok::<_, Seq<char>>(
                sf.view_segs(),
            ),
            Err(e) => parse_spec(format@, Seq::empty(), Seq::empty()) == Err::<Seq<SegContent>, _>(
                e.view_msg(),
            ),
        },
{
    let cs = str_chars(format);
    let mut mode = Mode::Text;
    let mut cur = String::new();
    let mut segs: Vec<Segment> = Vec::new();
    let n = cs.len();
    let mut i: usize = 0;
    proof {
        assert(cs@.skip(0) =~= format@);
        assert(segs_view(segs@) =~= Seq::<SegContent>::empty());
    }
    while i < n
        invariant
            n == cs@.len(),
            cs@ == format@,
            i <= n,
            parse_spec(format@, Seq::empty(), Seq::empty()) == resume(
                mode,
                cs@.skip(i as int),
                cur@,
                segs_view(segs@),
            ),
        decreases n - i,
    {
        let c = cs[i];
        let ghost rest = cs@.skip(i as int);
        let ghost cur0 = cur@;
        let ghost acc0 = segs_view(segs@);
        proof {
            assert(rest.len() > 0);
            assert(rest[0] == c);
            assert(rest.drop_first() =~= cs@.skip(i + 1));
            assert(rest.skip(1) =~= rest.drop_first());
            if rest.len() > 1 {
                assert(rest.skip(2) =~= rest.drop_first().drop_first());
                assert(rest[1] == rest.drop_first()[0]);
            }
        }
        match mode {
            Mode::Text => {
                if c == '\\' {
                    mode = Mode::Escape;
                    proof {
                        assert(resume(Mode::Text, rest, cur0, acc0) == resume(
                            Mode::Escape,
                            rest.drop_first(),
                            cur0,
                            acc0,
                        ));
                    }
                } else if c == '{' {
                    if !cur.as_str().is_empty() {
                        let done = cur;
                        cur = String::new();
                        segs.push(Segment::Text(done));
                        proof {
                            assert(segs_view(segs@) =~= acc0.push(SegContent::Text(cur0)));
                        }
                    }
                    mode = Mode::Variable;
                    proof {
                        assert(segs_view(segs@) == finish(cur0, acc0));
                        assert(cur@ =~= Seq::<char>::empty());
                        assert(finish(Seq::empty(), finish(cur0, acc0)) == finish(cur0, acc0));
                        assert(resume(Mode::Text, rest, cur0, acc0) == resume(
                            Mode::Variable,
                            rest.drop_first(),
                            cur@,
                            finish(cur0, acc0),
                        ));
                    }
                } else {
                    cur.push(c);
                    proof {
                        assert(resume(Mode::Text, rest, cur0, acc0) == resume(
                            Mode::Text,
                            rest.drop_first(),
                            cur0.push(c),
                            acc0,
                        ));
                    }
                }
            },
            Mode::Escape => {
                cur.push(c);
                mode = Mode::Text;
                proof {
                    assert(resume(Mode::Escape, rest, cur0, acc0) == resume(
                        Mode::Text,
                        rest.drop_first(),
                        cur0.push(c),
                        acc0,
                    ));
                }
            },
            Mode::Variable => {
                if c == '}' {
                    if !cur.as_str().is_empty() {
                        let done = cur;
                        cur = String::new();
                        segs.push(Segment::Text(done));
                        proof {
                            assert(segs_view(segs@) =~= acc0.push(SegContent::Text(cur0)));
                        }
                    }
                    segs.push(Segment::Variable);
                    mode = Mode::Text;
                    proof {
                        assert(segs_view(segs@) =~= finish(cur0, acc0).push(SegContent::Variable));
                        assert(cur@ =~= Seq::<char>::empty());
                        assert(resume(Mode::Variable, rest, cur0, acc0) == resume(
                            Mode::Text,
                            rest.drop_first(),
                            cur@,
                            finish(cur0, acc0).push(SegContent::Variable),
                        ));
                    }
                } else {
                    let mut msg = "Expected }, found ".to_owned();
                    msg.push(c);
                    return Err(ParseError::InvalidFormat(msg));
                }
            },
        }
        i = i + 1;
    }
    proof {
        assert(cs@.skip(n as int).len() == 0);
    }
    match mode {
        Mode::Text => {
            if !cur.as_str().is_empty() {
                let ghost cur0 = cur@;
                let ghost acc0 = segs_view(segs@);
                segs.push(Segment::Text(cur));
                proof {
                    assert(segs_view(segs@) =~= acc0.push(SegContent::Text(cur0)));
                }
                Ok(StringFormat::new(segs))
            } else {
                Ok(StringFormat::new(segs))
            }
        },
        _ => Err(ParseError::InvalidFormat("Unexpected end of format".to_owned())),
    }
}

} // verus!
