//! The template grammar with padding: plain characters accumulate into text
//! segments, a backslash escapes the next character, and `{...}` forms one
//! placeholder, optionally `{:N}` (space-padded to width N, left aligned) or
//! `{:0N}` (zero-padded to width N, right aligned).

use vstd::prelude::*;
use vstd::string::StringExecFns;

use crate::param_str::errors::ParseError;
use crate::text::str_chars;

verus! {

/// Which side of a padded argument receives the pad characters.
#[derive(Debug, PartialEq, Eq, Structural, Copy, Clone)]
pub enum Align {
    Left,
    Right,
}

/// How one placeholder pads its argument.
#[derive(Debug, PartialEq, Eq, Structural, Copy, Clone)]
pub struct VarFormat {
    pub pad_char: char,
    pub padding: usize,
    pub align: Align,
}

impl VarFormat {
    /// The character used to pad short arguments.
    pub fn pad_char(&self) -> (r: char)
        ensures
            r == self.pad_char,
    {
        self.pad_char
    }

    /// The width arguments are padded to.
    pub fn padding(&self) -> (r: usize)
        ensures
            r == self.padding,
    {
        self.padding
    }

    /// Which side receives the pad characters.
    pub fn align(&self) -> (r: Align)
        ensures
            r == self.align,
    {
        self.align
    }

    pub fn new(pad_char: char, padding: usize, align: Align) -> (r: VarFormat)
        ensures
            r == (VarFormat { pad_char, padding, align }),
    {
        VarFormat { pad_char, padding, align }
    }

    /// The characters of `arg` padded to this placeholder's width; arguments
    /// are measured in bytes, as wide as the width.
    pub open spec fn spec_format(self, arg: &str) -> Seq<char> {
        let short = vstd::string::StringSliceAdditionalSpecFns::spec_bytes(arg).len() as usize;
        let pads: int = if short < self.padding {
            self.padding - short
        } else {
            0
        };
        match self.align {
            Align::Right => Seq::new(pads as nat, |k: int| self.pad_char) + arg@,
            Align::Left => arg@ + Seq::new(pads as nat, |k: int| self.pad_char),
        }
    }

    /// Pad `arg` to this placeholder's width.
    pub fn format(&self, arg: &str) -> (r: String)
        ensures
            r@ == self.spec_format(arg),
    {
        let mut result = String::new();
        let width = self.padding();
        let len = arg.len();
        let ghost pads: int = if len < width {
            width - len
        } else {
            0int
        };
        match self.align() {
            Align::Right => {
                if len < width {
                    let mut k: usize = 0;
                    while k < width - len
                        invariant
                            len < width,
                            k <= width - len,
                            result@ =~= Seq::new(k as nat, |t: int| self.pad_char),
                        decreases width - len - k,
                    {
                        result.push(self.pad_char);
                        proof {
                            assert(result@ =~= Seq::new((k + 1) as nat, |t: int| self.pad_char));
                        }
                        k = k + 1;
                    }
                }
                proof {
                    assert(result@ =~= Seq::new(pads as nat, |t: int| self.pad_char));
                }
                result.append(arg);
                proof {
                    assert(result@ =~= Seq::new(pads as nat, |k: int| self.pad_char) + arg@);
                }
            },
            Align::Left => {
                result.append(arg);
                if len < width {
                    let ghost base = result@;
                    let mut k: usize = 0;
                    while k < width - len
                        invariant
                            len < width,
                            k <= width - len,
                            base == arg@,
                            result@ =~= base + Seq::new(k as nat, |t: int| self.pad_char),
                        decreases width - len - k,
                    {
                        result.push(self.pad_char);
                        proof {
                            assert(result@ =~= base + Seq::new(
                                (k + 1) as nat,
                                |t: int| self.pad_char,
                            ));
                        }
                        k = k + 1;
                    }
                }
                proof {
                    assert(result@ =~= arg@ + Seq::new(pads as nat, |k: int| self.pad_char));
                }
            },
        }
        result
    }
}

/// One piece of a template: literal text, or a placeholder with its padding.
#[derive(Debug, PartialEq)]
pub enum Segment {
    Text(String),
    Variable(VarFormat),
}

pub type Segments = Vec<Segment>;

/// The content of a segment: its literal characters, or its placeholder.
pub enum SegContent {
    Text(Seq<char>),
    Variable(VarFormat),
}

/// The content of a segment.
pub open spec fn seg_view(seg: Segment) -> SegContent {
    match seg {
        Segment::Text(t) => SegContent::Text(t@),
        Segment::Variable(vf) => SegContent::Variable(vf),
    }
}

/// The content of a segment list.
pub open spec fn segs_view(segs: Seq<Segment>) -> Seq<SegContent> {
    segs.map_values(|seg: Segment| seg_view(seg))
}

/// The message reported when a template ends inside an escape or a
/// placeholder.
pub open spec fn end_msg() -> Seq<char> {
    "Unexpected end of format"@
}

/// The message reported when a placeholder holds anything but `}` or `:`.
pub open spec fn expected_close_msg(c: char) -> Seq<char> {
    "Expected }, found "@.push(c)
}

/// The message reported when a padding width holds a non-digit.
pub open spec fn expected_digit_msg(c: char) -> Seq<char> {
    "Expected 0-9, found "@.push(c)
}

/// The message reported when a padding width does not fit the machine.
pub open spec fn padding_overflow_msg() -> Seq<char> {
    "Padding too large"@
}

/// Whether a character is a decimal digit.
pub open spec fn is_digit(c: char) -> bool {
    '0' <= c && c <= '9'
}

/// The value of a decimal digit.
pub open spec fn digit_val(c: char) -> int {
    c as int - '0' as int
}

/// Close the pending text segment, if any characters accumulated.
pub open spec fn finish(cur: Seq<char>, acc: Seq<SegContent>) -> Seq<SegContent> {
    if cur.len() > 0 {
        acc.push(SegContent::Text(cur))
    } else {
        acc
    }
}

/// What parsing the rest of a template yields, given the pending text and
/// the segments read so far.
pub open spec fn parse_spec(s: Seq<char>, cur: Seq<char>, acc: Seq<SegContent>) -> Result<
    Seq<SegContent>,
    Seq<char>,
>
    decreases s.len(), 1int,
{
    if s.len() == 0 {
        Ok(finish(cur, acc))
    } else if s[0] == '\\' {
        if s.len() == 1 {
            Err(end_msg())
        } else {
            parse_spec(s.skip(2), cur.push(s[1]), acc)
        }
    } else if s[0] == '{' {
        var_spec(s.skip(1), finish(cur, acc))
    } else {
        parse_spec(s.skip(1), cur.push(s[0]), acc)
    }
}

/// What parsing yields just after a `{`.
pub open spec fn var_spec(s: Seq<char>, acc: Seq<SegContent>) -> Result<
    Seq<SegContent>,
    Seq<char>,
>
    decreases s.len(), 0int,
{
    if s.len() == 0 {
        Err(end_msg())
    } else if s[0] == '}' {
        parse_spec(
            s.skip(1),
            Seq::empty(),
            acc.push(SegContent::Variable(VarFormat { pad_char: ' ', padding: 0, align: Align::Left })),
        )
    } else if s[0] == ':' {
        if s.len() == 1 {
            Err(end_msg())
        } else if s[1] == '0' {
            pad_spec(s.skip(2), acc, '0', 0, Align::Right)
        } else {
            pad_spec(s.skip(1), acc, ' ', 0, Align::Left)
        }
    } else {
        Err(expected_close_msg(s[0]))
    }
}

/// What parsing yields inside a padding width, with the width read so far.
pub open spec fn pad_spec(
    s: Seq<char>,
    acc: Seq<SegContent>,
    pad_char: char,
    padding: int,
    align: Align,
) -> Result<Seq<SegContent>, Seq<char>>
    decreases s.len(), 0int,
{
    if s.len() == 0 {
        Err(end_msg())
    } else if is_digit(s[0]) {
        let p2 = padding * 10 + digit_val(s[0]);
        if p2 > usize::MAX {
            Err(padding_overflow_msg())
        } else {
            pad_spec(s.skip(1), acc, pad_char, p2, align)
        }
    } else if s[0] == '}' {
        parse_spec(
            s.skip(1),
            Seq::empty(),
            acc.push(
                SegContent::Variable(
                    VarFormat { pad_char, padding: padding as usize, align },
                ),
            ),
        )
    } else {
        Err(expected_digit_msg(s[0]))
    }
}

/// Where the parser stands between characters.
#[derive(Clone, Copy)]
enum Mode {
    Text,
    Escape,
    Variable,
    StartPad,
    Pad,
}

/// What parsing yields from a given mode, with `rest` still to read.
spec fn resume(
    mode: Mode,
    rest: Seq<char>,
    cur: Seq<char>,
    acc: Seq<SegContent>,
    pad_char: char,
    padding: int,
    align: Align,
) -> Result<Seq<SegContent>, Seq<char>> {
    match mode {
        Mode::Text => parse_spec(rest, cur, acc),
        Mode::Escape => {
            if rest.len() == 0 {
                Err(end_msg())
            } else {
                parse_spec(rest.drop_first(), cur.push(rest[0]), acc)
            }
        },
        Mode::Variable => var_spec(rest, acc),
        Mode::StartPad => {
            if rest.len() == 0 {
                Err(end_msg())
            } else if rest[0] == '0' {
                pad_spec(rest.drop_first(), acc, '0', 0, Align::Right)
            } else {
                pad_spec(rest, acc, ' ', 0, Align::Left)
            }
        },
        Mode::Pad => pad_spec(rest, acc, pad_char, padding, align),
    }
}

/// Parse a template into its segments.
pub fn parse(format: &str) -> (r: Result<Segments, ParseError>)
    ensures
        match r {
            Ok(segs) => parse_spec(format@, Seq::empty(), Seq::empty()) == Ok::<_, Seq<char>>(
                segs_view(segs@),
            ),
            Err(e) => parse_spec(format@, Seq::empty(), Seq::empty()) == Err::<Seq<SegContent>, _>(
                e.view_msg(),
            ),
        },
{
    let cs = str_chars(format);
    let mut mode = Mode::Text;
    let mut cur = String::new();
    let mut segs: Vec<Segment> = Vec::new();
    let mut pad_char: char = ' ';
    let mut padding: usize = 0;
    let mut align = Align::Left;
    let n = cs.len();
    let mut i: usize = 0;
    proof {
        assert(cs@.skip(0) =~= format@);
        assert(segs_view(segs@) =~= Seq::<SegContent>::empty());
    }
    while i < n
        invariant
            n == cs@.len(),
            cs@ == format@,
            i <= n,
            parse_spec(format@, Seq::empty(), Seq::empty()) == resume(
                mode,
                cs@.skip(i as int),
                cur@,
                segs_view(segs@),
                pad_char,
                padding as int,
                align,
            ),
            mode matches Mode::Variable ==> cur@.len() == 0,
            mode matches Mode::StartPad ==> cur@.len() == 0,
            mode matches Mode::Pad ==> cur@.len() == 0,
        decreases n - i,
    {
        let c = cs[i];
        let ghost rest = cs@.skip(i as int);
        let ghost cur0 = cur@;
        let ghost acc0 = segs_view(segs@);
        let ghost pc0 = pad_char;
        let ghost pd0 = padding as int;
        let ghost al0 = align;
        proof {
            assert(rest.len() > 0);
            assert(rest[0] == c);
            assert(rest.drop_first() =~= cs@.skip(i + 1));
            assert(rest.skip(1) =~= rest.drop_first());
            if rest.len() > 1 {
                assert(rest.skip(2) =~= rest.drop_first().drop_first());
                assert(rest[1] == rest.drop_first()[0]);
            }
        }
        match mode {
            Mode::Text => {
                if c == '\\' {
                    mode = Mode::Escape;
                    proof {
                        assert(resume(Mode::Text, rest, cur0, acc0, pc0, pd0, al0) == resume(
                            Mode::Escape,
                            rest.drop_first(),
                            cur0,
                            acc0,
                            pc0,
                            pd0,
                            al0,
                        ));
                    }
                } else if c == '{' {
                    if !cur.as_str().is_empty() {
                        let done = cur;
                        cur = String::new();
                        segs.push(Segment::Text(done));
                        proof {
                            assert(segs_view(segs@) =~= acc0.push(SegContent::Text(cur0)));
                        }
                    }
                    mode = Mode::Variable;
                    proof {
                        assert(segs_view(segs@) == finish(cur0, acc0));
                        assert(cur@ =~= Seq::<char>::empty());
                        assert(parse_spec(rest, cur0, acc0) == var_spec(
                            rest.drop_first(),
                            finish(cur0, acc0),
                        ));
                    }
                } else {
                    cur.push(c);
                    proof {
                        assert(parse_spec(rest, cur0, acc0) == parse_spec(
                            rest.drop_first(),
                            cur0.push(c),
                            acc0,
                        ));
                    }
                }
            },
            Mode::Escape => {
                cur.push(c);
                mode = Mode::Text;
                proof {
                    assert(resume(Mode::Escape, rest, cur0, acc0, pc0, pd0, al0) == resume(
                        Mode::Text,
                        rest.drop_first(),
                        cur0.push(c),
                        acc0,
                        pc0,
                        pd0,
                        al0,
                    ));
                }
            },
            Mode::Variable => {
                if c == '}' {
                    segs.push(Segment::Variable(VarFormat::new(' ', 0, Align::Left)));
                    mode = Mode::Text;
                    proof {
                        assert(segs_view(segs@) =~= acc0.push(
                            SegContent::Variable(
                                VarFormat { pad_char: ' ', padding: 0, align: Align::Left },
                            ),
                        ));
                        assert(cur@ =~= Seq::<char>::empty());
                        assert(var_spec(rest, acc0) == parse_spec(
                            rest.drop_first(),
                            Seq::empty(),
                            segs_view(segs@),
                        ));
                    }
                } else if c == ':' {
                    mode = Mode::StartPad;
                    proof {
                        assert(var_spec(rest, acc0) == resume(
                            Mode::StartPad,
                            rest.drop_first(),
                            cur@,
                            acc0,
                            pc0,
                            pd0,
                            al0,
                        ));
                    }
                } else {
                    proof {
                        assert(var_spec(rest, acc0) == Err::<Seq<SegContent>, _>(
                            expected_close_msg(c),
                        ));
                    }
                    let mut msg = "Expected }, found ".to_owned();
                    msg.push(c);
                    return Err(ParseError::InvalidValue(msg));
                }
            },
            Mode::StartPad => {
                if c == '0' {
                    pad_char = '0';
                    padding = 0;
                    align = Align::Right;
                    mode = Mode::Pad;
                    proof {
                        assert(resume(Mode::StartPad, rest, cur0, acc0, pc0, pd0, al0) == pad_spec(
                            rest.drop_first(),
                            acc0,
                            '0',
                            0,
                            Align::Right,
                        ));
                    }
                } else if c >= '1' && c <= '9' {
                    pad_char = ' ';
                    align = Align::Left;
                    padding = (c as u32 as usize) - 48;
                    mode = Mode::Pad;
                    proof {
                        assert(pad_spec(rest, acc0, ' ', 0, Align::Left) == pad_spec(
                            rest.drop_first(),
                            acc0,
                            ' ',
                            digit_val(c),
                            Align::Left,
                        ));
                        assert(padding as int == digit_val(c));
                    }
                } else if c == '}' {
                    segs.push(Segment::Variable(VarFormat::new(' ', 0, Align::Left)));
                    mode = Mode::Text;
                    proof {
                        assert(segs_view(segs@) =~= acc0.push(
                            SegContent::Variable(
                                VarFormat { pad_char: ' ', padding: 0, align: Align::Left },
                            ),
                        ));
                        assert(cur@ =~= Seq::<char>::empty());
                        assert(pad_spec(rest, acc0, ' ', 0, Align::Left) == parse_spec(
                            rest.drop_first(),
                            Seq::empty(),
                            segs_view(segs@),
                        ));
                    }
                } else {
                    proof {
                        assert(pad_spec(rest, acc0, ' ', 0, Align::Left) == Err::<
                            Seq<SegContent>,
                            _,
                        >(expected_digit_msg(c)));
                    }
                    let mut msg = "Expected 0-9, found ".to_owned();
                    msg.push(c);
                    return Err(ParseError::InvalidValue(msg));
                }
            },
            Mode::Pad => {
                if c >= '0' && c <= '9' {
                    let d = (c as u32 as usize) - 48;
                    proof {
                        assert(d == digit_val(c));
                    }
                    let p10 = match padding.checked_mul(10) {
                        Some(p) => p,
                        None => {
                            proof {
                                assert(pad_spec(rest, acc0, pc0, pd0, al0) == Err::<
                                    Seq<SegContent>,
                                    _,
                                >(padding_overflow_msg()));
                            }
                            return Err(ParseError::InvalidValue("Padding too large".to_owned()));
                        },
                    };
                    let p2 = match p10.checked_add(d) {
                        Some(p) => p,
                        None => {
                            proof {
                                assert(pad_spec(rest, acc0, pc0, pd0, al0) == Err::<
                                    Seq<SegContent>,
                                    _,
                                >(padding_overflow_msg()));
                            }
                            return Err(ParseError::InvalidValue("Padding too large".to_owned()));
                        },
                    };
                    padding = p2;
                    proof {
                        assert(pad_spec(rest, acc0, pc0, pd0, al0) == pad_spec(
                            rest.drop_first(),
                            acc0,
                            pc0,
                            pd0 * 10 + digit_val(c),
                            al0,
                        ));
                        assert(padding as int == pd0 * 10 + digit_val(c));
                    }
                } else if c == '}' {
                    segs.push(Segment::Variable(VarFormat::new(pad_char, padding, align)));
                    mode = Mode::Text;
                    proof {
                        assert(segs_view(segs@) =~= acc0.push(
                            SegContent::Variable(
                                VarFormat { pad_char: pc0, padding: pd0 as usize, align: al0 },
                            ),
                        ));
                        assert(cur@ =~= Seq::<char>::empty());
                        assert(pad_spec(rest, acc0, pc0, pd0, al0) == parse_spec(
                            rest.drop_first(),
                            Seq::empty(),
                            segs_view(segs@),
                        ));
                    }
                } else {
                    proof {
                        assert(pad_spec(rest, acc0, pc0, pd0, al0) == Err::<Seq<SegContent>, _>(
                            expected_digit_msg(c),
                        ));
                    }
                    let mut msg = "Expected 0-9, found ".to_owned();
                    msg.push(c);
                    return Err(ParseError::InvalidValue(msg));
                }
            },
        }
        i = i + 1;
    }
    proof {
        assert(cs@.skip(n as int).len() == 0);
    }
    match mode {
        Mode::Text => {
            if !cur.as_str().is_empty() {
                let ghost cur0 = cur@;
                let ghost acc0 = segs_view(segs@);
                segs.push(Segment::Text(cur));
                proof {
                    assert(segs_view(segs@) =~= acc0.push(SegContent::Text(cur0)));
                }
                Ok(segs)
            } else {
                Ok(segs)
            }
        },
        _ => Err(ParseError::InvalidValue("Unexpected end of format".to_owned())),
    }
}

} // verus!
