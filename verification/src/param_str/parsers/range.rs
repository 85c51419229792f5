//! Numeric range arguments: `%start-end` expands to the decimal texts of
//! every number from `start` to `end`, both inclusive.

use vstd::prelude::*;

use crate::param_str::errors::ParseError;
use crate::param_str::parsers::format::{digit_val, is_digit};
use crate::text::str_chars;

verus! {

/// The message reported when a range does not start with `%`.
pub open spec fn expected_pct_msg(c: char) -> Seq<char> {
    "Expected %, found "@.push(c)
}

/// The message reported when the start holds a non-digit other than `-`.
pub open spec fn expected_digit_dash_msg(c: char) -> Seq<char> {
    "Expected digit or '.', found "@.push(c)
}

/// The message reported when the end holds a non-digit, or the separator
/// comes before any digit.
pub open spec fn expected_digit_msg(c: char) -> Seq<char> {
    "Expected digit, found "@.push(c)
}

/// The message reported when the range stops before both bounds are read,
/// or a bound does not fit the machine.
pub open spec fn end_range_msg() -> Seq<char> {
    "Unexpected end of range"@
}

/// The message reported when the end is below the start.
pub open spec fn order_msg() -> Seq<char> {
    "End must be greater than or equal to start"@
}

/// What parsing yields while reading the start bound, with `nd` digits of
/// value `val` read so far.
pub open spec fn start_spec(s: Seq<char>, nd: int, val: int) -> Result<(int, int), Seq<char>>
    decreases s.len(),
{
    if s.len() == 0 {
        Err(end_range_msg())
    } else if is_digit(s[0]) {
        start_spec(s.skip(1), nd + 1, val * 10 + digit_val(s[0]))
    } else if s[0] == '-' {
        if nd == 0 {
            Err(expected_digit_msg('-'))
        } else if val > usize::MAX {
            Err(end_range_msg())
        } else {
            end_spec(s.skip(1), val, 0, 0)
        }
    } else {
        Err(expected_digit_dash_msg(s[0]))
    }
}

/// What parsing yields while reading the end bound.
pub open spec fn end_spec(s: Seq<char>, start: int, nd: int, val: int) -> Result<
    (int, int),
    Seq<char>,
>
    decreases s.len(),
{
    if s.len() == 0 {
        if nd == 0 || val > usize::MAX {
            Err(end_range_msg())
        } else {
            Ok((start, val))
        }
    } else if is_digit(s[0]) {
        end_spec(s.skip(1), start, nd + 1, val * 10 + digit_val(s[0]))
    } else {
        Err(expected_digit_msg(s[0]))
    }
}

/// The two bounds a range text denotes, or why it denotes none.
pub open spec fn range_spec(s: Seq<char>) -> Result<(int, int), Seq<char>> {
    if s.len() == 0 {
        Err(end_range_msg())
    } else if s[0] != '%' {
        Err(expected_pct_msg(s[0]))
    } else {
        start_spec(s.skip(1), 0, 0)
    }
}

/// The character of one decimal digit.
pub open spec fn digit_char(d: int) -> char {
    ((48 + d) as u8) as char
}

/// The decimal text of a number.
pub open spec fn dec_chars(n: int) -> Seq<char>
    decreases n,
{
    if n < 10 {
        seq![digit_char(n)]
    } else {
        dec_chars(n / 10).push(digit_char(n % 10))
    }
}

/// Render a number as decimal text.
pub fn usize_to_string(n: usize) -> (r: String)
    ensures
        r@ == dec_chars(n as int),
    decreases n,
{
    if n < 10 {
        let mut s = String::new();
        let c = (48 + (n as u8)) as char;
        s.push(c);
        proof {
            assert(s@ =~= seq![digit_char(n as int)]);
        }
        s
    } else {
        let mut s = usize_to_string(n / 10);
        let c = (48 + ((n % 10) as u8)) as char;
        s.push(c);
        s
    }
}

/// Where the parser stands between characters.
#[derive(Clone, Copy)]
enum Mode {
    /// Nothing read yet; only `%` may come.
    Init,
    /// Reading the start bound.
    Start,
    /// Reading the end bound.
    End,
}

/// What parsing yields from a given mode, with `rest` still to read.
spec fn resume(mode: Mode, rest: Seq<char>, nd: int, val: int, start: int) -> Result<
    (int, int),
    Seq<char>,
> {
    match mode {
        Mode::Init => range_spec(rest),
        Mode::Start => start_spec(rest, nd, val),
        Mode::End => end_spec(rest, start, nd, val),
    }
}

/// Parse a `%start-end` range and expand it to the decimal texts of every
/// number it covers, in ascending order.
pub fn parse_range(range_str: &str) -> (r: Result<Vec<String>, ParseError>)
    ensures
        match r {
            Ok(v) => range_spec(range_str@) matches Ok(b) && b.0 <= b.1 && v@.len() == b.1 - b.0
                + 1 && forall|k: int| 0 <= k < v@.len() ==> (#[trigger] v@[k])@ == dec_chars(
                b.0 + k,
            ),
            Err(e) => (range_spec(range_str@) matches Err(m) && e.view_msg() == m) || (range_spec(
                range_str@,
            ) matches Ok(b) && b.1 < b.0 && e.view_msg() == order_msg()),
        },
{
    let cs = str_chars(range_str);
    let mut mode = Mode::Init;
    let mut has_digits = false;
    let mut over = false;
    let mut val: usize = 0;
    let mut start_val: usize = 0;
    let ghost mut nd: int = 0;
    let ghost mut tval: int = 0;
    let n = cs.len();
    let mut i: usize = 0;
    proof {
        assert(cs@.skip(0) =~= range_str@);
    }
    while i < n
        invariant
            n == cs@.len(),
            cs@ == range_str@,
            i <= n,
            nd >= 0,
            has_digits == (nd != 0),
            mode matches Mode::Init ==> nd == 0 && tval == 0,
            !over ==> val == tval && tval <= usize::MAX,
            over ==> tval > usize::MAX,
            mode matches Mode::End ==> start_val <= usize::MAX,
            range_spec(range_str@) == resume(
                mode,
                cs@.skip(i as int),
                nd,
                tval,
                start_val as int,
            ),
        decreases n - i,
    {
        let c = cs[i];
        let ghost rest = cs@.skip(i as int);
        let ghost nd0 = nd;
        let ghost tv0 = tval;
        proof {
            assert(rest.len() > 0);
            assert(rest[0] == c);
            assert(rest.drop_first() =~= cs@.skip(i + 1));
            assert(rest.skip(1) =~= rest.drop_first());
        }
        match mode {
            Mode::Init => {
                if c == '%' {
                    mode = Mode::Start;
                    proof {
                        assert(range_spec(rest) == start_spec(rest.drop_first(), 0, 0));
                    }
                } else {
                    let mut msg = "Expected %, found ".to_owned();
                    msg.push(c);
                    return Err(ParseError::InvalidValue(msg));
                }
            },
            Mode::Start => {
                if c >= '0' && c <= '9' {
                    let d = (c as u32 as usize) - 48;
                    proof {
                        assert(d == digit_val(c));
                        if over {
                            assert(tval * 10 >= tval) by (nonlinear_arith)
                                requires
                                    tval >= 0,
                            ;
                        }
                    }
                    if !over {
                        match val.checked_mul(10) {
                            Some(p10) => {
                                match p10.checked_add(d) {
                                    Some(p) => {
                                        val = p;
                                    },
                                    None => {
                                        over = true;
                                    },
                                }
                            },
                            None => {
                                over = true;
                            },
                        }
                    }
                    has_digits = true;
                    proof {
                        nd = nd + 1;
                        tval = tval * 10 + digit_val(c);
                        assert(start_spec(rest, nd0, tv0) == start_spec(
                            rest.drop_first(),
                            nd0 + 1,
                            tv0 * 10 + digit_val(c),
                        ));
                    }
                } else if c == '-' {
                    if !has_digits {
                        let mut msg = "Expected digit, found ".to_owned();
                        msg.push('-');
                        return Err(ParseError::InvalidValue(msg));
                    }
                    if over {
                        return Err(ParseError::InvalidValue("Unexpected end of range".to_owned()));
                    }
                    start_val = val;
                    val = 0;
                    has_digits = false;
                    mode = Mode::End;
                    proof {
                        nd = 0;
                        tval = 0;
                        assert(start_spec(rest, nd0, tv0) == end_spec(
                            rest.drop_first(),
                            tv0,
                            0,
                            0,
                        ));
                    }
                } else {
                    let mut msg = "Expected digit or '.', found ".to_owned();
                    msg.push(c);
                    return Err(ParseError::InvalidValue(msg));
                }
            },
            Mode::End => {
                if c >= '0' && c <= '9' {
                    let d = (c as u32 as usize) - 48;
                    proof {
                        assert(d == digit_val(c));
                        if over {
                            assert(tval * 10 >= tval) by (nonlinear_arith)
                                requires
                                    tval >= 0,
                            ;
                        }
                    }
                    if !over {
                        match val.checked_mul(10) {
                            Some(p10) => {
                                match p10.checked_add(d) {
                                    Some(p) => {
                                        val = p;
                                    },
                                    None => {
                                        over = true;
                                    },
                                }
                            },
                            None => {
                                over = true;
                            },
                        }
                    }
                    has_digits = true;
                    proof {
                        nd = nd + 1;
                        tval = tval * 10 + digit_val(c);
                        assert(end_spec(rest, start_val as int, nd0, tv0) == end_spec(
                            rest.drop_first(),
                            start_val as int,
                            nd0 + 1,
                            tv0 * 10 + digit_val(c),
                        ));
                    }
                } else {
                    let mut msg = "Expected digit, found ".to_owned();
                    msg.push(c);
                    return Err(ParseError::InvalidValue(msg));
                }
            },
        }
        i = i + 1;
    }
    proof {
        assert(cs@.skip(n as int).len() == 0);
    }
    match mode {
        Mode::End => {
            if !has_digits || over {
                return Err(ParseError::InvalidValue("Unexpected end of range".to_owned()));
            }
            if val < start_val {
                return Err(
                    ParseError::InvalidValue(
                        "End must be greater than or equal to start".to_owned(),
                    ),
                );
            }
            let mut out: Vec<String> = Vec::new();
            let mut cur = start_val;
            loop
                invariant_except_break
                    start_val <= cur <= val,
                    out@.len() == cur - start_val,
                    forall|k: int|
                        0 <= k < out@.len() ==> (#[trigger] out@[k])@ == dec_chars(start_val + k),
                ensures
                    out@.len() == val - start_val + 1,
                    forall|k: int|
                        0 <= k < out@.len() ==> (#[trigger] out@[k])@ == dec_chars(start_val + k),
                decreases val - cur,
            {
                out.push(usize_to_string(cur));
                if cur == val {
                    break ;
                }
                cur = cur + 1;
            }
            Ok(out)
        },
        _ => Err(ParseError::InvalidValue("Unexpected end of range".to_owned())),
    }
}

} // verus!
