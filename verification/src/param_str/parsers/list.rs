//! Comma-separated argument lists. Items are the text between commas; an
//! empty item is an error, and the character right after a comma is always
//! taken literally, so a list cannot end in a comma.

use vstd::prelude::*;

use crate::param_str::errors::ParseError;
use crate::text::str_chars;

verus! {

/// The message reported when an item is empty.
pub open spec fn empty_item_msg() -> Seq<char> {
    "Empty string"@
}

/// The message reported when the list ends right after a comma.
pub open spec fn end_list_msg() -> Seq<char> {
    "Unexpected end of list"@
}

/// What parsing the rest of a list yields, given the pending item text and
/// the items read so far.
pub open spec fn list_spec(s: Seq<char>, cur: Seq<char>, acc: Seq<Seq<char>>) -> Result<
    Seq<Seq<char>>,
    Seq<char>,
>
    decreases s.len(),
{
    if s.len() == 0 {
        if cur.len() == 0 {
            Err(empty_item_msg())
        } else {
            Ok(acc.push(cur))
        }
    } else if s[0] == ',' {
        if cur.len() == 0 {
            Err(empty_item_msg())
        } else if s.len() == 1 {
            Err(end_list_msg())
        } else {
            list_spec(s.skip(2), seq![s[1]], acc.push(cur))
        }
    } else {
        list_spec(s.skip(1), cur.push(s[0]), acc)
    }
}

/// A successful list parse always yields more items than it started with:
/// in particular, at least one.
pub proof fn lemma_list_nonempty(s: Seq<char>, cur: Seq<char>, acc: Seq<Seq<char>>)
    ensures
        list_spec(s, cur, acc) matches Ok(v) ==> v.len() > acc.len(),
    decreases s.len(),
{
    if s.len() == 0 {
    } else if s[0] == ',' {
        if cur.len() > 0 && s.len() > 1 {
            lemma_list_nonempty(s.skip(2), seq![s[1]], acc.push(cur));
        }
    } else {
        lemma_list_nonempty(s.skip(1), cur.push(s[0]), acc);
    }
}

/// Where the parser stands between characters.
#[derive(Clone, Copy)]
enum Mode {
    /// Reading an item.
    Text,
    /// A comma was read; the next character starts the next item, whatever
    /// it is.
    Delimit,
}

/// What parsing yields from a given mode, with `rest` still to read.
spec fn resume(mode: Mode, rest: Seq<char>, cur: Seq<char>, acc: Seq<Seq<char>>) -> Result<
    Seq<Seq<char>>,
    Seq<char>,
> {
    match mode {
        Mode::Text => list_spec(rest, cur, acc),
        Mode::Delimit => {
            if rest.len() == 0 {
                Err(end_list_msg())
            } else {
                list_spec(rest.drop_first(), seq![rest[0]], acc)
            }
        },
    }
}

/// The characters of each item.
pub open spec fn items_view(items: Seq<String>) -> Seq<Seq<char>> {
    items.map_values(|x: String| x@)
}

/// Parse a comma-separated list into its items.
pub fn parse_list(list_str: &str) -> (r: Result<Vec<String>, ParseError>)
    ensures
        match r {
            Ok(v) => list_spec(list_str@, Seq::empty(), Seq::empty()) == Ok::<_, Seq<char>>(
                items_view(v@),
            ),
            Err(e) => list_spec(list_str@, Seq::empty(), Seq::empty()) == Err::<Seq<Seq<char>>, _>(
                e.view_msg(),
            ),
        },
{
    let cs = str_chars(list_str);
    let mut mode = Mode::Text;
    let mut cur = String::new();
    let mut items: Vec<String> = Vec::new();
    let n = cs.len();
    let mut i: usize = 0;
    proof {
        assert(cs@.skip(0) =~= list_str@);
        assert(items_view(items@) =~= Seq::<Seq<char>>::empty());
    }
    while i < n
        invariant
            n == cs@.len(),
            cs@ == list_str@,
            i <= n,
            mode matches Mode::Delimit ==> cur@.len() == 0,
            list_spec(list_str@, Seq::empty(), Seq::empty()) == resume(
                mode,
                cs@.skip(i as int),
                cur@,
                items_view(items@),
            ),
        decreases n - i,
    {
        let c = cs[i];
        let ghost rest = cs@.skip(i as int);
        let ghost cur0 = cur@;
        let ghost acc0 = items_view(items@);
        proof {
            assert(rest.len() > 0);
            assert(rest[0] == c);
            assert(rest.drop_first() =~= cs@.skip(i + 1));
            assert(rest.skip(1) =~= rest.drop_first());
            if rest.len() > 1 {
                assert(rest.skip(2) =~= rest.drop_first().drop_first());
                assert(rest[1] == rest.drop_first()[0]);
            }
        }
        match mode {
            Mode::Text => {
                if c == ',' {
                    if cur.as_str().is_empty() {
                        return Err(ParseError::InvalidValue("Empty string".to_owned()));
                    }
                    let done = cur;
                    cur = String::new();
                    items.push(done);
                    mode = Mode::Delimit;
                    proof {
                        assert(items_view(items@) =~= acc0.push(cur0));
                        assert(resume(Mode::Text, rest, cur0, acc0) == resume(
                            Mode::Delimit,
                            rest.drop_first(),
                            cur@,
                            acc0.push(cur0),
                        ));
                    }
                } else {
                    cur.push(c);
                    proof {
                        assert(list_spec(rest, cur0, acc0) == list_spec(
                            rest.drop_first(),
                            cur0.push(c),
                            acc0,
                        ));
                    }
                }
            },
            Mode::Delimit => {
                cur.push(c);
                mode = Mode::Text;
                proof {
                    assert(cur@ =~= seq![c]);
                    assert(resume(Mode::Delimit, rest, cur0, acc0) == resume(
                        Mode::Text,
                        rest.drop_first(),
                        cur@,
                        acc0,
                    ));
                }
            },
        }
        i = i + 1;
    }
    proof {
        assert(cs@.skip(n as int).len() == 0);
    }
    match mode {
        Mode::Text => {
            if cur.as_str().is_empty() {
                Err(ParseError::InvalidValue("Empty string".to_owned()))
            } else {
                let ghost cur0 = cur@;
                let ghost acc0 = items_view(items@);
                items.push(cur);
                proof {
                    assert(items_view(items@) =~= acc0.push(cur0));
                }
                Ok(items)
            }
        },
        Mode::Delimit => Err(ParseError::InvalidValue("Unexpected end of list".to_owned())),
    }
}

} // verus!
