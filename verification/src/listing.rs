//! The read-only listings over a pool: block lists and name lists, plain or
//! in a two-column form with padded widths, and the resolution of a bare
//! identifier to a block.

use vstd::prelude::*;
use vstd::string::{StringExecFns, StringSliceAdditionalSpecFns};

use crate::param_str::parsers::range::dec_chars;
use crate::pool::SubnetPool;
use crate::text::{cidr_text, cidr_to_string, parse_cidr, text_cidr};
use crate::{Cidr, CidrRecord};

verus! {

/// The spaces a column of the given byte width owes a text: the width minus
/// the text's bytes, when the text is shorter.
pub open spec fn spare(s: Seq<char>, width: usize) -> int {
    let bl = vstd::utf8::encode_utf8(s).len() as usize;
    if bl < width {
        width - bl
    } else {
        0
    }
}

/// A run of spaces.
pub open spec fn spaces(pads: int) -> Seq<char> {
    Seq::new(pads as nat, |k: int| ' ')
}

/// Pad a string with spaces on the right up to `width` bytes; a wider
/// string stays as it is.
pub fn right_pad(s: &mut String, width: usize)
    ensures
        final(s)@ == old(s)@ + spaces(spare(old(s)@, width)),
{
    let len = s.as_str().len();
    let ghost base = s@;
    if len < width {
        let mut k: usize = 0;
        while k < width - len
            invariant
                len < width,
                k <= width - len,
                s@ =~= base + Seq::new(k as nat, |t: int| ' '),
            decreases width - len - k,
        {
            s.push(' ');
            proof {
                assert(s@ =~= base + Seq::new((k + 1) as nat, |t: int| ' '));
            }
            k = k + 1;
        }
        proof {
            assert(s@ =~= base + spaces(spare(base, width)));
        }
    } else {
        proof {
            assert(s@ =~= base + spaces(spare(base, width)));
        }
    }
}

/// Byte-lexicographic order on texts: the order names are listed in.
pub open spec fn lex_le(x: Seq<u8>, y: Seq<u8>) -> bool
    decreases x.len(),
{
    if x.len() == 0 {
        true
    } else if y.len() == 0 {
        false
    } else if x[0] < y[0] {
        true
    } else if x[0] > y[0] {
        false
    } else {
        lex_le(x.drop_first(), y.drop_first())
    }
}

/// The order relates every two texts one way or the other.
pub proof fn lemma_lex_total(x: Seq<u8>, y: Seq<u8>)
    ensures
        lex_le(x, y) || lex_le(y, x),
    decreases x.len(),
{
    if x.len() > 0 && y.len() > 0 && x[0] == y[0] {
        lemma_lex_total(x.drop_first(), y.drop_first());
    }
}

/// The order is transitive.
pub proof fn lemma_lex_trans(x: Seq<u8>, y: Seq<u8>, z: Seq<u8>)
    requires
        lex_le(x, y),
        lex_le(y, z),
    ensures
        lex_le(x, z),
    decreases x.len(),
{
    if x.len() > 0 && y.len() > 0 && z.len() > 0 && x[0] == y[0] && y[0] == z[0] {
        lemma_lex_trans(x.drop_first(), y.drop_first(), z.drop_first());
    }
}

/// Whether `x` comes no later than `y` in byte-lexicographic order.
pub fn str_le(x: &str, y: &str) -> (r: bool)
    ensures
        r == lex_le(x.spec_bytes(), y.spec_bytes()),
{
    let xb = x.as_bytes();
    let yb = y.as_bytes();
    let n = xb.len();
    let m = yb.len();
    let mut i: usize = 0;
    proof {
        assert(xb@.skip(0) =~= xb@);
        assert(yb@.skip(0) =~= yb@);
    }
    loop
        invariant
            n == xb@.len(),
            m == yb@.len(),
            xb@ == x.spec_bytes(),
            yb@ == y.spec_bytes(),
            i <= n,
            i <= m,
            lex_le(x.spec_bytes(), y.spec_bytes()) == lex_le(
                xb@.skip(i as int),
                yb@.skip(i as int),
            ),
        ensures
            lex_le(x.spec_bytes(), y.spec_bytes()) == lex_le(
                xb@.skip(i as int),
                yb@.skip(i as int),
            ),
            i <= n,
            i <= m,
            i == n || i == m || xb@[i as int] != yb@[i as int],
        decreases n - i,
    {
        if i == n || i == m {
            break ;
        }
        if xb[i] != yb[i] {
            break ;
        }
        proof {
            assert(xb@.skip(i as int).drop_first() =~= xb@.skip(i + 1));
            assert(yb@.skip(i as int).drop_first() =~= yb@.skip(i + 1));
        }
        i = i + 1;
    }
    if i == n {
        proof {
            assert(xb@.skip(i as int).len() == 0);
        }
        true
    } else if i == m {
        proof {
            assert(yb@.skip(i as int).len() == 0);
        }
        false
    } else {
        xb[i] < yb[i]
    }
}

/// Sort names into byte-lexicographic order, keeping exactly the same
/// names.
pub fn sort_names(names: Vec<String>) -> (r: Vec<String>)
    ensures
        r.deep_view().to_multiset() == names.deep_view().to_multiset(),
        forall|a: int, b: int|
            0 <= a < b < r@.len() ==> lex_le(
                vstd::utf8::encode_utf8((#[trigger] r@[a])@),
                vstd::utf8::encode_utf8((#[trigger] r@[b])@),
            ),
{
    broadcast use vstd::multiset::group_multiset_axioms;

    let n = names.len();
    let mut out: Vec<String> = Vec::new();
    let mut i: usize = 0;
    proof {
        out.deep_view().to_multiset_ensures();
        names.deep_view().take(0).to_multiset_ensures();
        assert(out.deep_view() =~= names.deep_view().take(0));
    }
    while i < n
        invariant
            n == names@.len(),
            i <= n,
            out.deep_view().to_multiset() == names.deep_view().take(i as int).to_multiset(),
            out@.len() == i,
            forall|a: int, b: int|
                0 <= a < b < out@.len() ==> lex_le(
                    vstd::utf8::encode_utf8((#[trigger] out@[a])@),
                    vstd::utf8::encode_utf8((#[trigger] out@[b])@),
                ),
        decreases n - i,
    {
        let x = names[i].clone();
        let ghost xb = vstd::utf8::encode_utf8(x@);
        // find the first position whose name comes after the new one
        let m = out.len();
        let mut p: usize = 0;
        while p < m
            invariant
                m == out@.len(),
                p <= m,
                forall|a: int|
                    0 <= a < p ==> lex_le(
                        vstd::utf8::encode_utf8((#[trigger] out@[a])@),
                        xb,
                    ),
                xb == vstd::utf8::encode_utf8(x@),
            ensures
                m == out@.len(),
                p <= m,
                forall|a: int|
                    0 <= a < p ==> lex_le(
                        vstd::utf8::encode_utf8((#[trigger] out@[a])@),
                        xb,
                    ),
                p == m || !lex_le(vstd::utf8::encode_utf8(out@[p as int]@), xb),
            decreases m - p,
        {
            if !str_le(out[p].as_str(), x.as_str()) {
                break ;
            }
            p = p + 1;
        }
        proof {
            if p < out@.len() {
                lemma_lex_total(vstd::utf8::encode_utf8(out@[p as int]@), xb);
            }
        }
        let ghost out0 = out@;
        let ghost deep0 = out.deep_view();
        out.insert(p, x);
        proof {
            // the new element sits between what comes no later and no sooner
            assert forall|a: int, b: int| 0 <= a < b < out@.len() implies lex_le(
                vstd::utf8::encode_utf8((#[trigger] out@[a])@),
                vstd::utf8::encode_utf8((#[trigger] out@[b])@),
            ) by {
                let pb: int = if b < p {
                    b
                } else {
                    b - 1
                };
                if a < p {
                    assert(out@[a] == out0[a]);
                }
                if b < p {
                    assert(out@[b] == out0[b]);
                }
                if a > p {
                    assert(out@[a] == out0[a - 1]);
                }
                if b > p {
                    assert(out@[b] == out0[b - 1]);
                }
                if a == p && b > p {
                    // x comes no later than the displaced element, which
                    // comes no later than everything after it
                    assert(lex_le(xb, vstd::utf8::encode_utf8(out0[p as int]@)));
                    if pb > p {
                        lemma_lex_trans(
                            xb,
                            vstd::utf8::encode_utf8(out0[p as int]@),
                            vstd::utf8::encode_utf8(out0[pb]@),
                        );
                    }
                } else if b == p {
                    assert(lex_le(vstd::utf8::encode_utf8(out0[a]@), xb));
                }
            }
            // the multiset gains exactly the new name
            lemma_deep_insert(out0, out@, x, p as int);
            assert(out.deep_view() =~= out@.map_values(|s: String| s@));
            assert(deep0 =~= out0.map_values(|s: String| s@));
            assert(names.deep_view().take(i + 1) =~= names.deep_view().take(i as int).push(
                names.deep_view()[i as int],
            ));
            names.deep_view().take(i as int).to_multiset_ensures();
            assert(names.deep_view()[i as int] == x@);
        }
        i = i + 1;
    }
    proof {
        assert(names.deep_view().take(n as int) =~= names.deep_view());
    }
    out
}

/// Inserting one name into a list inserts its characters into the list's
/// content.
proof fn lemma_deep_insert(before: Seq<String>, after: Seq<String>, x: String, p: int)
    requires
        0 <= p <= before.len(),
        after == before.insert(p, x),
    ensures
        after.map_values(|s: String| s@).to_multiset() == before.map_values(
            |s: String| s@,
        ).to_multiset().insert(x@),
{
    broadcast use vstd::multiset::group_multiset_axioms;

    let bv = before.map_values(|s: String| s@);
    let av = after.map_values(|s: String| s@);
    av.to_multiset_ensures();
    bv.to_multiset_ensures();
    assert(av.remove(p) =~= bv);
    assert(av[p] == x@);
    assert(av.to_multiset().remove(x@) =~= bv.to_multiset());
    assert(av.to_multiset().count(x@) > 0) by {
        assert(av.contains(av[p]));
    }
    assert(av.to_multiset() =~= bv.to_multiset().insert(x@));
}

/// Resolve a bare identifier: a name known to the pool wins; otherwise the
/// identifier must itself read as a block.
pub fn resolve_identifier(pool: &SubnetPool, identifier: &str) -> (r: Option<Cidr>)
    ensures
        match r {
            Some(c) => (exists|i: int|
                0 <= i < pool.names_view().len() && (#[trigger] pool.names_view()[i]) == (
                    identifier@,
                    c,
                )) || (!pool.name_bound(identifier@) && text_cidr(identifier@) == Some(
                (c.family is V6, c.address, c.network_length),
            ) && c.wf()),
            None => !pool.name_bound(identifier@) && text_cidr(identifier@) is None,
        },
{
    match pool.find_by_name(identifier) {
        Some(c) => Some(c),
        None => parse_cidr(identifier),
    }
}

/// Whether `line` is `first`, space-padded by some column width, two
/// spaces, then `second`.
pub open spec fn two_column(first: Seq<char>, second: Seq<char>, line: Seq<char>) -> bool {
    exists|pads: int|
        pads >= 0 && line == first + #[trigger] spaces(pads) + "  "@ + second
}

/// The block texts of the records within `within` (or of all records), one
/// line each; in the long form, a leading total and each line padded into
/// two columns with the record's name or a dash.
pub fn cidrs_listing(pool: &SubnetPool, within: Option<&Cidr>, long: bool) -> (r: Vec<String>)
    requires
        pool.wf(),
        within matches Some(c) ==> c.wf(),
    ensures
        ({
            let scope = match within {
                Some(o) => pool.records_view().filter(
                    |p: (Cidr, Option<Seq<char>>)| o.spec_contains(p.0),
                ),
                None => pool.records_view(),
            };
            if long {
                &&& r@.len() == 1 + scope.len()
                &&& r@[0]@ == "total "@ + dec_chars(pool.records_view().len() as int)
                &&& forall|i: int|
                    0 <= i < scope.len() ==> two_column(
                        cidr_text(
                            scope[i].0.family is V6,
                            scope[i].0.address,
                            scope[i].0.network_length,
                        ),
                        match scope[i].1 {
                            Some(nm) => nm,
                            None => "-"@,
                        },
                        (#[trigger] r@[i + 1])@,
                    )
            } else {
                &&& r@.len() == scope.len()
                &&& forall|i: int|
                    0 <= i < scope.len() ==> (#[trigger] r@[i])@ == cidr_text(
                        scope[i].0.family is V6,
                        scope[i].0.address,
                        scope[i].0.network_length,
                    )
            }
        }),
{
    proof {
        pool.lemma_records_structure();
    }
    let recs = match within {
        Some(o) => pool.records_within(o),
        None => pool.records(),
    };
    let ghost scope = recs@.map_values(|rec: CidrRecord| rec.view_pair());
    proof {
        match within {
            Some(o) => {},
            None => {
                assert(scope =~= pool.records_view());
            },
        }
    }
    let n = recs.len();
    let mut texts: Vec<String> = Vec::new();
    let mut i: usize = 0;
    while i < n
        invariant
            n == recs@.len(),
            scope == recs@.map_values(|rec: CidrRecord| rec.view_pair()),
            forall|j: int| 0 <= j < n ==> (#[trigger] recs@[j]).cidr.wf(),
            i <= n,
            texts@.len() == i,
            forall|j: int|
                0 <= j < i ==> (#[trigger] texts@[j])@ == cidr_text(
                    scope[j].0.family is V6,
                    scope[j].0.address,
                    scope[j].0.network_length,
                ),
        decreases n - i,
    {
        let t = cidr_to_string(&recs[i].cidr);
        proof {
            assert(recs@[i as int].view_pair() == scope[i as int]);
            assert(recs@[i as int].cidr == scope[i as int].0);
        }
        texts.push(t);
        i = i + 1;
    }
    if !long {
        return texts;
    }
    let mut maxw: usize = 0;
    let mut i: usize = 0;
    while i < n
        invariant
            n == texts@.len(),
            i <= n,
        decreases n - i,
    {
        if texts[i].as_str().len() > maxw {
            maxw = texts[i].as_str().len();
        }
        i = i + 1;
    }
    let mut out: Vec<String> = Vec::new();
    let mut head = "total ".to_owned();
    let count_text = crate::param_str::parsers::range::usize_to_string(pool.allocated_count());
    head.append(count_text.as_str());
    out.push(head);
    let mut i: usize = 0;
    while i < n
        invariant
            n == recs@.len(),
            n == texts@.len(),
            scope == recs@.map_values(|rec: CidrRecord| rec.view_pair()),
            forall|j: int|
                0 <= j < n ==> (#[trigger] texts@[j])@ == cidr_text(
                    scope[j].0.family is V6,
                    scope[j].0.address,
                    scope[j].0.network_length,
                ),
            i <= n,
            out@.len() == 1 + i,
            forall|j: int|
                0 <= j < i ==> two_column(
                    cidr_text(
                        scope[j].0.family is V6,
                        scope[j].0.address,
                        scope[j].0.network_length,
                    ),
                    match scope[j].1 {
                        Some(nm) => nm,
                        None => "-"@,
                    },
                    (#[trigger] out@[j + 1])@,
                ),
            out@[0]@ == "total "@ + dec_chars(pool.records_view().len() as int),
        decreases n - i,
    {
        let mut line = texts[i].clone();
        let ghost base = line@;
        right_pad(&mut line, maxw);
        line.append("  ");
        match &recs[i].name {
            Some(nm) => {
                line.append(nm.as_str());
            },
            None => {
                line.append("-");
            },
        }
        proof {
            assert(recs@[i as int].view_pair() == scope[i as int]);
            let second = match scope[i as int].1 {
                Some(nm) => nm,
                None => "-"@,
            };
            let pads = spare(base, maxw);
            assert(line@ == base + spaces(pads) + "  "@ + second);
            assert(two_column(
                cidr_text(
                    scope[i as int].0.family is V6,
                    scope[i as int].0.address,
                    scope[i as int].0.network_length,
                ),
                second,
                line@,
            ));
        }
        out.push(line);
        i = i + 1;
    }
    out
}

/// Whether `line` pairs some indexed name with the text of its block, in
/// two padded columns.
pub open spec fn name_line(nv: Seq<(Seq<char>, Cidr)>, line: Seq<char>) -> bool {
    exists|t: int|
        0 <= t < nv.len() && two_column(
            (#[trigger] nv[t]).0,
            cidr_text(nv[t].1.family is V6, nv[t].1.address, nv[t].1.network_length),
            line,
        )
}

/// The keys of the name index.
pub open spec fn index_keys(nv: Seq<(Seq<char>, Cidr)>) -> Seq<Seq<char>> {
    nv.map_values(|p: (Seq<char>, Cidr)| p.0)
}

/// The names of the pool's named blocks, sorted, one line each; in the long
/// form, a leading tally and each line padded into two columns with the
/// name's block.
pub fn names_listing(pool: &SubnetPool, long: bool) -> (r: Vec<String>)
    requires
        pool.wf(),
    ensures
        if long {
            &&& r@.len() == 1 + pool.names_view().len()
            &&& r@[0]@ == "total "@ + dec_chars(pool.names_view().len() as int) + " of "@
                + dec_chars(pool.records_view().len() as int)
            &&& forall|i: int|
                0 <= i < pool.names_view().len() ==> name_line(
                    pool.names_view(),
                    (#[trigger] r@[i + 1])@,
                )
        } else {
            &&& r.deep_view().to_multiset() == index_keys(pool.names_view()).to_multiset()
            &&& forall|a: int, b: int|
                0 <= a < b < r@.len() ==> lex_le(
                    vstd::utf8::encode_utf8((#[trigger] r@[a])@),
                    vstd::utf8::encode_utf8((#[trigger] r@[b])@),
                )
        },
{
    let names = pool.names();
    proof {
        assert(names.deep_view() =~= index_keys(pool.names_view()));
    }
    let sorted = sort_names(names);
    if !long {
        return sorted;
    }
    let mut out: Vec<String> = Vec::new();
    let mut head = "total ".to_owned();
    let named_text = crate::param_str::parsers::range::usize_to_string(pool.named_count());
    head.append(named_text.as_str());
    head.append(" of ");
    let count_text = crate::param_str::parsers::range::usize_to_string(pool.allocated_count());
    head.append(count_text.as_str());
    out.push(head);
    let mut maxw: usize = 0;
    let n = sorted.len();
    let mut i: usize = 0;
    while i < n
        invariant
            n == sorted@.len(),
            i <= n,
        decreases n - i,
    {
        if sorted[i].as_str().len() > maxw {
            maxw = sorted[i].as_str().len();
        }
        i = i + 1;
    }
    proof {
        broadcast use vstd::multiset::group_multiset_axioms;

        pool.lemma_records_structure();
        sorted.deep_view().to_multiset_ensures();
        index_keys(pool.names_view()).to_multiset_ensures();
    }
    let mut i: usize = 0;
    while i < n
        invariant
            pool.wf(),
            n == sorted@.len(),
            n == pool.names_view().len(),
            sorted.deep_view().to_multiset() == index_keys(pool.names_view()).to_multiset(),
            forall|k: int|
                0 <= k < pool.records_view().len() ==> (#[trigger] pool.records_view()[k]).0.wf(),
            i <= n,
            out@.len() == 1 + i,
            forall|j: int|
                0 <= j < i ==> name_line(pool.names_view(), (#[trigger] out@[j + 1])@),
            out@[0]@ == "total "@ + dec_chars(pool.names_view().len() as int) + " of "@
                + dec_chars(pool.records_view().len() as int),
        decreases n - i,
    {
        let name = &sorted[i];
        proof {
            broadcast use vstd::multiset::group_multiset_axioms;

            sorted.deep_view().to_multiset_ensures();
            index_keys(pool.names_view()).to_multiset_ensures();
            assert(sorted.deep_view()[i as int] == name@);
            assert(sorted.deep_view().contains(name@));
            assert(index_keys(pool.names_view()).to_multiset().count(name@) > 0);
            assert(index_keys(pool.names_view()).contains(name@));
            let t = choose|t: int|
                0 <= t < index_keys(pool.names_view()).len() && index_keys(pool.names_view())[t]
                    == name@;
            assert(pool.names_view()[t].0 == name@);
        }
        let block = match pool.find_by_name(name.as_str()) {
            Some(c) => c,
            None => {
                proof {
                    assert(false);
                }
                return out;
            },
        };
        proof {
            // the block bound to the name is a record's block, so it is
            // well-formed and has a text
            let t = choose|t: int|
                0 <= t < pool.names_view().len() && (#[trigger] pool.names_view()[t]) == (
                    name@,
                    block,
                );
            pool.lemma_entry_block_wf(t);
        }
        let mut line = name.clone();
        let ghost base = line@;
        right_pad(&mut line, maxw);
        line.append("  ");
        let text = cidr_to_string(&block);
        line.append(text.as_str());
        proof {
            let t = choose|t: int|
                0 <= t < pool.names_view().len() && (#[trigger] pool.names_view()[t]) == (
                    name@,
                    block,
                );
            let pads = spare(base, maxw);
            assert(line@ == base + spaces(pads) + "  "@ + cidr_text(
                block.family is V6,
                block.address,
                block.network_length,
            ));
            assert(two_column(
                pool.names_view()[t].0,
                cidr_text(
                    pool.names_view()[t].1.family is V6,
                    pool.names_view()[t].1.address,
                    pool.names_view()[t].1.network_length,
                ),
                line@,
            ));
            assert(name_line(pool.names_view(), line@));
        }
        out.push(line);
        i = i + 1;
    }
    out
}

} // verus!
