//! The persisted snapshot: a pool flattened to its root block and the list
//! of its records, and the reverse reconstruction that replays each record
//! through `claim` to rebuild the tree and re-validate every invariant.

use vstd::prelude::*;

use crate::errors::AllocateError;
use crate::pool::SubnetPool;
use crate::text::{cidr_text, cidr_to_string, parse_cidr, parts_to_cidr, text_cidr};
use crate::{name_view, AllocateResult, Cidr, CidrRecord};

verus! {

/// What a flat record list must satisfy to be loadable into a fresh pool
/// over `root`: every block inside the root, no two blocks sharing an
/// address, no two records sharing a name.
pub open spec fn valid_snapshot(root: Cidr, entries: Seq<(Cidr, Option<Seq<char>>)>) -> bool {
    &&& forall|i: int|
        0 <= i < entries.len() ==> root.spec_contains((#[trigger] entries[i]).0)
    &&& forall|i: int, j: int|
        0 <= i < entries.len() && 0 <= j < entries.len() && i != j ==> (
        #[trigger] entries[i]).0.disjoint((#[trigger] entries[j]).0)
    &&& forall|i: int, j: int|
        0 <= i < entries.len() && 0 <= j < entries.len() && i != j && (#[trigger] entries[i]).1
            is Some ==> entries[i].1 != (#[trigger] entries[j]).1
}

/// The content of a record list.
pub open spec fn entries_view(entries: Seq<CidrRecord>) -> Seq<(Cidr, Option<Seq<char>>)> {
    entries.map_values(|rec: CidrRecord| rec.view_pair())
}

/// A sequence holding equal values at two positions counts that value at
/// least twice.
proof fn lemma_dup_count<A>(s: Seq<A>, a: int, b: int)
    requires
        0 <= a < s.len(),
        0 <= b < s.len(),
        a != b,
        s[a] == s[b],
    ensures
        s.to_multiset().count(s[a]) >= 2,
{
    broadcast use vstd::multiset::group_multiset_axioms;

    s.to_multiset_ensures();
    s.remove(a).to_multiset_ensures();
    let bb: int = if b < a {
        b
    } else {
        b - 1
    };
    assert(s.remove(a)[bb] == s[b]);
    assert(s.remove(a).contains(s[a]));
    assert(s.remove(a).to_multiset().count(s[a]) > 0);
}

/// Rebuild a pool from its root block and a flat record list, replaying each
/// record through `claim` in list order. Succeeds exactly when the list is a
/// valid snapshot of the root block; any claim failure aborts the load with
/// the claim's own error.
pub fn from_records(root: Cidr, entries: &Vec<CidrRecord>) -> (r: AllocateResult<SubnetPool>)
    requires
        root.wf(),
        forall|i: int| 0 <= i < entries@.len() ==> (#[trigger] entries@[i]).cidr.wf(),
    ensures
        match r {
            Ok(pool) => {
                &&& pool.wf()
                &&& pool.cidr_view() == root
                &&& pool.records_view().to_multiset() == entries_view(entries@).to_multiset()
                &&& valid_snapshot(root, entries_view(entries@))
            },
            Err(_) => !valid_snapshot(root, entries_view(entries@)),
        },
{
    let ghost ev = entries_view(entries@);
    let mut pool = SubnetPool::new(root);
    let n = entries.len();
    let mut i: usize = 0;
    proof {
        pool.records_view().to_multiset_ensures();
        ev.take(0).to_multiset_ensures();
        assert(ev.take(0) =~= Seq::<(Cidr, Option<Seq<char>>)>::empty());
        assert(pool.records_view().to_multiset() =~= ev.take(0).to_multiset());
    }
    while i < n
        invariant
            pool.wf(),
            pool.cidr_view() == root,
            root.wf(),
            n == entries@.len(),
            i <= n,
            forall|k: int| 0 <= k < entries@.len() ==> (#[trigger] entries@[k]).cidr.wf(),
            ev == entries_view(entries@),
            pool.records_view().to_multiset() == ev.take(i as int).to_multiset(),
            pool.records_view().len() == i,
        decreases n - i,
    {
        let e = &entries[i];
        let name_opt: Option<&str> = match &e.name {
            Some(s) => Some(s.as_str()),
            None => None,
        };
        proof {
            pool.records_view().to_multiset_ensures();
            ev.take(i as int).to_multiset_ensures();
            assert(ev[i as int] == (e.cidr, crate::opt_name(name_opt)));
        }
        let res = pool.claim(&e.cidr, name_opt);
        match res {
            Ok(()) => {
                proof {
                    assert(ev.take(i + 1) =~= ev.take(i as int).push(ev[i as int]));
                    ev.take(i as int).to_multiset_ensures();
                    assert(pool.records_view().to_multiset() =~= ev.take(i + 1).to_multiset());
                }
            },
            Err(err) => {
                proof {
                    let prev = ev.take(i as int);
                    prev.to_multiset_ensures();
                    match err {
                        AllocateError::DuplicateName => {
                            // the duplicate name already names an earlier entry
                            let nm = crate::opt_name(name_opt)->Some_0;
                            pool.lemma_name_bound_iff(nm);
                            let k = choose|k: int|
                                0 <= k < pool.records_view().len() && (
                                #[trigger] pool.records_view()[k]).1 == Some(nm);
                            assert(pool.records_view().contains(pool.records_view()[k]));
                            assert(pool.records_view().to_multiset().count(
                                pool.records_view()[k],
                            ) > 0);
                            assert(prev.to_multiset().count(pool.records_view()[k]) > 0);
                            assert(prev.contains(pool.records_view()[k]));
                            let j = choose|j: int|
                                0 <= j < prev.len() && #[trigger] prev[j]
                                    == pool.records_view()[k];
                            assert(ev[j].1 == Some(nm));
                            assert(ev[i as int].1 == Some(nm));
                            assert(!valid_snapshot(root, ev));
                        },
                        AllocateError::NoSpaceAvailable => {
                            if root.spec_contains(e.cidr) {
                                // some already-claimed entry overlaps this one
                                let k = choose|k: int|
                                    0 <= k < pool.records_view().len() && !((
                                    #[trigger] pool.records_view()[k]).0.disjoint(e.cidr));
                                assert(pool.records_view().contains(pool.records_view()[k]));
                                assert(pool.records_view().to_multiset().count(
                                    pool.records_view()[k],
                                ) > 0);
                                assert(prev.to_multiset().count(pool.records_view()[k]) > 0);
                                assert(prev.contains(pool.records_view()[k]));
                                let j = choose|j: int|
                                    0 <= j < prev.len() && #[trigger] prev[j]
                                        == pool.records_view()[k];
                                assert(!(ev[j].0.disjoint(ev[i as int].0)));
                                assert(!valid_snapshot(root, ev));
                            } else {
                                assert(!root.spec_contains(ev[i as int].0));
                                assert(!valid_snapshot(root, ev));
                            }
                        },
                    }
                }
                return Err(err);
            },
        }
        i = i + 1;
    }
    proof {
        assert(ev.take(n as int) =~= ev);
        pool.lemma_records_structure();
        pool.records_view().to_multiset_ensures();
        ev.to_multiset_ensures();
        let rv = pool.records_view();
        // every entry is one of the pool's records, which are contained,
        // pairwise disjoint and distinctly named
        assert forall|a: int| 0 <= a < ev.len() implies root.spec_contains(
            (#[trigger] ev[a]).0,
        ) by {
            assert(ev.contains(ev[a]));
            assert(ev.to_multiset().count(ev[a]) > 0);
            assert(rv.contains(ev[a]));
        }
        assert forall|a: int, b: int|
            0 <= a < ev.len() && 0 <= b < ev.len() && a != b implies (
        #[trigger] ev[a]).0.disjoint((#[trigger] ev[b]).0) by {
            if ev[a] == ev[b] {
                lemma_dup_count(ev, a, b);
                assert(rv.to_multiset().count(ev[a]) >= 2);
                lemma_mset_count_le_one(rv, ev[a]);
            } else {
                assert(ev.contains(ev[a]));
                assert(ev.to_multiset().count(ev[a]) > 0);
                assert(rv.contains(ev[a]));
                assert(ev.contains(ev[b]));
                assert(ev.to_multiset().count(ev[b]) > 0);
                assert(rv.contains(ev[b]));
                let ka = choose|ka: int| 0 <= ka < rv.len() && #[trigger] rv[ka] == ev[a];
                let kb = choose|kb: int| 0 <= kb < rv.len() && #[trigger] rv[kb] == ev[b];
                assert(rv[ka].0.disjoint(rv[kb].0));
            }
        }
        assert forall|a: int, b: int|
            0 <= a < ev.len() && 0 <= b < ev.len() && a != b && (#[trigger] ev[a]).1
                is Some implies ev[a].1 != (#[trigger] ev[b]).1 by {
            if ev[a].1 == ev[b].1 {
                if ev[a] == ev[b] {
                    lemma_dup_count(ev, a, b);
                    assert(rv.to_multiset().count(ev[a]) >= 2);
                    lemma_mset_count_le_one(rv, ev[a]);
                } else {
                    assert(ev.contains(ev[a]));
                    assert(ev.to_multiset().count(ev[a]) > 0);
                    assert(rv.contains(ev[a]));
                    assert(ev.contains(ev[b]));
                    assert(ev.to_multiset().count(ev[b]) > 0);
                    assert(rv.contains(ev[b]));
                    let ka = choose|ka: int| 0 <= ka < rv.len() && #[trigger] rv[ka] == ev[a];
                    let kb = choose|kb: int| 0 <= kb < rv.len() && #[trigger] rv[kb] == ev[b];
                    assert(rv[ka].1 != rv[kb].1);
                }
            }
        }
    }
    Ok(pool)
}

/// A pool's records never hold any value twice: two positions holding it
/// would be two allocated blocks over the same addresses.
proof fn lemma_mset_count_le_one(rv: Seq<(Cidr, Option<Seq<char>>)>, v: (Cidr, Option<Seq<char>>))
    requires
        forall|i: int, j: int|
            0 <= i < rv.len() && 0 <= j < rv.len() && i != j ==> (#[trigger] rv[i]).0.disjoint(
                (#[trigger] rv[j]).0,
            ),
        forall|i: int|
            0 <= i < rv.len() ==> (#[trigger] rv[i]).0.wf(),
    ensures
        rv.to_multiset().count(v) <= 1,
{
    broadcast use vstd::multiset::group_multiset_axioms;

    rv.to_multiset_ensures();
    if rv.to_multiset().count(v) >= 2 {
        assert(rv.contains(v));
        let a = choose|a: int| 0 <= a < rv.len() && rv[a] == v;
        rv.remove(a).to_multiset_ensures();
        assert(rv.remove(a).to_multiset() =~= rv.to_multiset().remove(v));
        assert(rv.remove(a).to_multiset().count(v) >= 1);
        assert(rv.remove(a).contains(v));
        let b0 = choose|b0: int| 0 <= b0 < rv.remove(a).len() && rv.remove(a)[b0] == v;
        let b: int = if b0 < a {
            b0
        } else {
            b0 + 1
        };
        assert(rv[b] == v);
        assert(rv[a].0.disjoint(rv[b].0));
        crate::util::lemma_contains_not_disjoint(rv[a].0, rv[a].0);
    }
}

/// Law (round trip): the records of a well-formed pool always form a valid
/// snapshot of its root block, so `from_records` on them is guaranteed to
/// succeed and, by its contract, rebuilds a pool holding exactly the same
/// records.
pub proof fn lemma_round_trip(pool: &SubnetPool)
    requires
        pool.wf(),
    ensures
        valid_snapshot(pool.cidr_view(), pool.records_view()),
{
    pool.lemma_records_structure();
}

/// A snapshot that could not be loaded: a block text that does not parse,
/// or a record that could not be claimed while replaying the list.
#[derive(Debug, Clone, PartialEq, Eq, Structural)]
pub enum SnapshotError {
    InvalidCidr,
    Allocate(AllocateError),
}

impl SnapshotError {
    /// The human-readable message for this error.
    pub fn message(&self) -> (r: String)
        ensures
            self is InvalidCidr ==> r@ == "Invalid CIDR"@,
            self matches SnapshotError::Allocate(e) && e is DuplicateName ==> r@ == "Duplicate name"@,
            self matches SnapshotError::Allocate(e) && e is NoSpaceAvailable ==> r@ == "No space available"@,
    {
        match self {
            SnapshotError::InvalidCidr => "Invalid CIDR".to_owned(),
            SnapshotError::Allocate(e) => e.message(),
        }
    }
}

/// The blocks and names that a textual record list denotes; meaningful only
/// where every block text parses.
pub open spec fn parsed_entries(subnets: Seq<(String, Option<String>)>) -> Seq<
    (Cidr, Option<Seq<char>>),
> {
    subnets.map_values(
        |e: (String, Option<String>)| (parts_to_cidr(text_cidr(e.0@)->Some_0), name_view(e.1)),
    )
}

/// Flatten a pool to its textual snapshot: the root block's text and every
/// record as (block text, optional name), in ascending address order. Every
/// emitted block text parses back to the block it was printed from.
pub fn save(pool: &SubnetPool) -> (r: (String, Vec<(String, Option<String>)>))
    requires
        pool.wf(),
    ensures
        r.0@ == cidr_text(
            pool.cidr_view().family is V6,
            pool.cidr_view().address,
            pool.cidr_view().network_length,
        ),
        text_cidr(r.0@) == Some(
            (
                pool.cidr_view().family is V6,
                pool.cidr_view().address,
                pool.cidr_view().network_length,
            ),
        ),
        r.1@.len() == pool.records_view().len(),
        forall|i: int|
            0 <= i < r.1@.len() ==> (#[trigger] r.1@[i]).0@ == cidr_text(
                pool.records_view()[i].0.family is V6,
                pool.records_view()[i].0.address,
                pool.records_view()[i].0.network_length,
            ) && text_cidr(r.1@[i].0@) == Some(
                (
                    pool.records_view()[i].0.family is V6,
                    pool.records_view()[i].0.address,
                    pool.records_view()[i].0.network_length,
                ),
            ) && name_view(r.1@[i].1) == pool.records_view()[i].1,
{
    proof {
        pool.lemma_records_structure();
    }
    let root_text = cidr_to_string(pool.cidr());
    let recs = pool.records();
    let n = recs.len();
    let mut subnets: Vec<(String, Option<String>)> = Vec::new();
    let mut i: usize = 0;
    while i < n
        invariant
            pool.wf(),
            n == recs@.len(),
            recs@.len() == pool.records_view().len(),
            forall|j: int|
                0 <= j < recs@.len() ==> (#[trigger] recs@[j]).view_pair()
                    == pool.records_view()[j],
            forall|j: int|
                0 <= j < pool.records_view().len() ==> (#[trigger] pool.records_view()[j]).0.wf(),
            i <= n,
            subnets@.len() == i,
            forall|j: int|
                0 <= j < i ==> (#[trigger] subnets@[j]).0@ == cidr_text(
                    pool.records_view()[j].0.family is V6,
                    pool.records_view()[j].0.address,
                    pool.records_view()[j].0.network_length,
                ) && text_cidr(subnets@[j].0@) == Some(
                    (
                        pool.records_view()[j].0.family is V6,
                        pool.records_view()[j].0.address,
                        pool.records_view()[j].0.network_length,
                    ),
                ) && name_view(subnets@[j].1) == pool.records_view()[j].1,
        decreases n - i,
    {
        proof {
            assert(recs@[i as int].view_pair() == pool.records_view()[i as int]);
        }
        let text = cidr_to_string(&recs[i].cidr);
        let name: Option<String> = match &recs[i].name {
            Some(s) => Some(s.clone()),
            None => None,
        };
        subnets.push((text, name));
        i = i + 1;
    }
    (root_text, subnets)
}

/// Load a textual snapshot: parse the root block and every record block,
/// then rebuild the pool by replaying each record through `claim` in list
/// order. A block text that does not parse aborts with `InvalidCidr`; a
/// record that cannot be claimed aborts with that claim's error.
pub fn load(cidr: &str, subnets: &Vec<(String, Option<String>)>) -> (r: Result<
    SubnetPool,
    SnapshotError,
>)
    ensures
        match r {
            Ok(pool) => {
                &&& text_cidr(cidr@) is Some
                &&& pool.wf()
                &&& pool.cidr_view() == parts_to_cidr(text_cidr(cidr@)->Some_0)
                &&& forall|i: int|
                    0 <= i < subnets@.len() ==> text_cidr((#[trigger] subnets@[i]).0@) is Some
                &&& pool.records_view().to_multiset() == parsed_entries(subnets@).to_multiset()
                &&& valid_snapshot(pool.cidr_view(), parsed_entries(subnets@))
            },
            Err(SnapshotError::InvalidCidr) => text_cidr(cidr@) is None || exists|i: int|
                0 <= i < subnets@.len() && text_cidr((#[trigger] subnets@[i]).0@) is None,
            Err(SnapshotError::Allocate(_)) => {
                &&& text_cidr(cidr@) is Some
                &&& forall|i: int|
                    0 <= i < subnets@.len() ==> text_cidr((#[trigger] subnets@[i]).0@) is Some
                &&& !valid_snapshot(
                    parts_to_cidr(text_cidr(cidr@)->Some_0),
                    parsed_entries(subnets@),
                )
            },
        },
{
    let root = match parse_cidr(cidr) {
        Some(c) => c,
        None => {
            return Err(SnapshotError::InvalidCidr);
        },
    };
    proof {
        assert(parts_to_cidr((root.family is V6, root.address, root.network_length)) == root);
    }
    let mut recs: Vec<CidrRecord> = Vec::new();
    let n = subnets.len();
    let mut i: usize = 0;
    while i < n
        invariant
            n == subnets@.len(),
            i <= n,
            recs@.len() == i,
            forall|j: int| 0 <= j < i ==> text_cidr((#[trigger] subnets@[j]).0@) is Some,
            forall|j: int| 0 <= j < i ==> (#[trigger] recs@[j]).cidr.wf(),
            forall|j: int|
                0 <= j < i ==> (#[trigger] recs@[j]).view_pair() == (
                    parts_to_cidr(text_cidr(subnets@[j].0@)->Some_0),
                    name_view(subnets@[j].1),
                ),
        decreases n - i,
    {
        let block = match parse_cidr(subnets[i].0.as_str()) {
            Some(c) => c,
            None => {
                return Err(SnapshotError::InvalidCidr);
            },
        };
        proof {
            assert(parts_to_cidr((block.family is V6, block.address, block.network_length))
                == block);
        }
        let name: Option<String> = match &subnets[i].1 {
            Some(s) => Some(s.clone()),
            None => None,
        };
        recs.push(CidrRecord { cidr: block, name });
        i = i + 1;
    }
    proof {
        assert(entries_view(recs@) =~= parsed_entries(subnets@));
    }
    match from_records(root, &recs) {
        Ok(pool) => Ok(pool),
        Err(e) => Err(SnapshotError::Allocate(e)),
    }
}

} // verus!
