//! The subnet pool: one root block whose free space is handed out as
//! smaller blocks, plus a name index over the allocated blocks. The index is
//! authoritative for name uniqueness; the tree carries names for enumeration.

use vstd::prelude::*;
use vstd::seq_lib::lemma_multiset_commutative;

use crate::errors::{AllocateError, RenameError};
use crate::subspace::{lemma_sorted_records_unique, Subspace};
use crate::text::str_eq;
use crate::util::{cidr_contains, lemma_end_in_space};
use crate::{name_view, opt_name, AllocateResult, Bits, Cidr, CidrRecord, RenameResult};

verus! {

/// How the name index changes when the record for block `c` is renamed:
/// the old name's entry (if any) leaves its place, the new name's entry (if
/// any) is appended.
pub open spec fn rename_index_rel(
    before: Seq<(Seq<char>, Cidr)>,
    after: Seq<(Seq<char>, Cidr)>,
    old_name: Option<Seq<char>>,
    new_name: Option<Seq<char>>,
    c: Cidr,
) -> bool {
    match (old_name, new_name) {
        (Some(on), Some(nn)) => exists|j: int|
            0 <= j < before.len() && #[trigger] before[j] == (on, c) && after == before.remove(
                j,
            ).push((nn, c)),
        (Some(on), None) => exists|j: int|
            0 <= j < before.len() && #[trigger] before[j] == (on, c) && after == before.remove(j),
        (None, Some(nn)) => after == before.push((nn, c)),
        (None, None) => after == before,
    }
}

/// A pool of address blocks: a binary space-partitioning tree over one root
/// block, and a name-to-block index kept transactionally in sync with it.
#[derive(Debug, PartialEq)]
pub struct SubnetPool {
    root: Subspace,
    names: Vec<(String, Cidr)>,
}

impl SubnetPool {
    /// The pool's records: every allocated block with the characters of its
    /// name, in ascending address order.
    pub closed spec fn records_view(&self) -> Seq<(Cidr, Option<Seq<char>>)> {
        self.root.records()
    }

    /// The name index: (name characters, block) pairs, in insertion order.
    pub closed spec fn names_view(&self) -> Seq<(Seq<char>, Cidr)> {
        self.names@.map_values(|p: (String, Cidr)| (p.0@, p.1))
    }

    /// The pool's root block.
    pub closed spec fn cidr_view(&self) -> Cidr {
        self.root.cidr
    }

    /// The blocks still free in the pool, in ascending address order.
    pub closed spec fn free_view(&self) -> Seq<Cidr> {
        self.root.free_blocks()
    }

    /// The size, in host bits, of the largest block still allocatable.
    pub closed spec fn max_view(&self) -> int {
        self.root.spec_max_available()
    }

    /// Whether a block with exactly this first address and prefix is
    /// allocated.
    pub open spec fn has_block(&self, block: Cidr) -> bool {
        exists|i: int|
            0 <= i < self.records_view().len() && (#[trigger] self.records_view()[i]).0 == block
    }

    /// Whether some allocated block carries this name.
    pub open spec fn name_bound(&self, name: Seq<char>) -> bool {
        exists|i: int|
            0 <= i < self.names_view().len() && (#[trigger] self.names_view()[i]).0 == name
    }

    /// Whether `block` could be claimed: it lies within the root block and
    /// covers no address of any allocated block.
    pub open spec fn claimable(&self, block: Cidr) -> bool {
        &&& self.cidr_view().spec_contains(block)
        &&& forall|i: int|
            0 <= i < self.records_view().len() ==> (#[trigger] self.records_view()[i]).0.disjoint(
                block,
            )
    }

    /// The pool's well-formedness, established by `new` and preserved by
    /// every operation: the tree is well-formed with exact aggregates, the
    /// index's names are distinct, every index entry names an allocated
    /// record, and every named record has its index entry.
    pub closed spec fn wf(&self) -> bool {
        &&& self.root.inv()
        &&& forall|i: int, j: int|
            0 <= i < j < self.names_view().len() ==> (#[trigger] self.names_view()[i]).0 != (
            #[trigger] self.names_view()[j]).0
        &&& forall|i: int|
            0 <= i < self.names_view().len() ==> self.records_view().to_multiset().count(
                (((#[trigger] self.names_view()[i]).1, Some(self.names_view()[i].0))),
            ) > 0
        &&& forall|k: int|
            0 <= k < self.records_view().len() ==> match (#[trigger] self.records_view()[k]).1 {
                Some(n) => exists|i: int|
                    0 <= i < self.names_view().len() && (#[trigger] self.names_view()[i]) == (
                        n,
                        self.records_view()[k].0,
                    ),
                None => true,
            }
    }

    /// A fresh pool over one root block: wholly free, nothing named.
    pub fn new(cidr: Cidr) -> (r: SubnetPool)
        requires
            cidr.wf(),
        ensures
            r.wf(),
            r.cidr_view() == cidr,
            r.records_view() =~= Seq::<(Cidr, Option<Seq<char>>)>::empty(),
            r.names_view() =~= Seq::<(Seq<char>, Cidr)>::empty(),
            r.free_view() =~= seq![cidr],
            r.max_view() == cidr.spec_host_length(),
    {
        let r = SubnetPool { root: Subspace::new(cidr), names: Vec::new() };
        proof {
            assert(r.names_view() =~= Seq::<(Seq<char>, Cidr)>::empty());
            r.records_view().to_multiset_ensures();
        }
        r
    }

    /// The root block this pool hands blocks out of.
    pub fn cidr(&self) -> (r: &Cidr)
        ensures
            *r == self.cidr_view(),
    {
        &self.root.cidr
    }

    /// How many blocks are allocated, read from the root's cached aggregate.
    pub fn allocated_count(&self) -> (r: usize)
        requires
            self.wf(),
        ensures
            r == self.records_view().len(),
    {
        self.root.allocated_count
    }

    /// How many allocated blocks carry a name.
    pub fn named_count(&self) -> (r: usize)
        ensures
            r == self.names_view().len(),
    {
        self.names.len()
    }

    /// The size, in host bits, of the largest block a subsequent allocation
    /// could return, read from the root's cached aggregate.
    pub fn max_available_bits(&self) -> (r: Bits)
        requires
            self.wf(),
        ensures
            r as int == self.max_view(),
    {
        self.root.max_available_bits
    }

    /// Look a name up in the index.
    pub fn find_by_name(&self, name: &str) -> (r: Option<Cidr>)
        ensures
            match r {
                Some(c) => exists|i: int|
                    0 <= i < self.names_view().len() && (#[trigger] self.names_view()[i]) == (
                        name@,
                        c,
                    ),
                None => !self.name_bound(name@),
            },
    {
        match self.index_of_name(name) {
            Some(i) => {
                proof {
                    assert(self.names_view()[i as int] == (name@, self.names@[i as int].1));
                }
                Some(self.names[i].1)
            },
            None => None,
        }
    }

    /// The position of a name in the index, if present.
    fn index_of_name(&self, name: &str) -> (r: Option<usize>)
        ensures
            match r {
                Some(i) => i < self.names_view().len() && self.names_view()[i as int].0 == name@,
                None => !self.name_bound(name@),
            },
    {
        let n = self.names.len();
        let mut i: usize = 0;
        while i < n
            invariant
                n == self.names@.len(),
                i <= n,
                forall|j: int| 0 <= j < i ==> (#[trigger] self.names_view()[j]).0 != name@,
            decreases n - i,
        {
            if str_eq(self.names[i].0.as_str(), name) {
                proof {
                    assert(self.names_view()[i as int].0 == name@);
                }
                return Some(i);
            }
            proof {
                assert(self.names_view()[i as int].0 == self.names@[i as int].0@);
            }
            i = i + 1;
        }
        None
    }

    /// Whether a block with exactly this first address and prefix is
    /// allocated.
    pub fn contains(&self, cidr: &Cidr) -> (r: bool)
        requires
            self.wf(),
            cidr.wf(),
        ensures
            r == self.has_block(*cidr),
    {
        match self.root.find_record(cidr) {
            Some(_) => true,
            None => false,
        }
    }

    /// Allocate a free block of exactly `bits` host bits, attaching `name`
    /// to it. The name-uniqueness check comes first: a duplicate name leaves
    /// the tree untouched. On success the returned block is the
    /// lowest-addressed free block of at least the requested size, trimmed
    /// to the requested size; `NoSpaceAvailable` comes exactly when no free
    /// leaf of at least `bits` host bits exists.
    pub fn allocate(&mut self, bits: Bits, name: Option<&str>) -> (r: AllocateResult<Cidr>)
        requires
            old(self).wf(),
            old(self).records_view().len() < usize::MAX,
        ensures
            final(self).wf(),
            final(self).cidr_view() == old(self).cidr_view(),
            match r {
                Ok(c) => {
                    &&& (name matches Some(n) ==> !old(self).name_bound(n@))
                    &&& bits as int <= old(self).max_view()
                    &&& old(self).free_view().len() > 0
                    &&& c.wf()
                    &&& c.family == old(self).cidr_view().family
                    &&& c.spec_host_length() == bits as nat
                    &&& old(self).cidr_view().spec_contains(c)
                    &&& final(self).records_view().to_multiset() == old(
                        self,
                    ).records_view().to_multiset().insert((c, opt_name(name)))
                    &&& final(self).records_view().len() == old(self).records_view().len() + 1
                    &&& final(self).names_view() == (match name {
                        Some(n) => old(self).names_view().push((n@, c)),
                        None => old(self).names_view(),
                    })
                    &&& exists|i: int|
                        0 <= i < old(self).free_view().len() && (#[trigger] old(
                            self,
                        ).free_view()[i]).start() == c.start() && old(
                            self,
                        ).free_view()[i].spec_host_length() >= bits as nat
                    &&& forall|i: int|
                        0 <= i < old(self).free_view().len() && (#[trigger] old(
                            self,
                        ).free_view()[i]).spec_host_length() >= bits as nat ==> c.start() <= old(
                            self,
                        ).free_view()[i].start()
                },
                Err(AllocateError::DuplicateName) => {
                    &&& name matches Some(n) && old(self).name_bound(n@)
                    &&& *final(self) == *old(self)
                },
                Err(AllocateError::NoSpaceAvailable) => {
                    &&& (name matches Some(n) ==> !old(self).name_bound(n@))
                    &&& !(bits as int <= old(self).max_view() && old(self).free_view().len() > 0)
                    &&& *final(self) == *old(self)
                },
            },
    {
        if let Some(n) = name {
            if self.index_of_name(n).is_some() {
                return Err(AllocateError::DuplicateName);
            }
        }
        let res = self.root.allocate_free_space(bits, name);
        match res {
            Some(c) => {
                if let Some(n) = name {
                    self.names.push((n.to_owned(), c));
                }
                proof {
                    match name {
                        Some(n) => {
                            assert(self.names_view() =~= old(self).names_view().push((n@, c)));
                        },
                        None => {
                            assert(self.names_view() =~= old(self).names_view());
                        },
                    }
                    self.lemma_index_after_insert(*old(self), c, name);
                }
                Ok(c)
            },
            None => Err(AllocateError::NoSpaceAvailable),
        }
    }

    /// Claim one specific block, attaching `name` to it. The
    /// name-uniqueness check comes first: a duplicate name leaves the tree
    /// untouched. `NoSpaceAvailable` comes exactly when the block lies
    /// outside the root block or overlaps an already-allocated block.
    pub fn claim(&mut self, cidr: &Cidr, name: Option<&str>) -> (r: AllocateResult<()>)
        requires
            old(self).wf(),
            cidr.wf(),
            old(self).records_view().len() < usize::MAX,
        ensures
            final(self).wf(),
            final(self).cidr_view() == old(self).cidr_view(),
            match r {
                Ok(()) => {
                    &&& (name matches Some(n) ==> !old(self).name_bound(n@))
                    &&& old(self).claimable(*cidr)
                    &&& final(self).records_view().to_multiset() == old(
                        self,
                    ).records_view().to_multiset().insert((*cidr, opt_name(name)))
                    &&& final(self).records_view().len() == old(self).records_view().len() + 1
                    &&& final(self).names_view() == (match name {
                        Some(n) => old(self).names_view().push((n@, *cidr)),
                        None => old(self).names_view(),
                    })
                },
                Err(AllocateError::DuplicateName) => {
                    &&& name matches Some(n) && old(self).name_bound(n@)
                    &&& *final(self) == *old(self)
                },
                Err(AllocateError::NoSpaceAvailable) => {
                    &&& (name matches Some(n) ==> !old(self).name_bound(n@))
                    &&& !old(self).claimable(*cidr)
                    &&& *final(self) == *old(self)
                },
            },
    {
        if let Some(n) = name {
            if self.index_of_name(n).is_some() {
                return Err(AllocateError::DuplicateName);
            }
        }
        if self.root.claim(cidr, name) {
            if let Some(n) = name {
                self.names.push((n.to_owned(), *cidr));
            }
            proof {
                match name {
                    Some(n) => {
                        assert(self.names_view() =~= old(self).names_view().push((n@, *cidr)));
                    },
                    None => {
                        assert(self.names_view() =~= old(self).names_view());
                    },
                }
                self.lemma_index_after_insert(*old(self), *cidr, name);
            }
            Ok(())
        } else {
            Err(AllocateError::NoSpaceAvailable)
        }
    }

    /// After one record `(c, name)` was added to the tree and, when named,
    /// the entry `(name, c)` was appended to the index, the pool is
    /// well-formed again.
    proof fn lemma_index_after_insert(&self, prev: SubnetPool, c: Cidr, name: Option<&str>)
        requires
            prev.wf(),
            self.root.inv(),
            self.records_view().to_multiset() == prev.records_view().to_multiset().insert(
                (c, opt_name(name)),
            ),
            name matches Some(n) ==> !prev.name_bound(n@),
            self.names_view() == (match name {
                Some(n) => prev.names_view().push((n@, c)),
                None => prev.names_view(),
            }),
        ensures
            self.wf(),
    {
        self.records_view().to_multiset_ensures();
        prev.records_view().to_multiset_ensures();
        let nv = self.names_view();
        let pv = prev.names_view();
        // names stay pairwise distinct: the appended one was fresh
        assert forall|i: int, j: int| 0 <= i < j < nv.len() implies (#[trigger] nv[i]).0 != (
        #[trigger] nv[j]).0 by {
            if j < pv.len() {
                assert(pv[i].0 != pv[j].0);
            } else {
                assert(nv[i].0 == pv[i].0);
            }
        }
        // every index entry still has its record
        assert forall|i: int| 0 <= i < nv.len() implies self.records_view().to_multiset().count(
            (((#[trigger] nv[i]).1, Some(nv[i].0))),
        ) > 0 by {
            if i < pv.len() {
                assert(prev.records_view().to_multiset().count(((pv[i].1, Some(pv[i].0)))) > 0);
            } else {
                assert(nv[i] == (opt_name(name)->Some_0, c));
            }
        }
        // every named record still has its entry
        assert forall|k: int| 0 <= k < self.records_view().len() implies match (
        #[trigger] self.records_view()[k]).1 {
            Some(n) => exists|i: int|
                0 <= i < nv.len() && (#[trigger] nv[i]) == (n, self.records_view()[k].0),
            None => true,
        } by {
            let pair = self.records_view()[k];
            match pair.1 {
                Some(n) => {
                    assert(self.records_view().to_multiset().count(pair) > 0);
                    if pair == (c, opt_name(name)) {
                        match name {
                            Some(nm) => {
                                assert(nv[pv.len() as int] == (nm@, c));
                            },
                            None => {},
                        }
                    } else {
                        assert(prev.records_view().to_multiset().count(pair) > 0);
                        assert(prev.records_view().contains(pair));
                        let k0 = choose|k0: int|
                            0 <= k0 < prev.records_view().len() && prev.records_view()[k0] == pair;
                        assert(prev.records_view()[k0].1 matches Some(m) && m == n);
                        let i = choose|i: int|
                            0 <= i < pv.len() && (#[trigger] pv[i]) == (n, prev.records_view()[k0].0);
                        assert(nv[i] == (n, pair.0));
                    }
                },
                None => {},
            }
        }
    }

    /// Distinct records govern distinct blocks: records are laid out in
    /// strictly ascending address order, so no two share a first address
    /// and prefix.
    proof fn lemma_blocks_distinct(&self)
        requires
            self.wf(),
        ensures
            forall|k1: int, k2: int|
                0 <= k1 < k2 < self.records_view().len() ==> (#[trigger] self.records_view()[k1]).0
                    != (#[trigger] self.records_view()[k2]).0,
    {
        self.root.lemma_parts_ordered();
        self.root.lemma_parts_in_block();
        assert forall|k1: int, k2: int| 0 <= k1 < k2 < self.records_view().len() implies (
        #[trigger] self.records_view()[k1]).0 != (#[trigger] self.records_view()[k2]).0 by {
            lemma_end_in_space(self.records_view()[k1].0);
            assert(self.records_view()[k1].0.end() <= self.records_view()[k2].0.start());
        }
    }

    /// Release the allocated block equal to `cidr`: the tree loses exactly
    /// that record (collapsing now-free siblings), and if the record was
    /// named, its entry leaves the index. Returns true exactly when such an
    /// allocated block existed; a failing call changes nothing.
    pub fn free(&mut self, cidr: &Cidr) -> (r: bool)
        requires
            old(self).wf(),
            cidr.wf(),
        ensures
            final(self).wf(),
            final(self).cidr_view() == old(self).cidr_view(),
            r == old(self).has_block(*cidr),
            !r ==> *final(self) == *old(self),
            r ==> exists|i: int|
                0 <= i < old(self).records_view().len() && (#[trigger] old(
                    self,
                ).records_view()[i]).0 == *cidr && final(self).records_view() == old(
                    self,
                ).records_view().remove(i) && (match old(self).records_view()[i].1 {
                    Some(n) => exists|j: int|
                        0 <= j < old(self).names_view().len() && (#[trigger] old(
                            self,
                        ).names_view()[j]) == (n, *cidr) && final(self).names_view() == old(
                            self,
                        ).names_view().remove(j),
                    None => final(self).names_view() == old(self).names_view(),
                }),
    {
        proof {
            self.lemma_blocks_distinct();
        }
        let found = self.root.find_record(cidr);
        match found {
            None => false,
            Some(rec) => {
                let freed = self.root.free(cidr);
                proof {
                    assert(freed);
                }
                let ghost i = choose|i: int|
                    0 <= i < old(self).records_view().len() && (#[trigger] old(
                        self,
                    ).records_view()[i]).0 == *cidr && self.records_view() == old(
                        self,
                    ).records_view().remove(i);
                proof {
                    // the freed record is the one the lookup returned
                    let k = choose|k: int|
                        0 <= k < old(self).records_view().len() && #[trigger] old(
                            self,
                        ).records_view()[k] == (*cidr, name_view(rec.name));
                    assert(k == i);
                }
                match &rec.name {
                    Some(nm) => {
                        let jopt = self.index_of_name(nm.as_str());
                        match jopt {
                            Some(j) => {
                                proof {
                                    // the entry keyed by this name maps to this block
                                    old(self).records_view().to_multiset_ensures();
                                    let pj = old(self).names_view()[j as int];
                                    assert(old(self).records_view().to_multiset().count(
                                        ((pj.1, Some(pj.0))),
                                    ) > 0);
                                    let k2 = choose|k2: int|
                                        0 <= k2 < old(self).records_view().len() && #[trigger] old(
                                            self,
                                        ).records_view()[k2] == (pj.1, Some(pj.0));
                                    // records k2 and i both carry the name, so their
                                    // index entries coincide and so do their blocks
                                    let t2 = choose|t2: int|
                                        0 <= t2 < old(self).names_view().len() && (#[trigger] old(
                                            self,
                                        ).names_view()[t2]) == (nm@, old(self).records_view()[k2].0);
                                    let t1 = choose|t1: int|
                                        0 <= t1 < old(self).names_view().len() && (#[trigger] old(
                                            self,
                                        ).names_view()[t1]) == (nm@, *cidr);
                                    assert(t1 == t2);
                                    assert(old(self).names_view()[j as int] == (nm@, *cidr));
                                }
                                self.names.remove(j);
                                proof {
                                    assert(self.names_view() =~= old(self).names_view().remove(
                                        j as int,
                                    ));
                                    self.lemma_index_after_remove(
                                        *old(self),
                                        *cidr,
                                        i,
                                        Some(j as int),
                                    );
                                }
                                true
                            },
                            None => {
                                proof {
                                    assert(old(self).records_view()[i].1 == Some(nm@));
                                    assert(false);
                                }
                                true
                            },
                        }
                    },
                    None => {
                        proof {
                            assert(old(self).records_view()[i].1 == None::<Seq<char>>);
                            self.lemma_index_after_remove(*old(self), *cidr, i, None);
                        }
                        true
                    },
                }
            },
        }
    }

    /// After the record at `i` (with block `c`) left the tree and, when it
    /// was named, its entry left the index, the pool is well-formed again.
    proof fn lemma_index_after_remove(&self, prev: SubnetPool, c: Cidr, i: int, j_opt: Option<int>)
        requires
            prev.wf(),
            self.root.inv(),
            0 <= i < prev.records_view().len(),
            prev.records_view()[i].0 == c,
            self.records_view() == prev.records_view().remove(i),
            match prev.records_view()[i].1 {
                Some(n) => j_opt matches Some(j) && 0 <= j < prev.names_view().len()
                    && prev.names_view()[j] == (n, c) && self.names_view()
                    == prev.names_view().remove(j),
                None => j_opt is None && self.names_view() == prev.names_view(),
            },
        ensures
            self.wf(),
    {
        prev.records_view().to_multiset_ensures();
        self.records_view().to_multiset_ensures();
        prev.lemma_blocks_distinct();
        let nv = self.names_view();
        let pv = prev.names_view();
        let removed = prev.records_view()[i];
        assert(self.records_view().to_multiset() =~= prev.records_view().to_multiset().remove(
            removed,
        ));
        // map a surviving index position back to its old position
        let back = |t: int| -> int
            {
                match j_opt {
                    Some(j) => if t < j {
                        t
                    } else {
                        t + 1
                    },
                    None => t,
                }
            };
        assert forall|t: int| 0 <= t < nv.len() implies nv[t] == pv[back(t)] && 0 <= back(t)
            < pv.len() by {}
        assert forall|a: int, b: int| 0 <= a < b < nv.len() implies (#[trigger] nv[a]).0 != (
        #[trigger] nv[b]).0 by {
            assert(nv[a] == pv[back(a)]);
            assert(nv[b] == pv[back(b)]);
        }
        assert forall|t: int| 0 <= t < nv.len() implies self.records_view().to_multiset().count(
            (((#[trigger] nv[t]).1, Some(nv[t].0))),
        ) > 0 by {
            let pj = pv[back(t)];
            assert(nv[t] == pj);
            assert(prev.records_view().to_multiset().count(((pj.1, Some(pj.0)))) > 0);
            if (pj.1, Some(pj.0)) == removed {
                // then this entry names the removed record, so it is the
                // removed entry itself: contradiction with it surviving
                match j_opt {
                    Some(j) => {
                        assert(pv[j] == (removed.1->Some_0, c));
                        assert(pv[back(t)].0 == pv[j].0);
                        assert(back(t) == j);
                        assert(false);
                    },
                    None => {
                        assert(false);
                    },
                }
            }
        }
        assert forall|k: int| 0 <= k < self.records_view().len() implies match (
        #[trigger] self.records_view()[k]).1 {
            Some(n) => exists|t: int|
                0 <= t < nv.len() && (#[trigger] nv[t]) == (n, self.records_view()[k].0),
            None => true,
        } by {
            let kk: int = if k < i {
                k
            } else {
                k + 1
            };
            assert(self.records_view()[k] == prev.records_view()[kk]);
            let pair = prev.records_view()[kk];
            match pair.1 {
                Some(n) => {
                    let t0 = choose|t0: int|
                        0 <= t0 < pv.len() && (#[trigger] pv[t0]) == (n, pair.0);
                    match j_opt {
                        Some(j) => {
                            if t0 == j {
                                // the removed entry named the removed record,
                                // whose block a survivor cannot share
                                assert(pair.0 == c);
                                assert(prev.records_view()[kk].0 == prev.records_view()[i].0);
                                assert(false);
                            }
                            let t: int = if t0 < j {
                                t0
                            } else {
                                t0 - 1
                            };
                            assert(nv[t] == pv[back(t)]);
                            assert(nv[t] == (n, pair.0));
                        },
                        None => {
                            assert(nv[t0] == (n, pair.0));
                        },
                    }
                },
                None => {},
            }
        }
    }

    /// Rename the allocated block equal to `cidr`: fails with `NoSuchObject`
    /// when no such block is allocated; renaming to the current name
    /// (including none to none) succeeds and changes nothing; a new name
    /// already bound to a different block fails with `DuplicateName`.
    /// Otherwise only that record's name and the index change: occupancy,
    /// free space and aggregates are untouched.
    pub fn rename(&mut self, cidr: &Cidr, name: Option<&str>) -> (r: RenameResult<()>)
        requires
            old(self).wf(),
            cidr.wf(),
        ensures
            final(self).wf(),
            final(self).cidr_view() == old(self).cidr_view(),
            match r {
                Ok(()) => old(self).has_block(*cidr) && exists|i: int|
                    0 <= i < old(self).records_view().len() && (#[trigger] old(
                        self,
                    ).records_view()[i]).0 == *cidr && ((old(self).records_view()[i].1 == opt_name(
                        name,
                    ) && *final(self) == *old(self)) || (old(self).records_view()[i].1 != opt_name(
                        name,
                    ) && (name matches Some(n) ==> !old(self).name_bound(n@))
                        && final(self).records_view() == old(self).records_view().update(
                        i,
                        (*cidr, opt_name(name)),
                    )
                        && rename_index_rel(
                        old(self).names_view(),
                        final(self).names_view(),
                        old(self).records_view()[i].1,
                        opt_name(name),
                        *cidr,
                    ))),
                Err(RenameError::NoSuchObject) => !old(self).has_block(*cidr) && *final(self)
                    == *old(self),
                Err(RenameError::DuplicateName) => {
                    &&& old(self).has_block(*cidr)
                    &&& name matches Some(n) && old(self).name_bound(n@)
                    &&& exists|i: int|
                        0 <= i < old(self).records_view().len() && (#[trigger] old(
                            self,
                        ).records_view()[i]).0 == *cidr && old(self).records_view()[i].1
                            != opt_name(name)
                    &&& *final(self) == *old(self)
                },
            },
    {
        proof {
            self.lemma_blocks_distinct();
        }
        let found = self.root.find_record(cidr);
        let rec = match found {
            None => {
                return Err(RenameError::NoSuchObject);
            },
            Some(rec) => rec,
        };
        let ghost k0 = choose|k: int|
            0 <= k < self.records_view().len() && #[trigger] self.records_view()[k] == (
                *cidr,
                name_view(rec.name),
            );
        if crate::text::opt_name_eq(name, &rec.name) {
            proof {
                assert(old(self).records_view()[k0].1 == opt_name(name));
            }
            return Ok(());
        }
        if let Some(n) = name {
            if self.index_of_name(n).is_some() {
                proof {
                    assert(old(self).records_view()[k0].1 != opt_name(name));
                }
                return Err(RenameError::DuplicateName);
            }
        }
        let renamed = self.root.set_name(cidr, name);
        proof {
            assert(renamed);
        }
        let ghost i = choose|i: int|
            0 <= i < old(self).records_view().len() && (#[trigger] old(self).records_view()[i]).0
                == *cidr && self.records_view() == old(self).records_view().update(
                i,
                (*cidr, opt_name(name)),
            );
        proof {
            assert(i == k0);
        }
        match &rec.name {
            Some(onm) => {
                let jopt = self.index_of_name(onm.as_str());
                match jopt {
                    Some(j) => {
                        proof {
                            // the entry keyed by the old name maps to this block
                            old(self).records_view().to_multiset_ensures();
                            let pj = old(self).names_view()[j as int];
                            assert(old(self).records_view().to_multiset().count(
                                ((pj.1, Some(pj.0))),
                            ) > 0);
                            let k2 = choose|k2: int|
                                0 <= k2 < old(self).records_view().len() && #[trigger] old(
                                    self,
                                ).records_view()[k2] == (pj.1, Some(pj.0));
                            let t2 = choose|t2: int|
                                0 <= t2 < old(self).names_view().len() && (#[trigger] old(
                                    self,
                                ).names_view()[t2]) == (onm@, old(self).records_view()[k2].0);
                            let t1 = choose|t1: int|
                                0 <= t1 < old(self).names_view().len() && (#[trigger] old(
                                    self,
                                ).names_view()[t1]) == (onm@, *cidr);
                            assert(t1 == t2);
                            assert(old(self).names_view()[j as int] == (onm@, *cidr));
                        }
                        self.names.remove(j);
                        proof {
                            assert(self.names_view() =~= old(self).names_view().remove(j as int));
                        }
                    },
                    None => {
                        proof {
                            assert(old(self).records_view()[i].1 == Some(onm@));
                            assert(false);
                        }
                    },
                }
            },
            None => {},
        }
        let ghost names_mid = self.names_view();
        if let Some(n) = name {
            self.names.push((n.to_owned(), *cidr));
            proof {
                assert(self.names_view() =~= names_mid.push((n@, *cidr)));
            }
        }
        proof {
            self.lemma_index_after_rename(*old(self), *cidr, i, opt_name(name));
        }
        Ok(())
    }

    /// After the record at `i` (with block `c`) changed its name in place,
    /// the old name's entry left the index and the new name's entry was
    /// appended, the pool is well-formed again.
    proof fn lemma_index_after_rename(
        &self,
        prev: SubnetPool,
        c: Cidr,
        i: int,
        new_name: Option<Seq<char>>,
    )
        requires
            prev.wf(),
            self.root.inv(),
            0 <= i < prev.records_view().len(),
            prev.records_view()[i].0 == c,
            new_name != prev.records_view()[i].1,
            new_name matches Some(n) ==> !prev.name_bound(n),
            self.records_view() == prev.records_view().update(i, (c, new_name)),
            rename_index_rel(
                prev.names_view(),
                self.names_view(),
                prev.records_view()[i].1,
                new_name,
                c,
            ),
        ensures
            self.wf(),
    {
        broadcast use vstd::multiset::group_multiset_axioms;

        prev.records_view().to_multiset_ensures();
        self.records_view().to_multiset_ensures();
        prev.records_view().remove(i).to_multiset_ensures();
        prev.lemma_blocks_distinct();
        let nv = self.names_view();
        let pv = prev.names_view();
        let removed = prev.records_view()[i];
        let added = (c, new_name);
        assert(prev.records_view().remove(i) =~= self.records_view().remove(i));
        assert(self.records_view().remove(i).to_multiset() =~= self.records_view().to_multiset().remove(added));
        assert(prev.records_view().remove(i).to_multiset() =~= prev.records_view().to_multiset().remove(removed));
        // how the index changed: the position of the old entry (if any) and
        // a map from surviving positions back to their old positions
        let j = match removed.1 {
            Some(on) => choose|j: int|
                0 <= j < pv.len() && #[trigger] pv[j] == (on, c) && (match new_name {
                    Some(nn) => nv == pv.remove(j).push((nn, c)),
                    None => nv == pv.remove(j),
                }),
            None => pv.len() as int,
        };
        let kept = match (removed.1, new_name) {
            (Some(on), Some(nn)) => nv.len() - 1,
            (Some(on), None) => nv.len() as int,
            (None, Some(nn)) => nv.len() - 1,
            (None, None) => nv.len() as int,
        };
        let back = |t: int| -> int { if t < j { t } else { t + 1 } };
        assert forall|t: int| 0 <= t < kept implies nv[t] == pv[back(t)] && 0 <= back(t)
            < pv.len() by {}
        // the appended entry, when there is one
        assert(new_name matches Some(nn) ==> kept == nv.len() - 1 && nv[kept] == (nn, c));
        // distinct keys
        assert forall|a: int, b: int| 0 <= a < b < nv.len() implies (#[trigger] nv[a]).0 != (
        #[trigger] nv[b]).0 by {
            if b < kept {
                assert(nv[a] == pv[back(a)]);
                assert(nv[b] == pv[back(b)]);
            } else {
                assert(nv[a] == pv[back(a)]);
            }
        }
        // every index entry still has its record
        assert forall|t: int| 0 <= t < nv.len() implies self.records_view().to_multiset().count(
            (((#[trigger] nv[t]).1, Some(nv[t].0))),
        ) > 0 by {
            if t < kept {
                let pj = pv[back(t)];
                assert(nv[t] == pj);
                assert(prev.records_view().to_multiset().count(((pj.1, Some(pj.0)))) > 0);
                if (pj.1, Some(pj.0)) == removed {
                    match removed.1 {
                        Some(on) => {
                            assert(pv[j].0 == pj.0);
                            assert(back(t) == j);
                            assert(false);
                        },
                        None => {
                            assert(false);
                        },
                    }
                }
                if (pj.1, Some(pj.0)) == added {
                    match new_name {
                        Some(nn) => {
                            assert(pj.0 == nn);
                            assert(false);
                        },
                        None => {
                            assert(false);
                        },
                    }
                }
                assert(self.records_view().to_multiset().remove(added).count(
                    ((pj.1, Some(pj.0))),
                ) == prev.records_view().to_multiset().remove(removed).count(
                    ((pj.1, Some(pj.0))),
                ));
            } else {
                match new_name {
                    Some(nn) => {
                        assert(nv[t] == (nn, c));
                        assert(self.records_view()[i] == added);
                        assert(self.records_view().contains(added));
                    },
                    None => {
                        assert(false);
                    },
                }
            }
        }
        // every named record still has its entry
        assert forall|k: int| 0 <= k < self.records_view().len() implies match (
        #[trigger] self.records_view()[k]).1 {
            Some(n) => exists|t: int|
                0 <= t < nv.len() && (#[trigger] nv[t]) == (n, self.records_view()[k].0),
            None => true,
        } by {
            if k == i {
                match new_name {
                    Some(nn) => {
                        assert(nv[kept] == (nn, c));
                    },
                    None => {},
                }
            } else {
                let pair = prev.records_view()[k];
                assert(self.records_view()[k] == pair);
                match pair.1 {
                    Some(n) => {
                        let t0 = choose|t0: int|
                            0 <= t0 < pv.len() && (#[trigger] pv[t0]) == (n, pair.0);
                        if t0 == j && removed.1 is Some {
                            assert(pair.0 == c);
                            assert(prev.records_view()[k].0 == prev.records_view()[i].0);
                            assert(false);
                        }
                        let t: int = if t0 < j {
                            t0
                        } else {
                            t0 - 1
                        };
                        assert(nv[t] == pv[back(t)]);
                        assert(nv[t] == (n, pair.0));
                    },
                    None => {},
                }
            }
        }
    }

    /// The records of a well-formed pool are well-formed blocks inside the
    /// root block, laid out in strictly ascending address order (hence
    /// pairwise disjoint), and no two named records share a name. The
    /// allocated count and the name index sizes follow from these views via
    /// `allocated_count` and `named_count`.
    pub proof fn lemma_records_structure(&self)
        requires
            self.wf(),
        ensures
            self.cidr_view().wf(),
            forall|i: int|
                0 <= i < self.records_view().len() ==> (#[trigger] self.records_view()[i]).0.wf()
                    && self.cidr_view().spec_contains(self.records_view()[i].0),
            forall|i: int, j: int|
                0 <= i < j < self.records_view().len() ==> (#[trigger] self.records_view()[i]).0.end()
                    <= (#[trigger] self.records_view()[j]).0.start(),
            forall|i: int, j: int|
                0 <= i < self.records_view().len() && 0 <= j < self.records_view().len() && i != j
                    ==> (#[trigger] self.records_view()[i]).0.disjoint(
                    (#[trigger] self.records_view()[j]).0,
                ),
            forall|i: int, j: int|
                0 <= i < self.records_view().len() && 0 <= j < self.records_view().len() && i != j
                    && (#[trigger] self.records_view()[i]).1 is Some ==> self.records_view()[i].1
                    != (#[trigger] self.records_view()[j]).1,
    {
        self.root.lemma_parts_in_block();
        self.root.lemma_parts_ordered();
        self.lemma_blocks_distinct();
        let rv = self.records_view();
        assert forall|i: int, j: int|
            0 <= i < rv.len() && 0 <= j < rv.len() && i != j implies (#[trigger] rv[i]).0.disjoint(
            (#[trigger] rv[j]).0,
        ) by {
            if i < j {
                assert(rv[i].0.end() <= rv[j].0.start());
            } else {
                assert(rv[j].0.end() <= rv[i].0.start());
            }
        }
        assert forall|i: int, j: int|
            0 <= i < rv.len() && 0 <= j < rv.len() && i != j && (#[trigger] rv[i]).1
                is Some implies rv[i].1 != (#[trigger] rv[j]).1 by {
            if rv[i].1 == rv[j].1 {
                let n = rv[i].1->Some_0;
                let t1 = choose|t1: int|
                    0 <= t1 < self.names_view().len() && (#[trigger] self.names_view()[t1]) == (
                        n,
                        rv[i].0,
                    );
                let t2 = choose|t2: int|
                    0 <= t2 < self.names_view().len() && (#[trigger] self.names_view()[t2]) == (
                        n,
                        rv[j].0,
                    );
                assert(t1 == t2);
                assert(rv[i].0 == rv[j].0);
                assert(false);
            }
        }
    }

    /// The cached maximum is attained: whenever some space is free, a free
    /// block of exactly `max_view` host bits exists, no free block is
    /// larger, and when nothing is free the maximum is zero. Together with
    /// the success condition of `allocate`, the cached maximum equals the
    /// largest size a subsequent allocation could return.
    pub proof fn lemma_max_attained(&self)
        requires
            self.wf(),
        ensures
            forall|i: int|
                0 <= i < self.free_view().len() ==> (#[trigger] self.free_view()[i]).spec_host_length()
                    <= self.max_view(),
            self.free_view().len() > 0 ==> exists|i: int|
                0 <= i < self.free_view().len() && (#[trigger] self.free_view()[i]).spec_host_length()
                    == self.max_view(),
            self.free_view().len() == 0 ==> self.max_view() == 0,
            0 <= self.max_view() <= self.cidr_view().spec_host_length(),
    {
        self.root.lemma_parts_in_block();
        self.root.lemma_max_attained();
    }

    /// Law (free/re-claim symmetry): for any allocated unnamed block,
    /// releasing it and then claiming the same block with no name is always
    /// possible and restores the records, the free space and both cached
    /// aggregates exactly. `p1` is a pool as `free` leaves it, `p2` one as
    /// the subsequent `claim` leaves it, as their contracts describe.
    ///
    /// In particular, releasing any number of blocks and re-claiming each
    /// immediately, in any order, leaves the pool exactly as it was: each
    /// step restores the state this lemma's inputs describe.
    pub proof fn lemma_free_reclaim(
        p0: &SubnetPool,
        p1: &SubnetPool,
        p2: &SubnetPool,
        c: Cidr,
        i: int,
    )
        requires
            p0.wf(),
            p1.wf(),
            p2.wf(),
            p1.cidr_view() == p0.cidr_view(),
            p2.cidr_view() == p1.cidr_view(),
            0 <= i < p0.records_view().len(),
            p0.records_view()[i] == (c, None::<Seq<char>>),
            p1.records_view() == p0.records_view().remove(i),
            p2.records_view().to_multiset() == p1.records_view().to_multiset().insert(
                (c, None::<Seq<char>>),
            ),
        ensures
            p1.claimable(c),
            p2.records_view() == p0.records_view(),
            p2.free_view() == p0.free_view(),
            p2.max_view() == p0.max_view(),
            p2.records_view().len() == p0.records_view().len(),
    {
        broadcast use vstd::multiset::group_multiset_axioms;

        p0.lemma_records_structure();
        p1.lemma_records_structure();
        p2.lemma_records_structure();
        p0.records_view().to_multiset_ensures();
        p1.records_view().to_multiset_ensures();
        p2.records_view().to_multiset_ensures();
        // the freed block can always be re-claimed: it lies in the root and
        // every remaining record was disjoint from it already
        assert forall|k: int| 0 <= k < p1.records_view().len() implies (
        #[trigger] p1.records_view()[k]).0.disjoint(c) by {
            let kk: int = if k < i {
                k
            } else {
                k + 1
            };
            assert(p1.records_view()[k] == p0.records_view()[kk]);
            assert(p0.records_view()[kk].0.disjoint(p0.records_view()[i].0));
        }
        // the records are restored: remove then insert of one pair cancels
        assert(p1.records_view().to_multiset() =~= p0.records_view().to_multiset().remove(
            (c, None::<Seq<char>>),
        ));
        assert(p0.records_view().contains((c, None::<Seq<char>>)));
        assert(p2.records_view().to_multiset() =~= p0.records_view().to_multiset());
        assert forall|k: int| 0 <= k < p0.records_view().len() implies (
        #[trigger] p0.records_view()[k]).0.size() >= 1 by {
            lemma_end_in_space(p0.records_view()[k].0);
        }
        assert forall|k: int| 0 <= k < p2.records_view().len() implies (
        #[trigger] p2.records_view()[k]).0.size() >= 1 by {
            lemma_end_in_space(p2.records_view()[k].0);
        }
        lemma_sorted_records_unique(p2.records_view(), p0.records_view());
        // equal records over the same root mean equal free space and maximum
        Subspace::lemma_shape_canonical(p2.root, p0.root);
    }

    /// The block of an index entry is a record's block: well-formed and
    /// contained in the root block.
    pub proof fn lemma_entry_block_wf(&self, t: int)
        requires
            self.wf(),
            0 <= t < self.names_view().len(),
        ensures
            self.names_view()[t].1.wf(),
    {
        self.records_view().to_multiset_ensures();
        self.lemma_records_structure();
        let pj = self.names_view()[t];
        assert(self.records_view().to_multiset().count(((pj.1, Some(pj.0)))) > 0);
        assert(self.records_view().contains((pj.1, Some(pj.0))));
        let k = choose|k: int|
            0 <= k < self.records_view().len() && #[trigger] self.records_view()[k] == (
                pj.1,
                Some(pj.0),
            );
        assert(self.records_view()[k].0.wf());
    }

    /// A name is bound in the index exactly when some record carries it.
    pub proof fn lemma_name_bound_iff(&self, n: Seq<char>)
        requires
            self.wf(),
        ensures
            self.name_bound(n) <==> exists|k: int|
                0 <= k < self.records_view().len() && (#[trigger] self.records_view()[k]).1
                    == Some(n),
    {
        self.records_view().to_multiset_ensures();
        if self.name_bound(n) {
            let i = choose|i: int|
                0 <= i < self.names_view().len() && (#[trigger] self.names_view()[i]).0 == n;
            let pj = self.names_view()[i];
            assert(self.records_view().to_multiset().count(((pj.1, Some(pj.0)))) > 0);
            assert(self.records_view().contains((pj.1, Some(n))));
            let k = choose|k: int|
                0 <= k < self.records_view().len() && #[trigger] self.records_view()[k] == (
                    pj.1,
                    Some(n),
                );
            assert(self.records_view()[k].1 == Some(n));
        }
        if exists|k: int|
            0 <= k < self.records_view().len() && (#[trigger] self.records_view()[k]).1 == Some(
                n,
            ) {
            let k = choose|k: int|
                0 <= k < self.records_view().len() && (#[trigger] self.records_view()[k]).1
                    == Some(n);
            let t = choose|t: int|
                0 <= t < self.names_view().len() && (#[trigger] self.names_view()[t]) == (
                    n,
                    self.records_view()[k].0,
                );
            assert(self.names_view()[t].0 == n);
        }
    }

    /// The names of all named blocks, in index order.
    pub fn names(&self) -> (r: Vec<String>)
        ensures
            r@.len() == self.names_view().len(),
            forall|i: int| 0 <= i < r@.len() ==> (#[trigger] r@[i])@ == self.names_view()[i].0,
    {
        let n = self.names.len();
        let mut out: Vec<String> = Vec::new();
        let mut i: usize = 0;
        while i < n
            invariant
                n == self.names@.len(),
                i <= n,
                out@.len() == i,
                forall|j: int|
                    0 <= j < i ==> (#[trigger] out@[j])@ == self.names@[j].0@,
            decreases n - i,
        {
            out.push(self.names[i].0.clone());
            i = i + 1;
        }
        proof {
            assert forall|i: int| 0 <= i < out@.len() implies (#[trigger] out@[i])@
                == self.names_view()[i].0 by {
                assert(self.names_view()[i].0 == self.names@[i].0@);
            }
        }
        out
    }

    /// Every record of the pool, in ascending address order.
    pub fn records(&self) -> (r: Vec<CidrRecord>)
        requires
            self.wf(),
        ensures
            r@.len() == self.records_view().len(),
            forall|i: int|
                0 <= i < r@.len() ==> (#[trigger] r@[i]).view_pair() == self.records_view()[i],
            forall|i: int| 0 <= i < r@.len() ==> (#[trigger] r@[i]).cidr.wf(),
    {
        let mut out: Vec<CidrRecord> = Vec::new();
        self.root.collect_records(&mut out);
        proof {
            self.lemma_records_structure();
            assert forall|i: int| 0 <= i < out@.len() implies (#[trigger] out@[i]).view_pair()
                == self.records_view()[i] by {
                assert(out@[0 + i].view_pair() == self.root.records()[i]);
            }
            assert forall|i: int| 0 <= i < out@.len() implies (#[trigger] out@[i]).cidr.wf() by {
                assert(out@[i].view_pair() == self.records_view()[i]);
                assert(out@[i].cidr == self.records_view()[i].0);
            }
        }
        out
    }

    /// The block of every record, in ascending address order.
    pub fn cidrs(&self) -> (r: Vec<Cidr>)
        requires
            self.wf(),
        ensures
            r@.len() == self.records_view().len(),
            forall|i: int| 0 <= i < r@.len() ==> #[trigger] r@[i] == self.records_view()[i].0,
    {
        let recs = self.records();
        let mut out: Vec<Cidr> = Vec::new();
        let n = recs.len();
        let mut i: usize = 0;
        while i < n
            invariant
                n == recs@.len(),
                recs@.len() == self.records_view().len(),
                forall|j: int|
                    0 <= j < recs@.len() ==> (#[trigger] recs@[j]).view_pair()
                        == self.records_view()[j],
                i <= n,
                out@.len() == i,
                forall|j: int| 0 <= j < i ==> #[trigger] out@[j] == self.records_view()[j].0,
            decreases n - i,
        {
            out.push(recs[i].cidr);
            proof {
                assert(recs@[i as int].view_pair() == self.records_view()[i as int]);
            }
            i = i + 1;
        }
        out
    }

    /// Every record whose block lies wholly within `outer`, in ascending
    /// address order.
    pub fn records_within(&self, outer: &Cidr) -> (r: Vec<CidrRecord>)
        requires
            self.wf(),
            outer.wf(),
        ensures
            r@.map_values(|rec: CidrRecord| rec.view_pair()) == self.records_view().filter(
                |p: (Cidr, Option<Seq<char>>)| outer.spec_contains(p.0),
            ),
            forall|i: int| 0 <= i < r@.len() ==> (#[trigger] r@[i]).cidr.wf(),
    {
        proof {
            self.root.lemma_parts_in_block();
        }
        let recs = self.records();
        let mut out: Vec<CidrRecord> = Vec::new();
        let n = recs.len();
        let mut i: usize = 0;
        proof {
            assert(self.records_view().take(0).filter(
                |p: (Cidr, Option<Seq<char>>)| outer.spec_contains(p.0),
            ) =~= Seq::<(Cidr, Option<Seq<char>>)>::empty());
            assert(out@.map_values(|rec: CidrRecord| rec.view_pair()) =~= Seq::<(
                Cidr,
                Option<Seq<char>>,
            )>::empty());
        }
        while i < n
            invariant
                n == recs@.len(),
                recs@.len() == self.records_view().len(),
                forall|j: int|
                    0 <= j < recs@.len() ==> (#[trigger] recs@[j]).view_pair()
                        == self.records_view()[j],
                forall|j: int|
                    0 <= j < recs@.len() ==> (#[trigger] self.records_view()[j]).0.wf(),
                outer.wf(),
                i <= n,
                forall|j: int| 0 <= j < out@.len() ==> (#[trigger] out@[j]).cidr.wf(),
                out@.map_values(|rec: CidrRecord| rec.view_pair()) == self.records_view().take(
                    i as int,
                ).filter(|p: (Cidr, Option<Seq<char>>)| outer.spec_contains(p.0)),
            decreases n - i,
        {
            let ghost prefix = self.records_view().take(i as int);
            let ghost pred = |p: (Cidr, Option<Seq<char>>)| outer.spec_contains(p.0);
            proof {
                let cur = self.records_view()[i as int];
                assert(self.records_view().take(i + 1) =~= prefix.push(cur));
                prefix.lemma_filter_push(cur, pred);
                assert(recs@[i as int].view_pair() == cur);
            }
            if cidr_contains(outer, &recs[i].cidr) {
                out.push(recs[i].clone_record());
                proof {
                    assert(out@.map_values(|rec: CidrRecord| rec.view_pair()) =~= prefix.filter(
                        pred,
                    ).push(self.records_view()[i as int]));
                    assert(out@[out@.len() - 1].view_pair() == self.records_view()[i as int]);
                    assert(out@[out@.len() - 1].cidr == self.records_view()[i as int].0);
                }
            } else {
                proof {
                    assert(out@.map_values(|rec: CidrRecord| rec.view_pair()) == prefix.filter(
                        pred,
                    ));
                }
            }
            i = i + 1;
        }
        proof {
            assert(self.records_view().take(n as int) =~= self.records_view());
        }
        out
    }
}

} // verus!
