//! One node of the binary space-partitioning tree: the block it governs, its
//! occupancy, and two cached aggregates (count of allocated leaves in the
//! subtree; largest allocatable size in the subtree), together with all
//! recursive tree walks.

use vstd::prelude::*;
use vstd::multiset::Multiset;
use vstd::seq_lib::lemma_multiset_commutative;

use crate::util::{
    cidr_contains, high_half, host_length, lemma_end_in_space, lemma_split_parts, low_half,
    split_cidr,
};
use crate::{opt_name, Bits, Cidr, CidrRecord};

verus! {

/// Occupancy of one node. `Allocated` and `Unavailable` are mutually
/// exclusive; only `Free` can transition into either. A node has children
/// exactly when it is `Unavailable`, and a name only when it is `Allocated`.
#[derive(Debug, PartialEq)]
pub(crate) enum State {
    /// Leaf, unused, no children.
    Free,
    /// Leaf, in use, carrying the optional name of its record.
    Allocated(Option<String>),
    /// Internal node: the two children partition this node's block,
    /// lowest-address half first.
    Unavailable(Box<Subspace>, Box<Subspace>),
}

/// One node of the allocation tree.
#[derive(Debug, PartialEq)]
pub(crate) struct Subspace {
    pub cidr: Cidr,
    pub state: State,
    /// Cached: number of `Allocated` leaves in this subtree.
    pub allocated_count: usize,
    /// Cached: size in host bits of the largest block still allocatable in
    /// this subtree.
    pub max_available_bits: Bits,
}

impl Subspace {
    /// The records of this subtree: every `Allocated` leaf, in ascending
    /// address order, as (block, name characters) pairs.
    pub(crate) open spec fn records(self) -> Seq<(Cidr, Option<Seq<char>>)>
        decreases self,
    {
        match self.state {
            State::Free => Seq::empty(),
            State::Allocated(name) => seq![(self.cidr, crate::name_view(name))],
            State::Unavailable(low, high) => low.records() + high.records(),
        }
    }

    /// The blocks of the `Free` leaves of this subtree, in ascending address
    /// order: the pool of still-allocatable space.
    pub(crate) open spec fn free_blocks(self) -> Seq<Cidr>
        decreases self,
    {
        match self.state {
            State::Free => seq![self.cidr],
            State::Allocated(_) => Seq::empty(),
            State::Unavailable(low, high) => low.free_blocks() + high.free_blocks(),
        }
    }

    /// What `max_available_bits` caches: the largest host-bit count among
    /// the free leaves, zero when there is none.
    pub(crate) open spec fn spec_max_available(self) -> int
        decreases self,
    {
        match self.state {
            State::Free => self.cidr.spec_host_length() as int,
            State::Allocated(_) => 0,
            State::Unavailable(low, high) => {
                let l = low.spec_max_available();
                let h = high.spec_max_available();
                if l >= h {
                    l
                } else {
                    h
                }
            },
        }
    }

    /// Whether some block with exactly this first address and name is among
    /// the records.
    pub(crate) open spec fn has_record_block(self, block: Cidr) -> bool {
        exists|i: int| 0 <= i < self.records().len() && #[trigger] self.records()[i].0 == block
    }

    /// Whether any space is still free in this subtree.
    pub(crate) open spec fn has_free(self) -> bool {
        self.free_blocks().len() > 0
    }

    /// The structural invariant of a node, enforced after every mutation:
    /// the block is well-formed; an `Unavailable` node's children govern
    /// exactly the two halves of its block and hold at least one allocated
    /// leaf between them (otherwise the node would have been collapsed back
    /// to `Free`); and the two cached aggregates are exact functions of the
    /// subtree, never stale.
    pub(crate) open spec fn inv(self) -> bool
        decreases self,
    {
        &&& self.cidr.wf()
        &&& self.allocated_count == self.records().len()
        &&& self.max_available_bits as int == self.spec_max_available()
        &&& match self.state {
            State::Free => true,
            State::Allocated(_) => true,
            State::Unavailable(low, high) => {
                &&& self.cidr.spec_host_length() >= 1
                &&& low.cidr == low_half(self.cidr)
                &&& high.cidr == high_half(self.cidr)
                &&& low.inv()
                &&& high.inv()
                &&& low.records().len() + high.records().len() >= 1
            },
        }
    }

    /// Everything in this subtree stays within its block: every record and
    /// every free leaf is a well-formed block contained in `self.cidr`, and
    /// the largest allocatable size never exceeds the block's own size.
    pub(crate) proof fn lemma_parts_in_block(self)
        requires
            self.inv(),
        ensures
            forall|i: int|
                0 <= i < self.records().len() ==> (#[trigger] self.records()[i]).0.wf()
                    && self.cidr.spec_contains(self.records()[i].0),
            forall|i: int|
                0 <= i < self.free_blocks().len() ==> (#[trigger] self.free_blocks()[i]).wf()
                    && self.cidr.spec_contains(self.free_blocks()[i])
                    && self.free_blocks()[i].spec_host_length()
                    <= self.cidr.spec_host_length(),
            0 <= self.spec_max_available() <= self.cidr.spec_host_length(),
            forall|i: int|
                0 <= i < self.free_blocks().len()
                    ==> (#[trigger] self.free_blocks()[i]).spec_host_length()
                    <= self.spec_max_available(),
        decreases self,
    {
        lemma_end_in_space(self.cidr);
        match self.state {
            State::Free => {},
            State::Allocated(_) => {},
            State::Unavailable(low, high) => {
                lemma_split_parts(self.cidr);
                low.lemma_parts_in_block();
                high.lemma_parts_in_block();
                assert(self.records() == low.records() + high.records());
                assert(self.free_blocks() == low.free_blocks() + high.free_blocks());
                assert forall|i: int| 0 <= i < self.records().len() implies (
                #[trigger] self.records()[i]).0.wf() && self.cidr.spec_contains(
                    self.records()[i].0,
                ) by {
                    if i < low.records().len() {
                        assert(self.records()[i] == low.records()[i]);
                    } else {
                        assert(self.records()[i] == high.records()[i - low.records().len()]);
                    }
                }
                assert forall|i: int| 0 <= i < self.free_blocks().len() implies (
                #[trigger] self.free_blocks()[i]).wf() && self.cidr.spec_contains(
                    self.free_blocks()[i],
                ) && self.free_blocks()[i].spec_host_length() <= self.cidr.spec_host_length()
                    && self.free_blocks()[i].spec_host_length() <= self.spec_max_available() by {
                    if i < low.free_blocks().len() {
                        assert(self.free_blocks()[i] == low.free_blocks()[i]);
                    } else {
                        assert(self.free_blocks()[i] == high.free_blocks()[i - low.free_blocks().len()]);
                    }
                }
            },
        }
    }

    /// The cached maximum is attained: whenever some leaf is free, a free
    /// leaf of exactly `spec_max_available` host bits exists; and when
    /// nothing is free the cached maximum is zero.
    pub(crate) proof fn lemma_max_attained(self)
        requires
            self.inv(),
        ensures
            self.has_free() ==> exists|i: int|
                0 <= i < self.free_blocks().len() && (#[trigger] self.free_blocks()[i]).spec_host_length()
                    == self.spec_max_available(),
            !self.has_free() ==> self.spec_max_available() == 0,
        decreases self,
    {
        match self.state {
            State::Free => {
                assert(self.free_blocks()[0] == self.cidr);
            },
            State::Allocated(_) => {},
            State::Unavailable(low, high) => {
                low.lemma_max_attained();
                high.lemma_max_attained();
                low.lemma_parts_in_block();
                high.lemma_parts_in_block();
                assert(self.free_blocks() == low.free_blocks() + high.free_blocks());
                if self.has_free() {
                    if low.has_free() && (!high.has_free() || low.spec_max_available()
                        >= high.spec_max_available()) {
                        let i = choose|i: int|
                            0 <= i < low.free_blocks().len() && (#[trigger] low.free_blocks()[i]).spec_host_length()
                                == low.spec_max_available();
                        assert(self.free_blocks()[i] == low.free_blocks()[i]);
                    } else {
                        let i = choose|i: int|
                            0 <= i < high.free_blocks().len() && (#[trigger] high.free_blocks()[i]).spec_host_length()
                                == high.spec_max_available();
                        assert(self.free_blocks()[low.free_blocks().len() + i]
                            == high.free_blocks()[i]);
                    }
                }
            },
        }
    }

    /// Records and free leaves are laid out in strictly ascending address
    /// order, all in the root's family: every part ends before the next one
    /// starts. In particular all records are pairwise disjoint.
    pub(crate) proof fn lemma_parts_ordered(self)
        requires
            self.inv(),
        ensures
            forall|i: int, j: int|
                0 <= i < j < self.records().len() ==> (#[trigger] self.records()[i]).0.end()
                    <= (#[trigger] self.records()[j]).0.start(),
        decreases self,
    {
        match self.state {
            State::Free => {},
            State::Allocated(_) => {},
            State::Unavailable(low, high) => {
                lemma_split_parts(self.cidr);
                low.lemma_parts_ordered();
                high.lemma_parts_ordered();
                low.lemma_parts_in_block();
                high.lemma_parts_in_block();
                assert(self.records() == low.records() + high.records());
                assert forall|i: int, j: int| 0 <= i < j < self.records().len() implies (
                #[trigger] self.records()[i]).0.end() <= (#[trigger] self.records()[j]).0.start() by {
                    let nl = low.records().len() as int;
                    if j < nl {
                        assert(self.records()[i] == low.records()[i]);
                        assert(self.records()[j] == low.records()[j]);
                    } else if i >= nl {
                        assert(self.records()[i] == high.records()[i - nl]);
                        assert(self.records()[j] == high.records()[j - nl]);
                    } else {
                        assert(self.records()[i] == low.records()[i]);
                        assert(self.records()[j] == high.records()[j - nl]);
                        // low's record ends by the middle; high's starts at it
                        assert(low.records()[i].0.end() <= low.cidr.end());
                        assert(high.records()[j - nl].0.start() >= high.cidr.start());
                    }
                }
            },
        }
    }

    /// Recompute this node's two cached aggregates from its immediate
    /// children (or its own occupancy), after a mutation below it.
    fn update_info(&mut self)
        requires
            old(self).cidr.wf(),
            match old(self).state {
                State::Unavailable(low, high) => {
                    &&& old(self).cidr.spec_host_length() >= 1
                    &&& low.cidr == low_half(old(self).cidr)
                    &&& high.cidr == high_half(old(self).cidr)
                    &&& low.inv()
                    &&& high.inv()
                    &&& low.records().len() + high.records().len() >= 1
                    &&& low.records().len() + high.records().len() <= usize::MAX
                },
                _ => true,
            },
        ensures
            final(self).inv(),
            final(self).cidr == old(self).cidr,
            final(self).state == old(self).state,
    {
        proof {
            match old(self).state {
                State::Unavailable(low, high) => {
                    lemma_multiset_commutative(low.records(), high.records());
                    low.lemma_parts_in_block();
                    high.lemma_parts_in_block();
                    lemma_split_parts(old(self).cidr);
                },
                _ => {},
            }
        }
        match &self.state {
            State::Free => {
                let m = host_length(&self.cidr);
                self.allocated_count = 0;
                self.max_available_bits = m;
            },
            State::Allocated(_) => {
                self.allocated_count = 1;
                self.max_available_bits = 0;
            },
            State::Unavailable(low, high) => {
                let count = low.allocated_count + high.allocated_count;
                let m = if low.max_available_bits >= high.max_available_bits {
                    low.max_available_bits
                } else {
                    high.max_available_bits
                };
                self.allocated_count = count;
                self.max_available_bits = m;
            },
        }
    }

    /// Find and occupy a free block of exactly `bits` host bits, preferring
    /// the low half of every split: on success the returned block is the
    /// lowest-addressed free block of at least the requested size, trimmed
    /// to the requested size at its own first address. Fails exactly when no
    /// free leaf of at least `bits` host bits exists.
    pub(crate) fn allocate_free_space(&mut self, bits: Bits, name: Option<&str>) -> (r: Option<
        Cidr,
    >)
        requires
            old(self).inv(),
            old(self).records().len() < usize::MAX,
        ensures
            final(self).inv(),
            final(self).cidr == old(self).cidr,
            match r {
                Option::None => {
                    &&& *final(self) == *old(self)
                    &&& !(bits <= old(self).max_available_bits && old(self).has_free())
                },
                Option::Some(c) => {
                    &&& bits <= old(self).max_available_bits
                    &&& old(self).has_free()
                    &&& c.wf()
                    &&& c.family == old(self).cidr.family
                    &&& c.spec_host_length() == bits as nat
                    &&& old(self).cidr.spec_contains(c)
                    &&& final(self).records().to_multiset() == old(
                        self,
                    ).records().to_multiset().insert((c, opt_name(name)))
                    &&& final(self).records().len() == old(self).records().len() + 1
                    &&& exists|i: int|
                        0 <= i < old(self).free_blocks().len() && (#[trigger] old(
                            self,
                        ).free_blocks()[i]).start() == c.start() && old(
                            self,
                        ).free_blocks()[i].spec_host_length() >= bits as nat
                    &&& forall|i: int|
                        0 <= i < old(self).free_blocks().len() && (#[trigger] old(
                            self,
                        ).free_blocks()[i]).spec_host_length() >= bits as nat ==> c.start() <= old(
                            self,
                        ).free_blocks()[i].start()
                },
            },
        decreases old(self).cidr.spec_host_length(),
    {
        if bits > self.max_available_bits {
            return None;
        }
        proof {
            self.lemma_parts_in_block();
            lemma_end_in_space(self.cidr);
        }
        match &self.state {
            State::Free => {
                let host = host_length(&self.cidr);
                if bits == host {
                    let owned: Option<String> = match name {
                        Some(s) => Some(s.to_owned()),
                        None => None,
                    };
                    let c = self.cidr;
                    self.state = State::Allocated(owned);
                    self.allocated_count = 1;
                    self.max_available_bits = 0;
                    proof {
                        assert(self.records() =~= Seq::empty().push((c, opt_name(name))));
                        Seq::<(Cidr, Option<Seq<char>>)>::empty().to_multiset_ensures();
                        assert(old(self).records().to_multiset() =~= Multiset::empty());
                        assert(self.records().to_multiset() =~= old(
                            self,
                        ).records().to_multiset().insert((c, opt_name(name))));
                        assert(old(self).free_blocks()[0] == c);
                    }
                    return Some(c);
                }
                // the block is larger than requested: split it into two free
                // children and take from the low one, which always succeeds
                let (lc, hc) = split_cidr(&self.cidr);
                proof {
                    lemma_split_parts(self.cidr);
                }
                let mut low = Box::new(Subspace::new(lc));
                let high = Box::new(Subspace::new(hc));
                let rl = low.allocate_free_space(bits, name);
                match rl {
                    Some(c) => {
                        self.state = State::Unavailable(low, high);
                        self.update_info();
                        proof {
                            match &self.state {
                                State::Unavailable(l2, h2) => {
                                    lemma_multiset_commutative(l2.records(), h2.records());
                                    assert(h2.records() =~= Seq::empty());
                                    assert(self.records() =~= l2.records());
                                    assert(self.records().to_multiset() =~= old(
                                        self,
                                    ).records().to_multiset().insert((c, opt_name(name))));
                                },
                                _ => {
                                    assert(false);
                                },
                            }
                            assert(old(self).free_blocks()[0] == old(self).cidr);
                            assert(c.start() == old(self).cidr.start());
                        }
                        return Some(c);
                    },
                    None => {
                        proof {
                            assert(false);
                        }
                        return None;
                    },
                }
            },
            State::Allocated(_) => {
                // nothing is free below an allocated leaf
                return None;
            },
            State::Unavailable(_, _) => {},
        }
        let r: Option<Cidr>;
        let ghost old_low: Subspace;
        let ghost old_high: Subspace;
        let ghost mut from_low: bool = false;
        match &mut self.state {
            State::Unavailable(low, high) => {
                proof {
                    old_low = **low;
                    old_high = **high;
                    lemma_multiset_commutative(old_low.records(), old_high.records());
                }
                // try the low child first; only if it fails try the high one
                let rl = low.allocate_free_space(bits, name);
                match rl {
                    Some(c) => {
                        proof {
                            lemma_multiset_commutative(low.records(), old_high.records());
                            from_low = true;
                        }
                        r = Some(c);
                    },
                    None => {
                        let rh = high.allocate_free_space(bits, name);
                        proof {
                            if rh is Some {
                                lemma_multiset_commutative(old_low.records(), high.records());
                            }
                        }
                        r = rh;
                    },
                }
            },
            _ => {
                proof {
                    assert(false);
                }
                r = None;
            },
        }
        match r {
            Some(c) => {
                self.update_info();
                proof {
                    let ghost nl = old_low.free_blocks().len() as int;
                    assert(old(self).free_blocks() =~= old_low.free_blocks()
                        + old_high.free_blocks());
                    assert(old(self).records() =~= old_low.records() + old_high.records());
                    old_low.lemma_parts_in_block();
                    old_high.lemma_parts_in_block();
                    old_low.lemma_max_attained();
                    lemma_split_parts(old(self).cidr);
                    if from_low {
                        let i = choose|i: int|
                            0 <= i < old_low.free_blocks().len() && (#[trigger] old_low.free_blocks()[i]).start()
                                == c.start() && old_low.free_blocks()[i].spec_host_length()
                                >= bits as nat;
                        assert(old(self).free_blocks()[i] == old_low.free_blocks()[i]);
                    } else {
                        let i = choose|i: int|
                            0 <= i < old_high.free_blocks().len() && (#[trigger] old_high.free_blocks()[i]).start()
                                == c.start() && old_high.free_blocks()[i].spec_host_length()
                                >= bits as nat;
                        assert(old(self).free_blocks()[nl + i] == old_high.free_blocks()[i]);
                    }
                    assert forall|i: int|
                        0 <= i < old(self).free_blocks().len() && (#[trigger] old(
                            self,
                        ).free_blocks()[i]).spec_host_length() >= bits as nat implies c.start()
                        <= old(self).free_blocks()[i].start() by {
                        if i < nl {
                            assert(old(self).free_blocks()[i] == old_low.free_blocks()[i]);
                        } else {
                            assert(old(self).free_blocks()[i] == old_high.free_blocks()[i - nl]);
                        }
                    }
                }
                Some(c)
            },
            None => {
                proof {
                    old_low.lemma_max_attained();
                    old_high.lemma_max_attained();
                }
                None
            },
        }
    }

    /// Release the allocated block equal to `cidr`, clearing its name and
    /// collapsing a pair of now-free siblings back into their parent.
    /// Returns true exactly when such an allocated block existed; a failing
    /// call leaves the tree untouched. On success the records lose exactly
    /// that one entry, in place.
    pub(crate) fn free(&mut self, cidr: &Cidr) -> (r: bool)
        requires
            old(self).inv(),
            cidr.wf(),
        ensures
            final(self).inv(),
            final(self).cidr == old(self).cidr,
            r == old(self).has_record_block(*cidr),
            !r ==> *final(self) == *old(self),
            r ==> exists|i: int|
                0 <= i < old(self).records().len() && (#[trigger] old(self).records()[i]).0
                    == *cidr && final(self).records() == old(self).records().remove(i),
        decreases old(self).cidr.spec_host_length(),
    {
        proof {
            self.lemma_parts_in_block();
        }
        if !cidr_contains(&self.cidr, cidr) {
            proof {
                if old(self).has_record_block(*cidr) {
                    let i = choose|i: int|
                        0 <= i < old(self).records().len() && (#[trigger] old(
                            self,
                        ).records()[i]).0 == *cidr;
                    assert(old(self).cidr.spec_contains(old(self).records()[i].0));
                }
            }
            return false;
        }
        let freed: bool;
        let mut collapse = false;
        let ghost old_low: Subspace;
        let ghost old_high: Subspace;
        let ghost mut new_low: Subspace;
        let ghost mut new_high: Subspace;
        let ghost mut freed_low = false;
        match &mut self.state {
            State::Free => {
                freed = false;
            },
            State::Allocated(_) => {
                if self.cidr == *cidr {
                    freed = true;
                    collapse = true;
                    proof {
                        assert(old(self).records()[0].0 == *cidr);
                    }
                } else {
                    freed = false;
                    proof {
                        if old(self).has_record_block(*cidr) {
                            let i = choose|i: int|
                                0 <= i < old(self).records().len() && (#[trigger] old(
                                    self,
                                ).records()[i]).0 == *cidr;
                            assert(old(self).records()[i].0 == old(self).cidr);
                        }
                    }
                }
            },
            State::Unavailable(low, high) => {
                proof {
                    old_low = **low;
                    old_high = **high;
                }
                let fl = low.free(cidr);
                let f = if fl {
                    proof {
                        freed_low = true;
                    }
                    true
                } else {
                    high.free(cidr)
                };
                freed = f;
                proof {
                    new_low = **low;
                    new_high = **high;
                    assert(old(self).records() =~= old_low.records() + old_high.records());
                }
                if f {
                    let lf = matches!(low.state, State::Free);
                    let hf = matches!(high.state, State::Free);
                    if lf && hf {
                        collapse = true;
                    }
                } else {
                    proof {
                        if old(self).has_record_block(*cidr) {
                            let i = choose|i: int|
                                0 <= i < old(self).records().len() && (#[trigger] old(
                                    self,
                                ).records()[i]).0 == *cidr;
                            let nl = old_low.records().len() as int;
                            if i < nl {
                                assert(old_low.records()[i].0 == *cidr);
                                assert(old_low.has_record_block(*cidr));
                            } else {
                                assert(old_high.records()[i - nl].0 == *cidr);
                                assert(old_high.has_record_block(*cidr));
                            }
                        }
                    }
                }
            },
        }
        if freed {
            if collapse {
                self.state = State::Free;
                self.allocated_count = 0;
                let m = host_length(&self.cidr);
                self.max_available_bits = m;
            } else {
                proof {
                    match &self.state {
                        State::Unavailable(l2, h2) => {
                            if !(l2.state is Free) {
                                Self::lemma_nonfree_nonempty(**l2);
                            } else {
                                Self::lemma_nonfree_nonempty(**h2);
                            }
                        },
                        _ => {
                            assert(false);
                        },
                    }
                }
                self.update_info();
            }
            proof {
                match old(self).state {
                    State::Allocated(_) => {
                        assert(self.records() =~= old(self).records().remove(0));
                    },
                    State::Unavailable(l0, h0) => {
                        Self::lemma_free_records(
                            *old(self),
                            new_low,
                            new_high,
                            self.records(),
                            *cidr,
                            freed_low,
                        );
                    },
                    State::Free => {
                        assert(false);
                    },
                }
            }
        }
        freed
    }

    /// A node that is not a free leaf holds at least one record.
    proof fn lemma_nonfree_nonempty(s: Subspace)
        requires
            s.inv(),
            !(s.state is Free),
        ensures
            s.records().len() >= 1,
    {
        match s.state {
            State::Free => {},
            State::Allocated(_) => {},
            State::Unavailable(l0, h0) => {
                assert(s.records() == l0.records() + h0.records());
            },
        }
    }

    /// After a successful release in one child of an `Unavailable` node, the
    /// node's records lose exactly the released entry, whether or not the
    /// node collapsed back to a free leaf.
    proof fn lemma_free_records(
        prev: Subspace,
        new_low: Subspace,
        new_high: Subspace,
        recs: Seq<(Cidr, Option<Seq<char>>)>,
        cidr: Cidr,
        freed_low: bool,
    )
        requires
            match prev.state {
                State::Unavailable(l0, h0) => {
                    &&& (freed_low ==> new_high == *h0 && exists|i: int|
                        0 <= i < l0.records().len() && (#[trigger] l0.records()[i]).0 == cidr
                            && new_low.records() == l0.records().remove(i))
                    &&& (!freed_low ==> new_low == *l0 && exists|i: int|
                        0 <= i < h0.records().len() && (#[trigger] h0.records()[i]).0 == cidr
                            && new_high.records() == h0.records().remove(i))
                },
                _ => false,
            },
            recs == new_low.records() + new_high.records(),
        ensures
            exists|i: int|
                0 <= i < prev.records().len() && (#[trigger] prev.records()[i]).0 == cidr && recs
                    == prev.records().remove(i),
    {
        match prev.state {
            State::Unavailable(l0, h0) => {
                let nl = l0.records().len() as int;
                assert(prev.records() == l0.records() + h0.records());
                if freed_low {
                    let i = choose|i: int|
                        0 <= i < l0.records().len() && (#[trigger] l0.records()[i]).0 == cidr
                            && new_low.records() == l0.records().remove(i);
                    assert(prev.records()[i].0 == cidr);
                    assert(recs =~= prev.records().remove(i));
                } else {
                    let i = choose|i: int|
                        0 <= i < h0.records().len() && (#[trigger] h0.records()[i]).0 == cidr
                            && new_high.records() == h0.records().remove(i);
                    assert(prev.records()[nl + i].0 == cidr);
                    assert(recs =~= prev.records().remove(nl + i));
                }
            },
            _ => {},
        }
    }

    /// Whether a specific block can be claimed here: it lies within this
    /// node's block and covers no address of any existing record.
    pub(crate) open spec fn claimable(self, target: Cidr) -> bool {
        &&& self.cidr.spec_contains(target)
        &&& forall|i: int|
            0 <= i < self.records().len() ==> (#[trigger] self.records()[i]).0.disjoint(target)
    }

    /// Occupy one specific caller-chosen block, splitting free space down to
    /// it as needed. Succeeds exactly when the block lies within this node's
    /// block and overlaps no existing record; a failing call leaves the tree
    /// untouched.
    pub(crate) fn claim(&mut self, cidr: &Cidr, name: Option<&str>) -> (r: bool)
        requires
            old(self).inv(),
            cidr.wf(),
            old(self).records().len() < usize::MAX,
        ensures
            final(self).inv(),
            final(self).cidr == old(self).cidr,
            r == old(self).claimable(*cidr),
            !r ==> *final(self) == *old(self),
            r ==> final(self).records().to_multiset() == old(self).records().to_multiset().insert(
                (*cidr, opt_name(name)),
            ),
            r ==> final(self).records().len() == old(self).records().len() + 1,
        decreases old(self).cidr.spec_host_length(),
    {
        proof {
            self.lemma_parts_in_block();
        }
        if !cidr_contains(&self.cidr, cidr) {
            return false;
        }
        match &self.state {
            State::Allocated(_) => {
                proof {
                    crate::util::lemma_contains_not_disjoint(old(self).cidr, *cidr);
                    assert(old(self).records()[0].0 == old(self).cidr);
                }
                return false;
            },
            State::Free => {
                if self.cidr == *cidr {
                    let owned: Option<String> = match name {
                        Some(s) => Some(s.to_owned()),
                        None => None,
                    };
                    self.state = State::Allocated(owned);
                    self.allocated_count = 1;
                    self.max_available_bits = 0;
                    proof {
                        assert(self.records() =~= Seq::empty().push((*cidr, opt_name(name))));
                        Seq::<(Cidr, Option<Seq<char>>)>::empty().to_multiset_ensures();
                        assert(old(self).records().to_multiset() =~= Multiset::empty());
                        assert(self.records().to_multiset() =~= old(
                            self,
                        ).records().to_multiset().insert((*cidr, opt_name(name))));
                    }
                    return true;
                }
                // the target is properly contained in this free block: split
                // and claim inside whichever half holds it, which succeeds
                proof {
                    crate::util::lemma_half_dichotomy(self.cidr, *cidr);
                    lemma_split_parts(self.cidr);
                }
                let (lc, hc) = split_cidr(&self.cidr);
                let mut low = Box::new(Subspace::new(lc));
                let mut high = Box::new(Subspace::new(hc));
                let rl = low.claim(cidr, name);
                let ok = if rl {
                    true
                } else {
                    high.claim(cidr, name)
                };
                self.state = State::Unavailable(low, high);
                proof {
                    assert(ok);
                }
                self.update_info();
                proof {
                    match &self.state {
                        State::Unavailable(l2, h2) => {
                            lemma_multiset_commutative(l2.records(), h2.records());
                            if rl {
                                assert(h2.records() =~= Seq::empty());
                                assert(self.records() =~= l2.records());
                            } else {
                                assert(l2.records() =~= Seq::empty());
                                assert(self.records() =~= h2.records());
                            }
                            assert(self.records().to_multiset() =~= old(
                                self,
                            ).records().to_multiset().insert((*cidr, opt_name(name))));
                        },
                        _ => {
                            assert(false);
                        },
                    }
                }
                return true;
            },
            State::Unavailable(_, _) => {},
        }
        let r: bool;
        let ghost old_low: Subspace;
        let ghost old_high: Subspace;
        let ghost mut claimed_low = false;
        match &mut self.state {
            State::Unavailable(low, high) => {
                proof {
                    old_low = **low;
                    old_high = **high;
                }
                let rl = low.claim(cidr, name);
                if rl {
                    proof {
                        claimed_low = true;
                    }
                    r = true;
                } else {
                    r = high.claim(cidr, name);
                }
            },
            _ => {
                proof {
                    assert(false);
                }
                r = false;
            },
        }
        proof {
            assert(old(self).records() =~= old_low.records() + old_high.records());
            lemma_multiset_commutative(old_low.records(), old_high.records());
            lemma_split_parts(old(self).cidr);
            old_low.lemma_parts_in_block();
            old_high.lemma_parts_in_block();
        }
        if r {
            proof {
                match &self.state {
                    State::Unavailable(l2, h2) => {
                        if claimed_low {
                            lemma_multiset_commutative(l2.records(), old_high.records());
                        } else {
                            lemma_multiset_commutative(old_low.records(), h2.records());
                        }
                    },
                    _ => {
                        assert(false);
                    },
                }
            }
            self.update_info();
            proof {
                let nl = old_low.records().len() as int;
                assert forall|i: int| 0 <= i < old(self).records().len() implies (#[trigger] old(
                    self,
                ).records()[i]).0.disjoint(*cidr) by {
                    if claimed_low {
                        if i < nl {
                            assert(old(self).records()[i] == old_low.records()[i]);
                        } else {
                            assert(old(self).records()[i] == old_high.records()[i - nl]);
                        }
                    } else {
                        if i < nl {
                            assert(old(self).records()[i] == old_low.records()[i]);
                        } else {
                            assert(old(self).records()[i] == old_high.records()[i - nl]);
                        }
                    }
                }
            }
            r
        } else {
            proof {
                let nl = old_low.records().len() as int;
                if old(self).cidr == *cidr {
                    assert(old(self).records().len() >= 1);
                    crate::util::lemma_contains_not_disjoint(*cidr, old(self).records()[0].0);
                } else {
                    crate::util::lemma_half_dichotomy(old(self).cidr, *cidr);
                    if low_half(old(self).cidr).spec_contains(*cidr) {
                        let j = choose|j: int|
                            0 <= j < old_low.records().len() && !((#[trigger] old_low.records()[j]).0.disjoint(
                                *cidr,
                            ));
                        assert(old(self).records()[j] == old_low.records()[j]);
                        assert(!(old(self).records()[j].0.disjoint(*cidr)));
                    } else {
                        let j = choose|j: int|
                            0 <= j < old_high.records().len() && !((#[trigger] old_high.records()[j]).0.disjoint(
                                *cidr,
                            ));
                        assert(old(self).records()[nl + j] == old_high.records()[j]);
                        assert(!(old(self).records()[nl + j].0.disjoint(*cidr)));
                    }
                }
            }
            r
        }
    }

    /// Pure descent by containment: return a copy of the record whose block
    /// equals `cidr` exactly, if one is allocated. Does not mutate.
    pub(crate) fn find_record(&self, cidr: &Cidr) -> (r: Option<CidrRecord>)
        requires
            self.inv(),
            cidr.wf(),
        ensures
            match r {
                Some(rec) => rec.cidr == *cidr && exists|i: int|
                    0 <= i < self.records().len() && #[trigger] self.records()[i] == (
                        *cidr,
                        crate::name_view(rec.name),
                    ),
                None => !self.has_record_block(*cidr),
            },
        decreases self.cidr.spec_host_length(),
    {
        proof {
            self.lemma_parts_in_block();
        }
        if !cidr_contains(&self.cidr, cidr) {
            proof {
                if self.has_record_block(*cidr) {
                    let i = choose|i: int|
                        0 <= i < self.records().len() && (#[trigger] self.records()[i]).0 == *cidr;
                    assert(self.cidr.spec_contains(self.records()[i].0));
                }
            }
            return None;
        }
        match &self.state {
            State::Free => None,
            State::Allocated(n) => {
                if self.cidr == *cidr {
                    let name: Option<String> = match n {
                        Some(s) => Some(s.clone()),
                        None => None,
                    };
                    proof {
                        assert(self.records()[0] == (*cidr, crate::name_view(name)));
                    }
                    Some(CidrRecord { cidr: *cidr, name })
                } else {
                    proof {
                        if self.has_record_block(*cidr) {
                            let i = choose|i: int|
                                0 <= i < self.records().len() && (#[trigger] self.records()[i]).0
                                    == *cidr;
                            assert(self.records()[i].0 == self.cidr);
                        }
                    }
                    None
                }
            },
            State::Unavailable(low, high) => {
                proof {
                    assert(self.records() =~= low.records() + high.records());
                }
                let rl = low.find_record(cidr);
                let res = match rl {
                    Some(rec) => Some(rec),
                    None => high.find_record(cidr),
                };
                proof {
                    let nl = low.records().len() as int;
                    match &res {
                        Some(rec) => {
                            if low.has_record_block(*cidr) || exists|i: int|
                                0 <= i < low.records().len() && #[trigger] low.records()[i] == (
                                    *cidr,
                                    crate::name_view(rec.name),
                                ) {
                                let i = choose|i: int|
                                    0 <= i < low.records().len() && #[trigger] low.records()[i]
                                        == (*cidr, crate::name_view(rec.name));
                                assert(self.records()[i] == low.records()[i]);
                            } else {
                                let i = choose|i: int|
                                    0 <= i < high.records().len() && #[trigger] high.records()[i]
                                        == (*cidr, crate::name_view(rec.name));
                                assert(self.records()[nl + i] == high.records()[i]);
                            }
                        },
                        None => {
                            if self.has_record_block(*cidr) {
                                let i = choose|i: int|
                                    0 <= i < self.records().len() && (#[trigger] self.records()[i]).0
                                        == *cidr;
                                if i < nl {
                                    assert(low.records()[i].0 == *cidr);
                                    assert(low.has_record_block(*cidr));
                                } else {
                                    assert(high.records()[i - nl].0 == *cidr);
                                    assert(high.has_record_block(*cidr));
                                }
                            }
                        },
                    }
                }
                res
            },
        }
    }

    /// Overwrite the name of the allocated block equal to `cidr`, the one
    /// mutation that bypasses allocation and release: occupancy, free space
    /// and both aggregates are untouched. Returns true exactly when such an
    /// allocated block existed.
    pub(crate) fn set_name(&mut self, cidr: &Cidr, name: Option<&str>) -> (r: bool)
        requires
            old(self).inv(),
            cidr.wf(),
        ensures
            final(self).inv(),
            final(self).cidr == old(self).cidr,
            final(self).allocated_count == old(self).allocated_count,
            final(self).max_available_bits == old(self).max_available_bits,
            final(self).free_blocks() == old(self).free_blocks(),
            final(self).spec_max_available() == old(self).spec_max_available(),
            r == old(self).has_record_block(*cidr),
            !r ==> *final(self) == *old(self),
            r ==> exists|i: int|
                0 <= i < old(self).records().len() && (#[trigger] old(self).records()[i]).0
                    == *cidr && final(self).records() == old(self).records().update(
                    i,
                    (*cidr, opt_name(name)),
                ),
        decreases old(self).cidr.spec_host_length(),
    {
        proof {
            self.lemma_parts_in_block();
        }
        if !cidr_contains(&self.cidr, cidr) {
            proof {
                if old(self).has_record_block(*cidr) {
                    let i = choose|i: int|
                        0 <= i < old(self).records().len() && (#[trigger] old(
                            self,
                        ).records()[i]).0 == *cidr;
                    assert(old(self).cidr.spec_contains(old(self).records()[i].0));
                }
            }
            return false;
        }
        let renamed: bool;
        let ghost mut renamed_low = false;
        let ghost old_low: Subspace;
        let ghost old_high: Subspace;
        match &mut self.state {
            State::Free => {
                renamed = false;
            },
            State::Allocated(_) => {
                if self.cidr == *cidr {
                    let owned: Option<String> = match name {
                        Some(s) => Some(s.to_owned()),
                        None => None,
                    };
                    self.state = State::Allocated(owned);
                    renamed = true;
                    proof {
                        assert(old(self).records()[0].0 == *cidr);
                    }
                } else {
                    renamed = false;
                    proof {
                        if old(self).has_record_block(*cidr) {
                            let i = choose|i: int|
                                0 <= i < old(self).records().len() && (#[trigger] old(
                                    self,
                                ).records()[i]).0 == *cidr;
                            assert(old(self).records()[i].0 == old(self).cidr);
                        }
                    }
                }
            },
            State::Unavailable(low, high) => {
                proof {
                    old_low = **low;
                    old_high = **high;
                }
                let rl = low.set_name(cidr, name);
                renamed = if rl {
                    proof {
                        renamed_low = true;
                    }
                    true
                } else {
                    high.set_name(cidr, name)
                };
                proof {
                    assert(old(self).records() =~= old_low.records() + old_high.records());
                    let nl = old_low.records().len() as int;
                    if !renamed {
                        if old(self).has_record_block(*cidr) {
                            let i = choose|i: int|
                                0 <= i < old(self).records().len() && (#[trigger] old(
                                    self,
                                ).records()[i]).0 == *cidr;
                            if i < nl {
                                assert(old_low.records()[i].0 == *cidr);
                                assert(old_low.has_record_block(*cidr));
                            } else {
                                assert(old_high.records()[i - nl].0 == *cidr);
                                assert(old_high.has_record_block(*cidr));
                            }
                        }
                    } else {
                        if renamed_low {
                            let i = choose|i: int|
                                0 <= i < old_low.records().len() && (#[trigger] old_low.records()[i]).0
                                    == *cidr && low.records() == old_low.records().update(
                                    i,
                                    (*cidr, opt_name(name)),
                                );
                            assert(old(self).records()[i].0 == *cidr);
                            assert(low.records() + high.records() =~= old(
                                self,
                            ).records().update(i, (*cidr, opt_name(name))));
                        } else {
                            let i = choose|i: int|
                                0 <= i < old_high.records().len() && (#[trigger] old_high.records()[i]).0
                                    == *cidr && high.records() == old_high.records().update(
                                    i,
                                    (*cidr, opt_name(name)),
                                );
                            assert(old(self).records()[nl + i].0 == *cidr);
                            assert(low.records() + high.records() =~= old(
                                self,
                            ).records().update(nl + i, (*cidr, opt_name(name))));
                        }
                    }
                }
            },
        }
        renamed
    }

    /// Append a copy of every record of this subtree to `out`, in ascending
    /// address order.
    pub(crate) fn collect_records(&self, out: &mut Vec<CidrRecord>)
        requires
            self.inv(),
        ensures
            final(out)@.len() == old(out)@.len() + self.records().len(),
            forall|i: int| 0 <= i < old(out)@.len() ==> final(out)@[i] == old(out)@[i],
            forall|i: int|
                0 <= i < self.records().len() ==> (#[trigger] final(out)@[old(out)@.len() + i]).view_pair()
                    == self.records()[i],
        decreases self.cidr.spec_host_length(),
    {
        match &self.state {
            State::Free => {},
            State::Allocated(n) => {
                let name: Option<String> = match n {
                    Some(s) => Some(s.clone()),
                    None => None,
                };
                out.push(CidrRecord { cidr: self.cidr, name });
            },
            State::Unavailable(low, high) => {
                proof {
                    assert(self.records() =~= low.records() + high.records());
                }
                let ghost mid_len: int;
                low.collect_records(out);
                proof {
                    mid_len = out@.len() as int;
                }
                high.collect_records(out);
                proof {
                    let nl = low.records().len() as int;
                    assert forall|i: int| 0 <= i < self.records().len() implies (#[trigger] out@[old(
                        out,
                    )@.len() + i]).view_pair() == self.records()[i] by {
                        if i < nl {
                            assert(self.records()[i] == low.records()[i]);
                            assert(out@[old(out)@.len() + i] == out@[old(out)@.len() + i]);
                        } else {
                            assert(self.records()[i] == high.records()[i - nl]);
                            assert(old(out)@.len() + i == mid_len + (i - nl));
                        }
                    }
                }
            },
        }
    }

    /// Two well-formed trees over the same block holding the same records
    /// also agree on their free space and their cached maximum: everything a
    /// pool exposes is a function of its root block and its records alone.
    pub(crate) proof fn lemma_shape_canonical(a: Subspace, b: Subspace)
        requires
            a.inv(),
            b.inv(),
            a.cidr == b.cidr,
            a.records() == b.records(),
        ensures
            a.free_blocks() == b.free_blocks(),
            a.spec_max_available() == b.spec_max_available(),
        decreases a.cidr.spec_host_length(),
    {
        a.lemma_parts_in_block();
        b.lemma_parts_in_block();
        lemma_end_in_space(a.cidr);
        match a.state {
            State::Free => {
                match b.state {
                    State::Free => {
                        assert(a.free_blocks() =~= b.free_blocks());
                    },
                    State::Allocated(_) => {
                        assert(b.records().len() == 1);
                        assert(false);
                    },
                    State::Unavailable(bl, bh) => {
                        assert(b.records() == bl.records() + bh.records());
                        assert(false);
                    },
                }
            },
            State::Allocated(_) => {
                match b.state {
                    State::Free => {
                        assert(a.records().len() == 1);
                        assert(false);
                    },
                    State::Allocated(_) => {
                        assert(a.free_blocks() =~= b.free_blocks());
                    },
                    State::Unavailable(bl, bh) => {
                        Self::lemma_no_whole_block_record(b);
                        assert(a.records()[0].0 == a.cidr);
                        assert(false);
                    },
                }
            },
            State::Unavailable(al, ah) => {
                match b.state {
                    State::Free => {
                        assert(a.records() == al.records() + ah.records());
                        assert(false);
                    },
                    State::Allocated(_) => {
                        Self::lemma_no_whole_block_record(a);
                        assert(b.records()[0].0 == b.cidr);
                        assert(false);
                    },
                    State::Unavailable(bl, bh) => {
                        lemma_split_parts(a.cidr);
                        al.lemma_parts_in_block();
                        ah.lemma_parts_in_block();
                        bl.lemma_parts_in_block();
                        bh.lemma_parts_in_block();
                        let common = a.records();
                        assert(common == al.records() + ah.records());
                        assert(common == bl.records() + bh.records());
                        let na = al.records().len() as int;
                        let nb = bl.records().len() as int;
                        let mid = high_half(a.cidr).start();
                        // records in a low child end by the middle; records
                        // in a high child start at or after it
                        assert forall|k: int| 0 <= k < na implies (#[trigger] common[k]).0.end()
                            <= mid by {
                            assert(common[k] == al.records()[k]);
                        }
                        assert forall|k: int| na <= k < common.len() implies mid <= (
                        #[trigger] common[k]).0.start() by {
                            assert(common[k] == ah.records()[k - na]);
                        }
                        assert forall|k: int| 0 <= k < nb implies (#[trigger] common[k]).0.end()
                            <= mid by {
                            assert(common[k] == bl.records()[k]);
                        }
                        assert forall|k: int| nb <= k < common.len() implies mid <= (
                        #[trigger] common[k]).0.start() by {
                            assert(common[k] == bh.records()[k - nb]);
                        }
                        if na < nb {
                            lemma_end_in_space(common[na].0);
                            assert(common[na].0.end() <= mid);
                            assert(mid <= common[na].0.start());
                            assert(false);
                        }
                        if nb < na {
                            lemma_end_in_space(common[nb].0);
                            assert(false);
                        }
                        assert forall|k: int| 0 <= k < na implies al.records()[k]
                            == bl.records()[k] by {
                            assert(common[k] == al.records()[k]);
                            assert(common[k] == bl.records()[k]);
                        }
                        assert forall|k: int| 0 <= k < ah.records().len() implies ah.records()[k]
                            == bh.records()[k] by {
                            assert(common[na + k] == ah.records()[k]);
                            assert(common[nb + k] == bh.records()[k]);
                        }
                        assert(al.records() =~= bl.records());
                        assert(ah.records() =~= bh.records());
                        Self::lemma_shape_canonical(*al, *bl);
                        Self::lemma_shape_canonical(*ah, *bh);
                        assert(a.free_blocks() =~= b.free_blocks());
                    },
                }
            },
        }
    }

    /// No record of a subdivided node covers the node's whole block: every
    /// record lives inside one strictly smaller child.
    proof fn lemma_no_whole_block_record(s: Subspace)
        requires
            s.inv(),
            s.state is Unavailable,
        ensures
            forall|k: int|
                0 <= k < s.records().len() ==> (#[trigger] s.records()[k]).0 != s.cidr,
    {
        s.lemma_parts_in_block();
        lemma_split_parts(s.cidr);
        match s.state {
            State::Unavailable(lo, hi) => {
                lo.lemma_parts_in_block();
                hi.lemma_parts_in_block();
                assert(s.records() == lo.records() + hi.records());
                assert forall|k: int| 0 <= k < s.records().len() implies (
                #[trigger] s.records()[k]).0 != s.cidr by {
                    vstd::arithmetic::power2::lemma_pow2_strictly_increases(
                        (s.cidr.spec_host_length() - 1) as nat,
                        s.cidr.spec_host_length(),
                    );
                    if k < lo.records().len() {
                        assert(s.records()[k] == lo.records()[k]);
                        assert(lo.cidr.spec_contains(s.records()[k].0));
                    } else {
                        assert(s.records()[k] == hi.records()[k - lo.records().len()]);
                        assert(hi.cidr.spec_contains(s.records()[k].0));
                    }
                }
            },
            _ => {},
        }
    }

    /// A fresh node: one free leaf governing `cidr`, with exact aggregates.
    pub(crate) fn new(cidr: Cidr) -> (r: Subspace)
        requires
            cidr.wf(),
        ensures
            r.inv(),
            r.cidr == cidr,
            r.state is Free,
            r.records() =~= Seq::<(Cidr, Option<Seq<char>>)>::empty(),
            r.free_blocks() =~= seq![cidr],
            r.max_available_bits == cidr.spec_host_length(),
            r.allocated_count == 0,
    {
        let max = host_length(&cidr);
        Subspace { cidr, state: State::Free, allocated_count: 0, max_available_bits: max }
    }
}

/// Two sequences of records in strictly ascending address order that hold
/// the same multiset of records are the same sequence.
pub(crate) proof fn lemma_sorted_records_unique(
    x: Seq<(Cidr, Option<Seq<char>>)>,
    y: Seq<(Cidr, Option<Seq<char>>)>,
)
    requires
        x.to_multiset() == y.to_multiset(),
        forall|i: int, j: int|
            0 <= i < j < x.len() ==> (#[trigger] x[i]).0.end() <= (#[trigger] x[j]).0.start(),
        forall|i: int, j: int|
            0 <= i < j < y.len() ==> (#[trigger] y[i]).0.end() <= (#[trigger] y[j]).0.start(),
        forall|i: int| 0 <= i < x.len() ==> (#[trigger] x[i]).0.size() >= 1,
        forall|i: int| 0 <= i < y.len() ==> (#[trigger] y[i]).0.size() >= 1,
    ensures
        x == y,
    decreases x.len(),
{
    broadcast use vstd::multiset::group_multiset_axioms;

    x.to_multiset_ensures();
    y.to_multiset_ensures();
    if x.len() == 0 {
        assert(x =~= y);
    } else {
        assert(y.len() == x.len());
        assert(x.contains(x[0]));
        assert(y.to_multiset().count(x[0]) > 0);
        assert(y.contains(x[0]));
        let j = choose|j: int| 0 <= j < y.len() && y[j] == x[0];
        assert(x.to_multiset().count(y[0]) > 0);
        assert(x.contains(y[0]));
        let k = choose|k: int| 0 <= k < x.len() && x[k] == y[0];
        if j > 0 {
            assert(y[0].0.end() <= y[j].0.start());
            if k > 0 {
                assert(x[0].0.end() <= x[k].0.start());
            }
            assert(false);
        }
        assert(y[0] == x[0]);
        let xr = x.drop_first();
        let yr = y.drop_first();
        assert(xr =~= x.remove(0));
        assert(yr =~= y.remove(0));
        assert(xr.to_multiset() =~= x.to_multiset().remove(x[0]));
        assert(yr.to_multiset() =~= y.to_multiset().remove(y[0]));
        assert forall|i: int, jx: int|
            0 <= i < jx < xr.len() implies (#[trigger] xr[i]).0.end() <= (
        #[trigger] xr[jx]).0.start() by {
            assert(xr[i] == x[i + 1]);
            assert(xr[jx] == x[jx + 1]);
        }
        assert forall|i: int, jy: int|
            0 <= i < jy < yr.len() implies (#[trigger] yr[i]).0.end() <= (
        #[trigger] yr[jy]).0.start() by {
            assert(yr[i] == y[i + 1]);
            assert(yr[jy] == y[jy + 1]);
        }
        assert forall|i: int| 0 <= i < xr.len() implies (#[trigger] xr[i]).0.size() >= 1 by {
            assert(xr[i] == x[i + 1]);
        }
        assert forall|i: int| 0 <= i < yr.len() implies (#[trigger] yr[i]).0.size() >= 1 by {
            assert(yr[i] == y[i + 1]);
        }
        lemma_sorted_records_unique(xr, yr);
        assert forall|i: int| 0 <= i < x.len() implies x[i] == y[i] by {
            if i > 0 {
                assert(x[i] == xr[i - 1]);
                assert(y[i] == yr[i - 1]);
            }
        }
        assert(x =~= y);
    }
}

} // verus!
