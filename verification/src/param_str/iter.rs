//! Cross-product enumeration: given one list of candidate strings per
//! position, yield every combination that picks one string for each
//! position, the last position cycling fastest.

use vstd::prelude::*;

verus! {

/// The characters of each string of each combination.
pub open spec fn combos_view(combos: Seq<Vec<String>>) -> Seq<Seq<Seq<char>>> {
    combos.map_values(|c: Vec<String>| c.deep_view())
}

/// The characters of each string of each list.
pub open spec fn lists_view(lists: Seq<Vec<String>>) -> Seq<Seq<Seq<char>>> {
    lists.map_values(|c: Vec<String>| c.deep_view())
}

/// Whether `x` is one of `items`.
pub open spec fn picks_one(items: Seq<Seq<char>>, x: Seq<char>) -> bool {
    exists|j: int| 0 <= j < items.len() && x == #[trigger] items[j]
}

/// Whether `combo` picks one element of each of `lists`, in position order.
pub open spec fn drawn_from(lists: Seq<Seq<Seq<char>>>, combo: Seq<Seq<char>>) -> bool {
    &&& combo.len() == lists.len()
    &&& forall|k: int| 0 <= k < combo.len() ==> picks_one(lists[k], #[trigger] combo[k])
}

/// Extending a combination with one candidate of one more list keeps it
/// drawn elementwise.
proof fn lemma_drawn_push(
    lists: Seq<Seq<Seq<char>>>,
    combo: Seq<Seq<char>>,
    items: Seq<Seq<char>>,
    x: Seq<char>,
    jx: int,
)
    requires
        drawn_from(lists, combo),
        0 <= jx < items.len(),
        x == items[jx],
    ensures
        drawn_from(lists.push(items), combo.push(x)),
{
    let l2 = lists.push(items);
    let c2 = combo.push(x);
    assert forall|t: int| 0 <= t < c2.len() implies picks_one(l2[t], #[trigger] c2[t]) by {
        if t < combo.len() {
            assert(picks_one(lists[t], combo[t]));
            assert(l2[t] == lists[t]);
            assert(c2[t] == combo[t]);
        } else {
            assert(l2[t] == items);
            assert(c2[t] == x);
            assert(l2[t][jx] == x);
            assert(picks_one(l2[t], c2[t]));
        }
    }
}

/// A copy of a list of strings, character for character.
fn clone_strings(v: &Vec<String>) -> (r: Vec<String>)
    ensures
        r.deep_view() == v.deep_view(),
{
    let mut out: Vec<String> = Vec::new();
    let n = v.len();
    let mut i: usize = 0;
    while i < n
        invariant
            n == v@.len(),
            i <= n,
            out@.len() == i,
            forall|j: int| 0 <= j < i ==> (#[trigger] out@[j])@ == v@[j]@,
        decreases n - i,
    {
        out.push(v[i].clone());
        i = i + 1;
    }
    proof {
        assert(out.deep_view() =~= v.deep_view());
    }
    out
}

/// All combinations drawn from per-position candidate lists, yielded one at
/// a time in a fixed order: the last position cycles fastest.
pub struct ListCombinationIterator {
    combos: Vec<Vec<String>>,
    at: usize,
}

impl ListCombinationIterator {
    /// The combinations not yet yielded, oldest first.
    pub closed spec fn remaining(&self) -> Seq<Seq<Seq<char>>> {
        if self.at as int <= self.combos@.len() {
            combos_view(self.combos@.skip(self.at as int))
        } else {
            Seq::empty()
        }
    }

    /// Prepare the enumeration. There is nothing to enumerate exactly when
    /// the list of positions is empty or some position has no candidates;
    /// otherwise at least one combination follows, and every one picks one
    /// candidate per position.
    pub fn new(list: Vec<Vec<String>>) -> (r: Option<ListCombinationIterator>)
        ensures
            match r {
                Some(it) => {
                    &&& list@.len() > 0
                    &&& forall|k: int| 0 <= k < list@.len() ==> (#[trigger] list@[k])@.len() > 0
                    &&& it.remaining().len() > 0
                    &&& forall|i: int|
                        0 <= i < it.remaining().len() ==> drawn_from(
                            lists_view(list@),
                            #[trigger] it.remaining()[i],
                        )
                },
                None => list@.len() == 0 || exists|k: int|
                    0 <= k < list@.len() && (#[trigger] list@[k])@.len() == 0,
            },
    {
        if list.is_empty() {
            return None;
        }
        let n = list.len();
        let mut k: usize = 0;
        while k < n
            invariant
                n == list@.len(),
                k <= n,
                forall|t: int| 0 <= t < k ==> (#[trigger] list@[t])@.len() > 0,
            decreases n - k,
        {
            if list[k].is_empty() {
                return None;
            }
            k = k + 1;
        }
        let ghost lv = lists_view(list@);
        let mut combos: Vec<Vec<String>> = Vec::new();
        combos.push(Vec::new());
        proof {
            assert(combos@[0].deep_view() =~= Seq::<Seq<char>>::empty());
            assert(lv.take(0) =~= Seq::<Seq<Seq<char>>>::empty());
        }
        let mut k: usize = 0;
        while k < n
            invariant
                n == list@.len(),
                lv == lists_view(list@),
                forall|t: int| 0 <= t < n ==> (#[trigger] list@[t])@.len() > 0,
                k <= n,
                combos@.len() > 0,
                forall|i: int|
                    0 <= i < combos@.len() ==> drawn_from(
                        lv.take(k as int),
                        (#[trigger] combos@[i]).deep_view(),
                    ),
            decreases n - k,
        {
            let mut next: Vec<Vec<String>> = Vec::new();
            let m = combos.len();
            let w = list[k].len();
            let mut i: usize = 0;
            while i < m
                invariant
                    n == list@.len(),
                    lv == lists_view(list@),
                    k < n,
                    m == combos@.len(),
                    w == list@[k as int]@.len(),
                    w > 0,
                    forall|i0: int|
                        0 <= i0 < combos@.len() ==> drawn_from(
                            lv.take(k as int),
                            (#[trigger] combos@[i0]).deep_view(),
                        ),
                    i <= m,
                    next@.len() == i * w,
                    forall|t: int|
                        0 <= t < next@.len() ==> drawn_from(
                            lv.take(k + 1),
                            (#[trigger] next@[t]).deep_view(),
                        ),
                decreases m - i,
            {
                let mut j: usize = 0;
                while j < w
                    invariant
                        n == list@.len(),
                        lv == lists_view(list@),
                        k < n,
                        m == combos@.len(),
                        i < m,
                        w == list@[k as int]@.len(),
                        forall|i0: int|
                            0 <= i0 < combos@.len() ==> drawn_from(
                                lv.take(k as int),
                                (#[trigger] combos@[i0]).deep_view(),
                            ),
                        j <= w,
                        next@.len() == i * w + j,
                        forall|t: int|
                            0 <= t < next@.len() ==> drawn_from(
                                lv.take(k + 1),
                                (#[trigger] next@[t]).deep_view(),
                            ),
                    decreases w - j,
                {
                    let mut combo = clone_strings(&combos[i]);
                    combo.push(list[k][j].clone());
                    proof {
                        let cv = combo.deep_view();
                        let prev = combos@[i as int].deep_view();
                        assert(cv =~= prev.push(list@[k as int]@[j as int]@));
                        assert(lv.take(k + 1) =~= lv.take(k as int).push(lv[k as int]));
                        assert(lv[k as int] == list@[k as int].deep_view());
                        assert(drawn_from(lv.take(k as int), prev));
                        assert(list@[k as int].deep_view()[j as int] == list@[k as int]@[j as int]@);
                        lemma_drawn_push(
                            lv.take(k as int),
                            prev,
                            lv[k as int],
                            list@[k as int]@[j as int]@,
                            j as int,
                        );
                        assert(drawn_from(lv.take(k + 1), cv));
                    }
                    next.push(combo);
                    j = j + 1;
                }
                i = i + 1;
                proof {
                    assert((i - 1) * w + w == i * w) by (nonlinear_arith);
                }
            }
            proof {
                assert(m * w > 0) by (nonlinear_arith)
                    requires
                        m > 0,
                        w > 0,
                ;
            }
            combos = next;
            k = k + 1;
        }
        proof {
            assert(lv.take(n as int) =~= lv);
        }
        let it = ListCombinationIterator { combos, at: 0 };
        proof {
            assert(it.combos@.skip(0) =~= it.combos@);
            assert forall|i: int| 0 <= i < it.remaining().len() implies drawn_from(
                lv,
                #[trigger] it.remaining()[i],
            ) by {
                assert(it.remaining()[i] == it.combos@[i].deep_view());
            }
        }
        Some(it)
    }

    /// Yield the next combination, oldest first.
    pub fn next(&mut self) -> (r: Option<Vec<String>>)
        ensures
            match r {
                Some(combo) => old(self).remaining().len() > 0 && combo.deep_view() == old(
                    self,
                ).remaining()[0] && final(self).remaining() == old(self).remaining().drop_first(),
                None => old(self).remaining().len() == 0 && final(self).remaining() == old(
                    self,
                ).remaining(),
            },
    {
        if self.at < self.combos.len() {
            let combo = clone_strings(&self.combos[self.at]);
            self.at = self.at + 1;
            proof {
                let r0 = old(self).remaining();
                assert(r0 == combos_view(old(self).combos@.skip(old(self).at as int)));
                assert(r0.len() > 0);
                assert(old(self).combos@.skip(old(self).at as int)[0] == old(self).combos@[old(
                    self,
                ).at as int]);
                assert(r0[0] == old(self).combos@[old(self).at as int].deep_view());
                assert(combo.deep_view() == r0[0]);
                assert(self.remaining() =~= r0.drop_first());
            }
            Some(combo)
        } else {
            None
        }
    }
}

} // verus!
