use vstd::prelude::*;

use crate::types::{ScoredPointOffset, scored_lt, scored_less};

verus! {

broadcast use vstd::seq_lib::group_to_multiset_ensures;

/// `s[i]` is the first of the lowest elements of `s`.
pub open spec fn is_worst(s: Seq<ScoredPointOffset>, i: int) -> bool {
    &&& 0 <= i < s.len()
    &&& forall|j: int| 0 <= j < s.len() ==> !scored_lt(#[trigger] s[j], s[i])
    &&& forall|j: int| 0 <= j < i ==> scored_lt(s[i], #[trigger] s[j])
}

/// `s[i]` is the first of the highest elements of `s`.
pub open spec fn is_best(s: Seq<ScoredPointOffset>, i: int) -> bool {
    &&& 0 <= i < s.len()
    &&& forall|j: int| 0 <= j < s.len() ==> !scored_lt(s[i], #[trigger] s[j])
    &&& forall|j: int| 0 <= j < i ==> scored_lt(#[trigger] s[j], s[i])
}

/// No two elements of `s` carry the same point.
pub open spec fn ids_distinct(s: Seq<ScoredPointOffset>) -> bool {
    forall|i: int, j: int| 0 <= i < s.len() && 0 <= j < s.len() && i != j ==> #[trigger] s[i].idx != #[trigger] s[j].idx
}

/// `o` is kept in `s`, or `s` holds `cap` points none of which is below `o`.
pub open spec fn kept_or_beaten(s: Seq<ScoredPointOffset>, cap: nat, o: ScoredPointOffset) -> bool {
    s.contains(o) || (s.len() == cap && forall|k: int| 0 <= k < s.len() ==> !scored_lt(#[trigger] s[k], o))
}

/// Reordering `s` keeps what it keeps and what it beats.
pub proof fn lemma_kept_or_beaten_reordered(s: Seq<ScoredPointOffset>, r: Seq<ScoredPointOffset>, cap: nat, o: ScoredPointOffset)
    requires
        r.to_multiset() == s.to_multiset(),
        kept_or_beaten(s, cap, o),
    ensures
        kept_or_beaten(r, cap, o),
{
    vstd::seq_lib::to_multiset_len(s);
    vstd::seq_lib::to_multiset_len(r);
    if s.contains(o) {
        assert(s.to_multiset().count(o) > 0);
        assert(r.contains(o));
    } else {
        assert forall|j: int| 0 <= j < r.len() implies !scored_lt(#[trigger] r[j], o) by {
            assert(r.contains(r[j]));
            assert(r.to_multiset().count(r[j]) > 0);
            assert(s.contains(r[j]));
            let x = choose|x: int| 0 <= x < s.len() && s[x] == r[j];
            assert(!scored_lt(s[x], o));
        }
    }
}

/// `s` goes from the highest element to the lowest.
pub open spec fn sorted_desc(s: Seq<ScoredPointOffset>) -> bool {
    forall|i: int, j: int| 0 <= i < j < s.len() ==> !scored_lt(#[trigger] s[i], #[trigger] s[j])
}

/// Index of the first of the highest elements.
pub fn best_index(s: &Vec<ScoredPointOffset>) -> (r: usize)
    requires
        s@.len() > 0,
    ensures
        is_best(s@, r as int),
{
    let mut best: usize = 0;
    let mut i: usize = 1;
    while i < s.len()
        invariant
            1 <= i <= s@.len(),
            best < i,
            forall|j: int| 0 <= j < i ==> !scored_lt(s@[best as int], #[trigger] s@[j]),
            forall|j: int| 0 <= j < best ==> scored_lt(#[trigger] s@[j], s@[best as int]),
        decreases s@.len() - i,
    {
        if scored_less(s[best], s[i]) {
            best = i;
        }
        i += 1;
    }
    best
}

/// Index of the first of the lowest elements.
pub fn worst_index(s: &Vec<ScoredPointOffset>) -> (r: usize)
    requires
        s@.len() > 0,
    ensures
        is_worst(s@, r as int),
{
    let mut worst: usize = 0;
    let mut i: usize = 1;
    while i < s.len()
        invariant
            1 <= i <= s@.len(),
            worst < i,
            forall|j: int| 0 <= j < i ==> !scored_lt(#[trigger] s@[j], s@[worst as int]),
            forall|j: int| 0 <= j < worst ==> scored_lt(s@[worst as int], #[trigger] s@[j]),
        decreases s@.len() - i,
    {
        if scored_less(s[i], s[worst]) {
            worst = i;
        }
        i += 1;
    }
    worst
}

/// Keeps the `length` highest scored points offered to it.
pub struct FixedLengthPriorityQueue {
    items: Vec<ScoredPointOffset>,
    length: usize,
}

impl View for FixedLengthPriorityQueue {
    type V = Seq<ScoredPointOffset>;

    closed spec fn view(&self) -> Seq<ScoredPointOffset> {
        self.items@
    }
}

impl FixedLengthPriorityQueue {
    /// The most points kept.
    pub closed spec fn capacity(&self) -> nat {
        self.length as nat
    }

    pub fn new(length: usize) -> (r: Self)
        ensures
            r@ == Seq::<ScoredPointOffset>::empty(),
            r.capacity() == length,
    {
        FixedLengthPriorityQueue { items: Vec::new(), length }
    }

    /// Offers `value`. While there is room it is kept and `None` returned;
    /// otherwise the lowest of the kept points and `value` leaves, and is
    /// returned.
    pub fn push(&mut self, value: ScoredPointOffset) -> (r: Option<ScoredPointOffset>)
        ensures
            final(self).capacity() == old(self).capacity(),
            old(self)@.len() < old(self).capacity() ==> r is None && final(self)@ == old(self)@.push(
                value,
            ),
            old(self)@.len() >= old(self).capacity() && old(self)@.len() > 0 ==> exists|i: int|
                #![auto]
                is_worst(old(self)@, i) && if scored_lt(old(self)@[i], value) {
                    final(self)@ == old(self)@.update(i, value) && r == Some(old(self)@[i])
                } else {
                    final(self)@ == old(self)@ && r == Some(value)
                },
            old(self)@.len() >= old(self).capacity() && old(self)@.len() == 0 ==> final(self)@
                == old(self)@ && r == Some(value),
    {
        if self.items.len() < self.length {
            self.items.push(value);
            return None;
        }
        if self.items.len() == 0 {
            return Some(value);
        }
        let worst = worst_index(&self.items);
        let removed = self.items[worst];
        if scored_less(removed, value) {
            self.items.set(worst, value);
            assert(is_worst(old(self)@, worst as int));
            Some(removed)
        } else {
            assert(is_worst(old(self)@, worst as int));
            Some(value)
        }
    }

    /// The lowest kept point, if any.
    pub fn top(&self) -> (r: Option<ScoredPointOffset>)
        ensures
            r is None <==> self@.len() == 0,
            r matches Some(w) ==> exists|i: int| is_worst(self@, i) && w == self@[i],
    {
        if self.items.len() == 0 {
            None
        } else {
            Some(self.items[worst_index(&self.items)])
        }
    }

    /// The kept points, highest first.
    pub fn into_vec(self) -> (r: Vec<ScoredPointOffset>)
        ensures
            sorted_desc(r@),
            r@.to_multiset() == self@.to_multiset(),
    {
        let mut rest = self.items;
        let ghost all = rest@;
        let mut out: Vec<ScoredPointOffset> = Vec::new();
        while rest.len() > 0
            invariant
                out@.to_multiset().add(rest@.to_multiset()) == all.to_multiset(),
                sorted_desc(out@),
                forall|i: int, j: int|
                    0 <= i < out@.len() && 0 <= j < rest@.len() ==> !scored_lt(#[trigger] out@[i], #[trigger] rest@[j]),
            decreases rest@.len(),
        {
            let b = best_index(&rest);
            let ghost before = rest@;
            let x = rest.remove(b);
            proof {
                assert(before.remove(b as int) == rest@);
                assert forall|j: int| 0 <= j < rest@.len() implies !scored_lt(x, #[trigger] rest@[j]) by {
                    if j < b {
                        assert(rest@[j] == before[j]);
                    } else {
                        assert(rest@[j] == before[j + 1]);
                    }
                }
                assert forall|i: int, j: int|
                    0 <= i < out@.len() && 0 <= j < rest@.len() implies !scored_lt(#[trigger] out@[i], #[trigger] rest@[j]) by {
                    if j < b {
                        assert(rest@[j] == before[j]);
                    } else {
                        assert(rest@[j] == before[j + 1]);
                    }
                }
            }
            out.push(x);
            proof {
                assert(out@.to_multiset().add(rest@.to_multiset()) =~= all.to_multiset());
            }
        }
        out
    }
}

} // verus!
