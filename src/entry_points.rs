use vstd::prelude::*;

use crate::types::PointOffsetType;

verus! {

/// A point registered as a possible start of graph descent, with its level.
#[derive(Clone, Copy, Debug, PartialEq, Eq, Structural)]
pub struct EntryPoint {
    pub point_id: PointOffsetType,
    pub level: usize,
}

/// Registry of up to `max_entry_points` entry points (never empty once a
/// point was offered).
pub struct EntryPoints {
    entry_points: Vec<EntryPoint>,
    max_entry_points: usize,
}

/// `i` is the first index of the highest level in `s`.
pub open spec fn is_best(s: Seq<EntryPoint>, i: int) -> bool {
    0 <= i < s.len() && (forall|j: int| 0 <= j < s.len() ==> s[j].level <= s[i].level) && (forall|
        j: int,
    |
        0 <= j < i ==> s[j].level < s[i].level)
}

/// `i` is the first index of the lowest level in `s`.
pub open spec fn is_lowest(s: Seq<EntryPoint>, i: int) -> bool {
    0 <= i < s.len() && (forall|j: int| 0 <= j < s.len() ==> s[i].level <= s[j].level) && (forall|
        j: int,
    |
        0 <= j < i ==> s[i].level < s[j].level)
}

impl View for EntryPoints {
    type V = Seq<EntryPoint>;

    closed spec fn view(&self) -> Seq<EntryPoint> {
        self.entry_points@
    }
}

impl EntryPoints {
    /// The number of records kept once more than one point was offered.
    pub closed spec fn capacity(&self) -> nat {
        self.max_entry_points as nat
    }

    pub fn new(max_entry_points: usize) -> (r: EntryPoints)
        ensures
            r@ == Seq::<EntryPoint>::empty(),
            r.capacity() == max_entry_points,
    {
        EntryPoints { entry_points: Vec::new(), max_entry_points }
    }

    fn best_index(&self) -> (r: usize)
        requires
            self@.len() > 0,
        ensures
            is_best(self@, r as int),
    {
        let mut best: usize = 0;
        let mut i: usize = 1;
        while i < self.entry_points.len()
            invariant
                1 <= i <= self@.len(),
                best < i,
                forall|j: int| 0 <= j < i ==> self@[j].level <= self@[best as int].level,
                forall|j: int| 0 <= j < best ==> self@[j].level < self@[best as int].level,
            decreases self@.len() - i,
        {
            if self.entry_points[i].level > self.entry_points[best].level {
                best = i;
            }
            i += 1;
        }
        best
    }

    fn lowest_index(&self) -> (r: usize)
        requires
            self@.len() > 0,
        ensures
            is_lowest(self@, r as int),
    {
        let mut low: usize = 0;
        let mut i: usize = 1;
        while i < self.entry_points.len()
            invariant
                1 <= i <= self@.len(),
                low < i,
                forall|j: int| 0 <= j < i ==> self@[low as int].level <= self@[j].level,
                forall|j: int| 0 <= j < low ==> self@[low as int].level < self@[j].level,
            decreases self@.len() - i,
        {
            if self.entry_points[i].level < self.entry_points[low].level {
                low = i;
            }
            i += 1;
        }
        low
    }

    /// Offers `point_id` at `level` as an entry point and returns the best
    /// entry point known before: the first of the highest level, or `None`
    /// when there was none. The new point is added while there is room (and
    /// always into an empty registry); otherwise it replaces the first record
    /// of the lowest level, if that level is below its own.
    pub fn new_point(&mut self, point_id: PointOffsetType, level: usize) -> (r: Option<EntryPoint>)
        ensures
            r is None <==> old(self)@.len() == 0,
            r matches Some(e) ==> exists|i: int| is_best(old(self)@, i) && e == old(self)@[i],
            final(self).capacity() == old(self).capacity(),
            old(self)@.len() == 0 || old(self)@.len() < old(self).capacity() ==> final(self)@
                == old(self)@.push(EntryPoint { point_id, level }),
            old(self)@.len() != 0 && old(self)@.len() >= old(self).capacity() ==> exists|i: int|
                is_lowest(old(self)@, i) && final(self)@ == (if old(self)@[i].level < level {
                    old(self)@.update(i, EntryPoint { point_id, level })
                } else {
                    old(self)@
                }),
            forall|k: int|
                0 <= k < final(self)@.len() ==> final(self)@[k] == (EntryPoint { point_id, level })
                    || old(self)@.contains(#[trigger] final(self)@[k]),
    {
        let new_entry = EntryPoint { point_id, level };
        if self.entry_points.len() == 0 {
            self.entry_points.push(new_entry);
            return None;
        }
        let best = self.entry_points[self.best_index()];
        if self.entry_points.len() < self.max_entry_points {
            self.entry_points.push(new_entry);
        } else {
            let low = self.lowest_index();
            if self.entry_points[low].level < level {
                self.entry_points.set(low, new_entry);
            }
            assert(is_lowest(old(self)@, low as int));
        }
        proof {
            assert forall|k: int| 0 <= k < self@.len() implies self@[k] == new_entry || old(
                self,
            )@.contains(#[trigger] self@[k]) by {
                if self@[k] != new_entry {
                    assert(old(self)@[k] == self@[k]);
                }
            }
        }
        Some(best)
    }
}

} // verus!
