use vstd::prelude::*;

use crate::entry_points::{EntryPoint, EntryPoints, is_best as is_best_entry, is_lowest};
use crate::fixed_length_priority_queue::{
    FixedLengthPriorityQueue, best_index, ids_distinct, is_worst, kept_or_beaten,
    lemma_kept_or_beaten_reordered, sorted_desc,
};
use vstd::set_lib::{lemma_int_range, lemma_len_subset, set_int_range};
use crate::types::{PointOffsetType, PointsScorer, ScoreType, ScoredPointOffset, scored_lt};

verus! {

broadcast use vstd::seq_lib::group_to_multiset_ensures;

/// Slot `p` of a layer with stride `s` ends before slot `q` begins when `p < q`.
proof fn lemma_slots_ordered(p: nat, q: nat, s: nat)
    requires
        p < q,
    ensures
        p * s + s <= q * s,
{
    assert(p * s + s <= q * s) by (nonlinear_arith)
        requires
            p < q,
    ;
}

/// A slot of a point below `n` lies inside a layer of `n` slots.
proof fn lemma_slot_in_layer(p: nat, n: nat, s: nat)
    requires
        p < n,
    ensures
        p * s <= p * s + s <= n * s,
{
    assert(p * s + s <= n * s) by (nonlinear_arith)
        requires
            p < n,
    ;
}

/// Builds the layers of a proximity graph by linking points one at a time.
pub struct GraphLinearBuilder {
    m: usize,
    m0: usize,
    ef_construct: usize,
    links_layers: Vec<Vec<PointOffsetType>>,
    entry_points: EntryPoints,
    points_scorer: PointsScorer,
    point_levels: Vec<usize>,
}

/// The state needed to link a point on one level.
pub struct GraphLinkRequest {
    pub point_id: PointOffsetType,
    pub level: usize,
    pub entry: ScoredPointOffset,
}

/// The links that linking a point on one level decided: the point's own
/// list, and a new list for each of its neighbors.
pub struct GraphLinkResponse {
    pub point_id: PointOffsetType,
    pub level: usize,
    pub entry: ScoredPointOffset,
    pub links: Vec<PointOffsetType>,
    pub neighbor_ids: Vec<PointOffsetType>,
    pub neighbor_links: Vec<Vec<PointOffsetType>>,
}

impl GraphLinkResponse {
    /// The request for the next lower level, if any.
    pub open spec fn next(&self) -> Option<GraphLinkRequest> {
        if self.level > 0 {
            Some(GraphLinkRequest { point_id: self.point_id, level: (self.level - 1) as usize, entry: self.entry })
        } else {
            None
        }
    }

    /// The request for the next lower level, if any.
    pub fn next_request(&self) -> (r: Option<GraphLinkRequest>)
        ensures
            r == self.next(),
            r is None <==> self.level == 0,
            r matches Some(q) ==> q.point_id == self.point_id && q.level == self.level - 1
                && q.entry == self.entry,
    {
        if self.level > 0 {
            Some(GraphLinkRequest { point_id: self.point_id, level: self.level - 1, entry: self.entry })
        } else {
            None
        }
    }
}

/// A layer of `len` cells, all zero: every slot holds an empty list.
fn zero_layer(len: usize) -> (r: Vec<PointOffsetType>)
    ensures
        r@.len() == len,
        forall|i: int| 0 <= i < len ==> r@[i] == 0,
{
    let mut r: Vec<PointOffsetType> = Vec::new();
    let mut i: usize = 0;
    while i < len
        invariant
            i <= len,
            r@.len() == i,
            forall|j: int| 0 <= j < i ==> r@[j] == 0,
        decreases len - i,
    {
        r.push(0);
        i += 1;
    }
    r
}

/// A visited list for `n` points, none visited yet.
fn unvisited(n: usize) -> (r: Vec<bool>)
    ensures
        r@.len() == n,
        forall|i: int| 0 <= i < n ==> !r@[i],
{
    let mut r: Vec<bool> = Vec::new();
    let mut i: usize = 0;
    while i < n
        invariant
            i <= n,
            r@.len() == i,
            forall|j: int| 0 <= j < i ==> !r@[j],
        decreases n - i,
    {
        r.push(false);
        i += 1;
    }
    r
}

/// Whether `ids` holds `x`.
fn contains_id(ids: &[PointOffsetType], x: PointOffsetType) -> (r: bool)
    ensures
        r == ids@.contains(x),
{
    let mut i: usize = 0;
    while i < ids.len()
        invariant
            i <= ids@.len(),
            forall|j: int| 0 <= j < i ==> ids@[j] != x,
        decreases ids@.len() - i,
    {
        if ids[i] == x {
            return true;
        }
        i += 1;
    }
    false
}

impl GraphLinearBuilder {
    /// Prepares empty layers for points of the given `levels` (one layer
    /// more than the highest level), at most `m0` links per point on level
    /// zero and `m` above, a search beam of `ef_construct`, and an entry
    /// point registry of `entry_points_num` records.
    pub fn new(
        levels: &[usize],
        m: usize,
        m0: usize,
        ef_construct: usize,
        entry_points_num: usize,
        points_scorer: PointsScorer,
    ) -> (r: Self)
        requires
            1 <= levels@.len() <= u32::MAX,
            ef_construct >= 1,
            m <= u32::MAX,
            m0 <= u32::MAX,
            levels@.len() * (m0 + 1) <= usize::MAX,
            levels@.len() * (m + 1) <= usize::MAX,
            forall|i: int| 0 <= i < levels@.len() ==> levels@[i] < usize::MAX,
            points_scorer.wf(),
            points_scorer.size() == levels@.len(),
        ensures
            r.wf(),
            r.num_points_spec() == levels@.len(),
            forall|p: int| 0 <= p < levels@.len() ==> r.level_of(p) == levels@[p],
            forall|p: int| 0 <= p < levels@.len() ==> levels@[p] < r.num_layers(),
            exists|p: int| 0 <= p < levels@.len() && r.num_layers() == levels@[p] + 1,
            r.max_links(0) == m0,
            forall|l: int| l != 0 ==> r.max_links(l) == m,
            r.ef() == ef_construct,
            r.entries() == Seq::<EntryPoint>::empty(),
            forall|a: int, b: int| #[trigger] r.score_of(a, b) == points_scorer.score_of(a, b),
            forall|p: int, l: int|
                0 <= p < levels@.len() && 0 <= l < r.num_layers() ==> #[trigger] r.links(p, l)
                    == Seq::<PointOffsetType>::empty(),
    {
        let n = levels.len();
        let mut levels_count: usize = levels[0];
        let mut i: usize = 1;
        while i < n
            invariant
                n == levels@.len(),
                1 <= i <= n,
                exists|p: int| 0 <= p < i && levels_count == levels@[p],
                forall|p: int| 0 <= p < i ==> levels@[p] <= levels_count,
            decreases n - i,
        {
            if levels[i] > levels_count {
                levels_count = levels[i];
            }
            i += 1;
        }
        let mut links_layers: Vec<Vec<PointOffsetType>> = Vec::new();
        let mut l: usize = 0;
        while l <= levels_count
            invariant
                n == levels@.len(),
                n >= 1,
                levels_count < usize::MAX,
                l <= levels_count + 1,
                m <= u32::MAX,
                m0 <= u32::MAX,
                links_layers@.len() == l,
                n * (m0 + 1) <= usize::MAX,
                n * (m + 1) <= usize::MAX,
                forall|k: int|
                    0 <= k < l ==> #[trigger] links_layers@[k]@.len() == n * ((if k == 0 {
                        m0
                    } else {
                        m
                    }) + 1) && forall|j: int| 0 <= j < links_layers@[k]@.len() ==> links_layers@[k]@[j] == 0,
            decreases levels_count + 1 - l,
        {
            let level_m = if l == 0 {
                m0
            } else {
                m
            };
            assert(level_m + 1 <= n * (level_m + 1)) by (nonlinear_arith)
                requires
                    n >= 1,
            ;
            links_layers.push(zero_layer(n * (level_m + 1)));
            l += 1;
        }
        let r = GraphLinearBuilder {
            m,
            m0,
            ef_construct,
            links_layers,
            entry_points: EntryPoints::new(entry_points_num),
            points_scorer,
            point_levels: vstd::slice::slice_to_vec(levels),
        };
        proof {
            assert forall|p: int, l: int|
                0 <= p < n && 0 <= l < r.num_layers() implies #[trigger] r.links(p, l)
                    == Seq::<PointOffsetType>::empty() && r.links_layers@[l]@[r.slot(p, l)] == 0 by {
                lemma_slot_in_layer(p as nat, n as nat, r.max_links(l) + 1);
                assert(r.links(p, l) =~= Seq::<PointOffsetType>::empty());
            }
            assert forall|l: int| 0 <= l < r.num_layers() implies #[trigger] r.layer_ok(l) by {
                assert forall|p: int| 0 <= p < n implies {
                    &&& #[trigger] r.links_layers@[l]@[r.slot(p, l)] <= r.max_links(l)
                    &&& r.list_ok(p, l, r.links(p, l))
                } by {
                    assert(r.links(p, l) == Seq::<PointOffsetType>::empty());
                }
            }
        }
        r
    }

    /// Number of points.
    pub closed spec fn num_points_spec(&self) -> nat {
        self.point_levels@.len()
    }

    /// Top level of point `p`.
    pub closed spec fn level_of(&self, p: int) -> nat {
        self.point_levels@[p] as nat
    }

    /// Number of layers: one more than the highest point level.
    pub closed spec fn num_layers(&self) -> nat {
        self.links_layers@.len()
    }

    /// The largest number of links of a point on `level`.
    pub closed spec fn max_links(&self, level: int) -> nat {
        if level == 0 {
            self.m0 as nat
        } else {
            self.m as nat
        }
    }

    /// Beam width of the search on one level.
    pub closed spec fn ef(&self) -> nat {
        self.ef_construct as nat
    }

    /// Score of point `a` against point `b`.
    pub closed spec fn score_of(&self, a: int, b: int) -> ScoreType {
        self.points_scorer.score_of(a, b)
    }

    /// The recorded entry points.
    pub closed spec fn entries(&self) -> Seq<EntryPoint> {
        self.entry_points@
    }

    /// The number of entry points kept once more than one point was linked.
    pub closed spec fn entry_capacity(&self) -> nat {
        self.entry_points.capacity()
    }

    /// First cell of the slot of `p` on `level`.
    pub closed spec fn slot(&self, p: int, level: int) -> int {
        p * (self.max_links(level) + 1)
    }

    /// Current links of `p` on `level`.
    pub closed spec fn links(&self, p: int, level: int) -> Seq<PointOffsetType> {
        let layer = self.links_layers@[level]@;
        let s = self.slot(p, level);
        layer.subrange(s + 1, s + 1 + layer[s])
    }

    /// `list` may stand as the links of `p` on `level`: it fits the level's
    /// bound, names distinct points other than `p` that reach `level`, and
    /// is empty above `p`'s own level.
    pub open spec fn list_ok(&self, p: int, level: int, list: Seq<PointOffsetType>) -> bool {
        &&& list.len() <= self.max_links(level)
        &&& list.len() > 0 ==> level <= self.level_of(p)
        &&& list.no_duplicates()
        &&& forall|i: int|
            0 <= i < list.len() ==> #[trigger] list[i] < self.num_points_spec() && list[i] != p
                && self.level_of(list[i] as int) >= level
    }

    pub closed spec fn layer_ok(&self, level: int) -> bool {
        let stride = self.max_links(level) + 1;
        &&& self.num_points_spec() * stride <= usize::MAX
        &&& self.links_layers@[level]@.len() == self.num_points_spec() * stride
        &&& forall|p: int|
            0 <= p < self.num_points_spec() ==> {
                &&& #[trigger] self.links_layers@[level]@[self.slot(p, level)] <= self.max_links(
                    level,
                )
                &&& self.list_ok(p, level, self.links(p, level))
            }
    }

    /// The builder's invariant.
    pub closed spec fn wf(&self) -> bool {
        &&& 1 <= self.num_points_spec() <= u32::MAX
        &&& self.points_scorer.wf()
        &&& self.points_scorer.size() == self.num_points_spec()
        &&& self.ef_construct >= 1
        &&& self.m <= u32::MAX && self.m0 <= u32::MAX
        &&& 1 <= self.num_layers()
        &&& forall|p: int| 0 <= p < self.num_points_spec() ==> #[trigger] self.level_of(p) < self.num_layers()
        &&& forall|l: int| 0 <= l < self.num_layers() ==> #[trigger] self.layer_ok(l)
        &&& forall|k: int|
            0 <= k < self.entries().len() ==> #[trigger] self.entries()[k].point_id
                < self.num_points_spec() && self.entries()[k].level == self.level_of(
                self.entries()[k].point_id as int,
            )
    }

    /// Everything but the links is the same in `self` and `other`.
    pub closed spec fn same_setup(&self, other: &Self) -> bool {
        &&& self.m == other.m
        &&& self.m0 == other.m0
        &&& self.ef_construct == other.ef_construct
        &&& self.point_levels@ == other.point_levels@
        &&& self.points_scorer == other.points_scorer
        &&& self.links_layers@.len() == other.links_layers@.len()
        &&& self.entry_points.capacity() == other.entry_points.capacity()
    }

    /// `self` and `other` have the same points, levels, bounds, beam width,
    /// scores and registry capacity.
    pub open spec fn same_shape(&self, other: &Self) -> bool {
        &&& self.num_points_spec() == other.num_points_spec()
        &&& self.num_layers() == other.num_layers()
        &&& self.ef() == other.ef()
        &&& self.entry_capacity() == other.entry_capacity()
        &&& forall|p: int| #[trigger] self.level_of(p) == other.level_of(p)
        &&& forall|l: int| #[trigger] self.max_links(l) == other.max_links(l)
        &&& forall|a: int, b: int| #[trigger] self.score_of(a, b) == other.score_of(a, b)
    }

    proof fn lemma_same_shape(&self, other: &Self)
        requires
            self.same_setup(other),
        ensures
            self.same_shape(other),
    {
    }

    fn get_m(&self, level: usize) -> (r: usize)
        ensures
            r == self.max_links(level as int),
    {
        if level == 0 {
            self.m0
        } else {
            self.m
        }
    }

    fn get_point_level(&self, point_id: PointOffsetType) -> (r: usize)
        requires
            point_id < self.num_points_spec(),
        ensures
            r == self.level_of(point_id as int),
    {
        self.point_levels[point_id as usize]
    }

    fn score(&self, a: PointOffsetType, b: PointOffsetType) -> (r: ScoreType)
        requires
            self.wf(),
            a < self.num_points_spec(),
            b < self.num_points_spec(),
        ensures
            r == self.score_of(a as int, b as int),
    {
        self.points_scorer.score_internal(a, b)
    }

    fn num_points(&self) -> (r: usize)
        ensures
            r == self.num_points_spec(),
    {
        self.point_levels.len()
    }

    /// The links of `point_id` on `level`.
    pub fn get_links(&self, point_id: PointOffsetType, level: usize) -> (r: &[PointOffsetType])
        requires
            self.wf(),
            point_id < self.num_points_spec(),
            level < self.num_layers(),
        ensures
            r@ == self.links(point_id as int, level as int),
            self.list_ok(point_id as int, level as int, r@),
    {
        let level_m = self.get_m(level);
        assert(self.layer_ok(level as int));
        proof {
            lemma_slot_in_layer(point_id as nat, self.num_points_spec(), (level_m + 1) as nat);
        }
        let start_index = point_id as usize * (level_m + 1);
        assert(self.links_layers@[level as int]@[self.slot(point_id as int, level as int)]
            <= self.max_links(level as int));
        let len = self.links_layers[level][start_index] as usize;
        vstd::slice::slice_subrange(
            self.links_layers[level].as_slice(),
            start_index + 1,
            start_index + 1 + len,
        )
    }

    /// Replaces the links of `point_id` on `level` with `links`.
    pub fn set_links(&mut self, point_id: PointOffsetType, level: usize, links: &[PointOffsetType])
        requires
            old(self).wf(),
            point_id < old(self).num_points_spec(),
            level < old(self).num_layers(),
            old(self).list_ok(point_id as int, level as int, links@),
        ensures
            final(self).wf(),
            final(self).same_setup(old(self)),
            final(self).same_shape(old(self)),
            final(self).entries() == old(self).entries(),
            final(self).links(point_id as int, level as int) == links@,
            forall|q: int, l: int|
                0 <= q < old(self).num_points_spec() && 0 <= l < old(self).num_layers() && (q
                    != point_id || l != level) ==> #[trigger] final(self).links(q, l) == old(
                    self,
                ).links(q, l),
    {
        let level_m = self.get_m(level);
        let ghost n = self.num_points_spec();
        let ghost stride = (level_m + 1) as nat;
        assert(self.layer_ok(level as int));
        proof {
            lemma_slot_in_layer(point_id as nat, n, stride);
        }
        let start_index = point_id as usize * (level_m + 1);
        let ghost s = start_index as int;
        let mut layer: Vec<PointOffsetType> = Vec::new();
        std::mem::swap(&mut layer, &mut self.links_layers[level]);
        let ghost old_layer = layer@;
        layer.set(start_index, links.len() as PointOffsetType);
        let mut i: usize = 0;
        while i < links.len()
            invariant
                layer@.len() == old_layer.len(),
                old_layer.len() <= usize::MAX,
                0 <= s,
                s == start_index,
                s + stride <= old_layer.len(),
                level_m <= u32::MAX,
                stride == level_m + 1,
                links@.len() <= level_m,
                i <= links@.len(),
                layer@[s] as int == links@.len(),
                forall|j: int|
                    0 <= j < layer@.len() && (j < s || j >= s + stride) ==> layer@[j]
                        == old_layer[j],
                forall|j: int| 0 <= j < i ==> layer@[s + 1 + j] == links@[j],
            decreases links@.len() - i,
        {
            layer.set(start_index + 1 + i, links[i]);
            i += 1;
        }
        std::mem::swap(&mut layer, &mut self.links_layers[level]);
        proof {
            self.lemma_same_shape(old(self));
            assert(self.links(point_id as int, level as int) =~= links@);
            assert forall|q: int, l: int|
                0 <= q < n && 0 <= l < self.num_layers() && (q != point_id || l != level) implies
                #[trigger] self.links(q, l) == old(self).links(q, l) by {
                if l == level {
                    assert(old(self).layer_ok(l));
                    let qs = old(self).slot(q, l);
                    assert(old(self).links_layers@[l]@[qs] <= old(self).max_links(l));
                    lemma_slot_in_layer(q as nat, n, stride);
                    if q < point_id {
                        lemma_slots_ordered(q as nat, point_id as nat, stride);
                    } else {
                        lemma_slots_ordered(point_id as nat, q as nat, stride);
                    }
                    assert(self.links(q, l) =~= old(self).links(q, l));
                }
            }
            assert(self.entries() == old(self).entries());
            assert(self.points_scorer == old(self).points_scorer);
            assert(self.num_points_spec() == n);
            assert forall|p: int| 0 <= p < n implies #[trigger] self.level_of(p) < self.num_layers() by {
                assert(old(self).level_of(p) < old(self).num_layers());
            }
            assert forall|l: int| 0 <= l < self.num_layers() implies #[trigger] self.layer_ok(l) by {
                assert(old(self).layer_ok(l));
                assert forall|q: int| 0 <= q < n implies {
                    &&& #[trigger] self.links_layers@[l]@[self.slot(q, l)] <= self.max_links(l)
                    &&& self.list_ok(q, l, self.links(q, l))
                } by {
                    assert(old(self).links_layers@[l]@[old(self).slot(q, l)] <= old(self).max_links(l));
                    if l == level && q != point_id {
                        lemma_slot_in_layer(q as nat, n, stride);
                        if q < point_id {
                            lemma_slots_ordered(q as nat, point_id as nat, stride);
                        } else {
                            lemma_slots_ordered(point_id as nat, q as nat, stride);
                        }
                    }
                    if q != point_id || l != level {
                        assert(self.links(q, l) == old(self).links(q, l));
                    } else {
                        assert(self.slot(q, l) == s);
                    }
                }
            }
        }
    }

    /// Candidate `c` may join `selected`: it is neither `owner` nor already
    /// selected, and no selected point is closer to it than the query is.
    pub open spec fn admits(&self, selected: Seq<PointOffsetType>, c: ScoredPointOffset, owner: int) -> bool {
        &&& c.idx != owner
        &&& !selected.contains(c.idx)
        &&& forall|i: int| 0 <= i < selected.len() ==> self.score_of(c.idx as int, #[trigger] selected[i] as int) <= c.score
    }

    /// The neighbor heuristic: go through `candidates` (best first) and keep
    /// each one that `admits`, until `m` are kept.
    pub open spec fn select(&self, candidates: Seq<ScoredPointOffset>, m: nat, owner: int) -> Seq<PointOffsetType>
        decreases candidates.len(),
    {
        if candidates.len() == 0 {
            Seq::empty()
        } else {
            let prev = self.select(candidates.drop_last(), m, owner);
            let c = candidates.last();
            if prev.len() < m && self.admits(prev, c, owner) {
                prev.push(c.idx)
            } else {
                prev
            }
        }
    }

    /// Keeps, best first, each candidate that is closer to the query than
    /// to every candidate kept before it, up to `m` of them.
    fn select_candidate_with_heuristic_from_sorted(
        &self,
        candidates: &[ScoredPointOffset],
        m: usize,
        owner: PointOffsetType,
    ) -> (r: Vec<PointOffsetType>)
        requires
            self.wf(),
            forall|i: int| 0 <= i < candidates@.len() ==> #[trigger] candidates@[i].idx < self.num_points_spec(),
        ensures
            r@ == self.select(candidates@, m as nat, owner as int),
            r@.len() <= m,
            r@.no_duplicates(),
            forall|i: int|
                0 <= i < r@.len() ==> #[trigger] r@[i] != owner && exists|j: int|
                    0 <= j < candidates@.len() && r@[i] == candidates@[j].idx,
    {
        let mut result_list: Vec<PointOffsetType> = Vec::new();
        let mut k: usize = 0;
        while k < candidates.len()
            invariant
                self.wf(),
                forall|i: int| 0 <= i < candidates@.len() ==> #[trigger] candidates@[i].idx < self.num_points_spec(),
                k <= candidates@.len(),
                result_list@ == self.select(candidates@.take(k as int), m as nat, owner as int),
                result_list@.len() <= m,
                result_list@.no_duplicates(),
                forall|i: int|
                    0 <= i < result_list@.len() ==> #[trigger] result_list@[i] != owner && result_list@[i] < self.num_points_spec() && exists|j: int|
                        0 <= j < candidates@.len() && result_list@[i] == candidates@[j].idx,
            decreases candidates@.len() - k,
        {
            let current_closest = candidates[k];
            let ghost prev = result_list@;
            assert(candidates@.take(k + 1).drop_last() =~= candidates@.take(k as int));
            assert(candidates@.take(k + 1).last() == current_closest);
            if result_list.len() < m {
                let mut is_good = current_closest.idx != owner;
                let mut j: usize = 0;
                while j < result_list.len() && is_good
                    invariant
                        self.wf(),
                        current_closest.idx < self.num_points_spec(),
                        forall|i: int| 0 <= i < result_list@.len() ==> #[trigger] result_list@[i] < self.num_points_spec(),
                        j <= result_list@.len(),
                        is_good ==> current_closest.idx != owner,
                        is_good ==> forall|i: int|
                            0 <= i < j ==> #[trigger] result_list@[i] != current_closest.idx
                                && self.score_of(current_closest.idx as int, result_list@[i] as int)
                                <= current_closest.score,
                        !is_good ==> !self.admits(result_list@, current_closest, owner as int),
                    decreases result_list@.len() - j,
                {
                    let selected_point = result_list[j];
                    if selected_point == current_closest.idx {
                        is_good = false;
                    } else if self.score(current_closest.idx, selected_point) > current_closest.score {
                        is_good = false;
                    }
                    j += 1;
                }
                if is_good {
                    result_list.push(current_closest.idx);
                    proof {
                        assert(self.admits(prev, current_closest, owner as int));
                        assert forall|i: int| 0 <= i < result_list@.len() implies #[trigger] result_list@[i] != owner
                            && result_list@[i] < self.num_points_spec() && exists|j: int|
                            0 <= j < candidates@.len() && result_list@[i] == candidates@[j].idx by {
                            if i == prev.len() {
                                assert(result_list@[i] == candidates@[k as int].idx);
                            } else {
                                assert(result_list@[i] == prev[i]);
                            }
                        }
                    }
                }
            }
            k += 1;
        }
        assert(candidates@.take(k as int) =~= candidates@);
        result_list
    }

    /// `point` is scored against `id`: as the entry `entry` was, or as
    /// any point reached from it.
    pub open spec fn scored_against(&self, point: ScoredPointOffset, id: int, entry: int) -> bool {
        point.score == self.score_of(point.idx as int, id) || (point.idx == entry && point.score
            == self.score_of(id, entry))
    }

    /// Greedy descent from `entry_point` on `top_level` down to
    /// `target_level + 1`: on each level, move to a better-scoring neighbor
    /// until none is better.
    fn search_entry(
        &self,
        id: PointOffsetType,
        entry_point: PointOffsetType,
        top_level: usize,
        target_level: usize,
    ) -> (r: ScoredPointOffset)
        requires
            self.wf(),
            id < self.num_points_spec(),
            entry_point < self.num_points_spec(),
            target_level < top_level < self.num_layers(),
            self.level_of(entry_point as int) >= top_level,
        ensures
            r.idx < self.num_points_spec(),
            self.level_of(r.idx as int) > target_level,
            r.score >= self.score_of(id as int, entry_point as int),
            self.scored_against(r, id as int, entry_point as int),
            r.idx == entry_point || exists|c: int, l: int|
                0 <= c < self.num_points_spec() && 0 <= l < self.num_layers() && #[trigger] self.links(c, l).contains(r.idx),
            forall|i: int|
                0 <= i < self.links(r.idx as int, target_level + 1).len() ==> self.score_of(
                    #[trigger] self.links(r.idx as int, target_level + 1)[i] as int,
                    id as int,
                ) <= r.score,
    {
        let mut current_point = ScoredPointOffset { idx: entry_point, score: self.score(id, entry_point) };
        let mut level: usize = top_level;
        while level > target_level
            invariant
                self.wf(),
                id < self.num_points_spec(),
                target_level <= level <= top_level < self.num_layers(),
                current_point.idx < self.num_points_spec(),
                self.level_of(current_point.idx as int) >= level,
                level < top_level ==> self.level_of(current_point.idx as int) > level,
                current_point.score >= self.score_of(id as int, entry_point as int),
                self.scored_against(current_point, id as int, entry_point as int),
                current_point.idx == entry_point || exists|c: int, l: int| 0 <= c < self.num_points_spec() && 0 <= l < self.num_layers() && #[trigger] self.links(c, l).contains(current_point.idx),
                level < top_level ==> forall|i: int|
                    0 <= i < self.links(current_point.idx as int, level + 1).len() ==> self.score_of(
                        #[trigger] self.links(current_point.idx as int, level + 1)[i] as int,
                        id as int,
                    ) <= current_point.score,
            decreases level,
        {
            let mut changed = true;
            while changed
                invariant
                    self.wf(),
                    id < self.num_points_spec(),
                    target_level < level <= top_level < self.num_layers(),
                    current_point.idx < self.num_points_spec(),
                    self.level_of(current_point.idx as int) >= level,
                    current_point.score >= self.score_of(id as int, entry_point as int),
                    self.scored_against(current_point, id as int, entry_point as int),
                    current_point.idx == entry_point || exists|c: int, l: int| 0 <= c < self.num_points_spec() && 0 <= l < self.num_layers() && #[trigger] self.links(c, l).contains(current_point.idx),
                    !changed ==> forall|i: int|
                        0 <= i < self.links(current_point.idx as int, level as int).len() ==> self.score_of(
                            #[trigger] self.links(current_point.idx as int, level as int)[i] as int,
                            id as int,
                        ) <= current_point.score,
                decreases i64::MAX - current_point.score + (if changed { 1int } else { 0int }),
            {
                changed = false;
                let ghost start = current_point;
                let links = self.get_links(current_point.idx, level);
                let mut i: usize = 0;
                while i < links.len()
                    invariant
                        self.wf(),
                        id < self.num_points_spec(),
                        target_level < level <= top_level < self.num_layers(),
                        start.idx < self.num_points_spec(),
                        links@ == self.links(start.idx as int, level as int),
                        self.list_ok(start.idx as int, level as int, links@),
                        i <= links@.len(),
                        current_point.idx < self.num_points_spec(),
                        self.level_of(current_point.idx as int) >= level,
                        current_point.score >= start.score,
                        start.score >= self.score_of(id as int, entry_point as int),
                        self.scored_against(current_point, id as int, entry_point as int),
                        current_point.idx == entry_point || exists|c: int, l: int| 0 <= c < self.num_points_spec() && 0 <= l < self.num_layers() && #[trigger] self.links(c, l).contains(current_point.idx),
                        changed <==> current_point.score > start.score,
                        !changed ==> current_point == start,
                        forall|j: int| 0 <= j < i ==> self.score_of(#[trigger] links@[j] as int, id as int) <= current_point.score,
                    decreases links@.len() - i,
                {
                    let link = links[i];
                    assert(link < self.num_points_spec() && self.level_of(link as int) >= level);
                    let score = self.score(link, id);
                    assert(self.links(start.idx as int, level as int).contains(link)) by {
                        assert(links@[i as int] == link);
                    }
                    if score > current_point.score {
                        changed = true;
                        current_point = ScoredPointOffset { idx: link, score };
                    }
                    i += 1;
                }
            }
            level -= 1;
        }
        current_point
    }

    /// A point found by the search for `id` on `level` from `entry`: it
    /// exists, reaches `level`, is the entry or stands in some list on
    /// `level`, and carries its score against `id`.
    pub open spec fn found(&self, x: ScoredPointOffset, id: int, level: int, entry: ScoredPointOffset) -> bool {
        &&& x.idx < self.num_points_spec()
        &&& self.level_of(x.idx as int) >= level
        &&& (x == entry || exists|c: int|
            0 <= c < self.num_points_spec() && #[trigger] self.links(c, level).contains(x.idx))
        &&& (x == entry || x.score == self.score_of(x.idx as int, id) || x.score == self.score_of(
            id,
            x.idx as int,
        ))
    }

    /// Point `x` was offered to the search for `id` on `level`: as a found
    /// point that `beam` keeps, or that a full `beam` beats.
    pub open spec fn link_offered(
        &self,
        beam: Seq<ScoredPointOffset>,
        id: int,
        level: int,
        entry: ScoredPointOffset,
        x: PointOffsetType,
    ) -> bool {
        exists|o: ScoredPointOffset|
            #![trigger kept_or_beaten(beam, self.ef(), o)]
            self.found(o, id, level, entry) && o.idx == x && kept_or_beaten(beam, self.ef(), o)
    }

    /// Each current link of `id` on `level` was offered to the search.
    pub open spec fn offers_links(&self, beam: Seq<ScoredPointOffset>, id: int, level: int, entry: ScoredPointOffset) -> bool {
        forall|t: int|
            0 <= t < self.links(id, level).len() ==> self.link_offered(beam, id, level, entry, #[trigger] self.links(id, level)[t])
    }

    /// Offers `score_point` to `nearest`, and to `candidates` too when
    /// `nearest` took it in.
    fn process_candidate(
        nearest: &mut FixedLengthPriorityQueue,
        candidates: &mut Vec<ScoredPointOffset>,
        score_point: ScoredPointOffset,
    )
        ensures
            final(nearest).capacity() == old(nearest).capacity(),
            old(nearest)@.len() < old(nearest).capacity() ==> final(nearest)@ == old(nearest)@.push(
                score_point,
            ) && final(candidates)@ == old(candidates)@.push(score_point),
            old(nearest)@.len() >= old(nearest).capacity() && old(nearest)@.len() > 0 ==> exists|
                i: int,
            |
                #![auto]
                is_worst(old(nearest)@, i) && if scored_lt(old(nearest)@[i], score_point) {
                    final(nearest)@ == old(nearest)@.update(i, score_point) && final(candidates)@
                        == (if old(nearest)@[i].idx != score_point.idx {
                        old(candidates)@.push(score_point)
                    } else {
                        old(candidates)@
                    })
                } else {
                    final(nearest)@ == old(nearest)@ && final(candidates)@ == old(candidates)@
                },
            old(nearest)@.len() >= old(nearest).capacity() && old(nearest)@.len() == 0
                ==> final(nearest)@ == old(nearest)@ && final(candidates)@ == old(candidates)@,
            forall|k: int|
                0 <= k < old(nearest)@.len() ==> exists|j: int|
                    0 <= j < final(nearest)@.len() && !scored_lt(
                        #[trigger] final(nearest)@[j],
                        #[trigger] old(nearest)@[k],
                    ),
            forall|k: int|
                0 <= k < final(nearest)@.len() ==> #[trigger] final(nearest)@[k] == score_point || old(
                    nearest,
                )@.contains(final(nearest)@[k]),
            final(candidates)@ == old(candidates)@ || final(candidates)@ == old(candidates)@.push(
                score_point,
            ),
            ids_distinct(old(nearest)@) && (forall|k: int|
                0 <= k < old(nearest)@.len() ==> #[trigger] old(nearest)@[k].idx != score_point.idx)
                ==> ids_distinct(final(nearest)@),
            old(nearest)@.len() <= old(nearest).capacity() ==> kept_or_beaten(
                final(nearest)@,
                old(nearest).capacity(),
                score_point,
            ) && forall|o: ScoredPointOffset|
                #[trigger] kept_or_beaten(old(nearest)@, old(nearest).capacity(), o) ==> kept_or_beaten(
                    final(nearest)@,
                    old(nearest).capacity(),
                    o,
                ),
    {
        let ghost before = nearest@;
        let was_added = match nearest.push(score_point) {
            None => true,
            Some(removed) => removed.idx != score_point.idx,
        };
        if was_added {
            candidates.push(score_point);
        }
        proof {
            assert forall|k: int| 0 <= k < before.len() implies exists|j: int|
                0 <= j < nearest@.len() && !scored_lt(#[trigger] nearest@[j], #[trigger] before[k]) by {
                if nearest@.len() > k && nearest@[k] == before[k] {
                    assert(!scored_lt(nearest@[k], before[k]));
                } else {
                    let w = choose|w: int| #![auto] is_worst(before, w) && if scored_lt(before[w], score_point) {
                        nearest@ == before.update(w, score_point)
                    } else {
                        nearest@ == before
                    };
                    assert(nearest@[k] == score_point);
                    assert(!scored_lt(nearest@[k], before[k]));
                }
            }
            assert forall|k: int| 0 <= k < nearest@.len() implies #[trigger] nearest@[k] == score_point
                || before.contains(nearest@[k]) by {
                if nearest@[k] != score_point {
                    assert(before[k] == nearest@[k]);
                }
            }
            let cap = nearest.capacity();
            if before.len() <= cap {
                if before.len() < cap {
                    assert(nearest@ == before.push(score_point));
                    assert(nearest@[before.len() as int] == score_point);
                    assert forall|o: ScoredPointOffset| #[trigger] kept_or_beaten(before, cap, o) implies kept_or_beaten(nearest@, cap, o) by {
                        let k = choose|k: int| 0 <= k < before.len() && before[k] == o;
                        assert(nearest@[k] == o);
                    }
                } else if before.len() == 0 {
                    assert(nearest@ == before);
                } else {
                    let w = choose|w: int| #![auto] is_worst(before, w) && if scored_lt(before[w], score_point) {
                        nearest@ == before.update(w, score_point)
                    } else {
                        nearest@ == before
                    };
                    if scored_lt(before[w], score_point) {
                        assert(nearest@[w] == score_point);
                        assert forall|o: ScoredPointOffset| #[trigger] kept_or_beaten(before, cap, o) implies kept_or_beaten(nearest@, cap, o) by {
                            if before.contains(o) {
                                let k = choose|k: int| 0 <= k < before.len() && before[k] == o;
                                if k != w {
                                    assert(nearest@[k] == o);
                                } else {
                                    assert forall|j: int| 0 <= j < nearest@.len() implies !scored_lt(#[trigger] nearest@[j], o) by {
                                        if j != w {
                                            assert(nearest@[j] == before[j]);
                                        }
                                    }
                                }
                            } else {
                                assert forall|j: int| 0 <= j < nearest@.len() implies !scored_lt(#[trigger] nearest@[j], o) by {
                                    assert(!scored_lt(before[w], o));
                                    if j != w {
                                        assert(nearest@[j] == before[j]);
                                    }
                                }
                            }
                        }
                    } else {
                        assert forall|j: int| 0 <= j < nearest@.len() implies !scored_lt(#[trigger] nearest@[j], score_point) by {
                            assert(!scored_lt(before[j], before[w]));
                        }
                    }
                }
            }
            if ids_distinct(before) && (forall|k: int| 0 <= k < before.len() ==> #[trigger] before[k].idx != score_point.idx) {
                if before.len() > 0 && nearest@ != before && nearest@.len() == before.len() {
                    let w = choose|w: int| #![auto] is_worst(before, w) && if scored_lt(before[w], score_point) {
                        nearest@ == before.update(w, score_point)
                    } else {
                        nearest@ == before
                    };
                    assert(nearest@ == before.update(w, score_point));
                }
                assert(ids_distinct(nearest@));
            }
        }
    }

    /// Once `sp` is offered too, every offered point is still kept or beaten.
    proof fn lemma_offered_push(
        old_nearest: Seq<ScoredPointOffset>,
        nearest: Seq<ScoredPointOffset>,
        cap: nat,
        offered: Seq<ScoredPointOffset>,
        sp: ScoredPointOffset,
    )
        requires
            forall|k: int| 0 <= k < offered.len() ==> kept_or_beaten(old_nearest, cap, #[trigger] offered[k]),
            kept_or_beaten(nearest, cap, sp),
            forall|o: ScoredPointOffset| #[trigger] kept_or_beaten(old_nearest, cap, o) ==> kept_or_beaten(nearest, cap, o),
        ensures
            forall|k: int| 0 <= k < offered.push(sp).len() ==> kept_or_beaten(nearest, cap, #[trigger] offered.push(sp)[k]),
    {
        assert forall|k: int| 0 <= k < offered.push(sp).len() implies kept_or_beaten(nearest, cap, #[trigger] offered.push(sp)[k]) by {
            if k < offered.len() {
                assert(offered.push(sp)[k] == offered[k]);
                assert(kept_or_beaten(old_nearest, cap, offered[k]));
            }
        }
    }

    /// Offering `sp` keeps every kept and every pending point `found`, and
    /// keeps a kept point that is no worse than the entry.
    proof fn lemma_offer(
        &self,
        old_nearest: Seq<ScoredPointOffset>,
        nearest: Seq<ScoredPointOffset>,
        old_candidates: Seq<ScoredPointOffset>,
        candidates: Seq<ScoredPointOffset>,
        sp: ScoredPointOffset,
        id: int,
        level: int,
        entry: ScoredPointOffset,
    )
        requires
            self.found(sp, id, level, entry),
            forall|i: int| 0 <= i < old_nearest.len() ==> self.found(#[trigger] old_nearest[i], id, level, entry),
            forall|i: int| 0 <= i < old_candidates.len() ==> self.found(#[trigger] old_candidates[i], id, level, entry),
            exists|i: int| 0 <= i < old_nearest.len() && !scored_lt(#[trigger] old_nearest[i], entry),
            forall|k: int|
                0 <= k < old_nearest.len() ==> exists|j: int|
                    0 <= j < nearest.len() && !scored_lt(#[trigger] nearest[j], #[trigger] old_nearest[k]),
            forall|k: int| 0 <= k < nearest.len() ==> #[trigger] nearest[k] == sp || old_nearest.contains(nearest[k]),
            candidates == old_candidates || candidates == old_candidates.push(sp),
        ensures
            forall|i: int| 0 <= i < nearest.len() ==> self.found(#[trigger] nearest[i], id, level, entry),
            forall|i: int| 0 <= i < candidates.len() ==> self.found(#[trigger] candidates[i], id, level, entry),
            exists|i: int| 0 <= i < nearest.len() && !scored_lt(#[trigger] nearest[i], entry),
    {
        let w = choose|w: int| 0 <= w < old_nearest.len() && !scored_lt(#[trigger] old_nearest[w], entry);
        let j = choose|j: int| 0 <= j < nearest.len() && !scored_lt(#[trigger] nearest[j], #[trigger] old_nearest[w]);
        assert(!scored_lt(nearest[j], entry));
        assert forall|k: int| 0 <= k < nearest.len() implies self.found(#[trigger] nearest[k], id, level, entry) by {
            if nearest[k] != sp {
                assert(old_nearest.contains(nearest[k]));
            }
        }
        assert forall|k: int| 0 <= k < candidates.len() implies self.found(#[trigger] candidates[k], id, level, entry) by {
            if k < old_candidates.len() {
                assert(candidates[k] == old_candidates[k]);
            }
        }
    }

    /// Beam search for the points closest to `id` on `level`, starting at
    /// `level_entry`; also offers the current links of `id` there. Returns
    /// at most `ef_construct` points, highest first.
    #[verifier::rlimit(60)]
    fn search_on_level(&self, id: PointOffsetType, level_entry: ScoredPointOffset, level: usize) -> (r: Vec<ScoredPointOffset>)
        requires
            self.wf(),
            id < self.num_points_spec(),
            level < self.num_layers(),
            level_entry.idx < self.num_points_spec(),
            self.level_of(level_entry.idx as int) >= level,
        ensures
            1 <= r@.len() <= self.ef(),
            sorted_desc(r@),
            !scored_lt(r@[0], level_entry),
            ids_distinct(r@),
            kept_or_beaten(r@, self.ef(), level_entry),
            forall|i: int| 0 <= i < r@.len() ==> self.found(#[trigger] r@[i], id as int, level as int, level_entry),
            self.offers_links(r@, id as int, level as int, level_entry),
    {
        let n = self.num_points();
        let mut visited_list = unvisited(n);
        visited_list.set(level_entry.idx as usize, true);
        let ghost mut seen: Set<int> = Set::empty().insert(level_entry.idx as int);
        let mut nearest = FixedLengthPriorityQueue::new(self.ef_construct);
        nearest.push(level_entry);
        let mut candidates: Vec<ScoredPointOffset> = Vec::new();
        candidates.push(level_entry);
        proof {
            lemma_int_range(0, n as int);
            assert(seen.subset_of(set_int_range(0, n as int)));
            lemma_len_subset(seen, set_int_range(0, n as int));
            assert(!scored_lt(nearest@[0], level_entry));
            assert(nearest@[0] == level_entry);
            assert(kept_or_beaten(nearest@, self.ef(), level_entry));
        }
        let ghost mut offered: Seq<ScoredPointOffset> = seq![level_entry];
        proof {
            assert forall|x: int| 0 <= x < n && #[trigger] visited_list@[x] implies exists|k: int| 0 <= k < offered.len() && offered[k].idx == x by {
                assert(seen.contains(x));
                assert(offered[0].idx == x);
            }
        }
        while candidates.len() > 0
            invariant
                self.wf(),
                n == self.num_points_spec(),
                id < n,
                level < self.num_layers(),
                level_entry.idx < n,
                self.level_of(level_entry.idx as int) >= level,
                nearest.capacity() == self.ef(),
                1 <= nearest@.len() <= self.ef(),
                exists|i: int| 0 <= i < nearest@.len() && !scored_lt(#[trigger] nearest@[i], level_entry),
                forall|i: int| 0 <= i < nearest@.len() ==> self.found(#[trigger] nearest@[i], id as int, level as int, level_entry),
                forall|i: int| 0 <= i < candidates@.len() ==> self.found(#[trigger] candidates@[i], id as int, level as int, level_entry),
                visited_list@.len() == n,
                ids_distinct(nearest@),
                forall|k: int| 0 <= k < nearest@.len() ==> #[trigger] visited_list@[nearest@[k].idx as int],
                offered.len() >= 1 && offered[0] == level_entry,
                forall|k: int| 0 <= k < offered.len() ==> kept_or_beaten(nearest@, self.ef(), #[trigger] offered[k]),
                forall|k: int| 0 <= k < offered.len() ==> self.found(#[trigger] offered[k], id as int, level as int, level_entry),
                forall|x: int| 0 <= x < n && #[trigger] visited_list@[x] ==> exists|k: int| 0 <= k < offered.len() && offered[k].idx == x,
                seen.finite(),
                seen.len() <= n,
                forall|x: int| seen.contains(x) ==> 0 <= x < n,
                forall|i: int| 0 <= i < n ==> (visited_list@[i] <==> seen.contains(i)),
            decreases n - seen.len() + candidates@.len(),
        {
            let b = best_index(&candidates);
            let ghost before = candidates@;
            let candidate = candidates.remove(b);
            assert(self.found(candidate, id as int, level as int, level_entry));
            proof {
                assert forall|i: int| 0 <= i < candidates@.len() implies self.found(#[trigger] candidates@[i], id as int, level as int, level_entry) by {
                    if i < b {
                        assert(candidates@[i] == before[i]);
                    } else {
                        assert(candidates@[i] == before[i + 1]);
                    }
                }
            }
            let ghost bound = n - seen.len() + candidates@.len();
            let lower_bound = match nearest.top() {
                None => i64::MIN,
                Some(worst_of_the_best) => worst_of_the_best.score,
            };
            if candidate.score < lower_bound {
                break;
            }
            let links = self.get_links(candidate.idx, level);
            let mut i: usize = 0;
            while i < links.len()
                invariant
                    self.wf(),
                    n == self.num_points_spec(),
                    id < n,
                    level < self.num_layers(),
                    links@ == self.links(candidate.idx as int, level as int),
                    candidate.idx < n,
                    self.list_ok(candidate.idx as int, level as int, links@),
                    i <= links@.len(),
                    nearest.capacity() == self.ef(),
                    1 <= nearest@.len() <= self.ef(),
                    exists|i: int| 0 <= i < nearest@.len() && !scored_lt(#[trigger] nearest@[i], level_entry),
                    forall|i: int| 0 <= i < nearest@.len() ==> self.found(#[trigger] nearest@[i], id as int, level as int, level_entry),
                    forall|i: int| 0 <= i < candidates@.len() ==> self.found(#[trigger] candidates@[i], id as int, level as int, level_entry),
                    visited_list@.len() == n,
                    ids_distinct(nearest@),
                    forall|k: int| 0 <= k < nearest@.len() ==> #[trigger] visited_list@[nearest@[k].idx as int],
                    offered.len() >= 1 && offered[0] == level_entry,
                    forall|k: int| 0 <= k < offered.len() ==> kept_or_beaten(nearest@, self.ef(), #[trigger] offered[k]),
                    forall|k: int| 0 <= k < offered.len() ==> self.found(#[trigger] offered[k], id as int, level as int, level_entry),
                    forall|x: int| 0 <= x < n && #[trigger] visited_list@[x] ==> exists|k: int| 0 <= k < offered.len() && offered[k].idx == x,
                    seen.finite(),
                    seen.len() <= n,
                    forall|x: int| seen.contains(x) ==> 0 <= x < n,
                    forall|i: int| 0 <= i < n ==> (visited_list@[i] <==> seen.contains(i)),
                    n - seen.len() + candidates@.len() <= bound,
                decreases links@.len() - i,
            {
                let link = links[i];
                assert(link < n && self.level_of(link as int) >= level);
                if !visited_list[link as usize] {
                    assert forall|k: int| 0 <= k < nearest@.len() implies #[trigger] nearest@[k].idx != link by {
                        assert(visited_list@[nearest@[k].idx as int]);
                    }
                    assert(self.links(candidate.idx as int, level as int).contains(link)) by {
                        assert(links@[i as int] == link);
                    }
                    let ghost pre_visited = visited_list@;
                    visited_list.set(link as usize, true);
                    proof {
                        seen = seen.insert(link as int);
                        lemma_int_range(0, n as int);
                        assert(seen.subset_of(set_int_range(0, n as int)));
                        lemma_len_subset(seen, set_int_range(0, n as int));
                    }
                    let score = self.score(link, id);
                    let sp = ScoredPointOffset { idx: link, score };
                    let ghost old_nearest = nearest@;
                    let ghost old_candidates = candidates@;
                    let ghost old_visited = visited_list@;
                    Self::process_candidate(&mut nearest, &mut candidates, sp);
                    proof {
                        self.lemma_offer(old_nearest, nearest@, old_candidates, candidates@, sp, id as int, level as int, level_entry);
                        Self::lemma_offered_push(old_nearest, nearest@, self.ef(), offered, sp);
                        let old_offered = offered;
                        offered = offered.push(sp);
                        assert(offered[old_offered.len() as int] == sp);
                        assert forall|k: int| 0 <= k < offered.len() implies self.found(#[trigger] offered[k], id as int, level as int, level_entry) by {
                            if k < old_offered.len() {
                                assert(offered[k] == old_offered[k]);
                            }
                        }
                        assert forall|x: int| 0 <= x < n && #[trigger] visited_list@[x] implies exists|k: int| 0 <= k < offered.len() && offered[k].idx == x by {
                            if x != link {
                                assert(pre_visited[x]);
                                let k = choose|k: int| 0 <= k < old_offered.len() && old_offered[k].idx == x;
                                assert(offered[k] == old_offered[k]);
                            } else {
                                assert(offered[old_offered.len() as int].idx == x);
                            }
                        }
                        assert forall|k: int| 0 <= k < nearest@.len() implies #[trigger] visited_list@[nearest@[k].idx as int] by {
                            if nearest@[k] != sp {
                                let w = choose|w: int| 0 <= w < old_nearest.len() && old_nearest[w] == nearest@[k];
                                assert(old_visited[old_nearest[w].idx as int]);
                            }
                        }
                    }
                }
                i += 1;
            }
        }
        let existing = self.get_links(id, level);
        let mut i: usize = 0;
        assert(existing@.take(0) =~= Seq::<PointOffsetType>::empty());
        while i < existing.len()
            invariant
                self.wf(),
                n == self.num_points_spec(),
                id < n,
                level < self.num_layers(),
                existing@ == self.links(id as int, level as int),
                self.list_ok(id as int, level as int, existing@),
                i <= existing@.len(),
                nearest.capacity() == self.ef(),
                1 <= nearest@.len() <= self.ef(),
                exists|i: int| 0 <= i < nearest@.len() && !scored_lt(#[trigger] nearest@[i], level_entry),
                forall|i: int| 0 <= i < nearest@.len() ==> self.found(#[trigger] nearest@[i], id as int, level as int, level_entry),
                forall|i: int| 0 <= i < candidates@.len() ==> self.found(#[trigger] candidates@[i], id as int, level as int, level_entry),
                visited_list@.len() == n,
                ids_distinct(nearest@),
                forall|k: int| 0 <= k < nearest@.len() ==> #[trigger] visited_list@[nearest@[k].idx as int]
                    || existing@.take(i as int).contains(nearest@[k].idx),
                offered.len() >= 1 && offered[0] == level_entry,
                forall|k: int| 0 <= k < offered.len() ==> kept_or_beaten(nearest@, self.ef(), #[trigger] offered[k]),
                forall|k: int| 0 <= k < offered.len() ==> self.found(#[trigger] offered[k], id as int, level as int, level_entry),
                forall|x: int| 0 <= x < n && #[trigger] visited_list@[x] ==> exists|k: int| 0 <= k < offered.len() && offered[k].idx == x,
                forall|t: int| 0 <= t < i ==> exists|k: int| 0 <= k < offered.len() && offered[k].idx == #[trigger] existing@[t],
            decreases existing@.len() - i,
        {
            let existing_link = existing[i];
            assert(existing_link < n && self.level_of(existing_link as int) >= level);
            if !visited_list[existing_link as usize] {
                assert forall|k: int| 0 <= k < nearest@.len() implies #[trigger] nearest@[k].idx != existing_link by {
                    if nearest@[k].idx == existing_link {
                        let t = choose|t: int| 0 <= t < i && existing@.take(i as int)[t] == existing_link;
                        assert(existing@[t] == existing@[i as int]);
                    }
                }
                assert(self.links(id as int, level as int).contains(existing_link)) by {
                    assert(existing@[i as int] == existing_link);
                }
                let sp = ScoredPointOffset { idx: existing_link, score: self.score(id, existing_link) };
                let ghost old_nearest = nearest@;
                let ghost old_candidates = candidates@;
                Self::process_candidate(&mut nearest, &mut candidates, sp);
                proof {
                    self.lemma_offer(old_nearest, nearest@, old_candidates, candidates@, sp, id as int, level as int, level_entry);
                    Self::lemma_offered_push(old_nearest, nearest@, self.ef(), offered, sp);
                    let old_offered = offered;
                    offered = offered.push(sp);
                    assert(offered[old_offered.len() as int] == sp);
                    assert forall|k: int| 0 <= k < offered.len() implies self.found(#[trigger] offered[k], id as int, level as int, level_entry) by {
                        if k < old_offered.len() {
                            assert(offered[k] == old_offered[k]);
                        }
                    }
                    assert forall|x: int| 0 <= x < n && #[trigger] visited_list@[x] implies exists|k: int| 0 <= k < offered.len() && offered[k].idx == x by {
                        let k = choose|k: int| 0 <= k < old_offered.len() && old_offered[k].idx == x;
                        assert(offered[k] == old_offered[k]);
                    }
                    assert forall|t: int| 0 <= t < i + 1 implies exists|k: int| 0 <= k < offered.len() && offered[k].idx == #[trigger] existing@[t] by {
                        if t < i {
                            let k = choose|k: int| 0 <= k < old_offered.len() && old_offered[k].idx == existing@[t];
                            assert(offered[k] == old_offered[k]);
                        } else {
                            assert(offered[old_offered.len() as int].idx == existing@[t]);
                        }
                    }
                    assert forall|k: int| 0 <= k < nearest@.len() implies #[trigger] visited_list@[nearest@[k].idx as int]
                        || existing@.take(i + 1).contains(nearest@[k].idx) by {
                        if nearest@[k] != sp {
                            let w = choose|w: int| 0 <= w < old_nearest.len() && old_nearest[w] == nearest@[k];
                            assert(visited_list@[old_nearest[w].idx as int] || existing@.take(i as int).contains(old_nearest[w].idx));
                            if !visited_list@[old_nearest[w].idx as int] {
                                let t = choose|t: int| 0 <= t < i && existing@.take(i as int)[t] == old_nearest[w].idx;
                                assert(existing@.take(i + 1)[t] == old_nearest[w].idx);
                            }
                        } else {
                            assert(existing@.take(i + 1)[i as int] == existing_link);
                        }
                    }
                }
            }
            proof {
                if visited_list@[existing_link as int] {
                    assert(exists|k: int| 0 <= k < offered.len() && offered[k].idx == existing_link);
                }
            }
            i += 1;
        }
        let ghost kept = nearest@;
        let r = nearest.into_vec();
        proof {
            assert forall|k: int| 0 <= k < r@.len() implies self.found(#[trigger] r@[k], id as int, level as int, level_entry) by {
                assert(r@.contains(r@[k]));
                assert(r@.to_multiset().count(r@[k]) > 0);
                assert(kept.to_multiset().count(r@[k]) > 0);
                assert(kept.contains(r@[k]));
            }
            assert(r@.len() == kept.len()) by {
                assert(r@.to_multiset().len() == kept.to_multiset().len());
            }
            let w = choose|w: int| 0 <= w < kept.len() && !scored_lt(#[trigger] kept[w], level_entry);
            assert(kept.contains(kept[w]));
            assert(r@.to_multiset().count(kept[w]) > 0);
            assert(r@.contains(kept[w]));
            let j = choose|j: int| 0 <= j < r@.len() && r@[j] == kept[w];
            if j > 0 {
                assert(!scored_lt(r@[0], r@[j]));
            }
            assert forall|t: int| 0 <= t < self.links(id as int, level as int).len() implies self.link_offered(
                r@, id as int, level as int, level_entry, #[trigger] self.links(id as int, level as int)[t]) by {
                assert(existing@[t] == self.links(id as int, level as int)[t]);
                let k = choose|k: int| 0 <= k < offered.len() && offered[k].idx == existing@[t];
                let o = offered[k];
                assert(kept_or_beaten(kept, self.ef(), o));
                assert(self.found(o, id as int, level as int, level_entry));
                lemma_kept_or_beaten_reordered(kept, r@, self.ef(), o);
                assert(kept_or_beaten(r@, self.ef(), o));
            }
            assert(self.offers_links(r@, id as int, level as int, level_entry));
            assert(kept_or_beaten(kept, self.ef(), offered[0]));
            lemma_kept_or_beaten_reordered(kept, r@, self.ef(), level_entry);
            assert(kept.no_duplicates());
            kept.lemma_multiset_has_no_duplicates();
            assert forall|x: ScoredPointOffset| r@.to_multiset().count(x) <= 1 by {
                assert(kept.to_multiset().count(x) <= 1);
            }
            r@.lemma_multiset_has_no_duplicates_conv();
            assert forall|a: int, b: int| 0 <= a < r@.len() && 0 <= b < r@.len() && a != b implies #[trigger] r@[a].idx != #[trigger] r@[b].idx by {
                assert(r@[a] != r@[b]);
                assert(r@.contains(r@[a]) && r@.contains(r@[b]));
                assert(r@.to_multiset().count(r@[a]) > 0 && r@.to_multiset().count(r@[b]) > 0);
                assert(kept.contains(r@[a]) && kept.contains(r@[b]));
                let x = choose|x: int| 0 <= x < kept.len() && kept[x] == r@[a];
                let y = choose|y: int| 0 <= y < kept.len() && kept[y] == r@[b];
                assert(kept[x].idx != kept[y].idx);
            }
        }
        r
    }

    /// The points offered when the full list `current` of `owner` is pruned
    /// again to take in `point_id`: the new point first, then the first
    /// `level_m` of the list, each scored against `owner`.
    pub open spec fn reprune_candidates(
        &self,
        point_id: int,
        owner: int,
        current: Seq<PointOffsetType>,
        level_m: nat,
    ) -> Seq<ScoredPointOffset> {
        seq![ScoredPointOffset { idx: point_id as PointOffsetType, score: self.score_of(point_id, owner) }]
            + current.take(level_m as int).map_values(
            |x: PointOffsetType| ScoredPointOffset { idx: x, score: self.score_of(x as int, owner) },
        )
    }

    /// The new links of `owner` on `level` once `point_id` was linked to
    /// it: `point_id` is added while there is room (and not listed yet);
    /// otherwise the heuristic picks among `point_id` and the current links.
    pub open spec fn relinked(
        &self,
        point_id: int,
        owner: int,
        level: int,
        result: Seq<PointOffsetType>,
    ) -> bool {
        let current = self.links(owner, level);
        let level_m = self.max_links(level);
        if current.len() < level_m {
            result == (if current.contains(point_id as PointOffsetType) {
                current
            } else {
                current.push(point_id as PointOffsetType)
            })
        } else {
            exists|sorted: Seq<ScoredPointOffset>|
                sorted_desc(sorted) && sorted.to_multiset() == self.reprune_candidates(
                    point_id,
                    owner,
                    current,
                    level_m,
                ).to_multiset() && result == self.select(sorted, level_m, owner)
        }
    }

    /// The new links of `other_point` on `level` once `point_id` links to it.
    fn relink_neighbor(&self, point_id: PointOffsetType, other_point: PointOffsetType, level: usize) -> (r: Vec<PointOffsetType>)
        requires
            self.wf(),
            point_id < self.num_points_spec(),
            other_point < self.num_points_spec(),
            point_id != other_point,
            level < self.num_layers(),
            level <= self.level_of(point_id as int),
            level <= self.level_of(other_point as int),
        ensures
            self.relinked(point_id as int, other_point as int, level as int, r@),
            self.list_ok(other_point as int, level as int, r@),
    {
        let level_m = self.get_m(level);
        let other_point_links = self.get_links(other_point, level);
        if other_point_links.len() < level_m {
            let mut links = vstd::slice::slice_to_vec(other_point_links);
            if !contains_id(other_point_links, point_id) {
                links.push(point_id);
                proof {
                    assert forall|i: int| 0 <= i < links@.len() implies #[trigger] links@[i] < self.num_points_spec() && links@[i] != other_point
                        && self.level_of(links@[i] as int) >= level by {
                        if i < other_point_links@.len() {
                            assert(links@[i] == other_point_links@[i]);
                        }
                    }
                    assert forall|i: int, j: int| 0 <= i < links@.len() && 0 <= j < links@.len() && i != j implies links@[i] != links@[j] by {
                        if i < other_point_links@.len() && j < other_point_links@.len() {
                            assert(other_point_links@[i] != other_point_links@[j]);
                        } else if i < other_point_links@.len() {
                            assert(other_point_links@.contains(links@[i]));
                        } else {
                            assert(other_point_links@.contains(links@[j]));
                        }
                    }
                }
            }
            links
        } else {
            assert(self.layer_ok(level as int));
            let ghost n = self.num_points_spec();
            assert(level_m + 1 <= n * (level_m + 1)) by (nonlinear_arith)
                requires
                    n >= 1,
            ;
            let mut candidates = FixedLengthPriorityQueue::new(level_m + 1);
            candidates.push(ScoredPointOffset { idx: point_id, score: self.score(point_id, other_point) });
            let ghost cands = self.reprune_candidates(point_id as int, other_point as int, other_point_links@, level_m as nat);
            let mut i: usize = 0;
            while i < level_m && i < other_point_links.len()
                invariant
                    self.wf(),
                    level_m == self.max_links(level as int),
                    other_point_links@ == self.links(other_point as int, level as int),
                    self.list_ok(other_point as int, level as int, other_point_links@),
                    other_point_links@.len() >= level_m,
                    other_point < self.num_points_spec(),
                    cands == self.reprune_candidates(point_id as int, other_point as int, other_point_links@, level_m as nat),
                    i <= level_m,
                    candidates.capacity() == level_m + 1,
                    candidates@ == cands.take(i + 1),
                decreases level_m - i,
            {
                let other_point_link = other_point_links[i];
                assert(other_point_link < self.num_points_spec());
                candidates.push(ScoredPointOffset { idx: other_point_link, score: self.score(other_point_link, other_point) });
                assert(candidates@ =~= cands.take(i + 2));
                i += 1;
            }
            assert(candidates@ =~= cands);
            let sorted = candidates.into_vec();
            proof {
                assert forall|k: int| 0 <= k < sorted@.len() implies #[trigger] sorted@[k].idx < self.num_points_spec()
                    && sorted@[k].idx != other_point && self.level_of(sorted@[k].idx as int) >= level by {
                    assert(sorted@.contains(sorted@[k]));
                    assert(sorted@.to_multiset().count(sorted@[k]) > 0);
                    assert(cands.contains(sorted@[k]));
                    let w = choose|w: int| 0 <= w < cands.len() && cands[w] == sorted@[k];
                    if w > 0 {
                        assert(cands[w].idx == other_point_links@[w - 1]);
                    }
                }
            }
            let selected = self.select_candidate_with_heuristic_from_sorted(sorted.as_slice(), level_m, other_point);
            proof {
                assert forall|k: int| 0 <= k < selected@.len() implies #[trigger] selected@[k] < self.num_points_spec()
                    && selected@[k] != other_point && self.level_of(selected@[k] as int) >= level by {
                    let w = choose|w: int| 0 <= w < sorted@.len() && selected@[k] == sorted@[w].idx;
                    assert(sorted@[w].idx < self.num_points_spec());
                }
            }
            selected
        }
    }

    /// `request` can be served: its point and entry exist, and its level is
    /// a layer that both reach.
    pub open spec fn request_ok(&self, request: GraphLinkRequest) -> bool {
        &&& request.point_id < self.num_points_spec()
        &&& request.level < self.num_layers()
        &&& request.level <= self.level_of(request.point_id as int)
        &&& request.entry.idx < self.num_points_spec()
        &&& self.level_of(request.entry.idx as int) >= request.level
    }

    /// `response` can be applied: each list it carries may stand for its
    /// owner on its level, and the owners are distinct.
    pub open spec fn response_ok(&self, response: &GraphLinkResponse) -> bool {
        &&& response.point_id < self.num_points_spec()
        &&& response.level < self.num_layers()
        &&& self.list_ok(response.point_id as int, response.level as int, response.links@)
        &&& response.neighbor_ids@.len() == response.neighbor_links@.len()
        &&& response.neighbor_ids@.no_duplicates()
        &&& forall|i: int|
            0 <= i < response.neighbor_ids@.len() ==> #[trigger] response.neighbor_ids@[i]
                < self.num_points_spec() && response.neighbor_ids@[i] != response.point_id
                && self.list_ok(
                response.neighbor_ids@[i] as int,
                response.level as int,
                response.neighbor_links@[i]@,
            )
    }

    /// `response` is what linking on `request` decides: the links of the
    /// point are the heuristic's choice among the points found by the
    /// search (distinct, each from the entry or a list, with every current
    /// link of the point kept or beaten by a full beam), its next entry the best of them (never worse than the entry
    /// of the request), and each chosen neighbor gets its list `relinked`.
    pub open spec fn link_result(&self, request: GraphLinkRequest, response: &GraphLinkResponse) -> bool {
        &&& response.point_id == request.point_id
        &&& response.level == request.level
        &&& self.response_ok(response)
        &&& response.entry.idx < self.num_points_spec()
        &&& self.level_of(response.entry.idx as int) >= request.level
        &&& exists|found: Seq<ScoredPointOffset>|
            #![trigger self.select(found, self.max_links(request.level as int), request.point_id as int)]
            {
                &&& 1 <= found.len() <= self.ef()
                &&& sorted_desc(found)
                &&& ids_distinct(found)
                &&& forall|i: int|
                    0 <= i < found.len() ==> self.found(
                        #[trigger] found[i],
                        request.point_id as int,
                        request.level as int,
                        request.entry,
                    )
                &&& self.offers_links(found, request.point_id as int, request.level as int, request.entry)
                &&& response.entry == found[0]
                &&& !scored_lt(found[0], request.entry)
                &&& response.links@ == self.select(
                    found,
                    self.max_links(request.level as int),
                    request.point_id as int,
                )
            }
        &&& response.neighbor_ids@ == response.links@
        &&& forall|i: int|
            0 <= i < response.neighbor_ids@.len() ==> self.relinked(
                request.point_id as int,
                #[trigger] response.neighbor_ids@[i] as int,
                request.level as int,
                response.neighbor_links@[i]@,
            )
    }

    /// Searches the level of `request` for the neighbors of its point and
    /// decides the new links of the point and of each neighbor.
    pub fn link(&self, request: GraphLinkRequest) -> (r: GraphLinkResponse)
        requires
            self.wf(),
            self.request_ok(request),
        ensures
            self.link_result(request, &r),
    {
        let nearest_points = self.search_on_level(request.point_id, request.entry, request.level);
        let level_m = self.get_m(request.level);
        proof {
            assert forall|i: int| 0 <= i < nearest_points@.len() implies #[trigger] nearest_points@[i].idx < self.num_points_spec() by {
                assert(self.found(nearest_points@[i], request.point_id as int, request.level as int, request.entry));
            }
        }
        let links = self.select_candidate_with_heuristic_from_sorted(nearest_points.as_slice(), level_m, request.point_id);
        let mut neighbor_ids: Vec<PointOffsetType> = Vec::new();
        let mut neighbor_links: Vec<Vec<PointOffsetType>> = Vec::new();
        proof {
            assert forall|i: int| 0 <= i < links@.len() implies #[trigger] links@[i] < self.num_points_spec()
                && links@[i] != request.point_id && self.level_of(links@[i] as int) >= request.level by {
                let w = choose|w: int| 0 <= w < nearest_points@.len() && links@[i] == nearest_points@[w].idx;
                assert(self.found(nearest_points@[w], request.point_id as int, request.level as int, request.entry));
            }
            assert(self.list_ok(request.point_id as int, request.level as int, links@));
        }
        let mut k: usize = 0;
        while k < links.len()
            invariant
                self.wf(),
                self.request_ok(request),
                self.list_ok(request.point_id as int, request.level as int, links@),
                k <= links@.len(),
                neighbor_ids@ == links@.take(k as int),
                neighbor_links@.len() == k,
                forall|i: int| 0 <= i < k ==> #[trigger] self.relinked(
                    request.point_id as int,
                    links@[i] as int,
                    request.level as int,
                    neighbor_links@[i]@,
                ) && self.list_ok(links@[i] as int, request.level as int, neighbor_links@[i]@),
            decreases links@.len() - k,
        {
            let other_point = links[k];
            let other_links = self.relink_neighbor(request.point_id, other_point, request.level);
            neighbor_ids.push(other_point);
            neighbor_links.push(other_links);
            k += 1;
            assert(neighbor_ids@ =~= links@.take(k as int));
        }
        assert(neighbor_ids@ =~= links@);
        let entry = nearest_points[0];
        let r = GraphLinkResponse {
            point_id: request.point_id,
            level: request.level,
            entry,
            links,
            neighbor_ids,
            neighbor_links,
        };
        proof {
            assert(self.found(nearest_points@[0], request.point_id as int, request.level as int, request.entry));
            assert forall|i: int| 0 <= i < r.neighbor_ids@.len() implies self.relinked(
                request.point_id as int,
                #[trigger] r.neighbor_ids@[i] as int,
                request.level as int,
                r.neighbor_links@[i]@,
            ) by {
                assert(r.neighbor_ids@[i] == links@[i]);
            }
            assert(self.response_ok(&r));
            assert(self.select(nearest_points@, self.max_links(request.level as int), request.point_id as int) == r.links@);
            let f = nearest_points@;
            assert(ids_distinct(f));
            assert(r.entry == f[0]);
        }
        r
    }

    /// `self` is `before` with the lists of `response` written: the point's
    /// own and each neighbor's on the response's level, all others kept.
    pub open spec fn applied(&self, before: &Self, response: &GraphLinkResponse) -> bool {
        &&& self.links(response.point_id as int, response.level as int) == response.links@
        &&& forall|i: int|
            0 <= i < response.neighbor_ids@.len() ==> #[trigger] self.links(
                response.neighbor_ids@[i] as int,
                response.level as int,
            ) == response.neighbor_links@[i]@
        &&& forall|q: int, l: int|
            0 <= q < before.num_points_spec() && 0 <= l < before.num_layers() && (l
                != response.level || (q != response.point_id
                && !response.neighbor_ids@.contains(q as PointOffsetType)))
                ==> #[trigger] self.links(q, l) == before.links(q, l)
    }

    /// Writes the lists of `response`: the point's own, then each neighbor's.
    pub fn apply_link_response(&mut self, response: &GraphLinkResponse)
        requires
            old(self).wf(),
            old(self).response_ok(response),
        ensures
            final(self).wf(),
            final(self).same_setup(old(self)),
            final(self).same_shape(old(self)),
            final(self).entries() == old(self).entries(),
            final(self).applied(old(self), response),
    {
        self.set_links(response.point_id, response.level, response.links.as_slice());
        let mut i: usize = 0;
        while i < response.neighbor_ids.len()
            invariant
                self.wf(),
                self.same_setup(old(self)),
                self.entries() == old(self).entries(),
                old(self).response_ok(response),
                i <= response.neighbor_ids@.len(),
                self.links(response.point_id as int, response.level as int) == response.links@,
                forall|j: int|
                    0 <= j < i ==> #[trigger] self.links(
                        response.neighbor_ids@[j] as int,
                        response.level as int,
                    ) == response.neighbor_links@[j]@,
                forall|q: int, l: int|
                    0 <= q < old(self).num_points_spec() && 0 <= l < old(self).num_layers() && (l
                        != response.level || (q != response.point_id
                        && !response.neighbor_ids@.take(i as int).contains(q as PointOffsetType)))
                        ==> #[trigger] self.links(q, l) == old(self).links(q, l),
            decreases response.neighbor_ids@.len() - i,
        {
            let id = response.neighbor_ids[i];
            assert(old(self).list_ok(id as int, response.level as int, response.neighbor_links@[i as int]@));
            let ghost before = *self;
            self.set_links(id, response.level, response.neighbor_links[i].as_slice());
            proof {
                let ids = response.neighbor_ids@;
                assert(ids.take(i + 1) =~= ids.take(i as int).push(id));
                assert forall|j: int| 0 <= j < i + 1 implies #[trigger] self.links(
                    ids[j] as int,
                    response.level as int,
                ) == response.neighbor_links@[j]@ by {
                    if j < i {
                        assert(ids[j] != id);
                        assert(before.links(ids[j] as int, response.level as int) == response.neighbor_links@[j]@);
                    }
                }
                assert forall|q: int, l: int|
                    0 <= q < old(self).num_points_spec() && 0 <= l < old(self).num_layers() && (l
                        != response.level || (q != response.point_id
                        && !ids.take(i + 1).contains(q as PointOffsetType)))
                        implies #[trigger] self.links(q, l) == old(self).links(q, l) by {
                    if l == response.level {
                        assert(ids.take(i + 1)[i as int] == id);
                        assert(!ids.take(i as int).contains(q as PointOffsetType));
                    }
                    assert(before.links(q, l) == old(self).links(q, l));
                }
            }
            i += 1;
        }
        assert(response.neighbor_ids@.take(i as int) =~= response.neighbor_ids@);
        proof {
            self.lemma_same_shape(old(self));
        }
    }

    /// `self` holds the registry of `before` once `point_id` was offered to it.
    pub open spec fn registered(&self, before: &Self, point_id: PointOffsetType) -> bool {
        let new_entry = EntryPoint { point_id, level: before.level_of(point_id as int) as usize };
        let old_entries = before.entries();
        &&& old_entries.len() == 0 || old_entries.len() < before.entry_capacity() ==> self.entries()
            == old_entries.push(new_entry)
        &&& old_entries.len() != 0 && old_entries.len() >= before.entry_capacity() ==> exists|i: int|
            is_lowest(old_entries, i) && self.entries() == (if old_entries[i].level < new_entry.level {
                old_entries.update(i, new_entry)
            } else {
                old_entries
            })
    }

    /// `q` is the first request to link `point_id`, given the best entry
    /// point `e` of `self`: on the highest level that both reach, from `e`
    /// itself when it is not above the point, else from where the greedy
    /// descent from `e` ends: a point above the point's level, no worse than
    /// `e`, that none of its links on the level just above beats.
    pub open spec fn first_request(&self, point_id: PointOffsetType, q: GraphLinkRequest) -> bool {
        &&& self.request_ok(q)
        &&& q.point_id == point_id
        &&& exists|i: int|
            #![trigger self.entries()[i]]
            is_best_entry(self.entries(), i) && ({
                let e = self.entries()[i];
                let level = self.level_of(point_id as int) as int;
                &&& q.level == if level < e.level { level } else { e.level as int }
                &&& e.level <= level ==> q.entry == (ScoredPointOffset {
                    idx: e.point_id,
                    score: self.score_of(point_id as int, e.point_id as int),
                })
                &&& e.level > level ==> self.level_of(q.entry.idx as int) > level
                    && (q.entry.idx == e.point_id || exists|c: int, l: int|
                        0 <= c < self.num_points_spec() && 0 <= l < self.num_layers()
                        && #[trigger] self.links(c, l).contains(q.entry.idx))
                    && q.entry.score >= self.score_of(point_id as int, e.point_id as int)
                    && self.scored_against(q.entry, point_id as int, e.point_id as int)
                    && forall|j: int|
                    0 <= j < self.links(q.entry.idx as int, level + 1).len() ==> self.score_of(
                        #[trigger] self.links(q.entry.idx as int, level + 1)[j] as int,
                        point_id as int,
                    ) <= q.entry.score
            })
    }

    /// Registers `point_id` as an entry point and, unless it is the first
    /// point, returns the request to link it on the highest level that it
    /// shares with the best earlier entry point `e`: the entry is `e` itself
    /// when `e` is not above the point, else the result of the greedy
    /// descent from `e`.
    pub fn get_link_request(&mut self, point_id: PointOffsetType) -> (r: Option<GraphLinkRequest>)
        requires
            old(self).wf(),
            point_id < old(self).num_points_spec(),
        ensures
            final(self).wf(),
            final(self).same_setup(old(self)),
            forall|q: int, l: int| #[trigger] final(self).links(q, l) == old(self).links(q, l),
            r is None <==> old(self).entries().len() == 0,
            final(self).same_shape(old(self)),
            final(self).registered(old(self), point_id),
            r matches Some(q) ==> final(self).request_ok(q) && old(self).first_request(point_id, q),
    {
        let level = self.get_point_level(point_id);
        let ghost before = self.entries();
        let entry_point_opt = self.entry_points.new_point(point_id, level);
        proof {
            self.lemma_same_shape(old(self));
            assert forall|k: int| 0 <= k < self.entries().len() implies #[trigger] self.entries()[k].point_id
                < self.num_points_spec() && self.entries()[k].level == self.level_of(
                self.entries()[k].point_id as int,
            ) by {
                if self.entries()[k] != (EntryPoint { point_id, level }) {
                    let w = choose|w: int| 0 <= w < before.len() && before[w] == self.entries()[k];
                    assert(old(self).entries()[w] == before[w]);
                }
            }
            assert(self.links_layers == old(self).links_layers);
            assert forall|l: int| 0 <= l < self.num_layers() implies #[trigger] self.layer_ok(l) by {
                assert(old(self).layer_ok(l));
                assert forall|p: int| 0 <= p < self.num_points_spec() implies {
                    &&& #[trigger] self.links_layers@[l]@[self.slot(p, l)] <= self.max_links(l)
                    &&& self.list_ok(p, l, self.links(p, l))
                } by {
                    assert(old(self).links_layers@[l]@[old(self).slot(p, l)] <= old(self).max_links(l));
                    assert(self.links(p, l) == old(self).links(p, l));
                }
            }
            assert forall|p: int| 0 <= p < self.num_points_spec() implies #[trigger] self.level_of(p) < self.num_layers() by {
                assert(old(self).level_of(p) < old(self).num_layers());
            }
        }
        match entry_point_opt {
            None => None,
            Some(entry_point) => {
                let ghost i = choose|i: int| is_best_entry(before, i) && entry_point == before[i];
                proof {
                    assert(old(self).entries()[i] == before[i]);
                    assert(self.level_of(entry_point.point_id as int) < self.num_layers());
                }
                let entry = if entry_point.level > level {
                    self.search_entry(point_id, entry_point.point_id, entry_point.level, level)
                } else {
                    ScoredPointOffset {
                        idx: entry_point.point_id,
                        score: self.score(point_id, entry_point.point_id),
                    }
                };
                let ghost point_level = level;
                let level = if level < entry_point.level {
                    level
                } else {
                    entry_point.level
                };
                proof {
                    assert(self.links(entry.idx as int, point_level + 1) == old(self).links(entry.idx as int, point_level + 1));
                    if entry_point.level > point_level && entry.idx != entry_point.point_id {
                        let (c, l) = choose|c: int, l: int| 0 <= c < self.num_points_spec() && 0 <= l < self.num_layers()
                            && #[trigger] self.links(c, l).contains(entry.idx);
                        assert(old(self).links(c, l) == self.links(c, l));
                        assert(old(self).links(c, l).contains(entry.idx));
                    }
                    assert(old(self).entries()[i] == entry_point);
                }
                Some(GraphLinkRequest { point_id, level, entry })
            },
        }
    }

    /// `states[0]`, `states[1]`, ... are the builder through linking steps:
    /// step `i` serves `requests[i]` on `states[i]` with `responses[i]`
    /// (`link_result`) and writes it (`applied`), giving `states[i + 1]`;
    /// each later request is the one that the response before it names.
    pub open spec fn steps_so_far(
        states: Seq<GraphLinearBuilder>,
        requests: Seq<GraphLinkRequest>,
        responses: Seq<GraphLinkResponse>,
    ) -> bool {
        &&& states.len() == responses.len() + 1
        &&& requests.len() == responses.len()
        &&& forall|i: int|
            0 <= i < responses.len() ==> #[trigger] states[i].link_result(requests[i], &responses[i])
                && states[i + 1].applied(&states[i], &responses[i]) && states[i].wf()
                && states[i + 1].wf() && states[i + 1].same_shape(&states[i])
        &&& forall|i: int| 0 <= i < responses.len() - 1 ==> #[trigger] responses[i].next() == Some(requests[i + 1])
    }

    /// `steps_so_far`, ending with a response that names no further request
    /// (it was on level zero).
    pub open spec fn linking_steps(
        states: Seq<GraphLinearBuilder>,
        requests: Seq<GraphLinkRequest>,
        responses: Seq<GraphLinkResponse>,
    ) -> bool {
        &&& Self::steps_so_far(states, requests, responses)
        &&& responses.len() > 0 ==> responses.last().next() is None
    }

    /// One more linking step extends `steps_so_far`.
    proof fn lemma_extend_steps(
        states: Seq<GraphLinearBuilder>,
        requests: Seq<GraphLinkRequest>,
        responses: Seq<GraphLinkResponse>,
        request: GraphLinkRequest,
        response: GraphLinkResponse,
        after: GraphLinearBuilder,
    )
        requires
            Self::steps_so_far(states, requests, responses),
            states.last().wf(),
            states.last().link_result(request, &response),
            after.applied(&states.last(), &response),
            after.wf(),
            after.same_shape(&states.last()),
            responses.len() > 0 ==> responses.last().next() == Some(request),
        ensures
            Self::steps_so_far(states.push(after), requests.push(request), responses.push(response)),
    {
        let n = responses.len() as int;
        let s2 = states.push(after);
        let q2 = requests.push(request);
        let p2 = responses.push(response);
        assert forall|i: int|
            0 <= i < p2.len() implies #[trigger] s2[i].link_result(q2[i], &p2[i])
                && s2[i + 1].applied(&s2[i], &p2[i]) && s2[i].wf()
                && s2[i + 1].wf() && s2[i + 1].same_shape(&s2[i]) by {
            if i < n {
                assert(s2[i] == states[i]);
                assert(s2[i + 1] == states[i + 1]);
                assert(q2[i] == requests[i]);
                assert(p2[i] == responses[i]);
                assert(states[i].link_result(requests[i], &responses[i]));
            } else {
                assert(s2[i] == states.last());
                assert(s2[i + 1] == after);
                assert(q2[i] == request);
                assert(p2[i] == response);
            }
        }
        assert forall|i: int| 0 <= i < p2.len() - 1 implies #[trigger] p2[i].next() == Some(q2[i + 1]) by {
            assert(p2[i] == responses[i]);
            if i < n - 1 {
                assert(q2[i + 1] == requests[i + 1]);
            } else {
                assert(q2[i + 1] == request);
            }
        }
    }

    /// Links `point_id` into every layer from the highest that it shares
    /// with an earlier entry point down to zero, and registers it as an
    /// entry point. The first point linked gets no links. Otherwise the
    /// links are those of `linking_steps` from the point's `first_request`
    /// on the registered builder, one step per level.
    #[verifier::rlimit(40)]
    pub fn link_new_point(&mut self, point_id: PointOffsetType)
        requires
            old(self).wf(),
            point_id < old(self).num_points_spec(),
        ensures
            final(self).wf(),
            final(self).same_setup(old(self)),
            final(self).same_shape(old(self)),
            final(self).registered(old(self), point_id),
            old(self).entries().len() == 0 ==> forall|q: int, l: int|
                #[trigger] final(self).links(q, l) == old(self).links(q, l),
            old(self).entries().len() > 0 ==> exists|
                states: Seq<GraphLinearBuilder>,
                requests: Seq<GraphLinkRequest>,
                responses: Seq<GraphLinkResponse>,
            |
                #![trigger Self::linking_steps(states, requests, responses)]
                Self::linking_steps(states, requests, responses) && requests.len() >= 1
                    && old(self).first_request(point_id, requests[0])
                    && states[0].registered(old(self), point_id)
                    && states[0].same_shape(old(self))
                    && (forall|q: int, l: int| #[trigger] states[0].links(q, l) == old(self).links(q, l))
                    && *final(self) == states.last(),
    {
        let mut request = self.get_link_request(point_id);
        let ghost registered = self.entries();
        let ghost first = request;
        let ghost mut states: Seq<GraphLinearBuilder> = seq![*self];
        let ghost mut requests: Seq<GraphLinkRequest> = Seq::empty();
        let ghost mut responses: Seq<GraphLinkResponse> = Seq::empty();
        proof {
            self.lemma_same_shape(old(self));
        }
        while request.is_some()
            invariant
                self.wf(),
                self.same_setup(old(self)),
                self.entries() == registered,
                request matches Some(q) ==> self.request_ok(q),
                old(self).entries().len() == 0 ==> request is None && forall|q: int, l: int|
                    #[trigger] self.links(q, l) == old(self).links(q, l),
                first matches Some(q) ==> old(self).first_request(point_id, q),
                old(self).entries().len() > 0 ==> first is Some,
                Self::steps_so_far(states, requests, responses),
                states.last() == *self,
                states[0].registered(old(self), point_id),
                states[0].same_shape(old(self)),
                forall|q: int, l: int| #[trigger] states[0].links(q, l) == old(self).links(q, l),
                responses.len() == 0 ==> request == first && states[0].wf(),
                responses.len() > 0 ==> request == responses.last().next() && requests[0] == first.unwrap(),
            decreases (match request {
                Some(q) => q.level + 1,
                None => 0,
            }),
        {
            let r = request.unwrap();
            let ghost before = *self;
            let response = self.link(r);
            self.apply_link_response(&response);
            proof {
                self.lemma_same_shape(&before);
                Self::lemma_extend_steps(states, requests, responses, r, response, *self);
                let n = responses.len();
                states = states.push(*self);
                requests = requests.push(r);
                responses = responses.push(response);
            }
            request = response.next_request();
        }
        proof {
            if old(self).entries().len() > 0 {
                assert(responses.len() > 0);
                assert(Self::linking_steps(states, requests, responses));
            }
        }
    }
}

/// On every level, no point has more links than the level allows.
pub proof fn lemma_bounded_degree(g: &GraphLinearBuilder, q: int, level: int)
    requires
        g.wf(),
        0 <= q < g.num_points_spec(),
        0 <= level < g.num_layers(),
    ensures
        g.links(q, level).len() <= g.max_links(level),
{
    assert(g.layer_ok(level));
}

/// No point links to itself.
pub proof fn lemma_no_self_loops(g: &GraphLinearBuilder, q: int, level: int)
    requires
        g.wf(),
        0 <= q < g.num_points_spec(),
        0 <= level < g.num_layers(),
    ensures
        !g.links(q, level).contains(q as PointOffsetType),
{
    assert(g.layer_ok(level));
    if g.links(q, level).contains(q as PointOffsetType) {
        let i = choose|i: int| 0 <= i < g.links(q, level).len() && g.links(q, level)[i] == q as PointOffsetType;
        assert(g.links(q, level)[i] != q);
    }
}

/// No point lists another twice.
pub proof fn lemma_no_duplicates(g: &GraphLinearBuilder, q: int, level: int)
    requires
        g.wf(),
        0 <= q < g.num_points_spec(),
        0 <= level < g.num_layers(),
    ensures
        g.links(q, level).no_duplicates(),
{
    assert(g.layer_ok(level));
}

/// A point has no links above its own level.
pub proof fn lemma_level_bound(g: &GraphLinearBuilder, q: int, level: int)
    requires
        g.wf(),
        0 <= q < g.num_points_spec(),
        g.level_of(q) < level < g.num_layers(),
    ensures
        g.links(q, level) == Seq::<PointOffsetType>::empty(),
{
    assert(g.layer_ok(level));
}

/// After a point is linked on a level, each neighbor that it chose lists it
/// in turn, unless the neighbor's list was already full (and the point did
/// not survive the new pruning).
pub proof fn lemma_symmetric_membership(
    before: &GraphLinearBuilder,
    request: GraphLinkRequest,
    response: &GraphLinkResponse,
    after: &GraphLinearBuilder,
    i: int,
)
    requires
        before.wf(),
        before.link_result(request, response),
        after.applied(before, response),
        0 <= i < response.links@.len(),
    ensures
        ({
            let q = response.links@[i] as int;
            let level = request.level as int;
            after.links(q, level).contains(request.point_id) || before.links(q, level).len()
                >= before.max_links(level)
        }),
{
    let q = response.links@[i];
    let level = request.level as int;
    let p = request.point_id;
    assert(response.neighbor_ids@[i] == q);
    assert(before.relinked(p as int, q as int, level, response.neighbor_links@[i]@));
    assert(after.links(q as int, level) == response.neighbor_links@[i]@);
    let current = before.links(q as int, level);
    if current.len() < before.max_links(level) && !current.contains(p) {
        assert(current.push(p)[current.len() as int] == p);
    }
}

/// When every point is on level zero, no point has links above level zero,
/// and no entry point is above any point, so linking never descends.
pub proof fn lemma_single_level(g: &GraphLinearBuilder, p: int)
    requires
        g.wf(),
        0 <= p < g.num_points_spec(),
        forall|q: int| 0 <= q < g.num_points_spec() ==> #[trigger] g.level_of(q) == 0,
    ensures
        forall|q: int, l: int|
            0 <= q < g.num_points_spec() && 0 < l < g.num_layers() ==> #[trigger] g.links(q, l)
                == Seq::<PointOffsetType>::empty(),
        forall|k: int| 0 <= k < g.entries().len() ==> #[trigger] g.entries()[k].level <= g.level_of(p),
{
    assert forall|q: int, l: int|
        0 <= q < g.num_points_spec() && 0 < l < g.num_layers() implies #[trigger] g.links(q, l)
            == Seq::<PointOffsetType>::empty() by {
        lemma_level_bound(g, q, l);
    }
    assert forall|k: int| 0 <= k < g.entries().len() implies #[trigger] g.entries()[k].level <= g.level_of(p) by {
        assert(g.level_of(g.entries()[k].point_id as int) == 0);
    }
}

/// Along the steps of `link_new_point`, each step leaves every neighbor that
/// the point chose listing the point in turn, unless that neighbor's list
/// was already full.
pub proof fn lemma_symmetric_membership_in_steps(
    states: Seq<GraphLinearBuilder>,
    requests: Seq<GraphLinkRequest>,
    responses: Seq<GraphLinkResponse>,
    step: int,
    i: int,
)
    requires
        GraphLinearBuilder::linking_steps(states, requests, responses),
        0 <= step < responses.len(),
        0 <= i < responses[step].links@.len(),
    ensures
        ({
            let q = responses[step].links@[i] as int;
            let level = requests[step].level as int;
            states[step + 1].links(q, level).contains(requests[step].point_id)
                || states[step].links(q, level).len() >= states[step].max_links(level)
        }),
{
    assert(states[step].link_result(requests[step], &responses[step]));
    lemma_symmetric_membership(&states[step], requests[step], &responses[step], &states[step + 1], i);
}

} // verus!