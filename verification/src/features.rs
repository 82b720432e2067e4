//! Annotated intervals and the merge that turns overlapping intervals into
//! the disjoint runs they cover.

use vstd::hash_map::StringHashMap;
use vstd::prelude::*;
use vstd::seq_lib::*;
use vstd::slice::slice_to_vec;

verus! {

/// An inclusive interval of positions on a reference sequence.
#[derive(Clone, Copy, Debug, PartialEq, Eq, Structural)]
pub struct Feature {
    pub start: u64,
    pub end: u64,
}

impl Feature {
    /// The interval holds at least one position.
    pub open spec fn valid(&self) -> bool {
        self.start <= self.end
    }

    /// Position `p` lies inside the interval.
    pub open spec fn covers(&self, p: int) -> bool {
        self.start <= p <= self.end
    }

    /// Both `p` and `p + 1` lie inside the interval.
    pub open spec fn bridges(&self, p: int) -> bool {
        self.start <= p < self.end
    }

    /// Every position of `other` lies inside the interval.
    pub open spec fn encloses(&self, other: Feature) -> bool {
        self.start <= other.start && other.end <= self.end
    }

    /// The number of positions in a valid interval.
    pub open spec fn spec_len(&self) -> nat {
        (self.end - self.start + 1) as nat
    }

    /// The interval from `start` to `end`, both included.
    pub fn new(start: u64, end: u64) -> (feature: Feature)
        ensures
            feature.start == start,
            feature.end == end,
    {
        Feature { start, end }
    }

    /// Returns the size of the feature's interval.
    pub fn len(&self) -> (n: u64)
        requires
            self.valid(),
            self.end - self.start < u64::MAX,
        ensures
            n == self.spec_len(),
    {
        self.end - self.start + 1
    }
}

/// Some interval of `s` covers position `p`.
pub open spec fn covered(s: Seq<Feature>, p: int) -> bool {
    exists|i: int| 0 <= i < s.len() && #[trigger] s[i].covers(p)
}

/// Some interval of `s` holds both `p` and `p + 1`.
pub open spec fn bridged(s: Seq<Feature>, p: int) -> bool {
    exists|i: int| 0 <= i < s.len() && #[trigger] s[i].bridges(p)
}

/// Some interval of `s` encloses `f`.
pub open spec fn enclosed(s: Seq<Feature>, f: Feature) -> bool {
    exists|k: int| 0 <= k < s.len() && #[trigger] s[k].encloses(f)
}

/// The set of positions that the intervals of `s` cover.
pub open spec fn positions(s: Seq<Feature>) -> Set<int> {
    Set::new(|p: int| covered(s, p))
}

/// Every interval of `s` is valid.
pub open spec fn all_valid(s: Seq<Feature>) -> bool {
    forall|i: int| 0 <= i < s.len() ==> (#[trigger] s[i]).valid()
}

/// Each interval ends before the next one starts.
pub open spec fn separated(s: Seq<Feature>) -> bool {
    forall|i: int, j: int|
        0 <= i < j < s.len() ==> (#[trigger] s[i]).end < (#[trigger] s[j]).start
}

/// No interval stands before one with a smaller start.
pub open spec fn sorted_by_start(s: Seq<Feature>) -> bool {
    forall|i: int, j: int|
        0 <= i <= j < s.len() ==> (#[trigger] s[i]).start <= (#[trigger] s[j]).start
}

/// `m` is the merged form of `x`: valid intervals in increasing order with a
/// gap before each next one, covering what `x` covers, where no interval of
/// `x` straddles two of them and each is held together by intervals of `x`.
pub open spec fn is_merge_of(m: Seq<Feature>, x: Seq<Feature>) -> bool {
    &&& all_valid(m)
    &&& separated(m)
    &&& forall|p: int| covered(m, p) <==> covered(x, p)
    &&& forall|i: int| 0 <= i < x.len() ==> enclosed(m, #[trigger] x[i])
    &&& forall|k: int, p: int| 0 <= k < m.len() && #[trigger] m[k].bridges(p) ==> bridged(x, p)
}

/// `slice::sort_unstable_by_key` with the interval's start as key: the
/// vector keeps its elements and ends up in ascending order of `start`.
#[verifier::external_body]
fn sort_by_start(intervals: &mut Vec<Feature>)
    ensures
        final(intervals)@.to_multiset() == old(intervals)@.to_multiset(),
        sorted_by_start(final(intervals)@),
{
    intervals.sort_unstable_by_key(|i| i.start);
}

/// Two sequences with the same multiset of elements hold the same elements.
proof fn lemma_same_elements(a: Seq<Feature>, b: Seq<Feature>)
    requires
        a.to_multiset() == b.to_multiset(),
    ensures
        a.len() == b.len(),
        forall|i: int| 0 <= i < a.len() ==> b.contains(#[trigger] a[i]),
        forall|i: int| 0 <= i < b.len() ==> a.contains(#[trigger] b[i]),
{
    to_multiset_len(a);
    to_multiset_len(b);
    assert forall|i: int| 0 <= i < a.len() implies b.contains(#[trigger] a[i]) by {
        to_multiset_contains(a, a[i]);
        to_multiset_contains(b, a[i]);
        assert(a.contains(a[i]));
    }
    assert forall|i: int| 0 <= i < b.len() implies a.contains(#[trigger] b[i]) by {
        to_multiset_contains(a, b[i]);
        to_multiset_contains(b, b[i]);
        assert(b.contains(b[i]));
    }
}

/// What `is_merge_of` says of `x` depends on the elements of `x` alone, not
/// on their order.
proof fn lemma_merge_of_rearranged(m: Seq<Feature>, v: Seq<Feature>, x: Seq<Feature>)
    requires
        is_merge_of(m, v),
        v.to_multiset() == x.to_multiset(),
    ensures
        is_merge_of(m, x),
{
    lemma_same_elements(v, x);
    assert forall|p: int| covered(v, p) <==> covered(x, p) by {
        if covered(v, p) {
            let i = choose|i: int| 0 <= i < v.len() && #[trigger] v[i].covers(p);
            assert(x.contains(v[i]));
            let j = choose|j: int| 0 <= j < x.len() && x[j] == v[i];
            assert(x[j].covers(p));
        }
        if covered(x, p) {
            let i = choose|i: int| 0 <= i < x.len() && #[trigger] x[i].covers(p);
            assert(v.contains(x[i]));
            let j = choose|j: int| 0 <= j < v.len() && v[j] == x[i];
            assert(v[j].covers(p));
        }
    }
    assert forall|i: int| 0 <= i < x.len() implies enclosed(m, #[trigger] x[i]) by {
        assert(v.contains(x[i]));
        let j = choose|j: int| 0 <= j < v.len() && v[j] == x[i];
        assert(enclosed(m, v[j]));
    }
    assert forall|k: int, p: int| 0 <= k < m.len() && #[trigger] m[k].bridges(p) implies bridged(
        x,
        p,
    ) by {
        assert(bridged(v, p));
        let i = choose|i: int| 0 <= i < v.len() && #[trigger] v[i].bridges(p);
        assert(x.contains(v[i]));
        let j = choose|j: int| 0 <= j < x.len() && x[j] == v[i];
        assert(x[j].bridges(p));
    }
}

/// Within a merged form no two intervals share a position.
proof fn lemma_one_run_per_position(m: Seq<Feature>, j: int, k: int, p: int)
    requires
        separated(m),
        0 <= j < m.len(),
        0 <= k < m.len(),
        m[j].covers(p),
        m[k].covers(p),
    ensures
        j == k,
{
    if j < k {
        assert(m[j].end < m[k].start);
    }
    if k < j {
        assert(m[k].end < m[j].start);
    }
}

/// A run of one merged form cannot leave the run of another merged form that
/// holds its first position: each step to the right is bridged by an interval
/// of `x`, which lies inside one run.
proof fn lemma_run_stays_inside(
    x: Seq<Feature>,
    m1: Seq<Feature>,
    m2: Seq<Feature>,
    k: int,
    j: int,
    p: int,
)
    requires
        is_merge_of(m1, x),
        is_merge_of(m2, x),
        0 <= k < m1.len(),
        0 <= j < m2.len(),
        m2[j].covers(m1[k].start as int),
        m1[k].covers(p),
    ensures
        m2[j].covers(p),
    decreases p - m1[k].start,
{
    if p > m1[k].start {
        lemma_run_stays_inside(x, m1, m2, k, j, p - 1);
        assert(m1[k].bridges(p - 1));
        assert(bridged(x, p - 1));
        let i = choose|i: int| 0 <= i < x.len() && #[trigger] x[i].bridges(p - 1);
        assert(enclosed(m2, x[i]));
        let l = choose|l: int| 0 <= l < m2.len() && #[trigger] m2[l].encloses(x[i]);
        assert(m2[l].covers(p - 1));
        lemma_one_run_per_position(m2, j, l, p - 1);
    }
}

/// Every run of one merged form of `x` is a run of any other.
proof fn lemma_run_is_shared(
    x: Seq<Feature>,
    m1: Seq<Feature>,
    m2: Seq<Feature>,
    k: int,
) -> (j: int)
    requires
        is_merge_of(m1, x),
        is_merge_of(m2, x),
        0 <= k < m1.len(),
    ensures
        0 <= j < m2.len(),
        m2[j] == m1[k],
{
    let s = m1[k].start as int;
    let e = m1[k].end as int;
    assert(m1[k].valid());
    assert(m1[k].covers(s));
    assert(covered(m1, s));
    assert(covered(x, s));
    assert(covered(m2, s));
    let j = choose|j: int| 0 <= j < m2.len() && #[trigger] m2[j].covers(s);
    lemma_run_stays_inside(x, m1, m2, k, j, e);

    let s2 = m2[j].start as int;
    let e2 = m2[j].end as int;
    assert(m2[j].valid());
    assert(m2[j].covers(s2));
    assert(covered(m2, s2));
    assert(covered(x, s2));
    assert(covered(m1, s2));
    let l = choose|l: int| 0 <= l < m1.len() && #[trigger] m1[l].covers(s2);
    lemma_run_stays_inside(x, m2, m1, j, l, e2);
    lemma_run_stays_inside(x, m2, m1, j, l, s);
    lemma_one_run_per_position(m1, k, l, s);
    j
}

/// Two merged forms of `x` agree on their first `n` runs.
proof fn lemma_merged_prefixes_agree(x: Seq<Feature>, m1: Seq<Feature>, m2: Seq<Feature>, n: int)
    requires
        is_merge_of(m1, x),
        is_merge_of(m2, x),
        0 <= n <= m1.len(),
    ensures
        n <= m2.len(),
        forall|i: int| 0 <= i < n ==> m1[i] == m2[i],
    decreases n,
{
    if n > 0 {
        lemma_merged_prefixes_agree(x, m1, m2, n - 1);
        let i = n - 1;
        let j = lemma_run_is_shared(x, m1, m2, i);
        assert(m1[i].valid());
        if j < i {
            assert(m1[j] == m2[j]);
            assert(m1[j].end < m1[i].start);
        }
        let k = lemma_run_is_shared(x, m2, m1, i);
        assert(m2[i].valid());
        if k < i {
            assert(m1[k] == m2[k]);
            assert(m2[k].end < m2[i].start);
        }
        if j > i {
            assert(m2[i].end < m2[j].start);
            if k > i {
                assert(m1[i].end < m1[k].start);
            }
        }
    }
}

/// A sequence of intervals has one merged form: `is_merge_of` fixes every
/// run and the order of the runs.
pub proof fn lemma_merge_is_unique(x: Seq<Feature>, m1: Seq<Feature>, m2: Seq<Feature>)
    requires
        is_merge_of(m1, x),
        is_merge_of(m2, x),
    ensures
        m1 == m2,
{
    lemma_merged_prefixes_agree(x, m1, m2, m1.len() as int);
    lemma_merged_prefixes_agree(x, m2, m1, m2.len() as int);
    assert(m1 =~= m2);
}

/// A merged form is its own merged form.
pub proof fn lemma_merged_is_fixed_point(m: Seq<Feature>, x: Seq<Feature>)
    requires
        is_merge_of(m, x),
    ensures
        is_merge_of(m, m),
{
    assert forall|i: int| 0 <= i < m.len() implies enclosed(m, #[trigger] m[i]) by {
        assert(m[i].encloses(m[i]));
    }
}

/// Merging is idempotent: merging the merged form of `x` once more gives it
/// back unchanged.
pub proof fn lemma_merge_idempotent(x: Seq<Feature>, once: Seq<Feature>, twice: Seq<Feature>)
    requires
        is_merge_of(once, x),
        is_merge_of(twice, once),
    ensures
        twice == once,
{
    lemma_merged_is_fixed_point(once, x);
    lemma_merge_is_unique(once, twice, once);
}

/// A merged form covers exactly the positions of its input.
pub proof fn lemma_merge_keeps_positions(m: Seq<Feature>, x: Seq<Feature>)
    requires
        is_merge_of(m, x),
    ensures
        positions(m) == positions(x),
{
    assert(positions(m) =~= positions(x));
}

/// In a merged form each run starts after the end of the run before it.
pub proof fn lemma_merged_runs_are_apart(m: Seq<Feature>, x: Seq<Feature>, i: int)
    requires
        is_merge_of(m, x),
        0 <= i,
        i + 1 < m.len(),
    ensures
        m[i + 1].start > m[i].end,
{
}

/// Merges a list of overlapping intervals into a list of non-overlapping
/// intervals.
///
/// The intervals are inclusive. Two intervals end up in one run when they
/// share a position; the runs come out in increasing order.
pub fn merge_intervals(intervals: &[Feature]) -> (merged: Vec<Feature>)
    requires
        intervals@.len() > 0,
        all_valid(intervals@),
    ensures
        is_merge_of(merged@, intervals@),
        separated(merged@),
        positions(merged@) == positions(intervals@),
        1 <= merged@.len() <= intervals@.len(),
{
    let mut sorted = slice_to_vec(intervals);
    sort_by_start(&mut sorted);
    proof {
        lemma_same_elements(sorted@, intervals@);
        assert forall|i: int| 0 <= i < sorted@.len() implies (#[trigger] sorted@[i]).valid() by {
            assert(intervals@.contains(sorted@[i]));
        }
    }

    let mut merged: Vec<Feature> = Vec::with_capacity(sorted.len());
    merged.push(sorted[0]);
    assert(merged@[0].encloses(sorted@[0]));
    assert(sorted@[0].covers(sorted@[0].start as int));

    let mut i: usize = 1;
    while i < sorted.len()
        invariant
            1 <= i <= sorted@.len(),
            sorted_by_start(sorted@),
            all_valid(sorted@),
            1 <= merged@.len() <= i,
            all_valid(merged@),
            separated(merged@),
            merged@.last().start <= sorted@[i - 1].start,
            forall|j: int| 0 <= j < i ==> enclosed(merged@, #[trigger] sorted@[j]),
            forall|k: int, p: int|
                0 <= k < merged@.len() && #[trigger] merged@[k].bridges(p) ==> bridged(sorted@, p),
            forall|k: int, p: int|
                0 <= k < merged@.len() && #[trigger] merged@[k].covers(p) ==> covered(sorted@, p),
        decreases sorted@.len() - i,
    {
        let b = sorted[i];
        let last = merged.len() - 1;
        let a = merged[last];
        let ghost before = merged@;
        assert(sorted@[i - 1].start <= sorted@[i as int].start);

        if b.start > a.end {
            merged.push(b);
            proof {
                assert forall|j: int| 0 <= j < i + 1 implies enclosed(
                    merged@,
                    #[trigger] sorted@[j],
                ) by {
                    if j < i {
                        assert(enclosed(before, sorted@[j]));
                        let k = choose|k: int|
                            0 <= k < before.len() && #[trigger] before[k].encloses(sorted@[j]);
                        assert(merged@[k].encloses(sorted@[j]));
                    } else {
                        assert(merged@[last + 1].encloses(sorted@[j]));
                    }
                }
                assert forall|k: int, p: int|
                    0 <= k < merged@.len() && #[trigger] merged@[k].bridges(p) implies bridged(
                    sorted@,
                    p,
                ) by {
                    if k <= last {
                        assert(before[k].bridges(p));
                    } else {
                        assert(sorted@[i as int].bridges(p));
                    }
                }
                assert forall|k: int, p: int|
                    0 <= k < merged@.len() && #[trigger] merged@[k].covers(p) implies covered(
                    sorted@,
                    p,
                ) by {
                    if k <= last {
                        assert(before[k].covers(p));
                    } else {
                        assert(sorted@[i as int].covers(p));
                    }
                }
                assert forall|k: int, l: int| 0 <= k < l < merged@.len() implies (
                #[trigger] merged@[k]).end < (#[trigger] merged@[l]).start by {
                    if l <= last {
                        assert(before[k].end < before[l].start);
                    } else if k < last {
                        assert(before[k].end < before[last as int].start);
                        assert(before[last as int].valid());
                    }
                }
            }
        } else if a.end < b.end {
            merged.set(last, Feature { start: a.start, end: b.end });
            proof {
                assert forall|j: int| 0 <= j < i + 1 implies enclosed(
                    merged@,
                    #[trigger] sorted@[j],
                ) by {
                    if j < i {
                        assert(enclosed(before, sorted@[j]));
                        let k = choose|k: int|
                            0 <= k < before.len() && #[trigger] before[k].encloses(sorted@[j]);
                        assert(merged@[k].encloses(sorted@[j]));
                    } else {
                        assert(merged@[last as int].encloses(sorted@[j]));
                    }
                }
                assert forall|k: int, p: int|
                    0 <= k < merged@.len() && #[trigger] merged@[k].bridges(p) implies bridged(
                    sorted@,
                    p,
                ) by {
                    if k < last || p < a.end {
                        assert(before[k].bridges(p));
                    } else {
                        assert(sorted@[i as int].bridges(p));
                    }
                }
                assert forall|k: int, p: int|
                    0 <= k < merged@.len() && #[trigger] merged@[k].covers(p) implies covered(
                    sorted@,
                    p,
                ) by {
                    if k < last || p <= a.end {
                        assert(before[k].covers(p));
                    } else {
                        assert(sorted@[i as int].covers(p));
                    }
                }
                assert forall|k: int, l: int| 0 <= k < l < merged@.len() implies (
                #[trigger] merged@[k]).end < (#[trigger] merged@[l]).start by {
                    assert(before[k].end < before[l].start);
                }
                assert forall|k: int| 0 <= k < merged@.len() implies (
                #[trigger] merged@[k]).valid() by {
                    if k < last {
                        assert(before[k].valid());
                    } else {
                        assert(before[last as int].valid());
                    }
                }
            }
        } else {
            proof {
                assert(merged@[last as int].encloses(sorted@[i as int]));
            }
        }
        i += 1;
    }

    proof {
        assert forall|p: int| covered(merged@, p) <==> covered(sorted@, p) by {
            if covered(sorted@, p) {
                let j = choose|j: int| 0 <= j < sorted@.len() && #[trigger] sorted@[j].covers(p);
                assert(enclosed(merged@, sorted@[j]));
                let k = choose|k: int|
                    0 <= k < merged@.len() && #[trigger] merged@[k].encloses(sorted@[j]);
                assert(merged@[k].covers(p));
            }
        }
        lemma_merge_of_rearranged(merged@, sorted@, intervals@);
        lemma_merge_keeps_positions(merged@, intervals@);
    }
    merged
}

/// What an annotation holds for one identifier: at least one interval, each
/// valid and on 1-based positions.
pub open spec fn annotated(intervals: Seq<Feature>) -> bool {
    &&& intervals.len() > 0
    &&& forall|i: int|
        0 <= i < intervals.len() ==> 1 <= (#[trigger] intervals[i]).start <= intervals[i].end
}

/// An annotation: the intervals of each feature, by the feature's
/// identifier.
pub struct Features {
    lists: StringHashMap<Vec<Feature>>,
}

impl View for Features {
    type V = Map<Seq<char>, Seq<Feature>>;

    closed spec fn view(&self) -> Map<Seq<char>, Seq<Feature>> {
        Map::new(|id: Seq<char>| self.lists@.contains_key(id), |id: Seq<char>| self.lists@[id]@)
    }
}

impl Features {
    /// Every identifier has what `annotated` asks for.
    pub open spec fn wf(&self) -> bool {
        forall|id: Seq<char>| self@.contains_key(id) ==> annotated(#[trigger] self@[id])
    }

    /// An annotation without features.
    pub fn new() -> (features: Features)
        ensures
            features.wf(),
            features@ == Map::<Seq<char>, Seq<Feature>>::empty(),
    {
        let features = Features { lists: StringHashMap::new() };
        assert(features@ =~= Map::<Seq<char>, Seq<Feature>>::empty());
        features
    }

    /// The number of features.
    pub fn len(&self) -> (n: usize)
        ensures
            n == self@.dom().len(),
    {
        assert(self@.dom() =~= self.lists@.dom());
        self.lists.len()
    }

    /// The intervals of the feature `id`, if the annotation has that feature.
    pub fn get(&self, id: &str) -> (intervals: Option<&Vec<Feature>>)
        ensures
            match intervals {
                Some(list) => self@.contains_key(id@) && list@ == self@[id@],
                None => !self@.contains_key(id@),
            },
    {
        self.lists.get(id)
    }

    /// Appends `feature` to the intervals of `id`, which becomes a feature of
    /// the annotation if it was none.
    pub fn add(&mut self, id: &str, feature: Feature)
        requires
            old(self).wf(),
            1 <= feature.start <= feature.end,
        ensures
            final(self).wf(),
            final(self)@ == old(self)@.insert(
                id@,
                if old(self)@.contains_key(id@) {
                    old(self)@[id@].push(feature)
                } else {
                    seq![feature]
                },
            ),
    {
        let ghost before = self@;
        let mut list: Vec<Feature> = match self.lists.get(id) {
            Some(known) => slice_to_vec(known.as_slice()),
            None => Vec::new(),
        };
        list.push(feature);
        self.lists.insert(id.to_owned(), list);
        proof {
            let after = before.insert(
                id@,
                if before.contains_key(id@) {
                    before[id@].push(feature)
                } else {
                    seq![feature]
                },
            );
            assert(self@ =~= after);
            assert forall|k: Seq<char>| self@.contains_key(k) implies annotated(
                #[trigger] self@[k],
            ) by {
                if k != id@ {
                    assert(annotated(before[k]));
                } else if before.contains_key(k) {
                    assert(annotated(before[k]));
                }
            }
        }
    }
}

/// Why a row of an annotation was turned down.
#[derive(Debug)]
pub enum FeaturesError {
    /// The row does not name the feature that it belongs to.
    MissingAttribute,
    /// The row's interval starts before position 1 or after its own end.
    InvalidInterval,
}

/// Takes one selected row of an annotation into `features`: the interval
/// from `start` to `end` of the feature that the row names.
///
/// A row that names no feature, or whose interval is none on 1-based
/// positions, is turned down and the annotation stays as it was.
pub fn read_feature(
    features: &mut Features,
    id: Option<&str>,
    start: u64,
    end: u64,
) -> (result: Result<(), FeaturesError>)
    requires
        old(features).wf(),
    ensures
        final(features).wf(),
        match result {
            Ok(()) => {
                &&& id matches Some(name)
                &&& 1 <= start <= end
                &&& final(features)@ == old(features)@.insert(
                    name@,
                    if old(features)@.contains_key(name@) {
                        old(features)@[name@].push(Feature { start, end })
                    } else {
                        seq![Feature { start, end }]
                    },
                )
            },
            Err(FeaturesError::MissingAttribute) => {
                &&& id.is_none()
                &&& final(features)@ == old(features)@
            },
            Err(FeaturesError::InvalidInterval) => {
                &&& id.is_some()
                &&& !(1 <= start <= end)
                &&& final(features)@ == old(features)@
            },
        },
{
    match id {
        None => Err(FeaturesError::MissingAttribute),
        Some(name) => {
            if 1 <= start && start <= end {
                features.add(name, Feature::new(start, end));
                Ok(())
            } else {
                Err(FeaturesError::InvalidInterval)
            }
        },
    }
}

} // verus!
