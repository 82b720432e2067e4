//! The covered length of a list of intervals: how many positions they cover
//! between them.

use crate::features::{all_valid, covered, is_merge_of, positions, Feature};
use vstd::prelude::*;
use vstd::set_lib::*;

verus! {

/// The number of positions that the intervals of `s` cover.
pub open spec fn covered_length(s: Seq<Feature>) -> nat {
    positions(s).len()
}

/// The lengths of the intervals of `s`, added up.
pub open spec fn total_len(s: Seq<Feature>) -> nat
    decreases s.len(),
{
    if s.len() == 0 {
        0
    } else {
        total_len(s.drop_last()) + s.last().spec_len()
    }
}

/// No two intervals of `s` share a position.
pub open spec fn pairwise_disjoint(s: Seq<Feature>) -> bool {
    forall|i: int, j: int|
        0 <= i < j < s.len() ==> (#[trigger] s[i]).end < (#[trigger] s[j]).start || s[j].end
            < s[i].start
}

/// The positions of a list are those of its front together with those of
/// its last interval.
proof fn lemma_positions_of_last(s: Seq<Feature>)
    requires
        s.len() > 0,
    ensures
        positions(s) == positions(s.drop_last()) + set_int_range(
            s.last().start as int,
            s.last().end + 1,
        ),
{
    let front = s.drop_last();
    let tail = set_int_range(s.last().start as int, s.last().end + 1);
    assert forall|p: int| positions(s).contains(p) <==> (positions(front) + tail).contains(p) by {
        if covered(s, p) {
            let i = choose|i: int| 0 <= i < s.len() && #[trigger] s[i].covers(p);
            if i < s.len() - 1 {
                assert(front[i].covers(p));
            }
        }
        if covered(front, p) {
            let i = choose|i: int| 0 <= i < front.len() && #[trigger] front[i].covers(p);
            assert(s[i].covers(p));
        }
        if tail.contains(p) {
            assert(s[s.len() - 1].covers(p));
        }
    }
    assert(positions(s) =~= positions(front) + tail);
}

/// Any list of intervals covers finitely many positions.
pub proof fn lemma_positions_finite(s: Seq<Feature>)
    ensures
        positions(s).finite(),
    decreases s.len(),
{
    if s.len() == 0 {
        assert(positions(s) =~= Set::<int>::empty());
    } else {
        lemma_positions_finite(s.drop_last());
        lemma_positions_of_last(s);
        let lo = s.last().start as int;
        let hi = s.last().end + 1;
        if lo <= hi {
            lemma_int_range(lo, hi);
        } else {
            assert(set_int_range(lo, hi) =~= Set::<int>::empty());
        }
    }
}

/// Where no two intervals share a position, the covered length is the sum
/// of the lengths.
pub proof fn lemma_disjoint_covered_length(s: Seq<Feature>)
    requires
        all_valid(s),
        pairwise_disjoint(s),
    ensures
        covered_length(s) == total_len(s),
    decreases s.len(),
{
    if s.len() == 0 {
        assert(positions(s) =~= Set::<int>::empty());
    } else {
        let front = s.drop_last();
        let last = s.last();
        let tail = set_int_range(last.start as int, last.end + 1);
        assert(all_valid(front)) by {
            assert forall|i: int| 0 <= i < front.len() implies (#[trigger] front[i]).valid() by {
                assert(s[i].valid());
            }
        }
        assert(pairwise_disjoint(front)) by {
            assert forall|i: int, j: int| 0 <= i < j < front.len() implies (
            #[trigger] front[i]).end < (#[trigger] front[j]).start || front[j].end
                < front[i].start by {
                assert(s[i].end < s[j].start || s[j].end < s[i].start);
            }
        }
        lemma_disjoint_covered_length(front);
        lemma_positions_finite(front);
        lemma_positions_of_last(s);
        assert(last.valid());
        lemma_int_range(last.start as int, last.end + 1);
        assert(positions(front).disjoint(tail)) by {
            assert forall|p: int| !(positions(front).contains(p) && tail.contains(p)) by {
                if covered(front, p) && tail.contains(p) {
                    let i = choose|i: int| 0 <= i < front.len() && #[trigger] front[i].covers(p);
                    assert(s[i].end < s[s.len() - 1].start || s[s.len() - 1].end < s[i].start);
                }
            }
        }
        lemma_set_disjoint_lens(positions(front), tail);
    }
}

/// Intervals on 1-based positions cover no more positions than a `u64`
/// counts.
pub proof fn lemma_one_based_fits(s: Seq<Feature>)
    requires
        forall|i: int| 0 <= i < s.len() ==> 1 <= (#[trigger] s[i]).start,
    ensures
        covered_length(s) <= u64::MAX,
{
    let all = set_int_range(1, u64::MAX + 1);
    lemma_int_range(1, u64::MAX + 1);
    assert(positions(s).subset_of(all)) by {
        assert forall|p: int| positions(s).contains(p) implies all.contains(p) by {
            let i = choose|i: int| 0 <= i < s.len() && #[trigger] s[i].covers(p);
        }
    }
    lemma_len_subset(positions(s), all);
}

/// The covered length of a list is the summed lengths of its merged form.
pub proof fn lemma_covered_length_of_merge(m: Seq<Feature>, x: Seq<Feature>)
    requires
        is_merge_of(m, x),
    ensures
        covered_length(x) == total_len(m),
{
    assert(positions(m) =~= positions(x));
    lemma_disjoint_covered_length(m);
}

/// A front part of a list is no longer in total than the list.
pub proof fn lemma_total_len_of_front(s: Seq<Feature>, n: int)
    requires
        0 <= n <= s.len(),
    ensures
        total_len(s.take(n)) <= total_len(s),
    decreases s.len() - n,
{
    if n < s.len() {
        lemma_total_len_of_front(s, n + 1);
        assert(s.take(n + 1).drop_last() =~= s.take(n));
    } else {
        assert(s.take(n) =~= s);
    }
}

} // verus!
