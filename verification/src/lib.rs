//! Gene expression normalisation: the integer side of FPKM and TPM.
//!
//! The crate joins a table of read counts against an annotation of exon
//! intervals, merges each feature's intervals into its covered length, and
//! hands out the rows ordered by feature identifier.

pub mod counts;
pub mod coverage;
pub mod features;
pub mod ident;

use crate::counts::{lists_keys, Counts};
use crate::coverage::{
    covered_length, lemma_covered_length_of_merge, lemma_one_based_fits,
    lemma_total_len_of_front, total_len,
};
use crate::features::{all_valid, merge_intervals, Feature, Features};
use crate::ident::{compare_ids, id_lt, lemma_id_order_is_strict_total};
use vstd::prelude::*;
use vstd::seq_lib::*;

verus! {

/// Why counts and annotation could not be joined.
#[derive(Debug)]
pub enum Error {
    /// A counted identifier that the annotation does not have.
    MissingFeature(String),
}

/// What the expression value of one feature is computed from: its read count
/// and the number of positions that its intervals cover.
#[derive(Debug)]
pub struct Abundance {
    pub id: String,
    pub count: u64,
    pub length: u64,
}

/// The row is the one that `counts` and `features` give for its identifier.
pub open spec fn is_row_of(
    row: Abundance,
    counts: Map<Seq<char>, u64>,
    features: Map<Seq<char>, Seq<Feature>>,
) -> bool {
    &&& counts.contains_key(row.id@)
    &&& features.contains_key(row.id@)
    &&& row.count == counts[row.id@]
    &&& row.length == covered_length(features[row.id@])
}

/// The rows come in strictly increasing order of identifier.
pub open spec fn ordered_by_id(rows: Seq<Abundance>) -> bool {
    forall|i: int, j: int|
        0 <= i < j < rows.len() ==> id_lt(#[trigger] rows[i].id@, #[trigger] rows[j].id@)
}

/// `rows` is the join of `counts` and `features`: one row for each counted
/// identifier, with its count and covered length, in increasing order of
/// identifier.
pub open spec fn is_assembly(
    rows: Seq<Abundance>,
    counts: Map<Seq<char>, u64>,
    features: Map<Seq<char>, Seq<Feature>>,
) -> bool {
    &&& ordered_by_id(rows)
    &&& forall|i: int| 0 <= i < rows.len() ==> is_row_of(#[trigger] rows[i], counts, features)
    &&& forall|id: Seq<char>|
        counts.contains_key(id) ==> exists|i: int|
            0 <= i < rows.len() && (#[trigger] rows[i]).id@ == id
}

/// `id` is the first of `ids` that `features` does not have.
pub open spec fn first_missing(
    ids: Seq<Seq<char>>,
    features: Map<Seq<char>, Seq<Feature>>,
    id: Seq<char>,
) -> bool {
    exists|i: int|
        {
            &&& 0 <= i < ids.len()
            &&& #[trigger] ids[i] == id
            &&& !features.contains_key(id)
            &&& forall|j: int| 0 <= j < i ==> features.contains_key(#[trigger] ids[j])
        }
}

/// `slice::sort_unstable_by` with `compare_ids` on the rows' identifiers,
/// which is a strict total order: the vector keeps its rows and no row ends
/// up behind one whose identifier comes after its own.
#[verifier::external_body]
fn sort_by_id(rows: &mut Vec<Abundance>)
    ensures
        final(rows)@.to_multiset() == old(rows)@.to_multiset(),
        forall|i: int, j: int|
            0 <= i < j < final(rows)@.len() ==> !id_lt(
                #[trigger] final(rows)@[j].id@,
                #[trigger] final(rows)@[i].id@,
            ),
{
    rows.sort_unstable_by(|a, b| compare_ids(&a.id, &b.id));
}

/// Rows with different identifiers, one for each counted identifier, form
/// the assembly once they are put in order.
proof fn lemma_sorted_rows_assemble(
    listed: Seq<Abundance>,
    sorted: Seq<Abundance>,
    ids: Seq<Seq<char>>,
    counts: Map<Seq<char>, u64>,
    features: Map<Seq<char>, Seq<Feature>>,
)
    requires
        lists_keys(ids, counts),
        listed.len() == ids.len(),
        forall|i: int| 0 <= i < listed.len() ==> (#[trigger] listed[i]).id@ == ids[i],
        forall|i: int| 0 <= i < listed.len() ==> is_row_of(#[trigger] listed[i], counts, features),
        sorted.to_multiset() == listed.to_multiset(),
        forall|i: int, j: int|
            0 <= i < j < sorted.len() ==> !id_lt(
                #[trigger] sorted[j].id@,
                #[trigger] sorted[i].id@,
            ),
    ensures
        is_assembly(sorted, counts, features),
        sorted.len() == ids.len(),
{
    to_multiset_len(listed);
    to_multiset_len(sorted);
    assert(listed.no_duplicates()) by {
        assert forall|i: int, j: int|
            0 <= i < listed.len() && 0 <= j < listed.len() && i != j implies listed[i]
            != listed[j] by {
            assert(listed[i].id@ == ids[i]);
            assert(listed[j].id@ == ids[j]);
            if i < j {
                assert(ids[i] != ids[j]);
            } else {
                assert(ids[j] != ids[i]);
            }
        }
    }
    listed.lemma_multiset_has_no_duplicates();
    sorted.lemma_multiset_has_no_duplicates_conv();
    assert forall|i: int| 0 <= i < sorted.len() implies is_row_of(
        #[trigger] sorted[i],
        counts,
        features,
    ) by {
        to_multiset_contains(sorted, sorted[i]);
        to_multiset_contains(listed, sorted[i]);
        assert(sorted.contains(sorted[i]));
        let a = choose|a: int| 0 <= a < listed.len() && listed[a] == sorted[i];
        assert(is_row_of(listed[a], counts, features));
    }
    assert forall|i: int, j: int| 0 <= i < j < sorted.len() implies id_lt(
        #[trigger] sorted[i].id@,
        #[trigger] sorted[j].id@,
    ) by {
        to_multiset_contains(sorted, sorted[i]);
        to_multiset_contains(listed, sorted[i]);
        to_multiset_contains(sorted, sorted[j]);
        to_multiset_contains(listed, sorted[j]);
        assert(sorted.contains(sorted[i]));
        assert(sorted.contains(sorted[j]));
        let a = choose|a: int| 0 <= a < listed.len() && listed[a] == sorted[i];
        let b = choose|b: int| 0 <= b < listed.len() && listed[b] == sorted[j];
        assert(sorted[i] != sorted[j]);
        assert(listed[a].id@ == ids[a]);
        assert(listed[b].id@ == ids[b]);
        if a < b {
            assert(ids[a] != ids[b]);
        } else {
            assert(ids[b] != ids[a]);
        }
        lemma_id_order_is_strict_total(sorted[i].id@, sorted[j].id@);
    }
    assert forall|id: Seq<char>| counts.contains_key(id) implies exists|i: int|
        0 <= i < sorted.len() && (#[trigger] sorted[i]).id@ == id by {
        let a = choose|a: int| 0 <= a < ids.len() && ids[a] == id;
        assert(listed[a].id@ == id);
        to_multiset_contains(sorted, listed[a]);
        to_multiset_contains(listed, listed[a]);
        assert(listed.contains(listed[a]));
        let i = choose|i: int| 0 <= i < sorted.len() && sorted[i] == listed[a];
        assert(sorted[i].id@ == id);
    }
}

/// Two assemblies of the same counts and annotation agree on their first
/// `n` rows.
proof fn lemma_assemblies_agree_upto(
    a: Seq<Abundance>,
    b: Seq<Abundance>,
    counts: Map<Seq<char>, u64>,
    features: Map<Seq<char>, Seq<Feature>>,
    n: int,
)
    requires
        is_assembly(a, counts, features),
        is_assembly(b, counts, features),
        0 <= n <= a.len(),
    ensures
        n <= b.len(),
        forall|i: int| 0 <= i < n ==> (#[trigger] a[i]).id@ == b[i].id@,
    decreases n,
{
    if n > 0 {
        lemma_assemblies_agree_upto(a, b, counts, features, n - 1);
        let i = n - 1;
        assert(is_row_of(a[i], counts, features));
        let j = choose|j: int| 0 <= j < b.len() && (#[trigger] b[j]).id@ == a[i].id@;
        if j < i {
            assert(a[j].id@ == b[j].id@);
            assert(id_lt(a[j].id@, a[i].id@));
            lemma_id_order_is_strict_total(a[j].id@, a[i].id@);
        }
        assert(is_row_of(b[i], counts, features));
        let k = choose|k: int| 0 <= k < a.len() && (#[trigger] a[k]).id@ == b[i].id@;
        if k < i {
            assert(a[k].id@ == b[k].id@);
            assert(id_lt(b[k].id@, b[i].id@));
            lemma_id_order_is_strict_total(b[k].id@, b[i].id@);
        }
        if j > i {
            assert(id_lt(b[i].id@, b[j].id@));
            lemma_id_order_is_strict_total(b[i].id@, b[j].id@);
            if k > i {
                assert(id_lt(a[i].id@, a[k].id@));
                lemma_id_order_is_strict_total(a[i].id@, a[k].id@);
            }
        }
    }
}

/// Counts and an annotation have one assembly: `is_assembly` fixes the
/// number of rows and, row by row, the identifier, the count and the length.
pub proof fn lemma_assembly_is_unique(
    a: Seq<Abundance>,
    b: Seq<Abundance>,
    counts: Map<Seq<char>, u64>,
    features: Map<Seq<char>, Seq<Feature>>,
)
    requires
        is_assembly(a, counts, features),
        is_assembly(b, counts, features),
    ensures
        a.len() == b.len(),
        forall|i: int|
            0 <= i < a.len() ==> {
                &&& (#[trigger] a[i]).id@ == b[i].id@
                &&& a[i].count == b[i].count
                &&& a[i].length == b[i].length
            },
{
    lemma_assemblies_agree_upto(a, b, counts, features, a.len() as int);
    lemma_assemblies_agree_upto(b, a, counts, features, b.len() as int);
    assert forall|i: int| 0 <= i < a.len() implies {
        &&& (#[trigger] a[i]).id@ == b[i].id@
        &&& a[i].count == b[i].count
        &&& a[i].length == b[i].length
    } by {
        assert(is_row_of(a[i], counts, features));
        assert(is_row_of(b[i], counts, features));
    }
}

/// Joins the counts against the annotation.
///
/// Each counted identifier gets one row, with its count and the number of
/// positions that its feature's intervals cover; the rows come out in
/// increasing order of identifier. Where a counted identifier has no
/// feature, nothing is put together and the first such identifier, in the
/// order in which the counts were added, is reported.
pub fn assemble(counts: &Counts, features: &Features) -> (result: Result<Vec<Abundance>, Error>)
    requires
        counts.wf(),
        features.wf(),
    ensures
        match result {
            Ok(rows) => {
                &&& counts@.dom().subset_of(features@.dom())
                &&& is_assembly(rows@, counts@, features@)
                &&& ordered_by_id(rows@)
                &&& rows@.len() == counts@.dom().len()
            },
            Err(Error::MissingFeature(id)) => first_missing(counts.ids(), features@, id@),
        },
{
    proof {
        counts.lemma_wf();
    }
    let mut rows: Vec<Abundance> = Vec::with_capacity(counts.len());
    let mut i: usize = 0;
    while i < counts.len()
        invariant
            0 <= i <= counts.ids().len(),
            rows@.len() == i,
            lists_keys(counts.ids(), counts@),
            features.wf(),
            forall|j: int| 0 <= j < i ==> features@.contains_key(#[trigger] counts.ids()[j]),
            forall|j: int| 0 <= j < i ==> (#[trigger] rows@[j]).id@ == counts.ids()[j],
            forall|j: int| 0 <= j < i ==> is_row_of(#[trigger] rows@[j], counts@, features@),
        decreases counts.ids().len() - i,
    {
        let id = counts.id(i);
        assert(counts@.contains_key(counts.ids()[i as int]));
        let count = counts.get(id).unwrap();
        match features.get(id) {
            None => {
                return Err(Error::MissingFeature(id.to_owned()));
            },
            Some(list) => {
                proof {
                    lemma_one_based_fits(list@);
                }
                let length = sum_nonoverlapping_interval_lengths(list.as_slice());
                rows.push(Abundance { id: id.to_owned(), count, length });
            },
        }
        i += 1;
    }
    let ghost listed = rows@;
    sort_by_id(&mut rows);
    proof {
        lemma_sorted_rows_assemble(listed, rows@, counts.ids(), counts@, features@);
        assert forall|id: Seq<char>| counts@.dom().contains(id) implies features@.dom().contains(
            id,
        ) by {
            let a = choose|a: int| 0 <= a < counts.ids().len() && counts.ids()[a] == id;
            assert(features@.contains_key(counts.ids()[a]));
        }
    }
    Ok(rows)
}

/// The number of positions that `intervals` cover between them: the summed
/// lengths of their merged form.
pub fn sum_nonoverlapping_interval_lengths(intervals: &[Feature]) -> (len: u64)
    requires
        intervals@.len() > 0,
        all_valid(intervals@),
        covered_length(intervals@) <= u64::MAX,
    ensures
        len == covered_length(intervals@),
{
    let merged = merge_intervals(intervals);
    proof {
        lemma_covered_length_of_merge(merged@, intervals@);
    }
    let mut len: u64 = 0;
    let mut i: usize = 0;
    while i < merged.len()
        invariant
            0 <= i <= merged@.len(),
            all_valid(merged@),
            total_len(merged@) <= u64::MAX,
            len == total_len(merged@.take(i as int)),
        decreases merged@.len() - i,
    {
        proof {
            lemma_total_len_of_front(merged@, i + 1);
            assert(merged@.take(i + 1).drop_last() =~= merged@.take(i as int));
            assert(merged@[i as int].valid());
        }
        len = len + merged[i].len();
        i += 1;
    }
    proof {
        assert(merged@.take(i as int) =~= merged@);
    }
    len
}

} // verus!
