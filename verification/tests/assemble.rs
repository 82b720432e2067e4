use std::cmp::Ordering;

use noodles_fpkm::counts::{insert_count, sum_counts, Counts};
use noodles_fpkm::features::{Feature, Features};
use noodles_fpkm::ident::{common_prefix_len, compare_ids};
use noodles_fpkm::{assemble, Abundance, Error};

fn build_counts() -> Counts {
    let mut counts = Counts::new();
    insert_count(&mut counts, "RPL37AP1", 5714).unwrap();
    insert_count(&mut counts, "AAAS", 645).unwrap();
    insert_count(&mut counts, "AC009952.3", 1).unwrap();
    counts
}

fn build_features() -> Features {
    let mut features = Features::new();
    features.add("AAAS", Feature::new(53307456, 53324864));
    features.add("AC009952.3", Feature::new(9189629, 9204611));
    features.add("RPL37AP1", Feature::new(44466564, 44466842));
    features
}

fn fpkm(row: &Abundance, counts_sum: u64) -> f64 {
    (row.count as f64 * 1e9) / (row.length as f64 * counts_sum as f64)
}

#[test]
fn test_assemble() {
    let counts = build_counts();
    let features = build_features();

    let rows = assemble(&counts, &features).unwrap();

    assert_eq!(rows.len(), 3);

    assert_eq!(rows[0].id, "AAAS");
    assert_eq!(rows[0].count, 645);
    assert_eq!(rows[0].length, 17409);

    assert_eq!(rows[1].id, "AC009952.3");
    assert_eq!(rows[1].count, 1);
    assert_eq!(rows[1].length, 14983);

    assert_eq!(rows[2].id, "RPL37AP1");
    assert_eq!(rows[2].count, 5714);
    assert_eq!(rows[2].length, 279);
}

#[test]
fn test_calculate_fpkms() {
    let counts = build_counts();
    let features = build_features();

    let counts_sum = sum_counts(&counts);
    assert_eq!(counts_sum, 6360);

    let rows = assemble(&counts, &features).unwrap();

    assert_eq!(rows.len(), 3);

    let a = fpkm(&rows[0], counts_sum);
    let b = 5825.440538780093;
    assert!((a - b).abs() < f64::EPSILON);

    let a = fpkm(&rows[1], counts_sum);
    let b = 10.494073576888189;
    assert!((a - b).abs() < f64::EPSILON);

    let a = fpkm(&rows[2], counts_sum);
    let b = 3220170.8708099457;
    assert!((a - b).abs() < f64::EPSILON);
}

#[test]
fn test_calculate_tpms() {
    let counts = build_counts();
    let features = build_features();

    let rows = assemble(&counts, &features).unwrap();

    let cpbs: Vec<f64> = rows
        .iter()
        .map(|row| row.count as f64 / row.length as f64)
        .collect();
    let cpbs_sum: f64 = cpbs.iter().sum();
    let tpms: Vec<f64> = cpbs.iter().map(|cpb| cpb * 1e6 / cpbs_sum).collect();

    assert_eq!(tpms.len(), 3);
    assert!((tpms[0] - 1805.7744109493626).abs() < 1e-9);
    assert!((tpms[1] - 3.252960768479983).abs() < 1e-9);
    assert!((tpms[2] - 998190.972628282).abs() < 1e-9);
    assert!((tpms.iter().sum::<f64>() - 1e6).abs() < 1e-6);
}

#[test]
fn test_calculate_fpkms_is_ordered_by_feature_id() {
    let counts = build_counts();
    let features = build_features();

    let rows = assemble(&counts, &features).unwrap();
    let mut ids = rows.iter().map(|row| row.id.as_str());

    assert_eq!(ids.next().unwrap(), "AAAS");
    assert_eq!(ids.next().unwrap(), "AC009952.3");
    assert_eq!(ids.next().unwrap(), "RPL37AP1");
    assert!(ids.next().is_none());
}

#[test]
fn test_calculate_fpkms_with_missing_feature() {
    let counts = build_counts();

    let mut features = Features::new();
    features.add("AAAS", Feature::new(53307456, 53324864));
    features.add("RPL37AP1", Feature::new(44466564, 44466842));

    assert!(assemble(&counts, &features).is_err());
}

#[test]
fn test_assemble_reports_the_first_missing_feature() {
    let mut counts = Counts::new();
    insert_count(&mut counts, "RPL37AP1", 5714).unwrap();
    insert_count(&mut counts, "ZNF700", 3).unwrap();
    insert_count(&mut counts, "AC009952.3", 1).unwrap();

    let mut features = Features::new();
    features.add("RPL37AP1", Feature::new(44466564, 44466842));

    match assemble(&counts, &features) {
        Err(Error::MissingFeature(id)) => assert_eq!(id, "ZNF700"),
        Ok(_) => panic!("rows were put together without ZNF700"),
    }
}

#[test]
fn test_assemble_leaves_out_features_without_counts() {
    let mut counts = Counts::new();
    insert_count(&mut counts, "AC009952.3", 0).unwrap();

    let features = build_features();

    let rows = assemble(&counts, &features).unwrap();

    assert_eq!(rows.len(), 1);
    assert_eq!(rows[0].id, "AC009952.3");
    assert_eq!(rows[0].count, 0);
    assert_eq!(rows[0].length, 14983);
    assert_eq!(fpkm(&rows[0], 6360), 0.0);
}

#[test]
fn test_assemble_with_no_counts() {
    let counts = Counts::new();
    let features = build_features();

    assert!(assemble(&counts, &features).unwrap().is_empty());
}

#[test]
fn test_assemble_merges_the_intervals_of_a_feature() {
    let mut counts = Counts::new();
    insert_count(&mut counts, "DDX11L1", 10).unwrap();

    let mut features = Features::new();
    features.add("DDX11L1", Feature::new(9, 12));
    features.add("DDX11L1", Feature::new(2, 5));
    features.add("DDX11L1", Feature::new(16, 21));
    features.add("DDX11L1", Feature::new(3, 4));
    features.add("DDX11L1", Feature::new(10, 15));
    features.add("DDX11L1", Feature::new(5, 7));

    let rows = assemble(&counts, &features).unwrap();

    assert_eq!(rows.len(), 1);
    assert_eq!(rows[0].length, 19);
}

#[test]
fn test_assemble_orders_identifiers_by_their_bytes() {
    let names = ["b", "a", "B", "ab", "", "a.1", "Z", "\u{e9}", "a\u{e9}", "aa", "_x", "10", "9"];

    let mut counts = Counts::new();
    let mut features = Features::new();
    for (i, name) in names.iter().enumerate() {
        insert_count(&mut counts, name, i as u64).unwrap();
        features.add(name, Feature::new(1, 1 + i as u64));
    }

    let rows = assemble(&counts, &features).unwrap();
    let ids: Vec<&str> = rows.iter().map(|row| row.id.as_str()).collect();

    assert_eq!(
        ids,
        ["", "10", "9", "B", "Z", "_x", "a", "a.1", "aa", "ab", "a\u{e9}", "b", "\u{e9}"]
    );
    for pair in rows.windows(2) {
        assert!(pair[0].id < pair[1].id);
    }
    for row in &rows {
        assert_eq!(names[row.count as usize], row.id);
        assert_eq!(row.length, 1 + row.count);
    }
}

#[test]
fn test_compare_ids() {
    assert_eq!(compare_ids("AAAS", "AAAS"), Ordering::Equal);
    assert_eq!(compare_ids("", ""), Ordering::Equal);
    assert_eq!(compare_ids("AAAS", "AC009952.3"), Ordering::Less);
    assert_eq!(compare_ids("RPL37AP1", "AC009952.3"), Ordering::Greater);
    assert_eq!(compare_ids("AAA", "AAAS"), Ordering::Less);
    assert_eq!(compare_ids("AAAS", "AAA"), Ordering::Greater);
    assert_eq!(compare_ids("", "A"), Ordering::Less);
    assert_eq!(compare_ids("Z", "a"), Ordering::Less);
    assert_eq!(compare_ids("z", "\u{e9}"), Ordering::Less);
}

#[test]
fn test_compare_ids_agrees_with_the_order_of_strings() {
    let names = ["", "A", "AA", "AB", "B", "a", "a.1", "aa", "\u{e9}", "\u{1f9ec}", "z"];

    for a in names {
        for b in names {
            assert_eq!(compare_ids(a, b), a.cmp(b));
        }
    }
}

#[test]
fn test_common_prefix_len() {
    assert_eq!(common_prefix_len(b"", b""), 0);
    assert_eq!(common_prefix_len(b"AAAS", b""), 0);
    assert_eq!(common_prefix_len(b"AAAS", b"AAAS"), 4);
    assert_eq!(common_prefix_len(b"AAAS", b"AAB"), 2);
    assert_eq!(common_prefix_len(b"AA", b"AAB"), 2);
    assert_eq!(common_prefix_len(b"B", b"AAB"), 0);
}
