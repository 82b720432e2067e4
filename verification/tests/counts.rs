use csv::StringRecord;
use noodles_fpkm::counts::{
    checked_sum_counts, insert_count, is_summary_name, parse_count, parse_decimal, parse_name,
    read_record, sum_counts, Counts, CountsError,
};

fn read_counts(data: &[u8]) -> Result<Counts, CountsError> {
    let mut rdr = csv::ReaderBuilder::new()
        .has_headers(false)
        .delimiter(b'\t')
        .from_reader(data);

    let mut counts = Counts::new();

    for result in rdr.records() {
        let record = result.unwrap();

        if !read_record(&mut counts, &record)? {
            break;
        }
    }

    Ok(counts)
}

#[test]
fn test_read_counts() {
    let data = "\
AAAS\t645
AC009952.3\t1
RPL37AP1\t5714
__no_feature\t136550
";

    let counts = read_counts(data.as_bytes()).unwrap();

    assert_eq!(counts.len(), 3);
    assert_eq!(counts.get("AAAS"), Some(645));
    assert_eq!(counts.get("AC009952.3"), Some(1));
    assert_eq!(counts.get("RPL37AP1"), Some(5714));
    assert_eq!(counts.get("__no_feature"), None);
}

#[test]
fn test_read_counts_with_duplicate_identifiers() {
    let data = "\
AAAS\t645
AC009952.3\t1
AC009952.3\t0
RPL37AP1\t5714
__no_feature\t136550
";

    assert!(read_counts(data.as_bytes()).is_err());
}

#[test]
fn test_read_counts_stops_at_the_first_summary_row() {
    let data = "\
AAAS\t645
__no_feature\t136550
AAAS\t1
RPL37AP1\tx
";

    let counts = read_counts(data.as_bytes()).unwrap();

    assert_eq!(counts.len(), 1);
    assert_eq!(counts.get("AAAS"), Some(645));
}

#[test]
fn test_parse_name() {
    let record = StringRecord::from(vec!["AAAS", "645"]);
    assert_eq!(parse_name(&record).unwrap(), "AAAS");
}

#[test]
fn test_parse_name_with_no_fields() {
    let record = StringRecord::new();
    assert!(matches!(parse_name(&record), Err(CountsError::InvalidName)));
}

#[test]
fn test_parse_count() {
    let record = StringRecord::from(vec!["AAAS", "645"]);
    assert_eq!(parse_count(&record).unwrap(), 645);

    let record = StringRecord::from(vec!["AAAS", ""]);
    assert!(parse_count(&record).is_err());

    let record = StringRecord::from(vec!["AAAS", "x"]);
    assert!(parse_count(&record).is_err());
}

#[test]
fn test_parse_count_reads_decimal_digits() {
    let record = StringRecord::from(vec!["AAAS", "0"]);
    assert_eq!(parse_count(&record).unwrap(), 0);

    let record = StringRecord::from(vec!["AAAS", "007"]);
    assert_eq!(parse_count(&record).unwrap(), 7);

    let record = StringRecord::from(vec!["AAAS", "+12"]);
    assert_eq!(parse_count(&record).unwrap(), 12);

    let record = StringRecord::from(vec!["AAAS", "18446744073709551615"]);
    assert_eq!(parse_count(&record).unwrap(), u64::MAX);
}

#[test]
fn test_parse_count_turns_down_what_is_no_count() {
    for cell in ["18446744073709551616", "-1", "+", "1_000", " 1", "1 ", "1.0", "0x10", "++1"] {
        let record = StringRecord::from(vec!["AAAS", cell]);
        assert!(matches!(parse_count(&record), Err(CountsError::InvalidCount)));
    }
}

#[test]
fn test_parse_count_with_missing_field() {
    let record = StringRecord::from(vec!["AAAS"]);
    assert!(matches!(parse_count(&record), Err(CountsError::InvalidCount)));
}

#[test]
fn test_insert_count() {
    let mut counts = Counts::new();

    assert!(insert_count(&mut counts, "AAAS", 645).is_ok());
    assert_eq!(counts.get("AAAS"), Some(645));

    assert!(insert_count(&mut counts, "AAAS", 0).is_err());
}

#[test]
fn test_insert_count_keeps_the_first_count_of_a_duplicate() {
    let mut counts = Counts::new();

    insert_count(&mut counts, "AAAS", 645).unwrap();
    insert_count(&mut counts, "RPL37AP1", 5714).unwrap();

    match insert_count(&mut counts, "AAAS", 0) {
        Err(CountsError::DuplicateIdentifier(id)) => assert_eq!(id, "AAAS"),
        _ => panic!("the second count of AAAS was taken"),
    }

    assert_eq!(counts.len(), 2);
    assert_eq!(counts.id(0), "AAAS");
    assert_eq!(counts.id(1), "RPL37AP1");
    assert_eq!(counts.get("AAAS"), Some(645));
}

#[test]
fn test_is_summary_name() {
    assert!(is_summary_name("__no_feature"));
    assert!(is_summary_name("__"));
    assert!(!is_summary_name("_"));
    assert!(!is_summary_name(""));
    assert!(!is_summary_name("_A_"));
    assert!(!is_summary_name("AAAS"));
    assert!(!is_summary_name("A__"));
}

#[test]
fn test_read_record() {
    let mut counts = Counts::new();

    let record = StringRecord::from(vec!["AAAS", "645"]);
    assert!(matches!(read_record(&mut counts, &record), Ok(true)));
    assert_eq!(counts.get("AAAS"), Some(645));

    let record = StringRecord::from(vec!["__no_feature", "136550"]);
    assert!(matches!(read_record(&mut counts, &record), Ok(false)));
    assert_eq!(counts.len(), 1);

    let record = StringRecord::from(vec!["__ambiguous"]);
    assert!(matches!(read_record(&mut counts, &record), Ok(false)));

    let record = StringRecord::new();
    assert!(matches!(
        read_record(&mut counts, &record),
        Err(CountsError::InvalidName)
    ));

    let record = StringRecord::from(vec!["RPL37AP1", "many"]);
    assert!(matches!(
        read_record(&mut counts, &record),
        Err(CountsError::InvalidCount)
    ));

    let record = StringRecord::from(vec!["AAAS", "1"]);
    assert!(matches!(
        read_record(&mut counts, &record),
        Err(CountsError::DuplicateIdentifier(_))
    ));

    assert_eq!(counts.len(), 1);
    assert_eq!(counts.get("AAAS"), Some(645));
}

#[test]
fn test_sum_counts() {
    let mut counts = Counts::new();
    insert_count(&mut counts, "AAAS", 645).unwrap();
    insert_count(&mut counts, "AC009952.3", 1).unwrap();
    insert_count(&mut counts, "RPL37AP1", 5714).unwrap();

    assert_eq!(sum_counts(&counts), 6360);
}

#[test]
fn test_sum_counts_of_empty_table() {
    let counts = Counts::new();
    assert_eq!(sum_counts(&counts), 0);
    assert_eq!(checked_sum_counts(&counts), Some(0));
}

#[test]
fn test_checked_sum_counts() {
    let mut counts = Counts::new();
    insert_count(&mut counts, "AAAS", u64::MAX - 1).unwrap();
    insert_count(&mut counts, "AC009952.3", 1).unwrap();
    assert_eq!(checked_sum_counts(&counts), Some(u64::MAX));

    insert_count(&mut counts, "RPL37AP1", 1).unwrap();
    assert_eq!(checked_sum_counts(&counts), None);
}

#[test]
fn test_parse_decimal() {
    assert_eq!(parse_decimal("0"), Some(0));
    assert_eq!(parse_decimal("645"), Some(645));
    assert_eq!(parse_decimal("+645"), Some(645));
    assert_eq!(parse_decimal("0000000000000000000000645"), Some(645));
    assert_eq!(parse_decimal("18446744073709551615"), Some(u64::MAX));
    assert_eq!(parse_decimal("18446744073709551616"), None);
    assert_eq!(parse_decimal("99999999999999999999"), None);
    assert_eq!(parse_decimal("184467440737095516150"), None);
    assert_eq!(parse_decimal(""), None);
    assert_eq!(parse_decimal("+"), None);
    assert_eq!(parse_decimal("-645"), None);
    assert_eq!(parse_decimal("6 45"), None);
    assert_eq!(parse_decimal("645\n"), None);
    assert_eq!(parse_decimal("\u{663}"), None);
    assert_eq!(parse_decimal("+\u{e9}1"), None);
}

#[test]
fn test_parse_decimal_reads_what_str_parse_reads() {
    let cells = [
        "", "0", "1", "+1", "-1", "+0", "-0", "+", "-", "++1", "+-1", "1+", "12a", "a12", " 12",
        "12 ", "1_2", "1e3", "1.5", "0x1f", "00", "0009", "645", "5714", "136550",
        "18446744073709551614", "18446744073709551615", "18446744073709551616",
        "18446744073709551625", "28446744073709551615", "+18446744073709551615",
        "+18446744073709551616", "000018446744073709551615", "100000000000000000000",
        "\u{661}\u{662}", "1\u{e9}", "\u{ff11}", "\t1", "1\t",
    ];

    for cell in cells {
        assert_eq!(parse_decimal(cell), cell.parse::<u64>().ok());
    }
}
