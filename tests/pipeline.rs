use domtbl2unaln::alignment::calculate_aln_length;
use domtbl2unaln::cutoffs::{parse_cutoffs, CutoffError, CutoffTable};
use domtbl2unaln::decimal::{compare, compare_fraction, parse_decimal, Decimal};
use domtbl2unaln::hits::{Hit, Hits, HitsError};
use domtbl2unaln::text::{extension, split_at_char, split_words};
use domtbl2unaln::{
    dedup_hits, file_list, filter_by_score, has_enough_occupants, has_occupancy, parse_and_filter,
    OccupancyBoundary,
};
use multimap::MultiMap;
use std::cmp::Ordering;

fn row(target: &str, query: &str, evalue: &str, score: &str) -> String {
    row_aln(target, query, evalue, score, "17", "18")
}

fn row_aln(target: &str, query: &str, evalue: &str, score: &str, from: &str, to: &str) -> String {
    let mut f: Vec<String> = vec![
        target.to_string(),
        "-".to_string(),
        "300".to_string(),
        query.to_string(),
        "-".to_string(),
        "250".to_string(),
        evalue.to_string(),
        score.to_string(),
    ];
    for i in 8..22 {
        f.push(match i {
            17 => from.to_string(),
            18 => to.to_string(),
            _ => format!("{}", i),
        });
    }
    f.push("some description".to_string());
    f.join("   ")
}

fn fields(line: &str) -> Vec<String> {
    line.split_ascii_whitespace().map(|s| s.to_string()).collect()
}

fn hit(target: &str, query: &str, evalue: &str, score: &str) -> Hit {
    match Hit::new(fields(&row(target, query, evalue, score))) {
        Ok(h) => h,
        Err(_) => panic!("row should parse"),
    }
}

fn dec(s: &str) -> Decimal {
    parse_decimal(s).expect("a number")
}

fn table(text: &str) -> CutoffTable {
    match parse_cutoffs(text) {
        Ok(t) => t,
        Err(_) => panic!("table should parse"),
    }
}

fn index(lines: &[String], filter: bool, cutoffs: &CutoffTable) -> Hits {
    match parse_and_filter("taxon.domtbl".to_string(), &lines.to_vec(), filter, cutoffs) {
        Ok((h, _)) => h,
        Err(_) => panic!("table should be indexed"),
    }
}

fn targets(h: &Hits, marker: &str) -> Vec<String> {
    h.hits_for(marker).map(|v| v.iter().map(|x| x.target.clone()).collect()).unwrap_or_default()
}

#[test]
fn decimal_reads_plain_and_scientific() {
    let d = dec("1e-5");
    assert!(!d.negative && d.mantissa == 1 && d.exponent == -5);
    let d = dec("10.0");
    assert!(!d.negative && d.mantissa == 100 && d.exponent == -1);
    let d = dec("-2.5E3");
    assert!(d.negative && d.mantissa == 25 && d.exponent == 2);
    let d = dec("+.5");
    assert!(!d.negative && d.mantissa == 5 && d.exponent == -1);
    let d = dec("7.");
    assert!(d.mantissa == 7 && d.exponent == 0);
}

#[test]
fn decimal_rejects_non_numbers() {
    for s in ["", ".", "-", "abc", "1e", "1e+", "1.2.3", "12x", "e5", "1 2", "99999999999999999999"] {
        assert!(parse_decimal(s).is_none(), "{}", s);
    }
}

#[test]
fn decimal_compares_by_value() {
    assert_eq!(compare(&dec("0.001"), &dec("1e-3")), Ordering::Equal);
    assert_eq!(compare(&dec("10.0"), &dec("20")), Ordering::Less);
    assert_eq!(compare(&dec("-0"), &dec("0.0")), Ordering::Equal);
    assert_eq!(compare(&dec("-1"), &dec("-2")), Ordering::Greater);
    assert_eq!(compare(&dec("1e-300"), &dec("1e-310")), Ordering::Greater);
    assert_eq!(compare(&dec("1e30"), &dec("5")), Ordering::Greater);
}

#[test]
fn hit_reads_designated_columns() {
    let h = hit("protA", "M1", "1.5e-20", "87.3");
    assert_eq!(h.target, "protA");
    assert_eq!(h.query, "M1");
    assert_eq!(compare(&h.fs_evalue, &dec("1.5e-20")), Ordering::Equal);
    assert_eq!(compare(&h.fs_score, &dec("87.3")), Ordering::Equal);
    assert_eq!(h.inner.len(), 24);
}

#[test]
fn hit_rejects_short_or_non_numeric_rows() {
    let short: Vec<String> = vec!["a".to_string(), "b".to_string()];
    assert!(matches!(Hit::new(short), Err(HitsError::MalformedRecord)));
    let bad = fields(&row("a", "M1", "1e-5", "high"));
    assert!(matches!(Hit::new(bad), Err(HitsError::MalformedRecord)));
}

#[test]
fn words_split_on_ascii_whitespace() {
    let w = split_words("  a\tbb  c\r\n");
    assert_eq!(w, vec!["a".to_string(), "bb".to_string(), "c".to_string()]);
    assert!(split_words("   ").is_empty());
}

#[test]
fn split_keeps_empty_pieces() {
    let p = split_at_char("a\tb\t\tc", '\t');
    assert_eq!(p, vec!["a", "b", "", "c"]);
    assert_eq!(split_at_char("", '\n'), vec![""]);
}

#[test]
fn cutoffs_skip_blank_lines_and_later_lines_win() {
    let t = table("M1\t15.0\n\nM2\t3\nM1\t20\n");
    assert_eq!(t.entries.len(), 3);
    assert_eq!(compare(&t.get(&"M1".to_string()).unwrap(), &dec("20")), Ordering::Equal);
    assert_eq!(compare(&t.get(&"M2".to_string()).unwrap(), &dec("3")), Ordering::Equal);
    assert!(t.get(&"M3".to_string()).is_none());
}

#[test]
fn cutoffs_reject_malformed_lines() {
    assert!(matches!(parse_cutoffs("M1 15.0\n"), Err(CutoffError::MalformedLine)));
    assert!(matches!(parse_cutoffs("M1\tlots\n"), Err(CutoffError::MalformedLine)));
}

#[test]
fn filter_example_keeps_only_reaching_hit() {
    let lines = vec![row("A", "M1", "1e-5", "10.0"), row("B", "M1", "1e-10", "20.0")];
    let cut = table("M1\t15.0\n");
    let mut h = index(&lines, true, &cut);
    assert_eq!(targets(&h, "M1"), vec!["B"]);
    let rate = h.perc_duplicated();
    assert_eq!(rate.duplicated, 0);
    assert_eq!(rate.markers, 1);
    h.best_filter();
    assert_eq!(targets(&h, "M1"), vec!["B"]);
    let b = &h.hits_for("M1").unwrap()[0];
    assert_eq!(compare(&b.fs_score, &dec("20.0")), Ordering::Equal);
}

#[test]
fn identical_duplicates_collapse_to_one() {
    let lines = vec![row("C", "M2", "1e-3", "5.0"), row("C", "M2", "1e-3", "5.0")];
    let h = index(&lines, false, &table(""));
    assert_eq!(targets(&h, "M2"), vec!["C"]);
    assert_eq!(h.n_hits, 1);
}

#[test]
fn same_target_with_other_score_is_kept() {
    let lines = vec![row("C", "M2", "1e-3", "5.0"), row("C", "M2", "1e-3", "6.0")];
    let h = index(&lines, false, &table(""));
    assert_eq!(targets(&h, "M2"), vec!["C", "C"]);
}

#[test]
fn equal_values_written_differently_are_duplicates() {
    let lines = vec![row("C", "M2", "0.001", "5"), row("C", "M2", "1e-3", "5.0")];
    let h = index(&lines, false, &table(""));
    assert_eq!(targets(&h, "M2").len(), 1);
}

#[test]
fn dedup_sorts_by_target_and_is_idempotent() {
    let mut m: MultiMap<String, Hit> = MultiMap::new();
    for (t, s) in [("z", "1"), ("a", "2"), ("m", "3"), ("a", "2"), ("z", "1")] {
        m.insert("M".to_string(), hit(t, "M", "1e-9", s));
    }
    dedup_hits(&mut m);
    let once: Vec<String> = m.get_vec("M").unwrap().iter().map(|h| h.target.clone()).collect();
    assert_eq!(once, vec!["a", "m", "z"]);
    dedup_hits(&mut m);
    let twice: Vec<String> = m.get_vec("M").unwrap().iter().map(|h| h.target.clone()).collect();
    assert_eq!(once, twice);
}

#[test]
fn best_filter_takes_first_maximum() {
    let lines = vec![
        row("A", "M1", "1e-5", "10"),
        row("B", "M1", "1e-9", "30"),
        row("C", "M1", "1e-9", "30.0"),
        row("D", "M1", "1e-2", "5"),
        row("E", "M3", "1e-2", "1"),
    ];
    let mut h = index(&lines, false, &table(""));
    assert_eq!(h.n_hits, 5);
    h.best_filter();
    assert_eq!(h.n_hits, 2);
    assert_eq!(targets(&h, "M1"), vec!["B"]);
    assert_eq!(targets(&h, "M3"), vec!["E"]);
    h.best_filter();
    assert_eq!(targets(&h, "M1"), vec!["B"]);
}

#[test]
fn duplication_rate_counts_multi_hit_markers() {
    let lines = vec![
        row("A", "M1", "1e-5", "10"),
        row("B", "M1", "1e-9", "30"),
        row("C", "M2", "1e-9", "30"),
    ];
    let h = index(&lines, false, &table(""));
    let rate = h.perc_duplicated();
    assert_eq!(rate.duplicated, 1);
    assert_eq!(rate.markers, 2);
}

#[test]
fn duplication_rate_of_empty_index_is_zero() {
    let h = index(&[], false, &table(""));
    let rate = h.perc_duplicated();
    assert_eq!(rate.duplicated, 0);
    assert_eq!(rate.markers, 0);
}

#[test]
fn score_filter_keeps_cutoff_itself() {
    let lines = vec![row("A", "M1", "1e-5", "15"), row("B", "M1", "1e-5", "14.9")];
    let h = index(&lines, true, &table("M1\t15.0\n"));
    assert_eq!(targets(&h, "M1"), vec!["A"]);
}

#[test]
fn score_filter_drops_emptied_markers() {
    let lines = vec![row("A", "M1", "1e-5", "1"), row("B", "M2", "1e-5", "50")];
    let h = index(&lines, true, &table("M1\t15\nM2\t15\n"));
    assert!(h.hits_for("M1").is_none());
    assert_eq!(h.n_hits, 1);
}

#[test]
fn score_filter_reports_unknown_marker() {
    let mut m: MultiMap<String, Hit> = MultiMap::new();
    m.insert("MX".to_string(), hit("A", "MX", "1e-5", "1"));
    match filter_by_score(&table("M1\t15\n"), m) {
        Err(HitsError::UnknownMarker(k)) => assert_eq!(k, "MX"),
        _ => panic!("expected an unknown marker"),
    }
}

#[test]
fn comment_lines_are_skipped_and_blank_rows_are_malformed() {
    let lines = vec!["# header".to_string(), "   #indented comment".to_string(), row("A", "M1", "1e-5", "1")];
    let h = index(&lines, false, &table(""));
    assert_eq!(targets(&h, "M1"), vec!["A"]);
    let bad = vec![row("A", "M1", "1e-5", "1"), "".to_string()];
    let r = parse_and_filter("f".to_string(), &bad, false, &table(""));
    assert!(matches!(r, Err(HitsError::MalformedRecord)));
}

#[test]
fn occupancy_boundary_is_inclusive() {
    let with = index(&[row("A", "M1", "1e-5", "1")], false, &table(""));
    let without = index(&[row("A", "M2", "1e-5", "1")], false, &table(""));
    let all = vec![
        index(&[row("A", "M1", "1e-5", "1")], false, &table("")),
        index(&[row("B", "M1", "1e-5", "1")], false, &table("")),
        with,
        without,
    ];
    assert!(has_enough_occupants("M1", &all, &dec("0.75"), 4));
    assert!(!has_enough_occupants("M1", &all, &dec("0.76"), 4));
    assert!(has_enough_occupants("M1", &all, &dec("0.5"), 4));
    assert!(!has_enough_occupants("M2", &all, &dec("0.5"), 4));
    assert!(has_enough_occupants("M2", &all, &dec("0.25"), 4));
}

#[test]
fn fraction_comparison_exact_values() {
    assert_eq!(compare_fraction(3, 4, &dec("0.75")), Ordering::Equal);
    assert_eq!(compare_fraction(2, 3, &dec("0.67")), Ordering::Less);
    assert_eq!(compare_fraction(2, 3, &dec("0.66")), Ordering::Greater);
    assert_eq!(compare_fraction(0, 5, &dec("-1")), Ordering::Greater);
    assert_eq!(compare_fraction(0, 0, &dec("0.75")), Ordering::Equal);
    assert_eq!(compare_fraction(1, 0, &dec("0.75")), Ordering::Greater);
    assert_eq!(compare_fraction(5, 2, &dec("25e-1")), Ordering::Equal);
    assert_eq!(compare_fraction(u64::MAX, u64::MAX, &dec("1.0000000001")), Ordering::Less);
    assert_eq!(compare_fraction(1, 1, &dec("1e40")), Ordering::Less);
    assert_eq!(compare_fraction(1, 1, &dec("1e-40")), Ordering::Greater);
}

#[test]
fn occupancy_boundary_policy_is_explicit() {
    let all = vec![
        index(&[row("A", "M1", "1e-5", "1")], false, &table("")),
        index(&[row("B", "M1", "1e-5", "1")], false, &table("")),
        index(&[row("C", "M1", "1e-5", "1")], false, &table("")),
        index(&[row("D", "M2", "1e-5", "1")], false, &table("")),
    ];
    let p = dec("0.75");
    assert!(has_occupancy("M1", &all, &p, 4, OccupancyBoundary::Inclusive));
    assert!(!has_occupancy("M1", &all, &p, 4, OccupancyBoundary::Exclusive));
    assert!(has_occupancy("M1", &all, &dec("0.74"), 4, OccupancyBoundary::Exclusive));
    assert!(!has_occupancy("M1", &all, &dec("0.76"), 4, OccupancyBoundary::Inclusive));
}

#[test]
fn extension_follows_last_dot_of_file_name() {
    assert_eq!(extension("/data/taxon1.domtbl"), Some("domtbl".to_string()));
    assert_eq!(extension("/data.d/README"), None);
    assert_eq!(extension("/data/.hidden"), None);
    assert_eq!(extension("a.tar.gz"), Some("gz".to_string()));
}

#[test]
fn file_list_keeps_matching_files() {
    let entries = vec![
        ("/d/a.domtbl".to_string(), false),
        ("/d/sub.domtbl".to_string(), true),
        ("/d/b.txt".to_string(), false),
        ("/d/notes".to_string(), false),
        ("/d/c.domtbl".to_string(), false),
    ];
    assert_eq!(file_list(&entries, "domtbl"), vec!["/d/a.domtbl", "/d/c.domtbl"]);
}

#[test]
fn markers_lists_each_marker_once() {
    let lines = vec![row("A", "M1", "1e-5", "1"), row("B", "M2", "1e-5", "1"), row("C", "M1", "1e-5", "1")];
    let h = index(&lines, false, &table(""));
    let mut ms = h.markers();
    ms.sort();
    assert_eq!(ms, vec!["M1", "M2"]);
    assert_eq!(h.file_path, "taxon.domtbl");
}

fn lengths(lines: &[String], filter: bool, cutoffs: &CutoffTable) -> Vec<(String, String, u128)> {
    match parse_and_filter("t".to_string(), &lines.to_vec(), filter, cutoffs) {
        Ok((_, rows)) => {
            let mut v: Vec<(String, String, u128)> =
                rows.into_iter().map(|r| (r.marker, r.target, r.length)).collect();
            v.sort();
            v
        }
        Err(_) => panic!("table should be indexed"),
    }
}

#[test]
fn aligned_lengths_are_summed_before_dedup() {
    let lines = vec![
        row_aln("C", "M2", "1e-3", "5.0", "10", "19"),
        row_aln("C", "M2", "1e-3", "5.0", "10", "19"),
        row_aln("D", "M2", "1e-3", "5.0", "1", "1"),
        row_aln("C", "M1", "1e-3", "5.0", "100", "149"),
    ];
    let got = lengths(&lines, false, &table(""));
    assert_eq!(
        got,
        vec![
            ("M1".to_string(), "C".to_string(), 50),
            ("M2".to_string(), "C".to_string(), 20),
            ("M2".to_string(), "D".to_string(), 1),
        ]
    );
}

#[test]
fn aligned_lengths_follow_the_score_filter() {
    let lines = vec![
        row_aln("A", "M1", "1e-5", "10.0", "1", "10"),
        row_aln("B", "M1", "1e-10", "20.0", "5", "9"),
    ];
    let got = lengths(&lines, true, &table("M1\t15.0\n"));
    assert_eq!(got, vec![("M1".to_string(), "B".to_string(), 5)]);
}

#[test]
fn unreadable_aligned_length_is_malformed() {
    let mut m: MultiMap<String, Hit> = MultiMap::new();
    m.insert("M".to_string(), Hit::new(fields(&row_aln("A", "M", "1e-5", "1", "9", "3"))).ok().unwrap());
    assert!(matches!(calculate_aln_length(&m), Err(HitsError::MalformedRecord)));
    let bad = vec![row_aln("A", "M", "1e-5", "1", "x", "3")];
    let r = parse_and_filter("f".to_string(), &bad, false, &table(""));
    assert!(matches!(r, Err(HitsError::MalformedRecord)));
}
