use byteclasser::config::{Configuration, LabelTarget, Metadata, NGramTarget};
use byteclasser::executor::index_rows;
use byteclasser::pipeline::score_records;
use byteclasser::scoring::{process_row, Term};
use byteclasser::table::build_table;

fn rule(hex: &str, weight: f64) -> NGramTarget {
    NGramTarget {
        text: String::new(),
        weight_bits: weight.to_bits(),
        frequency: 1,
        uniqueness_bits: 0,
        bytes_pattern: String::from(hex),
    }
}

fn config(labels: Vec<(&str, Vec<NGramTarget>)>) -> Configuration {
    let metadata = Metadata { min_frequency: 0, min_uniqueness_bits: 0, ngram_range: (1, 2) };
    Configuration::new(
        metadata,
        labels
            .into_iter()
            .map(|(name, targets)| {
                (String::from(name), LabelTarget { label: String::from(name), targets })
            })
            .collect(),
    )
    .unwrap()
}

fn record(values: &[&str]) -> Option<Vec<String>> {
    Some(values.iter().map(|v| String::from(*v)).collect())
}

fn total(terms: &[Term]) -> f64 {
    terms
        .iter()
        .fold(0.0, |sum, t| sum + t.count as f64 * f64::from_bits(t.weight_bits))
}

#[test]
fn one_row_one_label() {
    let config = config(vec![("alpha", vec![rule("6162", 2.0)])]);
    let table = score_records(&vec![record(&["abcabc", "x"])], &config);
    assert_eq!(table.header(), vec!["row_id", "text", "alpha"]);
    assert_eq!(table.rows.len(), 1);
    assert_eq!(table.rows[0].row_id, 0);
    assert_eq!(table.rows[0].text, "abcabc x");
    assert_eq!(table.rows[0].cells.len(), 1);
    assert_eq!(table.rows[0].cells[0][0].count, 2);
    assert_eq!(total(&table.rows[0].cells[0]), 4.0);
}

#[test]
fn a_bad_pattern_does_not_stop_the_run() {
    let config = config(vec![
        ("alpha", vec![rule("6g", 7.0), rule("6162", 2.0)]),
        ("beta", vec![rule("xyz", 1.0)]),
    ]);
    let table = score_records(&vec![record(&["abcabc", "x"]), record(&["ab"])], &config);
    assert_eq!(table.labels, vec!["alpha", "beta"]);
    assert_eq!(total(&table.rows[0].cells[0]), 4.0);
    assert_eq!(total(&table.rows[0].cells[1]), 0.0);
    assert_eq!(total(&table.rows[1].cells[0]), 2.0);
    assert_eq!(total(&table.rows[1].cells[1]), 0.0);
}

#[test]
fn label_columns_are_alphabetical_whatever_the_configuration_order() {
    let forward = config(vec![
        ("alpha", vec![rule("61", 1.0)]),
        ("beta", vec![rule("62", 1.0)]),
        ("gamma", vec![rule("63", 1.0)]),
    ]);
    let backward = config(vec![
        ("gamma", vec![rule("63", 1.0)]),
        ("beta", vec![rule("62", 1.0)]),
        ("alpha", vec![rule("61", 1.0)]),
    ]);
    let records = vec![record(&["abbccc"]), record(&["cab"])];
    let a = score_records(&records, &forward);
    let b = score_records(&records, &backward);
    assert_eq!(a.labels, vec!["alpha", "beta", "gamma"]);
    assert_eq!(a, b);
}

#[test]
fn row_identities_ascend_with_gaps_for_dropped_rows() {
    let config = config(vec![("alpha", vec![rule("61", 1.0)])]);
    let records = vec![record(&["a"]), None, record(&["aa"]), None, None, record(&["aaa"])];
    let table = score_records(&records, &config);
    let ids: Vec<usize> = table.rows.iter().map(|r| r.row_id).collect();
    assert_eq!(ids, vec![0, 2, 5]);
    let counts: Vec<usize> = table.rows.iter().map(|r| r.cells[0][0].count).collect();
    assert_eq!(counts, vec![1, 2, 3]);
}

#[test]
fn two_runs_give_the_same_table() {
    let config = config(vec![
        ("b", vec![rule("6162", 0.5), rule("zz", 1.0)]),
        ("a", vec![rule("62", -3.0)]),
    ]);
    let records = vec![record(&["abab", "b"]), None, record(&["", "ab"])];
    assert_eq!(score_records(&records, &config), score_records(&records, &config));
}

#[test]
fn the_table_is_the_same_in_whatever_order_rows_were_scored() {
    let config = config(vec![("b", vec![rule("6162", 0.5)]), ("a", vec![rule("62", -3.0)])]);
    let records = vec![record(&["abab", "b"]), None, record(&["", "ab"]), record(&["bb"])];
    let rows = index_rows(&records);
    let backward: Vec<_> = rows
        .iter()
        .rev()
        .map(|row| process_row(row.row_id, &row.fields, &config))
        .collect();
    assert_eq!(build_table(&backward), score_records(&records, &config));
}

#[test]
fn no_records_give_an_empty_table() {
    let config = config(vec![("alpha", vec![rule("61", 1.0)])]);
    let table = score_records(&Vec::new(), &config);
    assert!(table.rows.is_empty());
    assert!(table.labels.is_empty());
    let dropped = score_records(&vec![None, None], &config);
    assert!(dropped.rows.is_empty());
    assert!(dropped.labels.is_empty());
}

#[test]
fn a_configuration_without_labels_gives_rows_without_cells() {
    let config = config(Vec::new());
    let table = score_records(&vec![record(&["a", "b"])], &config);
    assert!(table.labels.is_empty());
    assert_eq!(table.rows.len(), 1);
    assert_eq!(table.rows[0].text, "a b");
    assert!(table.rows[0].cells.is_empty());
}
