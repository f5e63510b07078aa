use byteclasser::config::{Configuration, LabelTarget, Metadata, NGramTarget};
use byteclasser::executor::{index_rows, process_rows, InputRow};
use byteclasser::scoring::process_row;

fn config_with(name: &str, hex: &str, weight: f64) -> Configuration {
    let rule = NGramTarget {
        text: String::new(),
        weight_bits: weight.to_bits(),
        frequency: 1,
        uniqueness_bits: 0,
        bytes_pattern: String::from(hex),
    };
    let metadata = Metadata { min_frequency: 0, min_uniqueness_bits: 0, ngram_range: (1, 1) };
    Configuration::new(
        metadata,
        vec![(String::from(name), LabelTarget { label: String::from(name), targets: vec![rule] })],
    )
    .unwrap()
}

fn record(values: &[&str]) -> Option<Vec<String>> {
    Some(values.iter().map(|v| String::from(*v)).collect())
}

#[test]
fn records_become_rows_with_their_positions() {
    let rows = index_rows(&vec![record(&["a", "b"]), record(&["c"])]);
    assert_eq!(
        rows,
        vec![
            InputRow { row_id: 0, fields: vec![String::from("a"), String::from("b")] },
            InputRow { row_id: 1, fields: vec![String::from("c")] },
        ]
    );
}

#[test]
fn a_dropped_record_leaves_a_gap() {
    let rows = index_rows(&vec![None, record(&["a"]), None, None, record(&["b"]), None]);
    let ids: Vec<usize> = rows.iter().map(|r| r.row_id).collect();
    assert_eq!(ids, vec![1, 4]);
    assert_eq!(rows[0].fields, vec![String::from("a")]);
    assert_eq!(rows[1].fields, vec![String::from("b")]);
}

#[test]
fn no_records_give_no_rows() {
    assert!(index_rows(&Vec::new()).is_empty());
    assert!(index_rows(&vec![None, None]).is_empty());
}

#[test]
fn a_record_without_fields_is_a_row() {
    let rows = index_rows(&vec![record(&[])]);
    assert_eq!(rows, vec![InputRow { row_id: 0, fields: Vec::new() }]);
}

#[test]
fn rows_are_scored_in_place() {
    let config = config_with("alpha", "61", 1.0);
    let rows = index_rows(&vec![record(&["aa"]), None, record(&["b"]), record(&["a", "a", "a"])]);
    let results = process_rows(&rows, &config);
    assert_eq!(results.len(), 3);
    let ids: Vec<usize> = results.iter().map(|r| r.row_id).collect();
    assert_eq!(ids, vec![0, 2, 3]);
    let counts: Vec<usize> = results.iter().map(|r| r.scores[0].terms[0].count).collect();
    assert_eq!(counts, vec![2, 0, 3]);
    for (row, result) in rows.iter().zip(results.iter()) {
        assert_eq!(*result, process_row(row.row_id, &row.fields, &config));
    }
}

#[test]
fn no_rows_give_no_results() {
    let config = config_with("alpha", "61", 1.0);
    assert!(process_rows(&Vec::new(), &config).is_empty());
}
