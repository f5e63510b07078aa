use byteclasser::order::{rank_bytes, rank_names, same_name, Rank};
use byteclasser::scoring::{LabelScore, RowResult, Term};
use byteclasser::table::{build_table, collect_labels, lay_out, lookup, row_order, Table, TableRow};

fn score(label: &str, counts: &[usize]) -> LabelScore {
    LabelScore {
        label: String::from(label),
        terms: counts
            .iter()
            .map(|c| Term { count: *c, weight_bits: 1.0f64.to_bits() })
            .collect(),
    }
}

fn terms(counts: &[usize]) -> Vec<Term> {
    score("", counts).terms
}

fn result(row_id: usize, text: &str, scores: Vec<LabelScore>) -> RowResult {
    RowResult { row_id, text: String::from(text), scores }
}

fn names(values: &[&str]) -> Vec<String> {
    values.iter().map(|v| String::from(*v)).collect()
}

#[test]
fn byte_sequences_are_ranked_lexicographically() {
    assert_eq!(rank_bytes(b"abc", b"abd"), Rank::Before);
    assert_eq!(rank_bytes(b"abd", b"abc"), Rank::After);
    assert_eq!(rank_bytes(b"abc", b"abc"), Rank::Same);
    assert_eq!(rank_bytes(b"ab", b"abc"), Rank::Before);
    assert_eq!(rank_bytes(b"abc", b"ab"), Rank::After);
    assert_eq!(rank_bytes(b"", b""), Rank::Same);
    assert_eq!(rank_bytes(b"", b"a"), Rank::Before);
    assert_eq!(rank_bytes(b"b", b"abc"), Rank::After);
    assert_eq!(rank_bytes(&[0xff], &[0x00, 0x01]), Rank::After);
}

#[test]
fn names_are_ranked_as_strings_are_ordered() {
    let samples = ["", "a", "A", "alpha", "alphabet", "beta", "Zeta", "é", "z", "10", "9"];
    for a in samples {
        for b in samples {
            let expected = if a < b {
                Rank::Before
            } else if a == b {
                Rank::Same
            } else {
                Rank::After
            };
            assert_eq!(rank_names(a, b), expected);
            assert_eq!(same_name(a, b), a == b);
        }
    }
}

#[test]
fn label_columns_are_sorted_and_distinct() {
    let results = vec![
        result(0, "x", vec![score("beta", &[1]), score("alpha", &[2])]),
        result(1, "y", vec![score("alphabet", &[]), score("beta", &[3]), score("Alpha", &[4])]),
    ];
    assert_eq!(collect_labels(&results), names(&["Alpha", "alpha", "alphabet", "beta"]));
}

#[test]
fn label_columns_match_a_standard_sort() {
    let labels = ["b", "a", "", "ab", "B", "é", "a", "zz", "b", "_", "0"];
    let results = vec![
        result(0, "", labels[..4].iter().map(|l| score(l, &[])).collect()),
        result(1, "", labels[4..].iter().map(|l| score(l, &[])).collect()),
    ];
    let mut expected = names(&labels);
    expected.sort();
    expected.dedup();
    assert_eq!(collect_labels(&results), expected);
}

#[test]
fn no_rows_give_no_label_columns() {
    assert!(collect_labels(&Vec::new()).is_empty());
    assert!(collect_labels(&vec![result(0, "x", Vec::new())]).is_empty());
}

#[test]
fn a_cell_holds_the_terms_of_its_label() {
    let row = result(0, "x", vec![score("beta", &[1, 2]), score("alpha", &[3])]);
    assert_eq!(lookup(&row, "alpha"), terms(&[3]));
    assert_eq!(lookup(&row, "beta"), terms(&[1, 2]));
}

#[test]
fn a_missing_label_has_an_empty_cell() {
    let row = result(0, "x", vec![score("beta", &[1, 2])]);
    assert!(lookup(&row, "alpha").is_empty());
    assert!(lookup(&row, "bet").is_empty());
    assert!(lookup(&result(0, "x", Vec::new()), "beta").is_empty());
}

#[test]
fn the_first_score_of_a_label_fills_the_cell() {
    let row = result(0, "x", vec![score("a", &[1]), score("b", &[2]), score("a", &[3])]);
    assert_eq!(lookup(&row, "a"), terms(&[1]));
}

#[test]
fn a_row_is_laid_out_under_the_columns() {
    let row = result(5, "some text", vec![score("beta", &[1]), score("alpha", &[2, 3])]);
    let laid = lay_out(&row, &names(&["alpha", "beta", "gamma"]));
    assert_eq!(
        laid,
        TableRow {
            row_id: 5,
            text: String::from("some text"),
            cells: vec![terms(&[2, 3]), terms(&[1]), Vec::new()],
        }
    );
}

#[test]
fn rows_are_ordered_by_identity() {
    let results = vec![
        result(4, "e", Vec::new()),
        result(0, "a", Vec::new()),
        result(9, "j", Vec::new()),
        result(2, "c", Vec::new()),
    ];
    assert_eq!(row_order(&results), vec![1, 3, 0, 2]);
    assert!(row_order(&Vec::new()).is_empty());
}

#[test]
fn rows_of_one_identity_keep_their_order() {
    let results = vec![
        result(1, "first", Vec::new()),
        result(0, "zero", Vec::new()),
        result(1, "second", Vec::new()),
        result(1, "third", Vec::new()),
    ];
    assert_eq!(row_order(&results), vec![1, 0, 2, 3]);
}

#[test]
fn a_table_sorts_rows_and_columns() {
    let results = vec![
        result(2, "two", vec![score("b", &[1]), score("a", &[2])]),
        result(0, "zero", vec![score("b", &[3]), score("a", &[4])]),
        result(1, "one", vec![score("c", &[5])]),
    ];
    let table = build_table(&results);
    assert_eq!(
        table,
        Table {
            labels: names(&["a", "b", "c"]),
            rows: vec![
                TableRow {
                    row_id: 0,
                    text: String::from("zero"),
                    cells: vec![terms(&[4]), terms(&[3]), Vec::new()],
                },
                TableRow {
                    row_id: 1,
                    text: String::from("one"),
                    cells: vec![Vec::new(), Vec::new(), terms(&[5])],
                },
                TableRow {
                    row_id: 2,
                    text: String::from("two"),
                    cells: vec![terms(&[2]), terms(&[1]), Vec::new()],
                },
            ],
        }
    );
}

#[test]
fn the_header_names_identity_text_and_labels() {
    let table = build_table(&vec![result(0, "x", vec![score("b", &[]), score("a", &[])])]);
    assert_eq!(table.header(), names(&["row_id", "text", "a", "b"]));
}

#[test]
fn an_empty_table_has_the_two_fixed_columns() {
    let table = build_table(&Vec::new());
    assert!(table.labels.is_empty());
    assert!(table.rows.is_empty());
    assert_eq!(table.header(), names(&["row_id", "text"]));
}

#[test]
fn the_table_does_not_depend_on_the_order_of_the_results() {
    let a = result(0, "zero", vec![score("x", &[1]), score("y", &[2])]);
    let b = result(1, "one", vec![score("y", &[3]), score("x", &[4])]);
    let c = result(2, "two", vec![score("x", &[5]), score("y", &[6])]);
    let forward = build_table(&vec![a.clone(), b.clone(), c.clone()]);
    let backward = build_table(&vec![c.clone(), b.clone(), a.clone()]);
    let mixed = build_table(&vec![b, c, a]);
    assert_eq!(forward, backward);
    assert_eq!(forward, mixed);
}
