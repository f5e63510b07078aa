//! From records to the table, in one step, and what holds of the whole way.

use crate::config::{distinct_names, Configuration, ConfigurationSpec};
use crate::executor::{index_rows, lemma_surviving_rows, process_rows, scored_rows, surviving};
use crate::scoring::{joined, scores_of, terms_of};
use crate::table::{
    build_table, is_table, lemma_cell_of_scores, lemma_columns_of_scored_rows,
    lemma_table_keeps_ascending_rows, lemma_table_unique, Table, TableSpec,
};
use vstd::prelude::*;
use vstd::utf8::encode_utf8;

verus! {

/// Scores the records under `config` and lays the result out as a table. A
/// record is the fields of a row, or nothing where the row could not be
/// read; such a row is left out and the others keep their positions as
/// identities.
pub fn score_records(records: &Vec<Option<Vec<String>>>, config: &Configuration) -> (table: Table)
    ensures
        is_table(
            table.deep_view(),
            scored_rows(surviving(records.deep_view()), config.deep_view()),
        ),
{
    let rows = index_rows(records);
    let results = process_rows(&rows, config);
    build_table(&results)
}

/// The table of a run is determined by the records and the configuration:
/// two tables of the same records under the same configuration are equal,
/// whoever scored the rows and in whatever order.
pub proof fn lemma_run_is_deterministic(
    records: Seq<Option<Seq<Seq<char>>>>,
    config: ConfigurationSpec,
    first: TableSpec,
    second: TableSpec,
)
    requires
        is_table(first, scored_rows(surviving(records), config)),
        is_table(second, scored_rows(surviving(records), config)),
    ensures
        first == second,
{
    lemma_table_unique(scored_rows(surviving(records), config), first, second);
}

/// What the table of a run holds, for a configuration whose label names are
/// unique. Its rows are the records that were read, one row each, in the
/// order of the input: the identities are the records' positions and ascend
/// strictly, and the text is the record's fields joined by spaces. Where a
/// record was read, its columns are the labels of the configuration, and the
/// cell of a row under a label holds the terms that the label's rules
/// contribute on the row's text.
pub proof fn lemma_table_of_run(
    records: Seq<Option<Seq<Seq<char>>>>,
    config: ConfigurationSpec,
    table: TableSpec,
)
    requires
        distinct_names(config.labels),
        is_table(table, scored_rows(surviving(records), config)),
    ensures
        table.rows.len() == surviving(records).len(),
        forall|k: int, m: int|
            0 <= k < m < table.rows.len() ==> (#[trigger] table.rows[k]).row_id < (
            #[trigger] table.rows[m]).row_id,
        forall|k: int|
            0 <= k < table.rows.len() ==> {
                let row = #[trigger] table.rows[k];
                &&& row.row_id < records.len()
                &&& records[row.row_id as int] is Some
                &&& row.text == joined(records[row.row_id as int].unwrap())
                &&& row.cells.len() == table.labels.len()
            },
        forall|i: int|
            0 <= i < records.len() && (#[trigger] records[i]) is Some ==> exists|k: int|
                0 <= k < table.rows.len() && (#[trigger] table.rows[k]).row_id == i,
        table.rows.len() > 0 ==> forall|name: Seq<char>|
            table.labels.contains(name) <==> config.as_map().contains_key(name),
        forall|k: int, c: int|
            0 <= k < table.rows.len() && 0 <= c < table.labels.len() ==> (
            #[trigger] table.rows[k]).cells[c] == terms_of(
                config.as_map()[#[trigger] table.labels[c]].targets,
                encode_utf8(table.rows[k].text),
            ),
{
    let rows = surviving(records);
    let results = scored_rows(rows, config);
    lemma_surviving_rows(records);
    assert forall|k: int, m: int| 0 <= k < m < results.len() implies (#[trigger] results[k]).row_id
        < (#[trigger] results[m]).row_id by {
        assert(rows[k].row_id < rows[m].row_id);
    }
    lemma_table_keeps_ascending_rows(results, table);
    assert forall|k: int| 0 <= k < table.rows.len() implies {
        let row = #[trigger] table.rows[k];
        &&& row.row_id < records.len()
        &&& records[row.row_id as int] is Some
        &&& row.text == joined(records[row.row_id as int].unwrap())
        &&& row.cells.len() == table.labels.len()
    } by {
        let input = rows[k];
        assert(records[input.row_id as int] == Some(input.fields));
    }
    assert forall|i: int| 0 <= i < records.len() && (#[trigger] records[i]) is Some implies exists|
        k: int,
    | 0 <= k < table.rows.len() && (#[trigger] table.rows[k]).row_id == i by {
        let k = choose|k: int| 0 <= k < rows.len() && (#[trigger] rows[k]).row_id == i;
        assert(table.rows[k].row_id == i);
    }
    if table.rows.len() > 0 {
        assert forall|r: int| 0 <= r < results.len() implies (#[trigger] results[r]).scores
            == scores_of(results[r].text, config) by {}
        lemma_columns_of_scored_rows(results, config, table.labels);
        assert forall|k: int, c: int|
            0 <= k < table.rows.len() && 0 <= c < table.labels.len() implies (
        #[trigger] table.rows[k]).cells[c] == terms_of(
            config.as_map()[#[trigger] table.labels[c]].targets,
            encode_utf8(table.rows[k].text),
        ) by {
            let name = table.labels[c];
            assert(table.labels.contains(name));
            let i = config.position(name).unwrap();
            assert(config.as_map()[name] == config.labels[i].1);
            lemma_cell_of_scores(results[k].text, config, i);
        }
    }
}

} // verus!
