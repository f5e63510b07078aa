//! Scoring all rows: which records become rows, and the scored rows in the
//! order of the input.

use crate::config::{Configuration, ConfigurationSpec};
use crate::scoring::{process_row, scored, RowResult, RowSpec};
use vstd::prelude::*;

verus! {

/// A row of the input: its position among the records, counted from zero,
/// and its fields.
#[derive(Clone, Debug, PartialEq, Eq)]
pub struct InputRow {
    pub row_id: usize,
    pub fields: Vec<String>,
}

/// What a row of the input is in contracts.
pub struct InputSpec {
    pub row_id: nat,
    pub fields: Seq<Seq<char>>,
}

impl DeepView for InputRow {
    type V = InputSpec;

    open spec fn deep_view(&self) -> InputSpec {
        InputSpec { row_id: self.row_id as nat, fields: self.fields.deep_view() }
    }
}

/// The rows that `records` give. A record is the fields of a row, or nothing
/// where the row could not be read. Each record that holds fields becomes a
/// row whose identity is the record's position; a record that holds nothing
/// is dropped and the positions of the others stay as they are.
pub open spec fn surviving(records: Seq<Option<Seq<Seq<char>>>>) -> Seq<InputSpec>
    decreases records.len(),
{
    if records.len() == 0 {
        Seq::empty()
    } else {
        let earlier = surviving(records.drop_last());
        match records.last() {
            Some(fields) => earlier.push(
                InputSpec { row_id: (records.len() - 1) as nat, fields },
            ),
            None => earlier,
        }
    }
}

/// The scored rows that `rows` give under `config`, in the order of `rows`.
pub open spec fn scored_rows(rows: Seq<InputSpec>, config: ConfigurationSpec) -> Seq<RowSpec> {
    Seq::new(rows.len(), |i: int| scored(rows[i].row_id, rows[i].fields, config))
}

/// Copies the fields of a row.
fn copy_fields(fields: &Vec<String>) -> (copy: Vec<String>)
    ensures
        copy.deep_view() == fields.deep_view(),
{
    let mut copy: Vec<String> = Vec::new();
    let mut i: usize = 0;
    while i < fields.len()
        invariant
            i <= fields.len(),
            copy.deep_view() == fields.deep_view().take(i as int),
        decreases fields.len() - i,
    {
        let ghost earlier = copy.deep_view();
        copy.push(fields[i].clone());
        assert(copy.deep_view() == earlier.push(fields[i as int]@));
        i += 1;
    }
    assert(fields.deep_view().take(i as int) == fields.deep_view());
    copy
}

/// Gives every record that was read its position as identity and drops the
/// records that were not read. The positions of the rows that remain are not
/// shifted by the rows that were dropped.
pub fn index_rows(records: &Vec<Option<Vec<String>>>) -> (rows: Vec<InputRow>)
    ensures
        rows.deep_view() == surviving(records.deep_view()),
{
    let mut rows: Vec<InputRow> = Vec::new();
    let mut i: usize = 0;
    while i < records.len()
        invariant
            i <= records.len(),
            rows.deep_view() == surviving(records.deep_view().take(i as int)),
        decreases records.len() - i,
    {
        let ghost before = records.deep_view().take(i as int);
        let ghost now = records.deep_view().take(i + 1);
        proof {
            assert(now.drop_last() == before);
            assert(now.last() == records[i as int].deep_view());
        }
        match &records[i] {
            Some(fields) => {
                let ghost earlier = rows.deep_view();
                let row = InputRow { row_id: i, fields: copy_fields(fields) };
                rows.push(row);
                assert(rows.deep_view() == earlier.push(row.deep_view()));
            },
            None => {},
        }
        i += 1;
    }
    assert(records.deep_view().take(i as int) == records.deep_view());
    rows
}

/// Scores every row under one configuration. The result holds one scored
/// row for each row of the input, in the same order and with the same
/// identity.
pub fn process_rows(rows: &Vec<InputRow>, config: &Configuration) -> (results: Vec<RowResult>)
    ensures
        results.deep_view() == scored_rows(rows.deep_view(), config.deep_view()),
{
    let mut results: Vec<RowResult> = Vec::new();
    let mut i: usize = 0;
    while i < rows.len()
        invariant
            i <= rows.len(),
            results.deep_view() == scored_rows(rows.deep_view(), config.deep_view()).take(i as int),
        decreases rows.len() - i,
    {
        let ghost earlier = results.deep_view();
        let result = process_row(rows[i].row_id, &rows[i].fields, config);
        results.push(result);
        assert(results.deep_view() == earlier.push(
            scored(rows[i as int].row_id as nat, rows[i as int].fields.deep_view(), config.deep_view()),
        ));
        i += 1;
    }
    assert(scored_rows(rows.deep_view(), config.deep_view()).take(i as int) == scored_rows(
        rows.deep_view(),
        config.deep_view(),
    ));
    results
}

/// The rows that survive reading keep the order and the positions of their
/// records: their identities ascend strictly, each is the position of a
/// record that was read and the row holds that record's fields, and every
/// record that was read is among them.
pub proof fn lemma_surviving_rows(records: Seq<Option<Seq<Seq<char>>>>)
    ensures
        surviving(records).len() <= records.len(),
        forall|k: int, m: int|
            0 <= k < m < surviving(records).len() ==> (#[trigger] surviving(records)[k]).row_id < (
            #[trigger] surviving(records)[m]).row_id,
        forall|k: int|
            0 <= k < surviving(records).len() ==> {
                let row = #[trigger] surviving(records)[k];
                row.row_id < records.len() && records[row.row_id as int] == Some(row.fields)
            },
        forall|i: int|
            0 <= i < records.len() && (#[trigger] records[i]) is Some ==> exists|k: int|
                0 <= k < surviving(records).len() && (#[trigger] surviving(records)[k]).row_id == i,
    decreases records.len(),
{
    if records.len() > 0 {
        let earlier = records.drop_last();
        lemma_surviving_rows(earlier);
        let rows = surviving(records);
        let before = surviving(earlier);
        let last = records.len() - 1;
        assert forall|k: int| 0 <= k < rows.len() implies {
            let row = #[trigger] rows[k];
            row.row_id < records.len() && records[row.row_id as int] == Some(row.fields)
        } by {
            if k < before.len() {
                assert(rows[k] == before[k]);
                assert(earlier[before[k].row_id as int] == records[before[k].row_id as int]);
            }
        }
        assert forall|k: int, m: int| 0 <= k < m < rows.len() implies (#[trigger] rows[k]).row_id < (
        #[trigger] rows[m]).row_id by {
            assert(rows[k] == before[k]);
            if m < before.len() {
                assert(rows[m] == before[m]);
            }
        }
        assert forall|i: int| 0 <= i < records.len() && (#[trigger] records[i]) is Some implies exists|
            k: int,
        | 0 <= k < rows.len() && (#[trigger] rows[k]).row_id == i by {
            if i < last {
                assert(earlier[i] == records[i]);
                let k = choose|k: int| 0 <= k < before.len() && (#[trigger] before[k]).row_id == i;
                assert(rows[k] == before[k]);
            } else {
                assert(rows[rows.len() - 1].row_id == i);
            }
        }
    }
}

/// Scoring keeps the rows apart and in place: there is one scored row for
/// each row, at the row's position, with the row's identity and the text of
/// its fields, and it is what that row alone gives.
pub proof fn lemma_scored_rows(rows: Seq<InputSpec>, config: ConfigurationSpec)
    ensures
        scored_rows(rows, config).len() == rows.len(),
        forall|i: int|
            0 <= i < rows.len() ==> #[trigger] scored_rows(rows, config)[i] == scored(
                rows[i].row_id,
                rows[i].fields,
                config,
            ),
        forall|i: int|
            0 <= i < rows.len() ==> (#[trigger] scored_rows(rows, config)[i]).row_id
                == rows[i].row_id,
{
}

} // verus!
