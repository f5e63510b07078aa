//! Laying the scored rows out as a table: the label columns in alphabetical
//! order, the rows in ascending order of their identity.

use crate::config::{distinct_names, ConfigurationSpec};
use crate::order::{
    alphabetical, lemma_alphabetical_unique, lemma_ascending_unique, lemma_name_order, name_before,
    rank_names, same_name, Rank,
};
use crate::scoring::{scores_of, terms_of, RowResult, RowSpec, ScoreSpec, Term, TermSpec};
use vstd::utf8::encode_utf8;
use vstd::prelude::*;

verus! {

/// Some row of `results` has a score for the label `name`.
pub open spec fn mentions(results: Seq<RowSpec>, name: Seq<char>) -> bool {
    exists|r: int, s: int|
        0 <= r < results.len() && 0 <= s < results[r].scores.len() && (
        #[trigger] results[r].scores[s]).label == name
}

/// A score for the label `name` stands in a row before row `r`, or in row
/// `r` before position `s`.
pub open spec fn mentions_before(results: Seq<RowSpec>, r: int, s: int, name: Seq<char>) -> bool {
    exists|i: int, j: int|
        0 <= i < results.len() && 0 <= j < results[i].scores.len() && (i < r || (i == r && j < s))
            && (#[trigger] results[i].scores[j]).label == name
}

/// `labels` are the label columns of `results`: every label that some row
/// has a score for, once, in alphabetical order.
pub open spec fn is_columns(labels: Seq<Seq<char>>, results: Seq<RowSpec>) -> bool {
    &&& alphabetical(labels)
    &&& forall|name: Seq<char>| labels.contains(name) <==> mentions(results, name)
}

/// Puts `name` at its place among the alphabetically ordered `labels`,
/// unless it stands there already.
fn insert_label(labels: &mut Vec<String>, name: &String)
    requires
        alphabetical(old(labels).deep_view()),
    ensures
        alphabetical(final(labels).deep_view()),
        forall|other: Seq<char>|
            final(labels).deep_view().contains(other) <==> (old(labels).deep_view().contains(other)
                || other == name@),
{
    let ghost before = labels.deep_view();
    let mut p: usize = 0;
    let mut found: bool = false;
    while p < labels.len()
        invariant_except_break
            !found,
        invariant
            p <= labels.len(),
            labels.deep_view() == before,
            forall|q: int| 0 <= q < p ==> name_before(before[q], name@),
        ensures
            p <= labels.len(),
            labels.deep_view() == before,
            forall|q: int| 0 <= q < p ==> name_before(before[q], name@),
            found ==> p < before.len() && before[p as int] == name@,
            !found && p < before.len() ==> name_before(name@, before[p as int]),
        decreases labels.len() - p,
    {
        let r = rank_names(labels[p].as_str(), name.as_str());
        assert(labels[p as int]@ == before[p as int]);
        match r {
            Rank::Before => {
                p += 1;
            },
            Rank::Same => {
                found = true;
                break ;
            },
            Rank::After => {
                break ;
            },
        }
    }
    if found {
        assert forall|other: Seq<char>| before.contains(other) || other == name@ implies before.contains(
            other,
        ) by {
            assert(before[p as int] == name@);
        }
        return ;
    }
    let added = name.clone();
    labels.insert(p, added);
    proof {
        let after = labels.deep_view();
        assert(after =~= before.insert(p as int, name@));
        assert forall|i: int, j: int| 0 <= i < j < after.len() implies name_before(
            after[i],
            after[j],
        ) by {
            if j < p {
                assert(name_before(before[i], before[j]));
            } else if j == p {
            } else if i == p {
                if j - 1 > p {
                    assert(name_before(before[p as int], before[j - 1]));
                    lemma_name_order(name@, before[p as int], before[j - 1]);
                }
            } else if i < p {
                assert(name_before(before[i], before[j - 1]));
            } else {
                assert(name_before(before[i - 1], before[j - 1]));
            }
        }
        assert forall|other: Seq<char>| after.contains(other) <==> (before.contains(other) || other
            == name@) by {
            if after.contains(other) {
                let k = choose|k: int| 0 <= k < after.len() && after[k] == other;
                if k < p {
                    assert(before[k] == other);
                } else if k > p {
                    assert(before[k - 1] == other);
                }
            }
            if before.contains(other) {
                let k = choose|k: int| 0 <= k < before.len() && before[k] == other;
                if k < p {
                    assert(after[k] == other);
                } else {
                    assert(after[k + 1] == other);
                }
            }
            if other == name@ {
                assert(after[p as int] == other);
            }
        }
    }
}

/// The label columns of `results`: every label that some row has a score
/// for, once, in alphabetical order.
pub fn collect_labels(results: &Vec<RowResult>) -> (labels: Vec<String>)
    ensures
        is_columns(labels.deep_view(), results.deep_view()),
{
    let mut labels: Vec<String> = Vec::new();
    let mut r: usize = 0;
    while r < results.len()
        invariant
            r <= results.len(),
            alphabetical(labels.deep_view()),
            forall|name: Seq<char>|
                labels.deep_view().contains(name) <==> mentions_before(
                    results.deep_view(),
                    r as int,
                    0,
                    name,
                ),
        decreases results.len() - r,
    {
        let mut s: usize = 0;
        while s < results[r].scores.len()
            invariant
                r < results.len(),
                s <= results[r as int].scores.len(),
                alphabetical(labels.deep_view()),
                forall|name: Seq<char>|
                    labels.deep_view().contains(name) <==> mentions_before(
                        results.deep_view(),
                        r as int,
                        s as int,
                        name,
                    ),
            decreases results[r as int].scores.len() - s,
        {
            let ghost before = labels.deep_view();
            insert_label(&mut labels, &results[r].scores[s].label);
            proof {
                let rows = results.deep_view();
                let added = results[r as int].scores[s as int].label@;
                assert(rows[r as int].scores[s as int].label == added);
                assert forall|name: Seq<char>|
                    labels.deep_view().contains(name) <==> mentions_before(
                        rows,
                        r as int,
                        s + 1,
                        name,
                    ) by {
                    if mentions_before(rows, r as int, s + 1, name) {
                        let (i, j) = choose|i: int, j: int|
                            0 <= i < rows.len() && 0 <= j < rows[i].scores.len() && (i < r || (i
                                == r && j < s + 1)) && (#[trigger] rows[i].scores[j]).label == name;
                        if i == r && j == s {
                        } else {
                            assert(mentions_before(rows, r as int, s as int, name));
                        }
                    }
                    if before.contains(name) {
                        let (i, j) = choose|i: int, j: int|
                            0 <= i < rows.len() && 0 <= j < rows[i].scores.len() && (i < r || (i
                                == r && j < s)) && (#[trigger] rows[i].scores[j]).label == name;
                        assert(mentions_before(rows, r as int, s + 1, name));
                    }
                    if name == added {
                        assert(mentions_before(rows, r as int, s + 1, name));
                    }
                }
            }
            s += 1;
        }
        proof {
            let rows = results.deep_view();
            assert forall|name: Seq<char>|
                mentions_before(rows, r as int, s as int, name) <==> mentions_before(
                    rows,
                    r + 1,
                    0,
                    name,
                ) by {
                if mentions_before(rows, r as int, s as int, name) {
                    let (i, j) = choose|i: int, j: int|
                        0 <= i < rows.len() && 0 <= j < rows[i].scores.len() && (i < r || (i == r
                            && j < s)) && (#[trigger] rows[i].scores[j]).label == name;
                    assert(i < r + 1 || (i == r + 1 && j < 0));
                }
                if mentions_before(rows, r + 1, 0, name) {
                    let (i, j) = choose|i: int, j: int|
                        0 <= i < rows.len() && 0 <= j < rows[i].scores.len() && (i < r + 1 || (i
                            == r + 1 && j < 0)) && (#[trigger] rows[i].scores[j]).label == name;
                    assert(i < r || (i == r && j < s));
                }
            }
        }
        r += 1;
    }
    proof {
        let rows = results.deep_view();
        assert forall|name: Seq<char>|
            mentions_before(rows, r as int, 0, name) <==> mentions(rows, name) by {
            if mentions(rows, name) {
                let (i, j) = choose|i: int, j: int|
                    0 <= i < rows.len() && 0 <= j < rows[i].scores.len() && (
                    #[trigger] rows[i].scores[j]).label == name;
                assert(i < r);
            }
        }
    }
    labels
}

/// The terms of the first score among `scores` that belongs to the label
/// `name`; no terms when none does, which stands for a score of zero.
pub open spec fn cell(scores: Seq<ScoreSpec>, name: Seq<char>) -> Seq<TermSpec>
    decreases scores.len(),
{
    if scores.len() == 0 {
        Seq::empty()
    } else if scores[0].label == name {
        scores[0].terms
    } else {
        cell(scores.drop_first(), name)
    }
}

/// One row of the table: a scored row's identity and text, and one cell for
/// each label column, holding the terms of the row's score for that label.
#[derive(Clone, Debug, PartialEq, Eq)]
pub struct TableRow {
    pub row_id: usize,
    pub text: String,
    pub cells: Vec<Vec<Term>>,
}

/// What a row of the table is in contracts.
pub struct TableRowSpec {
    pub row_id: nat,
    pub text: Seq<char>,
    pub cells: Seq<Seq<TermSpec>>,
}

impl DeepView for TableRow {
    type V = TableRowSpec;

    open spec fn deep_view(&self) -> TableRowSpec {
        TableRowSpec {
            row_id: self.row_id as nat,
            text: self.text@,
            cells: self.cells.deep_view(),
        }
    }
}

/// The table: the label columns and the rows. Before the label columns
/// every row has two more, its identity and its text.
#[derive(Clone, Debug, PartialEq, Eq)]
pub struct Table {
    pub labels: Vec<String>,
    pub rows: Vec<TableRow>,
}

/// What the table is in contracts.
pub struct TableSpec {
    pub labels: Seq<Seq<char>>,
    pub rows: Seq<TableRowSpec>,
}

impl DeepView for Table {
    type V = TableSpec;

    open spec fn deep_view(&self) -> TableSpec {
        TableSpec { labels: self.labels.deep_view(), rows: self.rows.deep_view() }
    }
}

/// The row of the table that a scored row gives under the label columns
/// `labels`.
pub open spec fn laid_out(row: RowSpec, labels: Seq<Seq<char>>) -> TableRowSpec {
    TableRowSpec {
        row_id: row.row_id,
        text: row.text,
        cells: Seq::new(labels.len(), |c: int| cell(row.scores, labels[c])),
    }
}

/// Row `a` of `results` stands above row `b` in the table: its identity is
/// the smaller one, or the same and `a` came first.
pub open spec fn row_before(results: Seq<RowSpec>, a: int, b: int) -> bool {
    results[a].row_id < results[b].row_id || (results[a].row_id == results[b].row_id && a < b)
}

/// `order` arranges the first `n` rows of `results` as the table shows
/// them: each of them once, in ascending order of identity, rows of one
/// identity in the order in which they came.
pub open spec fn arranges(order: Seq<int>, results: Seq<RowSpec>, n: int) -> bool {
    &&& order.len() == n
    &&& forall|k: int| 0 <= k < order.len() ==> 0 <= #[trigger] order[k] < n
    &&& forall|r: int| 0 <= r < n ==> order.contains(r)
    &&& forall|k: int, m: int|
        0 <= k < m < order.len() ==> row_before(results, #[trigger] order[k], #[trigger] order[m])
}

/// `table` is the table of `results`: its label columns are the labels that
/// the rows have scores for, in alphabetical order, and its rows are the
/// scored rows in ascending order of identity, each laid out under those
/// columns.
pub open spec fn is_table(table: TableSpec, results: Seq<RowSpec>) -> bool {
    &&& is_columns(table.labels, results)
    &&& exists|order: Seq<int>|
        {
            &&& #[trigger] arranges(order, results, results.len() as int)
            &&& table.rows == Seq::new(
                results.len(),
                |k: int| laid_out(results[order[k]], table.labels),
            )
        }
}

/// The header of a table with the label columns `labels`.
pub open spec fn header_of(labels: Seq<Seq<char>>) -> Seq<Seq<char>> {
    seq!["row_id"@, "text"@] + labels
}

/// The positions that `order` holds, as integers.
pub open spec fn positions(order: Seq<usize>) -> Seq<int> {
    Seq::new(order.len(), |k: int| order[k] as int)
}

/// Copies `terms`.
fn copy_terms(terms: &Vec<Term>) -> (copy: Vec<Term>)
    ensures
        copy@ == terms@,
{
    let mut copy: Vec<Term> = Vec::new();
    let mut i: usize = 0;
    while i < terms.len()
        invariant
            i <= terms.len(),
            copy@ == terms@.take(i as int),
        decreases terms.len() - i,
    {
        copy.push(terms[i]);
        assert(copy@ == terms@.take(i + 1));
        i += 1;
    }
    assert(terms@.take(i as int) == terms@);
    copy
}

/// A cell that skips scores of other labels is the cell of what is left.
proof fn lemma_cell_skip(scores: Seq<ScoreSpec>, name: Seq<char>, i: int)
    requires
        0 <= i <= scores.len(),
        forall|j: int| 0 <= j < i ==> scores[j].label != name,
    ensures
        cell(scores, name) == cell(scores.skip(i), name),
    decreases i,
{
    if i == 0 {
        assert(scores.skip(0) == scores);
    } else {
        lemma_cell_skip(scores, name, i - 1);
        let rest = scores.skip(i - 1);
        assert(rest[0] == scores[i - 1]);
        assert(rest.drop_first() == scores.skip(i));
    }
}

/// The terms of the row's score for the label `name`: those of its first
/// score that belongs to the label, and none when the row has no such
/// score.
pub fn lookup(row: &RowResult, name: &str) -> (terms: Vec<Term>)
    ensures
        terms.deep_view() == cell(row.deep_view().scores, name@),
{
    let ghost scores = row.deep_view().scores;
    let mut i: usize = 0;
    while i < row.scores.len()
        invariant
            i <= row.scores.len(),
            scores == row.deep_view().scores,
            forall|j: int| 0 <= j < i ==> scores[j].label != name@,
        decreases row.scores.len() - i,
    {
        assert(scores[i as int] == row.scores[i as int].deep_view());
        if same_name(row.scores[i].label.as_str(), name) {
            let terms = copy_terms(&row.scores[i].terms);
            proof {
                lemma_cell_skip(scores, name@, i as int);
                assert(scores.skip(i as int)[0] == scores[i as int]);
                assert(terms.deep_view() =~= row.scores[i as int].terms.deep_view());
            }
            return terms;
        }
        i += 1;
    }
    proof {
        lemma_cell_skip(scores, name@, i as int);
        assert(scores.skip(i as int).len() == 0);
    }
    let terms: Vec<Term> = Vec::new();
    assert(terms.deep_view() =~= Seq::<TermSpec>::empty());
    terms
}

/// Lays a scored row out under the label columns `labels`.
pub fn lay_out(row: &RowResult, labels: &Vec<String>) -> (laid: TableRow)
    ensures
        laid.deep_view() == laid_out(row.deep_view(), labels.deep_view()),
{
    let mut cells: Vec<Vec<Term>> = Vec::new();
    let mut c: usize = 0;
    while c < labels.len()
        invariant
            c <= labels.len(),
            cells.deep_view() == laid_out(row.deep_view(), labels.deep_view()).cells.take(c as int),
        decreases labels.len() - c,
    {
        let ghost earlier = cells.deep_view();
        let terms = lookup(row, labels[c].as_str());
        cells.push(terms);
        assert(cells.deep_view() == earlier.push(cell(row.deep_view().scores, labels[c as int]@)));
        c += 1;
    }
    assert(laid_out(row.deep_view(), labels.deep_view()).cells.take(c as int) == laid_out(
        row.deep_view(),
        labels.deep_view(),
    ).cells);
    TableRow { row_id: row.row_id, text: row.text.clone(), cells }
}

/// The order in which the table shows the rows of `results`: ascending
/// identity, rows of one identity in the order in which they came.
pub fn row_order(results: &Vec<RowResult>) -> (order: Vec<usize>)
    ensures
        arranges(positions(order@), results.deep_view(), results.len() as int),
{
    let ghost rows = results.deep_view();
    let mut order: Vec<usize> = Vec::new();
    let mut i: usize = 0;
    while i < results.len()
        invariant
            i <= results.len(),
            rows == results.deep_view(),
            arranges(positions(order@), rows, i as int),
        decreases results.len() - i,
    {
        let ghost before = positions(order@);
        let mut p: usize = order.len();
        assert forall|k: int| 0 <= k < order@.len() implies #[trigger] order@[k] < i by {
            assert(before[k] == order@[k]);
        }
        while p > 0 && results[order[p - 1]].row_id > results[i].row_id
            invariant
                p <= order.len() == i < results.len(),
                forall|k: int| 0 <= k < order@.len() ==> #[trigger] order@[k] < i,
                rows == results.deep_view(),
                before == positions(order@),
                arranges(before, rows, i as int),
                forall|k: int| p <= k < before.len() ==> rows[before[k]].row_id > rows[i as int].row_id,
            decreases p,
        {
            assert(before[p - 1] == order[p - 1]);
            p -= 1;
        }
        proof {
            if p > 0 {
                assert(before[p - 1] == order[p - 1]);
                assert(rows[before[p - 1]].row_id <= rows[i as int].row_id);
            }
        }
        order.insert(p, i);
        proof {
            let after = positions(order@);
            assert(after =~= before.insert(p as int, i as int));
            assert forall|k: int| 0 <= k < after.len() implies 0 <= #[trigger] after[k] < i + 1 by {
                if k < p {
                    assert(after[k] == before[k]);
                } else if k > p {
                    assert(after[k] == before[k - 1]);
                }
            }
            assert forall|r: int| 0 <= r < i + 1 implies after.contains(r) by {
                if r == i {
                    assert(after[p as int] == r);
                } else {
                    assert(before.contains(r));
                    let k = choose|k: int| 0 <= k < before.len() && before[k] == r;
                    if k < p {
                        assert(after[k] == r);
                    } else {
                        assert(after[k + 1] == r);
                    }
                }
            }
            assert forall|k: int, m: int| 0 <= k < m < after.len() implies row_before(
                rows,
                #[trigger] after[k],
                #[trigger] after[m],
            ) by {
                if m < p {
                    assert(row_before(rows, before[k], before[m]));
                } else if m == p {
                    assert(after[k] == before[k]);
                    if k < p - 1 {
                        assert(row_before(rows, before[k], before[p - 1]));
                    }
                } else if k == p {
                    assert(after[m] == before[m - 1]);
                } else if k < p {
                    assert(row_before(rows, before[k], before[m - 1]));
                } else {
                    assert(row_before(rows, before[k - 1], before[m - 1]));
                }
            }
        }
        i += 1;
    }
    order
}

/// Lays the scored rows out as a table. The label columns are the labels
/// that some row has a score for, each once, in alphabetical order. The rows
/// stand in ascending order of identity, rows of one identity in the order
/// in which they came. Under each label column a row shows the terms of its
/// score for that label, and no terms where it has no such score.
pub fn build_table(results: &Vec<RowResult>) -> (table: Table)
    ensures
        is_table(table.deep_view(), results.deep_view()),
{
    let labels = collect_labels(results);
    let order = row_order(results);
    let ghost arrangement = positions(order@);
    let ghost wanted = Seq::new(
        results.deep_view().len(),
        |k: int| laid_out(results.deep_view()[arrangement[k]], labels.deep_view()),
    );
    let mut rows: Vec<TableRow> = Vec::new();
    let mut k: usize = 0;
    while k < order.len()
        invariant
            k <= order.len() == results.len(),
            arrangement == positions(order@),
            arranges(arrangement, results.deep_view(), results.len() as int),
            wanted == Seq::new(
                results.deep_view().len(),
                |k: int| laid_out(results.deep_view()[arrangement[k]], labels.deep_view()),
            ),
            rows.deep_view() == wanted.take(k as int),
        decreases order.len() - k,
    {
        assert(0 <= arrangement[k as int] < results.len());
        let ghost earlier = rows.deep_view();
        let row = lay_out(&results[order[k]], &labels);
        rows.push(row);
        assert(rows.deep_view() == earlier.push(wanted[k as int]));
        k += 1;
    }
    assert(wanted.take(k as int) == wanted);
    Table { labels, rows }
}

impl Table {
    /// The names of the columns: `row_id`, `text`, then the labels.
    pub fn header(&self) -> (names: Vec<String>)
        ensures
            names.deep_view() == header_of(self.deep_view().labels),
    {
        let mut names: Vec<String> = Vec::new();
        names.push("row_id".to_owned());
        names.push("text".to_owned());
        let mut c: usize = 0;
        while c < self.labels.len()
            invariant
                c <= self.labels.len(),
                names.deep_view() == header_of(self.deep_view().labels.take(c as int)),
            decreases self.labels.len() - c,
        {
            let ghost earlier = names.deep_view();
            names.push(self.labels[c].clone());
            assert(names.deep_view() == earlier.push(self.labels[c as int]@));
            c += 1;
        }
        assert(self.deep_view().labels.take(c as int) == self.deep_view().labels);
        names
    }
}

/// The rows have one arrangement: two orders that arrange the first `n`
/// rows are equal.
pub proof fn lemma_arrangement_unique(
    results: Seq<RowSpec>,
    n: int,
    first: Seq<int>,
    second: Seq<int>,
)
    requires
        arranges(first, results, n),
        arranges(second, results, n),
    ensures
        first == second,
{
    let before = |a: int, b: int| row_before(results, a, b);
    assert forall|x: int| first.contains(x) <==> second.contains(x) by {
        if first.contains(x) {
            let k = choose|k: int| 0 <= k < first.len() && first[k] == x;
            assert(0 <= first[k] < n);
        }
        if second.contains(x) {
            let k = choose|k: int| 0 <= k < second.len() && second[k] == x;
            assert(0 <= second[k] < n);
        }
    }
    lemma_ascending_unique(first, second, before);
}

/// The table is determined by the scored rows: two tables of the same rows
/// are equal.
pub proof fn lemma_table_unique(results: Seq<RowSpec>, first: TableSpec, second: TableSpec)
    requires
        is_table(first, results),
        is_table(second, results),
    ensures
        first == second,
{
    lemma_alphabetical_unique(first.labels, second.labels);
    let n = results.len() as int;
    let one = choose|order: Seq<int>|
        {
            &&& #[trigger] arranges(order, results, n)
            &&& first.rows == Seq::new(
                results.len(),
                |k: int| laid_out(results[order[k]], first.labels),
            )
        };
    let other = choose|order: Seq<int>|
        {
            &&& #[trigger] arranges(order, results, n)
            &&& second.rows == Seq::new(
                results.len(),
                |k: int| laid_out(results[order[k]], second.labels),
            )
        };
    lemma_arrangement_unique(results, n, one, other);
    assert(first.rows =~= second.rows);
}

/// `row` shows one of `results` under the label columns `labels`.
pub open spec fn shows(row: TableRowSpec, results: Seq<RowSpec>, labels: Seq<Seq<char>>) -> bool {
    exists|r: int| 0 <= r < results.len() && row == laid_out(#[trigger] results[r], labels)
}

/// The rows of the table are the scored rows, each once, in ascending order
/// of identity: the table has as many rows as there are scored rows, the
/// identities never descend from one row to the next, and every scored row
/// stands in the table, laid out under the table's columns.
pub proof fn lemma_table_rows(results: Seq<RowSpec>, table: TableSpec)
    requires
        is_table(table, results),
    ensures
        table.rows.len() == results.len(),
        forall|k: int, m: int|
            0 <= k < m < table.rows.len() ==> (#[trigger] table.rows[k]).row_id <= (
            #[trigger] table.rows[m]).row_id,
        forall|r: int|
            0 <= r < results.len() ==> table.rows.contains(
                laid_out(#[trigger] results[r], table.labels),
            ),
        forall|k: int|
            0 <= k < table.rows.len() ==> shows(#[trigger] table.rows[k], results, table.labels),
{
    let n = results.len() as int;
    let order = choose|order: Seq<int>|
        {
            &&& #[trigger] arranges(order, results, n)
            &&& table.rows == Seq::new(
                results.len(),
                |k: int| laid_out(results[order[k]], table.labels),
            )
        };
    assert forall|k: int, m: int| 0 <= k < m < table.rows.len() implies (
    #[trigger] table.rows[k]).row_id <= (#[trigger] table.rows[m]).row_id by {
        assert(row_before(results, order[k], order[m]));
    }
    assert forall|r: int| 0 <= r < results.len() implies table.rows.contains(
        laid_out(#[trigger] results[r], table.labels),
    ) by {
        assert(order.contains(r));
        let k = choose|k: int| 0 <= k < order.len() && order[k] == r;
        assert(table.rows[k] == laid_out(results[r], table.labels));
    }
    assert forall|k: int| 0 <= k < table.rows.len() implies shows(
        #[trigger] table.rows[k],
        results,
        table.labels,
    ) by {
        let r = order[k];
        assert(0 <= r < n);
        assert(table.rows[k] == laid_out(results[r], table.labels));
    }
}

/// Scored rows whose identities ascend strictly keep their order in the
/// table: row `k` of the table is scored row `k`, laid out under the table's
/// columns, and the identities ascend strictly in the table too.
pub proof fn lemma_table_keeps_ascending_rows(results: Seq<RowSpec>, table: TableSpec)
    requires
        is_table(table, results),
        forall|k: int, m: int|
            0 <= k < m < results.len() ==> (#[trigger] results[k]).row_id < (
            #[trigger] results[m]).row_id,
    ensures
        table.rows == Seq::new(results.len(), |k: int| laid_out(results[k], table.labels)),
        forall|k: int, m: int|
            0 <= k < m < table.rows.len() ==> (#[trigger] table.rows[k]).row_id < (
            #[trigger] table.rows[m]).row_id,
{
    let n = results.len() as int;
    let order = choose|order: Seq<int>|
        {
            &&& #[trigger] arranges(order, results, n)
            &&& table.rows == Seq::new(
                results.len(),
                |k: int| laid_out(results[order[k]], table.labels),
            )
        };
    let straight = Seq::new(results.len(), |k: int| k);
    assert forall|r: int| 0 <= r < n implies straight.contains(r) by {
        assert(straight[r] == r);
    }
    assert(arranges(straight, results, n));
    lemma_arrangement_unique(results, n, order, straight);
    assert(table.rows =~= Seq::new(results.len(), |k: int| laid_out(results[k], table.labels)));
}

/// Where label names are unique, the cell of a scored text under a label's
/// column holds the terms of that label.
pub proof fn lemma_cell_of_scores(text: Seq<char>, config: ConfigurationSpec, i: int)
    requires
        distinct_names(config.labels),
        0 <= i < config.labels.len(),
    ensures
        cell(scores_of(text, config), config.labels[i].0) == terms_of(
            config.labels[i].1.targets,
            encode_utf8(text),
        ),
{
    let scores = scores_of(text, config);
    let name = config.labels[i].0;
    assert forall|j: int| 0 <= j < i implies scores[j].label != name by {
        assert(config.labels[j].0 != config.labels[i].0);
    }
    lemma_cell_skip(scores, name, i);
    assert(scores.skip(i)[0] == scores[i]);
}

/// A label that has no score among `scores` has an empty cell.
pub proof fn lemma_cell_of_missing_label(scores: Seq<ScoreSpec>, name: Seq<char>)
    requires
        forall|j: int| 0 <= j < scores.len() ==> (#[trigger] scores[j]).label != name,
    ensures
        cell(scores, name) == Seq::<TermSpec>::empty(),
{
    lemma_cell_skip(scores, name, scores.len() as int);
    assert(scores.skip(scores.len() as int).len() == 0);
}

/// Where at least one row was scored, the label columns of rows scored
/// under one configuration are the labels of that configuration.
pub proof fn lemma_columns_of_scored_rows(
    results: Seq<RowSpec>,
    config: ConfigurationSpec,
    labels: Seq<Seq<char>>,
)
    requires
        results.len() > 0,
        forall|r: int|
            0 <= r < results.len() ==> (#[trigger] results[r]).scores == scores_of(
                results[r].text,
                config,
            ),
        is_columns(labels, results),
    ensures
        forall|name: Seq<char>| labels.contains(name) <==> config.as_map().contains_key(name),
{
    assert forall|name: Seq<char>| labels.contains(name) <==> config.as_map().contains_key(
        name,
    ) by {
        if labels.contains(name) {
            assert(mentions(results, name));
            let (r, s) = choose|r: int, s: int|
                0 <= r < results.len() && 0 <= s < results[r].scores.len() && (
                #[trigger] results[r].scores[s]).label == name;
            assert(results[r].scores == scores_of(results[r].text, config));
            assert(config.labels[s].0 == name);
        }
        if config.as_map().contains_key(name) {
            let i = config.position(name).unwrap();
            assert(results[0].scores == scores_of(results[0].text, config));
            assert(results[0].scores[i].label == name);
            assert(mentions(results, name));
        }
    }
}

} // verus!
