//! Scoring one row: its text, and for every label the terms of its score.

use crate::config::{compiled, Configuration, ConfigurationSpec, NGramTarget, TargetSpec};
use crate::matcher::{count, find_occurrences};
use crate::pattern::pattern_of;
use vstd::prelude::*;
use vstd::string::StringExecFns;
use vstd::utf8::encode_utf8;

verus! {

/// One term of a score: a pattern was found `count` times, and each match
/// weighs the binary64 number whose bit pattern is `weight_bits`.
#[derive(Clone, Copy, Debug, PartialEq, Eq)]
pub struct Term {
    pub count: usize,
    pub weight_bits: u64,
}

/// What a term is in contracts.
pub struct TermSpec {
    pub count: nat,
    pub weight_bits: u64,
}

impl DeepView for Term {
    type V = TermSpec;

    open spec fn deep_view(&self) -> TermSpec {
        TermSpec { count: self.count as nat, weight_bits: self.weight_bits }
    }
}

/// The score of one label in one row, held as the terms of its sum in the
/// order of the label's rules. The score is the sum of `count × weight` over
/// the terms; with no term it is zero.
#[derive(Clone, Debug, PartialEq, Eq)]
pub struct LabelScore {
    pub label: String,
    pub terms: Vec<Term>,
}

/// What a label's score is in contracts.
pub struct ScoreSpec {
    pub label: Seq<char>,
    pub terms: Seq<TermSpec>,
}

impl DeepView for LabelScore {
    type V = ScoreSpec;

    open spec fn deep_view(&self) -> ScoreSpec {
        ScoreSpec { label: self.label@, terms: self.terms.deep_view() }
    }
}

/// A scored row: its position in the input, its text, and one score for each
/// label.
#[derive(Clone, Debug, PartialEq, Eq)]
pub struct RowResult {
    pub row_id: usize,
    pub text: String,
    pub scores: Vec<LabelScore>,
}

/// What a scored row is in contracts.
pub struct RowSpec {
    pub row_id: nat,
    pub text: Seq<char>,
    pub scores: Seq<ScoreSpec>,
}

impl DeepView for RowResult {
    type V = RowSpec;

    open spec fn deep_view(&self) -> RowSpec {
        RowSpec { row_id: self.row_id as nat, text: self.text@, scores: self.scores.deep_view() }
    }
}

/// The fields in their order, with one space between neighbours.
pub open spec fn joined(fields: Seq<Seq<char>>) -> Seq<char>
    decreases fields.len(),
{
    if fields.len() == 0 {
        Seq::empty()
    } else if fields.len() == 1 {
        fields[0]
    } else {
        joined(fields.drop_last()) + seq![' '] + fields.last()
    }
}

/// The terms that `targets` contribute on `text`: one for each rule whose
/// pattern can be decoded, in the order of the rules, with the number of
/// matches of that pattern in `text`. A rule whose pattern cannot be decoded
/// contributes nothing.
pub open spec fn terms_of(targets: Seq<TargetSpec>, text: Seq<u8>) -> Seq<TermSpec>
    decreases targets.len(),
{
    if targets.len() == 0 {
        Seq::empty()
    } else {
        let earlier = terms_of(targets.drop_last(), text);
        match pattern_of(targets.last().bytes_pattern) {
            Some(pattern) => earlier.push(
                TermSpec { count: count(text, pattern), weight_bits: targets.last().weight_bits },
            ),
            None => earlier,
        }
    }
}

/// The scores of a text: for each label of `config`, in its order, the terms
/// that the label's rules contribute on the bytes of `text`.
pub open spec fn scores_of(text: Seq<char>, config: ConfigurationSpec) -> Seq<ScoreSpec> {
    Seq::new(
        config.labels.len(),
        |i: int|
            ScoreSpec {
                label: config.labels[i].0,
                terms: terms_of(config.labels[i].1.targets, encode_utf8(text)),
            },
    )
}

/// The scored row that the fields of row `row_id` give under `config`.
pub open spec fn scored(row_id: nat, fields: Seq<Seq<char>>, config: ConfigurationSpec) -> RowSpec {
    RowSpec { row_id, text: joined(fields), scores: scores_of(joined(fields), config) }
}

/// Joins the fields of a row into its text: the fields in their order, one
/// space between neighbours.
pub fn join_fields(fields: &Vec<String>) -> (text: String)
    ensures
        text@ == joined(fields.deep_view()),
{
    let mut text = String::new();
    let mut i: usize = 0;
    while i < fields.len()
        invariant
            i <= fields.len(),
            text@ == joined(fields.deep_view().take(i as int)),
        decreases fields.len() - i,
    {
        let ghost before = fields.deep_view().take(i as int);
        let ghost now = fields.deep_view().take(i + 1);
        if i > 0 {
            proof {
                reveal_strlit(" ");
            }
            text.append(" ");
            assert(text@ == joined(before) + seq![' ']);
        }
        text.append(fields[i].as_str());
        proof {
            assert(now.drop_last() == before);
            assert(now.last() == fields[i as int]@);
            if i == 0 {
                assert(text@ == fields[i as int]@);
            }
        }
        i += 1;
    }
    assert(fields.deep_view().take(i as int) == fields.deep_view());
    text
}

/// Counts each decoded pattern of a label in `text`.
fn label_terms(targets: &Vec<NGramTarget>, patterns: &Vec<Option<Vec<u8>>>, text: &[u8]) -> (terms:
    Vec<Term>)
    requires
        compiled(targets.deep_view(), patterns.deep_view()),
    ensures
        terms.deep_view() == terms_of(targets.deep_view(), text@),
{
    let mut terms: Vec<Term> = Vec::new();
    let mut t: usize = 0;
    while t < targets.len()
        invariant
            t <= targets.len(),
            compiled(targets.deep_view(), patterns.deep_view()),
            terms.deep_view() == terms_of(targets.deep_view().take(t as int), text@),
        decreases targets.len() - t,
    {
        let ghost before = targets.deep_view().take(t as int);
        let ghost now = targets.deep_view().take(t + 1);
        proof {
            assert(now.drop_last() == before);
            assert(now.last() == targets[t as int].deep_view());
            assert(patterns.deep_view()[t as int] == pattern_of(targets[t as int].bytes_pattern@));
        }
        match &patterns[t] {
            Some(pattern) => {
                let found = find_occurrences(text, pattern.as_slice());
                proof {
                    assert(pattern.deep_view() =~= pattern@);
                }
                let ghost earlier = terms.deep_view();
                let term = Term { count: found, weight_bits: targets[t].weight_bits };
                terms.push(term);
                assert(terms.deep_view() == earlier.push(term.deep_view()));
            },
            None => {},
        }
        t += 1;
    }
    assert(targets.deep_view().take(t as int) == targets.deep_view());
    terms
}

/// Scores one row. The row's text is its fields joined by single spaces.
/// Every label of the configuration receives a score, in the configuration's
/// order: one term for each of its rules whose pattern can be decoded, with
/// the number of non-overlapping matches of the pattern in the bytes of the
/// text.
pub fn process_row(row_id: usize, fields: &Vec<String>, config: &Configuration) -> (row: RowResult)
    ensures
        row.deep_view() == scored(row_id as nat, fields.deep_view(), config.deep_view()),
{
    let text = join_fields(fields);
    let mut scores: Vec<LabelScore> = Vec::new();
    let labels: usize = config.len();
    let mut i: usize = 0;
    while i < labels
        invariant
            i <= labels == config.deep_view().labels.len(),
            scores.deep_view() == scores_of(text@, config.deep_view()).take(i as int),
        decreases labels - i,
    {
        let terms = label_terms(
            &config.label(i).targets,
            config.patterns(i),
            text.as_str().as_bytes(),
        );
        let ghost earlier = scores.deep_view();
        let score = LabelScore { label: config.name(i).clone(), terms };
        scores.push(score);
        assert(scores.deep_view() == earlier.push(score.deep_view()));
        i += 1;
    }
    assert(scores_of(text@, config.deep_view()).take(i as int) == scores_of(
        text@,
        config.deep_view(),
    ));
    RowResult { row_id, text, scores }
}

/// A score is the sum of what each rule contributes: the terms of two runs
/// of rules are the terms of the first run followed by those of the second,
/// whatever the other run holds.
pub proof fn lemma_terms_add(first: Seq<TargetSpec>, second: Seq<TargetSpec>, text: Seq<u8>)
    ensures
        terms_of(first + second, text) == terms_of(first, text) + terms_of(second, text),
    decreases second.len(),
{
    if second.len() == 0 {
        assert(first + second == first);
        assert(terms_of(first, text) + terms_of(second, text) == terms_of(first, text));
    } else {
        let all = first + second;
        assert(all.drop_last() == first + second.drop_last());
        assert(all.last() == second.last());
        lemma_terms_add(first, second.drop_last(), text);
        let head = terms_of(first, text);
        let tail = terms_of(second.drop_last(), text);
        match pattern_of(second.last().bytes_pattern) {
            Some(pattern) => {
                let term = TermSpec {
                    count: count(text, pattern),
                    weight_bits: second.last().weight_bits,
                };
                assert((head + tail).push(term) == head + tail.push(term));
            },
            None => {},
        }
    }
}

/// One rule alone contributes one term, the number of matches of its
/// pattern with its weight, when its pattern can be decoded, and nothing
/// when it cannot.
pub proof fn lemma_terms_of_one(target: TargetSpec, text: Seq<u8>)
    ensures
        terms_of(seq![target], text) == match pattern_of(target.bytes_pattern) {
            Some(pattern) => seq![
                TermSpec { count: count(text, pattern), weight_bits: target.weight_bits },
            ],
            None => Seq::empty(),
        },
{
    let one = seq![target];
    assert(one.drop_last() == Seq::<TargetSpec>::empty());
    assert(one.last() == target);
    assert(terms_of(one.drop_last(), text) == Seq::<TermSpec>::empty());
    match pattern_of(target.bytes_pattern) {
        Some(pattern) => {
            let term = TermSpec { count: count(text, pattern), weight_bits: target.weight_bits };
            assert(Seq::<TermSpec>::empty().push(term) == seq![term]);
        },
        None => {},
    }
}

/// A rule whose pattern cannot be decoded is left out of the score: the
/// terms are those of the other rules.
pub proof fn lemma_undecodable_rule_is_skipped(targets: Seq<TargetSpec>, i: int, text: Seq<u8>)
    requires
        0 <= i < targets.len(),
        pattern_of(targets[i].bytes_pattern) is None,
    ensures
        terms_of(targets, text) == terms_of(targets.remove(i), text),
{
    let before = targets.take(i);
    let after = targets.skip(i + 1);
    let one = seq![targets[i]];
    assert(targets == before + one + after);
    assert(targets.remove(i) == before + after);
    lemma_terms_add(before + one, after, text);
    lemma_terms_add(before, one, text);
    lemma_terms_add(before, after, text);
    lemma_terms_of_one(targets[i], text);
    assert(terms_of(before, text) + Seq::<TermSpec>::empty() == terms_of(before, text));
}

/// Where no pattern of a label is found in the text, every term of the
/// label's score counts zero matches.
pub proof fn lemma_unmatched_terms_count_zero(targets: Seq<TargetSpec>, text: Seq<u8>)
    requires
        forall|t: int|
            0 <= t < targets.len() ==> (#[trigger] pattern_of(targets[t].bytes_pattern) matches Some(
                pattern,
            ) ==> count(text, pattern) == 0),
    ensures
        forall|k: int|
            0 <= k < terms_of(targets, text).len() ==> (#[trigger] terms_of(targets, text)[k]).count
                == 0,
    decreases targets.len(),
{
    if targets.len() > 0 {
        let earlier = targets.drop_last();
        assert forall|t: int| 0 <= t < earlier.len() implies (#[trigger] pattern_of(
            earlier[t].bytes_pattern,
        ) matches Some(pattern) ==> count(text, pattern) == 0) by {
            assert(earlier[t] == targets[t]);
        }
        lemma_unmatched_terms_count_zero(earlier, text);
        let terms = terms_of(targets, text);
        let before = terms_of(earlier, text);
        assert forall|k: int| 0 <= k < terms.len() implies (#[trigger] terms[k]).count == 0 by {
            if k < before.len() {
                assert(terms[k] == before[k]);
            } else {
                let t = targets.len() - 1;
                assert(pattern_of(targets[t].bytes_pattern) is Some);
            }
        }
    }
}

/// Every label of the configuration has a score in every scored row, at the
/// label's own position, whether or not any of its patterns was found.
pub proof fn lemma_scores_complete(row_id: nat, fields: Seq<Seq<char>>, config: ConfigurationSpec)
    ensures
        scored(row_id, fields, config).scores.len() == config.labels.len(),
        forall|i: int|
            0 <= i < config.labels.len() ==> (#[trigger] scored(
                row_id,
                fields,
                config,
            ).scores[i]).label == config.labels[i].0,
        forall|name: Seq<char>|
            config.as_map().contains_key(name) ==> exists|i: int|
                0 <= i < config.labels.len() && (#[trigger] scored(
                    row_id,
                    fields,
                    config,
                ).scores[i]).label == name,
{
    let row = scored(row_id, fields, config);
    assert forall|name: Seq<char>| config.as_map().contains_key(name) implies exists|i: int|
        0 <= i < config.labels.len() && (#[trigger] row.scores[i]).label == name by {
        let i = config.position(name).unwrap();
        assert(row.scores[i].label == name);
    }
}

} // verus!
