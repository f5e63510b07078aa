//! The vocabulary: labels, and the weighted patterns that each one owns.

use crate::order::same_name;
use crate::pattern::{decode_pattern, pattern_of};
use vstd::prelude::*;

verus! {

/// Figures that come with a vocabulary. They are carried along; matching
/// reads none of them.
#[derive(Clone, Copy, Debug, PartialEq, Eq)]
pub struct Metadata {
    /// Least frequency of a pattern in the source vocabulary.
    pub min_frequency: u32,
    /// Least uniqueness of a pattern, a binary64 number by its bit pattern.
    pub min_uniqueness_bits: u64,
    /// Shortest and longest pattern length.
    pub ngram_range: (u32, u32),
}

/// One scoring rule: a pattern and the weight of each of its matches.
#[derive(Clone, Debug, PartialEq, Eq)]
pub struct NGramTarget {
    /// The pattern as a reader would write it. Matching does not read it.
    pub text: String,
    /// The weight, a binary64 number by its bit pattern.
    pub weight_bits: u64,
    /// How often the pattern occurred in the source vocabulary.
    pub frequency: u32,
    /// How unique the pattern was there, a binary64 number by its bit pattern.
    pub uniqueness_bits: u64,
    /// The pattern's bytes in hexadecimal.
    pub bytes_pattern: String,
}

/// What a scoring rule is in contracts.
pub struct TargetSpec {
    pub text: Seq<char>,
    pub weight_bits: u64,
    pub frequency: u32,
    pub uniqueness_bits: u64,
    pub bytes_pattern: Seq<char>,
}

impl DeepView for NGramTarget {
    type V = TargetSpec;

    open spec fn deep_view(&self) -> TargetSpec {
        TargetSpec {
            text: self.text@,
            weight_bits: self.weight_bits,
            frequency: self.frequency,
            uniqueness_bits: self.uniqueness_bits,
            bytes_pattern: self.bytes_pattern@,
        }
    }
}

/// A label's readable name and its scoring rules, in their given order.
#[derive(Clone, Debug, PartialEq, Eq)]
pub struct LabelTarget {
    pub label: String,
    pub targets: Vec<NGramTarget>,
}

/// What a label's rules are in contracts.
pub struct LabelSpec {
    pub label: Seq<char>,
    pub targets: Seq<TargetSpec>,
}

impl DeepView for LabelTarget {
    type V = LabelSpec;

    open spec fn deep_view(&self) -> LabelSpec {
        LabelSpec { label: self.label@, targets: self.targets.deep_view() }
    }
}

/// What a configuration is in contracts: the metadata, and the labels in
/// their given order, each a name with its rules.
pub struct ConfigurationSpec {
    pub metadata: Metadata,
    pub labels: Seq<(Seq<char>, LabelSpec)>,
}

impl ConfigurationSpec {
    /// The position of the label called `name`, if there is one.
    pub open spec fn position(self, name: Seq<char>) -> Option<int> {
        if exists|i: int| 0 <= i < self.labels.len() && self.labels[i].0 == name {
            Some(choose|i: int| 0 <= i < self.labels.len() && self.labels[i].0 == name)
        } else {
            None
        }
    }

    /// The labels as a mapping from name to rules.
    pub open spec fn as_map(self) -> Map<Seq<char>, LabelSpec> {
        Map::new(
            |name: Seq<char>| self.position(name) is Some,
            |name: Seq<char>| self.labels[self.position(name).unwrap()].1,
        )
    }
}

/// No name stands twice among `labels`.
pub open spec fn distinct_names(labels: Seq<(Seq<char>, LabelSpec)>) -> bool {
    forall|i: int, j: int|
        0 <= i < j < labels.len() ==> (#[trigger] labels[i]).0 != (#[trigger] labels[j]).0
}

/// Why a configuration cannot be built.
#[derive(Clone, Copy, Debug, PartialEq, Eq)]
pub enum ConfigError {
    /// The vocabulary is not a mapping: a label name stands twice in it.
    Malformed,
}

/// A vocabulary ready for scoring. It is built once and never changes. Label
/// names are unique in it, and the bytes of every pattern that can be decoded
/// are kept beside it, so that scoring a row decodes nothing.
pub struct Configuration {
    metadata: Metadata,
    labels: Vec<(String, LabelTarget)>,
    patterns: Vec<Vec<Option<Vec<u8>>>>,
}

impl DeepView for Configuration {
    type V = ConfigurationSpec;

    closed spec fn deep_view(&self) -> ConfigurationSpec {
        ConfigurationSpec { metadata: self.metadata, labels: self.labels.deep_view() }
    }
}

/// `patterns` holds, for each of `targets`, the bytes that its hexadecimal
/// pattern spells, or nothing where it spells none.
pub open spec fn compiled(targets: Seq<TargetSpec>, patterns: Seq<Option<Seq<u8>>>) -> bool {
    &&& patterns.len() == targets.len()
    &&& forall|t: int|
        0 <= t < targets.len() ==> #[trigger] patterns[t] == pattern_of(targets[t].bytes_pattern)
}

/// Decodes the pattern of each of `targets`.
fn compile_targets(targets: &Vec<NGramTarget>) -> (patterns: Vec<Option<Vec<u8>>>)
    ensures
        compiled(targets.deep_view(), patterns.deep_view()),
{
    let mut patterns: Vec<Option<Vec<u8>>> = Vec::new();
    let mut t: usize = 0;
    while t < targets.len()
        invariant
            t <= targets.len(),
            compiled(targets.deep_view().take(t as int), patterns.deep_view()),
        decreases targets.len() - t,
    {
        let pattern = match decode_pattern(targets[t].bytes_pattern.as_str()) {
            Ok(bytes) => Some(bytes),
            Err(_) => None,
        };
        let ghost before = patterns.deep_view();
        let ghost decoded = pattern.deep_view();
        proof {
            if pattern is Some {
                assert(pattern->0.deep_view() =~= pattern->0@);
            }
            assert(decoded == pattern_of(targets[t as int].bytes_pattern@));
        }
        patterns.push(pattern);
        proof {
            let now = patterns.deep_view();
            let rules = targets.deep_view().take(t + 1);
            assert forall|k: int| 0 <= k < rules.len() implies #[trigger] now[k] == pattern_of(
                rules[k].bytes_pattern,
            ) by {
                if k < t {
                    assert(now[k] == before[k]);
                    assert(rules[k] == targets.deep_view().take(t as int)[k]);
                } else {
                    assert(now[k] == decoded);
                }
            }
        }
        t += 1;
    }
    assert(targets.deep_view().take(t as int) == targets.deep_view());
    patterns
}

/// Tells whether the name at position `i` stands at an earlier position too.
fn repeats_earlier(labels: &Vec<(String, LabelTarget)>, i: usize) -> (found: bool)
    requires
        i < labels.len(),
    ensures
        found == exists|j: int| 0 <= j < i && labels[j].0@ == labels[i as int].0@,
{
    let mut j: usize = 0;
    while j < i
        invariant
            j <= i < labels.len(),
            forall|k: int| 0 <= k < j ==> labels[k].0@ != labels[i as int].0@,
        decreases i - j,
    {
        if labels[j].0 == labels[i].0 {
            return true;
        }
        j += 1;
    }
    false
}

impl Configuration {
    #[verifier::type_invariant]
    spec fn well_formed(self) -> bool {
        &&& distinct_names(self.labels.deep_view())
        &&& self.patterns.len() == self.labels.len()
        &&& forall|i: int|
            0 <= i < self.labels.len() ==> compiled(
                (#[trigger] self.labels[i]).1.targets.deep_view(),
                self.patterns[i].deep_view(),
            )
    }

    /// Builds the configuration that holds `labels`, each a name with its
    /// rules, and decodes every pattern once. Fails with `Malformed` when a
    /// name stands twice among them.
    pub fn new(metadata: Metadata, labels: Vec<(String, LabelTarget)>) -> (res: Result<
        Configuration,
        ConfigError,
    >)
        ensures
            match res {
                Ok(config) => {
                    &&& distinct_names(labels.deep_view())
                    &&& config.deep_view() == ConfigurationSpec {
                        metadata,
                        labels: labels.deep_view(),
                    }
                },
                Err(e) => e == ConfigError::Malformed && !distinct_names(labels.deep_view()),
            },
    {
        let mut patterns: Vec<Vec<Option<Vec<u8>>>> = Vec::new();
        let mut i: usize = 0;
        while i < labels.len()
            invariant
                i <= labels.len(),
                distinct_names(labels.deep_view().take(i as int)),
                patterns.len() == i,
                forall|k: int|
                    0 <= k < i ==> compiled(
                        (#[trigger] labels[k]).1.targets.deep_view(),
                        patterns[k].deep_view(),
                    ),
            decreases labels.len() - i,
        {
            if repeats_earlier(&labels, i) {
                proof {
                    let j = choose|j: int| 0 <= j < i && labels[j].0@ == labels[i as int].0@;
                    assert(labels.deep_view()[j].0 == labels.deep_view()[i as int].0);
                }
                return Err(ConfigError::Malformed);
            }
            let compiled_label = compile_targets(&labels[i].1.targets);
            patterns.push(compiled_label);
            proof {
                let before = labels.deep_view().take(i as int);
                let now = labels.deep_view().take(i + 1);
                assert forall|a: int, b: int| 0 <= a < b < now.len() implies (#[trigger] now[a]).0
                    != (#[trigger] now[b]).0 by {
                    if b < i {
                        assert(before[a].0 != before[b].0);
                    } else {
                        assert(labels[a].0@ != labels[i as int].0@);
                    }
                }
            }
            i += 1;
        }
        assert(labels.deep_view().take(i as int) == labels.deep_view());
        Ok(Configuration { metadata, labels, patterns })
    }

    /// The metadata that the configuration was built with.
    pub fn metadata(&self) -> (m: &Metadata)
        ensures
            *m == self.deep_view().metadata,
    {
        &self.metadata
    }

    /// The number of labels.
    pub fn len(&self) -> (n: usize)
        ensures
            n == self.deep_view().labels.len(),
            distinct_names(self.deep_view().labels),
    {
        proof {
            use_type_invariant(self);
        }
        self.labels.len()
    }

    /// The name of the label at position `i`.
    pub fn name(&self, i: usize) -> (name: &String)
        requires
            i < self.deep_view().labels.len(),
        ensures
            name@ == self.deep_view().labels[i as int].0,
    {
        &self.labels[i].0
    }

    /// The rules of the label at position `i`.
    pub fn label(&self, i: usize) -> (label: &LabelTarget)
        requires
            i < self.deep_view().labels.len(),
        ensures
            label.deep_view() == self.deep_view().labels[i as int].1,
    {
        &self.labels[i].1
    }

    /// The decoded patterns of the label at position `i`, one for each of
    /// its rules.
    pub fn patterns(&self, i: usize) -> (patterns: &Vec<Option<Vec<u8>>>)
        requires
            i < self.deep_view().labels.len(),
        ensures
            compiled(self.deep_view().labels[i as int].1.targets, patterns.deep_view()),
    {
        proof {
            use_type_invariant(self);
        }
        &self.patterns[i]
    }

    /// The rules of the label called `name`, in their given order; `None`
    /// when no label has that name.
    pub fn targets(&self, name: &str) -> (found: Option<&Vec<NGramTarget>>)
        ensures
            match found {
                Some(targets) => self.deep_view().as_map().contains_key(name@)
                    && targets.deep_view() == self.deep_view().as_map()[name@].targets,
                None => !self.deep_view().as_map().contains_key(name@),
            },
    {
        proof {
            use_type_invariant(self);
        }
        let mut i: usize = 0;
        while i < self.labels.len()
            invariant
                i <= self.labels.len(),
                forall|k: int| 0 <= k < i ==> self.labels[k].0@ != name@,
            decreases self.labels.len() - i,
        {
            if same_name(self.labels[i].0.as_str(), name) {
                proof {
                    use_type_invariant(self);
                    let spec = self.deep_view();
                    assert(spec.labels[i as int].0 == name@);
                    let p = spec.position(name@).unwrap();
                    assert(0 <= p < spec.labels.len() && spec.labels[p].0 == name@);
                    if p != i {
                        if p < i {
                            assert(spec.labels[p].0 != spec.labels[i as int].0);
                        } else {
                            assert(spec.labels[i as int].0 != spec.labels[p].0);
                        }
                    }
                }
                return Some(&self.labels[i].1.targets);
            }
            i += 1;
        }
        proof {
            let spec = self.deep_view();
            if spec.position(name@) is Some {
                let p = spec.position(name@).unwrap();
                assert(self.labels[p].0@ != name@);
            }
        }
        None
    }
}

} // verus!
