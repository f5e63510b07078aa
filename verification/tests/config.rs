use byteclasser::config::{ConfigError, Configuration, LabelTarget, Metadata, NGramTarget};

fn metadata() -> Metadata {
    Metadata {
        min_frequency: 3,
        min_uniqueness_bits: 0.5f64.to_bits(),
        ngram_range: (2, 5),
    }
}

fn rule(hex: &str, weight: f64) -> NGramTarget {
    NGramTarget {
        text: String::from("shown"),
        weight_bits: weight.to_bits(),
        frequency: 7,
        uniqueness_bits: 0.25f64.to_bits(),
        bytes_pattern: String::from(hex),
    }
}

fn label(name: &str, rules: Vec<NGramTarget>) -> (String, LabelTarget) {
    (
        String::from(name),
        LabelTarget { label: String::from(name), targets: rules },
    )
}

#[test]
fn a_configuration_holds_its_labels_in_order() {
    let config = Configuration::new(
        metadata(),
        vec![
            label("beta", vec![rule("62", 1.0)]),
            label("alpha", vec![rule("61", 2.0), rule("6g", 3.0)]),
        ],
    )
    .unwrap();
    assert_eq!(config.len(), 2);
    assert_eq!(config.name(0), "beta");
    assert_eq!(config.name(1), "alpha");
    assert_eq!(config.label(1).targets.len(), 2);
    assert_eq!(config.label(1).targets[0], rule("61", 2.0));
    assert_eq!(*config.metadata(), metadata());
}

#[test]
fn an_empty_configuration_is_accepted() {
    let config = Configuration::new(metadata(), Vec::new()).unwrap();
    assert_eq!(config.len(), 0);
    assert!(config.targets("alpha").is_none());
}

#[test]
fn a_repeated_label_name_is_malformed() {
    let built = Configuration::new(
        metadata(),
        vec![
            label("alpha", vec![rule("61", 1.0)]),
            label("beta", Vec::new()),
            label("alpha", Vec::new()),
        ],
    );
    assert!(matches!(built, Err(ConfigError::Malformed)));
}

#[test]
fn the_readable_name_need_not_be_the_key() {
    let config = Configuration::new(
        metadata(),
        vec![
            (
                String::from("alpha"),
                LabelTarget { label: String::from("same"), targets: Vec::new() },
            ),
            (
                String::from("beta"),
                LabelTarget { label: String::from("same"), targets: Vec::new() },
            ),
        ],
    )
    .unwrap();
    assert_eq!(config.len(), 2);
    assert_eq!(config.label(0).label, "same");
}

#[test]
fn patterns_are_decoded_when_the_configuration_is_built() {
    let config = Configuration::new(
        metadata(),
        vec![label("alpha", vec![rule("6162", 2.0), rule("6g", 3.0), rule("", 1.0)])],
    )
    .unwrap();
    assert_eq!(
        *config.patterns(0),
        vec![Some(b"ab".to_vec()), None, Some(Vec::new())]
    );
}

#[test]
fn rules_are_looked_up_by_label_name() {
    let config = Configuration::new(
        metadata(),
        vec![
            label("alpha", vec![rule("61", 2.0)]),
            label("beta", vec![rule("62", 1.0), rule("63", -1.0)]),
        ],
    )
    .unwrap();
    assert_eq!(config.targets("beta").unwrap().len(), 2);
    assert_eq!(config.targets("beta").unwrap()[1], rule("63", -1.0));
    assert_eq!(config.targets("alpha").unwrap()[0], rule("61", 2.0));
    assert!(config.targets("gamma").is_none());
    assert!(config.targets("").is_none());
    assert!(config.targets("alph").is_none());
}
