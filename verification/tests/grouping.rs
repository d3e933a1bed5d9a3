//! Tests of the grouping pipeline, from the comparator scale through the
//! merge-tree engine to the threshold cut.

use group_similar::{
    group_similar, similarity_matrix, threshold_cut, Comparator, Config, ConfigError, Group,
    JaroWinkler, MergeStep, Threshold, DISSIMILARITY_MAX, THRESHOLD_DEFAULT,
};
use std::collections::BTreeMap;

/// The scale value of a dissimilarity cutoff given as a fraction in
/// [0, 1]: the library's integer image of "dissimilarity at most `t`".
fn scaled(t: f32) -> u32 {
    1.0f32.to_bits() - (1.0f32 - t).to_bits()
}

fn strings(values: &[&str]) -> Vec<String> {
    values.iter().map(|v| v.to_string()).collect()
}

/// Renders groups of indices as the original record texts keyed by
/// representative, for comparison against expected outcomes.
fn as_map<'a>(values: &'a [String], groups: &[Group]) -> BTreeMap<&'a str, Vec<&'a str>> {
    let mut map = BTreeMap::new();
    for group in groups {
        map.insert(
            values[group.representative].as_str(),
            group.matches.iter().map(|&m| values[m].as_str()).collect(),
        );
    }
    map
}

#[test]
fn allows_for_empty_list() {
    let threshold = Threshold::new(scaled(1.0)).expect("permissive threshold");

    let config = Config::jaro_winkler(threshold);

    let values: Vec<String> = vec![];

    let outcome: BTreeMap<&str, Vec<&str>> = BTreeMap::new();
    assert_eq!(outcome, as_map(&values, &group_similar(&values, &config)));
}

#[test]
fn groups_all_together_with_permissive_threshold() {
    let threshold = Threshold::new(scaled(1.0)).expect("permissive threshold");

    let config = Config::jaro_winkler(threshold);

    let values = strings(&["hello", "world"]);

    let mut outcome = BTreeMap::new();
    outcome.insert("hello", vec!["world"]);
    assert_eq!(outcome, as_map(&values, &group_similar(&values, &config)));
}

#[test]
fn groups_nothing_together_with_strict_threshold() {
    let threshold = Threshold::new(scaled(0.0)).expect("strict threshold");

    let config = Config::jaro_winkler(threshold);

    let values = strings(&["hello", "world"]);

    let mut outcome = BTreeMap::new();
    outcome.insert("hello", vec![]);
    outcome.insert("world", vec![]);
    assert_eq!(outcome, as_map(&values, &group_similar(&values, &config)));
}

#[test]
fn groups_similar_values() {
    let threshold = Threshold::new(scaled(0.25)).expect("fairly strict threshold");

    let config = Config::jaro_winkler(threshold);

    let values = strings(&["Jane", "June", "Joan", "Joseph"]);

    let mut outcome = BTreeMap::new();
    outcome.insert("Jane", vec!["June"]);
    outcome.insert("Joan", vec![]);
    outcome.insert("Joseph", vec![]);
    assert_eq!(outcome, as_map(&values, &group_similar(&values, &config)));
}

#[test]
fn groups_similar_values_loosely() {
    let threshold = Threshold::new(scaled(0.5)).expect("fairly permissive threshold");

    let config = Config::jaro_winkler(threshold);

    let values = strings(&[
        "Henry", "Jane", "June", "Joan", "Jos\u{e9}", "Barry", "Joseph", "Mary", "Henry", "Harry",
    ]);

    let mut outcome = BTreeMap::new();
    outcome.insert("Jos\u{e9}", vec!["Joseph", "Joan", "Jane", "June"]);
    outcome.insert("Henry", vec!["Henry", "Mary", "Barry", "Harry"]);
    assert_eq!(outcome, as_map(&values, &group_similar(&values, &config)));
}

#[test]
fn every_record_appears_exactly_once() {
    let threshold = Threshold::default();
    let config = Config::jaro_winkler(threshold);
    let values = strings(&["Jane", "June", "Joan", "Joseph", "Jane"]);

    let groups = group_similar(&values, &config);
    let mut seen = vec![0usize; values.len()];
    for group in &groups {
        seen[group.representative] += 1;
        for &m in &group.matches {
            seen[m] += 1;
        }
    }
    assert_eq!(seen, vec![1usize; values.len()]);
}

#[test]
fn single_record_is_its_own_group() {
    let config = Config::jaro_winkler(Threshold::default());
    let values = strings(&["only"]);

    let mut outcome = BTreeMap::new();
    outcome.insert("only", vec![]);
    assert_eq!(outcome, as_map(&values, &group_similar(&values, &config)));
}

#[test]
fn threshold_boundary_is_inclusive() {
    // One merge whose dissimilarity equals the threshold exactly: the
    // boundary is inclusive, so the two records form one group.
    let steps = vec![MergeStep { cluster1: 0, cluster2: 1, dissimilarity: 7 }];
    let at_boundary = Threshold::new(7).expect("threshold on the scale");
    let groups = threshold_cut(2, &steps, &at_boundary);
    assert_eq!(groups.len(), 1);
    assert_eq!(groups[0].representative, 0);
    assert_eq!(groups[0].matches, vec![1]);

    // One unit below the same merge, nothing qualifies.
    let below = Threshold::new(6).expect("threshold on the scale");
    let apart = threshold_cut(2, &steps, &below);
    assert_eq!(apart.len(), 2);
    assert!(apart.iter().all(|g| g.matches.is_empty()));
}

#[test]
fn exact_duplicates_group_at_strict_threshold() {
    let threshold = Threshold::new(scaled(0.0)).expect("strict threshold");
    let config = Config::jaro_winkler(threshold);
    let values = strings(&["same", "same", "other"]);

    let mut outcome = BTreeMap::new();
    outcome.insert("same", vec!["same"]);
    outcome.insert("other", vec![]);
    assert_eq!(outcome, as_map(&values, &group_similar(&values, &config)));
}

#[test]
fn raising_threshold_never_splits_groups() {
    let values = strings(&["Jane", "June", "Joan", "Joseph", "Mary", "Harry"]);
    let config_strict =
        Config::jaro_winkler(Threshold::new(scaled(0.25)).expect("fairly strict threshold"));
    let config_loose =
        Config::jaro_winkler(Threshold::new(scaled(0.5)).expect("fairly permissive threshold"));

    let strict = group_similar(&values, &config_strict);
    let loose = group_similar(&values, &config_loose);

    for narrow in &strict {
        let mut members = vec![narrow.representative];
        members.extend(narrow.matches.iter().copied());
        let holds_all = loose.iter().any(|wide| {
            let mut wide_members = vec![wide.representative];
            wide_members.extend(wide.matches.iter().copied());
            members.iter().all(|m| wide_members.contains(m))
        });
        assert!(holds_all, "a group was split when the threshold was raised");
    }
}

#[test]
fn threshold_beyond_scale_is_rejected() {
    assert!(matches!(
        Threshold::new(DISSIMILARITY_MAX + 1),
        Err(ConfigError::ThresholdOutOfRange)
    ));
    assert!(Threshold::new(DISSIMILARITY_MAX).is_ok());
    assert!(Threshold::new(0).is_ok());
}

#[test]
fn default_threshold_is_a_quarter() {
    assert_eq!(THRESHOLD_DEFAULT, scaled(0.25));
    assert_eq!(Threshold::default().raw_value(), THRESHOLD_DEFAULT);
}

#[test]
fn comparator_scale_spans_identical_to_disjoint() {
    let jw = JaroWinkler;
    // Identical strings sit at zero on the scale.
    assert_eq!(jw.compare(&"foo".to_string(), &"foo".to_string()), 0);
    // Strings with no letters in common sit at the far end.
    assert_eq!(
        jw.compare(&"foo".to_string(), &"bar".to_string()),
        DISSIMILARITY_MAX
    );
    // Near matches land strictly between.
    let near = jw.compare(&"hell".to_string(), &"hello".to_string());
    assert!(0 < near && near < DISSIMILARITY_MAX);
}

#[test]
fn matrix_lists_pairs_in_row_major_order() {
    let jw = JaroWinkler;
    let values = strings(&["Jane", "June", "Joan"]);
    let matrix = similarity_matrix(&values, &jw);
    let expected = vec![
        jw.compare(&values[0], &values[1]),
        jw.compare(&values[0], &values[2]),
        jw.compare(&values[1], &values[2]),
    ];
    assert_eq!(matrix, expected);
}

#[test]
fn matrix_is_empty_below_two_records() {
    let jw = JaroWinkler;
    assert_eq!(similarity_matrix(&Vec::<String>::new(), &jw), Vec::<u32>::new());
    assert_eq!(similarity_matrix(&strings(&["one"]), &jw), Vec::<u32>::new());
}
