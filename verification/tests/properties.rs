use speakeasy::{compile, detect, CodepointRange, LanguageEntry, LanguageSpec, Threshold};

fn language(tag: &str, tokens: &[&str]) -> LanguageSpec {
    LanguageSpec {
        identifier: tag.to_string(),
        anglicized_name: format!("name-{}", tag),
        native_name: format!("native-{}", tag),
        codepoints: tokens.iter().map(|t| t.to_string()).collect(),
    }
}

fn single(lower: u32, upper: u32) -> Vec<CodepointRange> {
    vec![CodepointRange { lower, upper }]
}

fn score(m: &speakeasy::Match) -> f64 {
    m.count as f64 / m.total as f64
}

#[test]
fn results_never_fall_below_the_threshold_or_count_zero() {
    let table = compile(&vec![
        language("aa", &["1..3"]),
        language("bb", &["4..6"]),
        language("cc", &["100..200"]),
    ])
    .unwrap();
    let thresholds = [
        Threshold { num: 0, den: 1 },
        Threshold { num: 1, den: 2 },
        Threshold { num: 1, den: 1 },
    ];
    for t in thresholds {
        let result = detect(&table, &vec![
            CodepointRange { lower: 2, upper: 5 },
            CodepointRange { lower: 300, upper: 400 },
        ], t);
        for m in &result {
            assert!(m.count > 0);
            assert!(m.count as u128 * t.den as u128 >= t.num as u128 * m.total as u128);
        }
    }
}

#[test]
fn results_are_sorted_by_score_descending() {
    let table = compile(&vec![
        language("aa", &["1..10"]),
        language("bb", &["1..2"]),
        language("cc", &["1..4"]),
    ])
    .unwrap();
    let result = detect(&table, &single(1, 3), Threshold { num: 0, den: 1 });
    assert_eq!(result.len(), 3);
    for w in result.windows(2) {
        assert!(score(&w[0]) >= score(&w[1]));
    }
    assert_eq!(result[0].code, "bb");
    assert_eq!(result[1].code, "cc");
    assert_eq!(result[2].code, "aa");
}

#[test]
fn empty_input_yields_empty_output_for_any_threshold() {
    let table = compile(&vec![language("aa", &["1..3"])]).unwrap();
    let none: Vec<CodepointRange> = Vec::new();
    for t in [
        Threshold { num: 0, den: 1 },
        Threshold { num: 1, den: 2 },
        Threshold { num: 1, den: 1 },
    ] {
        assert_eq!(detect(&table, &none, t).len(), 0);
    }
}

#[test]
fn a_single_codepoint_language_scores_one_on_its_codepoint() {
    let table = compile(&vec![language("aa", &["64"])]).unwrap();
    let result = detect(&table, &single(64, 64), Threshold { num: 1, den: 1 });
    assert_eq!(result.len(), 1);
    assert_eq!(result[0].count, 1);
    assert_eq!(result[0].total, 1);
    assert_eq!(score(&result[0]), 1.0);
}

#[test]
fn a_shared_codepoint_matches_both_languages() {
    let table = compile(&vec![
        language("aa", &["1..8"]),
        language("bb", &["8..16"]),
    ])
    .unwrap();
    let result = detect(&table, &single(8, 8), Threshold { num: 0, den: 1 });
    assert_eq!(result.len(), 2);
    assert!(result.iter().all(|m| m.count >= 1));
}

#[test]
fn partial_overlaps_count_exactly() {
    let table = compile(&vec![
        language("low", &["1..3"]),
        language("high", &["4..6"]),
    ])
    .unwrap();
    let result = detect(&table, &single(3, 5), Threshold { num: 0, den: 1 });
    assert_eq!(result.len(), 2);
    assert_eq!(result[0].code, "high");
    assert_eq!(result[0].count, 2);
    assert!((score(&result[0]) - 0.667).abs() < 0.001);
    assert_eq!(result[1].code, "low");
    assert_eq!(result[1].count, 1);
    assert!((score(&result[1]) - 0.333).abs() < 0.001);
}

#[test]
fn a_score_equal_to_the_threshold_is_included() {
    let table = compile(&vec![language("aa", &["10..19"])]).unwrap();
    let result = detect(&table, &single(10, 19), Threshold { num: 1, den: 1 });
    assert_eq!(result.len(), 1);
    assert_eq!(result[0].count, 10);
    assert_eq!(result[0].total, 10);
    assert_eq!(score(&result[0]), 1.0);
}

#[test]
fn round_trip_detects_each_language_in_full() {
    let specs = vec![
        language("aa", &["1..3", "10..12"]),
        language("bb", &["64"]),
        language("cc", &["100..120", "200"]),
    ];
    let table: Vec<LanguageEntry> = compile(&specs).unwrap();
    for entry in &table {
        let own: Vec<CodepointRange> = entry.ranges.clone();
        let result = detect(&table, &own, Threshold { num: 1, den: 1 });
        let hit = result
            .iter()
            .find(|m| m.code == entry.identifier)
            .expect("the language itself must be reported");
        assert_eq!(hit.count as u32, entry.total);
        assert_eq!(score(hit), 1.0);
    }
}

#[test]
fn ties_keep_table_order() {
    let table = compile(&vec![
        language("aa", &["1..3"]),
        language("bb", &["1..3"]),
    ])
    .unwrap();
    let result = detect(&table, &single(1, 2), Threshold { num: 0, den: 1 });
    assert_eq!(result.len(), 2);
    assert_eq!(result[0].code, "aa");
    assert_eq!(result[1].code, "bb");
}

#[test]
fn codepoints_outside_every_language_are_ignored() {
    let table = compile(&vec![language("aa", &["1..3"])]).unwrap();
    let result = detect(&table, &vec![
        CodepointRange { lower: 2, upper: 2 },
        CodepointRange { lower: 1000, upper: 2000 },
    ], Threshold { num: 0, den: 1 });
    assert_eq!(result.len(), 1);
    assert_eq!(result[0].count, 1);
}
