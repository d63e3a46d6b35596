use speakeasy::{compile, detect, CodepointRange, LanguageEntry, LanguageSpec, Threshold};

fn language(tag: &str, name: &str, native: &str, tokens: &[&str]) -> LanguageSpec {
    LanguageSpec {
        identifier: tag.to_string(),
        anglicized_name: name.to_string(),
        native_name: native.to_string(),
        codepoints: tokens.iter().map(|t| t.to_string()).collect(),
    }
}

fn test_table() -> Vec<LanguageEntry> {
    let specs = vec![
        language("t1", "test1", "ntest1", &["1..3"]),
        language("t2", "test2", "ntest2", &["4..6"]),
        language("t3", "test3", "ntest3", &["7..9"]),
        language("t4", "test4", "ntest4", &["8"]),
        language("t5", "test5", "ntest5", &["16"]),
    ];
    compile(&specs).unwrap()
}

fn ranges(pairs: &[[u32; 2]]) -> Vec<CodepointRange> {
    pairs
        .iter()
        .map(|p| CodepointRange {
            lower: p[0],
            upper: p[1],
        })
        .collect()
}

#[test]
fn it_returns_an_empty_array() {
    let table = test_table();
    let result = detect(&table, &ranges(&[]), Threshold { num: 1, den: 2 });
    assert_eq!(result.len(), 0);
}

#[test]
fn it_takes_a_vector() {
    let table = test_table();
    let codepoints = vec![CodepointRange { lower: 1, upper: 3 }];

    let result = detect(&table, &codepoints, Threshold { num: 1, den: 1 });
    assert_eq!(result.len(), 1);
    assert_eq!(result[0].code, "t1");
    assert_eq!(result[0].name, "test1");
}

#[test]
fn it_takes_an_array() {
    let table = test_table();
    let codepoints = [[1, 3]];

    let result = detect(&table, &ranges(&codepoints), Threshold { num: 1, den: 1 });
    assert_eq!(result.len(), 1);
    assert_eq!(result[0].code, "t1");
    assert_eq!(result[0].name, "test1");
}

#[test]
fn it_returns_an_empty_array_with_an_invalid_codepoint() {
    let table = test_table();
    let result = detect(&table, &ranges(&[[256, 256]]), Threshold { num: 1, den: 2 });
    assert_eq!(result.len(), 0);
}

#[test]
fn it_returns_the_test_language() {
    let table = test_table();
    let result = detect(&table, &ranges(&[[1, 1]]), Threshold { num: 0, den: 1 });
    assert_eq!(result.len(), 1);
    assert_eq!(result[0].code, "t1");
    assert_eq!(result[0].name, "test1")
}

#[test]
fn it_does_not_return_if_threshold_not_met() {
    let table = test_table();
    let result = detect(&table, &ranges(&[[1, 2]]), Threshold { num: 1, den: 1 });
    assert_eq!(result.len(), 0);
}

#[test]
fn it_returns_if_threshold_is_met() {
    let table = test_table();
    let result = detect(&table, &ranges(&[[1, 3]]), Threshold { num: 1, den: 1 });
    assert_eq!(result.len(), 1);
    assert_eq!(result[0].code, "t1");
    assert_eq!(result[0].name, "test1");
}

#[test]
fn it_returns_if_threshold_is_partially_met() {
    let table = test_table();
    let result = detect(&table, &ranges(&[[1, 2]]), Threshold { num: 3, den: 5 });
    assert_eq!(result.len(), 1);
    assert_eq!(result[0].code, "t1");
    assert_eq!(result[0].name, "test1");
}

#[test]
fn it_returns_multiple_languages() {
    let table = test_table();
    let result = detect(&table, &ranges(&[[1, 1], [4, 4]]), Threshold { num: 0, den: 1 });
    assert_eq!(result.len(), 2);
    assert_eq!(result[0].code, "t1");
    assert_eq!(result[0].name, "test1");
    assert_eq!(result[1].code, "t2");
    assert_eq!(result[1].name, "test2");
}

#[test]
fn it_returns_overlapping_languages() {
    let table = test_table();
    let result = detect(&table, &ranges(&[[8, 8]]), Threshold { num: 0, den: 1 });
    assert_eq!(result.len(), 2);
    assert_eq!(result[0].code, "t4");
    assert_eq!(result[0].name, "test4");
    assert_eq!(result[1].code, "t3");
    assert_eq!(result[1].name, "test3");
}

#[test]
fn it_returns_correct_counts_on_partial_range_matches() {
    let table = test_table();
    let result = detect(&table, &ranges(&[[3, 5]]), Threshold { num: 0, den: 1 });
    assert_eq!(result.len(), 2);
    assert_eq!(result[0].code, "t2");
    assert_eq!(result[0].name, "test2");
    assert_eq!(result[0].count, 2);
    assert_eq!(result[1].code, "t1");
    assert_eq!(result[1].name, "test1");
    assert_eq!(result[1].count, 1);
}

#[test]
fn it_returns_sorted_results() {
    let table = test_table();
    let result = detect(&table, &ranges(&[[1, 1], [4, 6]]), Threshold { num: 0, den: 1 });
    assert_eq!(result.len(), 2);
    assert_eq!(result[0].code, "t2");
    assert_eq!(result[1].code, "t1");
}

#[test]
fn it_handles_ranges_correctly() {
    let table = test_table();
    let result = detect(&table, &ranges(&[[12, 20]]), Threshold { num: 0, den: 1 });
    assert_eq!(result.len(), 1);
    assert_eq!(result[0].code, "t5");
}
