use speakeasy::{compile, parse_token, CodepointRange, CompileError, LanguageSpec};

fn language(tag: &str, tokens: &[&str]) -> LanguageSpec {
    LanguageSpec {
        identifier: tag.to_string(),
        anglicized_name: format!("name-{}", tag),
        native_name: format!("native-{}", tag),
        codepoints: tokens.iter().map(|t| t.to_string()).collect(),
    }
}

#[test]
fn parses_a_single_codepoint_token() {
    let r = parse_token("64").unwrap();
    assert_eq!(r.lower, 64);
    assert_eq!(r.upper, 64);
}

#[test]
fn parses_a_range_token() {
    let r = parse_token("64..127").unwrap();
    assert_eq!(r.lower, 64);
    assert_eq!(r.upper, 127);
}

#[test]
fn parses_the_largest_codepoint() {
    let r = parse_token("4294967295").unwrap();
    assert_eq!(r.lower, 4294967295);
    assert_eq!(r.upper, 4294967295);
}

#[test]
fn rejects_a_non_numeric_token() {
    assert_eq!(parse_token("abc"), Err(CompileError::MalformedRange));
}

#[test]
fn rejects_an_empty_token() {
    assert_eq!(parse_token(""), Err(CompileError::MalformedRange));
}

#[test]
fn rejects_a_reversed_range() {
    assert_eq!(parse_token("5..3"), Err(CompileError::MalformedRange));
}

#[test]
fn rejects_a_bound_over_32_bits() {
    assert_eq!(parse_token("4294967296"), Err(CompileError::MalformedRange));
}

#[test]
fn rejects_a_token_with_two_separators() {
    assert_eq!(parse_token("1..2..3"), Err(CompileError::MalformedRange));
}

#[test]
fn rejects_a_range_with_a_missing_bound() {
    assert_eq!(parse_token("..7"), Err(CompileError::MalformedRange));
    assert_eq!(parse_token("7.."), Err(CompileError::MalformedRange));
}

#[test]
fn compiles_and_sorts_ranges() {
    let table = compile(&vec![language("xx", &["7..9", "1..3", "5"])]).unwrap();
    assert_eq!(table.len(), 1);
    let entry = &table[0];
    assert_eq!(entry.identifier, "xx");
    assert_eq!(entry.display_name, "name-xx");
    assert_eq!(entry.native_name, "native-xx");
    assert_eq!(
        entry.ranges,
        vec![
            CodepointRange { lower: 1, upper: 3 },
            CodepointRange { lower: 5, upper: 5 },
            CodepointRange { lower: 7, upper: 9 },
        ]
    );
    assert_eq!(entry.total, 7);
}

#[test]
fn keeps_overlapping_ranges_and_overcounts_the_total() {
    let table = compile(&vec![language("xx", &["1..3", "2..4"])]).unwrap();
    assert_eq!(table[0].ranges.len(), 2);
    assert_eq!(table[0].total, 6);
}

#[test]
fn rejects_a_language_with_no_codepoints() {
    assert!(matches!(
        compile(&vec![language("xx", &[])]),
        Err(CompileError::EmptyLanguage)
    ));
}

#[test]
fn rejects_a_language_whose_total_overflows() {
    assert!(matches!(
        compile(&vec![language("xx", &["0..4294967295"])]),
        Err(CompileError::TotalOverflow)
    ));
}

#[test]
fn a_malformed_token_is_fatal_for_the_whole_table() {
    let specs = vec![language("aa", &["1..3"]), language("bb", &["oops"])];
    assert!(matches!(compile(&specs), Err(CompileError::MalformedRange)));
}

#[test]
fn compiles_an_empty_specification_set() {
    let table = compile(&Vec::new()).unwrap();
    assert_eq!(table.len(), 0);
}
