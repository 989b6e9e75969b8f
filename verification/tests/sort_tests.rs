use sortpar::compare::Comparison;
use sortpar::engine::sort;
use sortpar::filter::Filter;
use sortpar::numeric::NumericKey;
use sortpar::numeric::compare_keys;
use sortpar::numeric::numeric_key;
use sortpar::output::write_lines;
use sortpar::strategy::SortConfig;
use sortpar::strategy::SortKey;
use sortpar::strategy::SortStrategy;
use sortpar::strategy::compare;
use sortpar::strategy::key_of;

fn config(strategy: SortStrategy) -> SortConfig {
    SortConfig {
        filters: vec![],
        strategy,
        reverse: false,
        stable: false,
        unique: false,
    }
}

fn lines(v: &[&str]) -> Vec<String> {
    v.iter().map(|s| s.to_string()).collect()
}

#[test]
fn test_default_sort_scenario() {
    let mut v = lines(&["baseball", "apple", "car"]);
    sort(&mut v, &config(SortStrategy::Lexicographic));
    assert_eq!(v, lines(&["apple", "baseball", "car"]));
}

#[test]
fn test_reverse_sort() {
    let mut v = lines(&["a", "b", "c"]);
    let mut cfg = config(SortStrategy::Lexicographic);
    cfg.reverse = true;
    sort(&mut v, &cfg);
    assert_eq!(v, lines(&["c", "b", "a"]));
}

#[test]
fn test_leading_blanks_scenario() {
    let mut v = lines(&["a", "    b", "    c", "d"]);
    let mut cfg = config(SortStrategy::Lexicographic);
    cfg.filters = vec![Filter::StripLeadingBlanks];
    sort(&mut v, &cfg);
    assert_eq!(v, lines(&["a", "    b", "    c", "d"]));
}

#[test]
fn test_unique_first_seen_survivors() {
    let mut v = lines(&["b", "a", "b", "c", "a"]);
    let mut cfg = config(SortStrategy::Lexicographic);
    cfg.unique = true;
    sort(&mut v, &cfg);
    assert_eq!(v, lines(&["a", "b", "c"]));
}

#[test]
fn test_unique_keeps_comparator_equal_but_distinct_lines() {
    // unique is textual equality: "B" and "b" tie under case folding but
    // both survive.
    let mut v = lines(&["B", "b", "B"]);
    let mut cfg = config(SortStrategy::Lexicographic);
    cfg.filters = vec![Filter::CaseFold];
    cfg.unique = true;
    cfg.stable = true;
    sort(&mut v, &cfg);
    assert_eq!(v, lines(&["B", "b"]));
}

#[test]
fn test_stable_sort_keeps_equal_lines_in_input_order() {
    let mut v = lines(&["b", "B", "a", "A"]);
    let mut cfg = config(SortStrategy::Lexicographic);
    cfg.filters = vec![Filter::CaseFold];
    cfg.stable = true;
    sort(&mut v, &cfg);
    assert_eq!(v, lines(&["a", "A", "b", "B"]));
}

#[test]
fn test_stable_sort_idempotent() {
    let mut v = lines(&["APPLE", "apple", "bike", "BIKE", "car", "CAR"]);
    let mut cfg = config(SortStrategy::Lexicographic);
    cfg.filters = vec![Filter::CaseFold];
    cfg.stable = true;
    sort(&mut v, &cfg);
    let once = v.clone();
    sort(&mut v, &cfg);
    assert_eq!(v, once);
}

#[test]
fn test_general_numeric_sort() {
    let mut v = lines(&["10", "9", "2.5", "-3", "banana"]);
    sort(&mut v, &config(SortStrategy::GeneralNumeric));
    assert_eq!(v, lines(&["-3", "banana", "2.5", "9", "10"]));
}

#[test]
fn test_general_numeric_exponents() {
    let mut v = lines(&["999", "1e3", "1001", "2e-1", "0.3"]);
    sort(&mut v, &config(SortStrategy::GeneralNumeric));
    assert_eq!(v, lines(&["2e-1", "0.3", "999", "1e3", "1001"]));
}

#[test]
fn test_numeric_key_neutral_and_prefix() {
    // an unparseable line and an empty line share the neutral zero key
    assert_eq!(numeric_key("abc"), numeric_key(""));
    // no leading-whitespace skip, and no special word forms: neutral
    assert_eq!(numeric_key(" 3"), numeric_key(""));
    assert_eq!(numeric_key("inf"), numeric_key(""));
    assert_eq!(numeric_key("nan"), numeric_key(""));
    // a leading numeric prefix parses up to the first non-numeric character
    assert_eq!(numeric_key("3.5x"), numeric_key("3.5"));
    let expected = NumericKey {
        negative: false,
        position: 1,
        digits: vec![3, 5],
    };
    assert_eq!(numeric_key("3.5x"), expected);
}

#[test]
fn test_numeric_key_normalization() {
    assert_eq!(numeric_key("-0"), numeric_key(""));
    assert_eq!(numeric_key("0.5e1"), numeric_key("5"));
    assert_eq!(numeric_key(".5x"), numeric_key("0.50"));
    assert_eq!(numeric_key("1e-1"), numeric_key("0.1"));
    // an exponent marker without digits is not part of the number
    assert_eq!(numeric_key("1e"), numeric_key("1"));
    assert_eq!(compare_keys(&numeric_key("-2"), &numeric_key("-10")), Comparison::Greater);
    assert_eq!(compare_keys(&numeric_key("007"), &numeric_key("7")), Comparison::Equal);
}

#[test]
fn test_natural_order_sort() {
    let mut v = lines(&["item10", "item2", "item1"]);
    sort(&mut v, &config(SortStrategy::NaturalOrder));
    assert_eq!(v, lines(&["item1", "item2", "item10"]));
}

#[test]
fn test_version_sort() {
    let mut v = lines(&["1.10.0", "1.2.0", "1.9"]);
    sort(&mut v, &config(SortStrategy::VersionOrder));
    assert_eq!(v, lines(&["1.2.0", "1.9", "1.10.0"]));
}

#[test]
fn test_version_fallback_to_natural_order() {
    // "not-a-version" does not parse as a version, so the comparison falls
    // back to natural order on the raw text, where "n..." < "v...".
    let cfg = config(SortStrategy::VersionOrder);
    assert_eq!(compare("v1.2", "not-a-version", &cfg), Comparison::Greater);
    assert_eq!(compare("not-a-version", "v1.2", &cfg), Comparison::Less);
    let mut v = lines(&["v1.2", "not-a-version"]);
    sort(&mut v, &cfg);
    assert_eq!(v, lines(&["not-a-version", "v1.2"]));
}

#[test]
fn test_compare_is_pure_and_total() {
    let cfg = config(SortStrategy::Lexicographic);
    assert_eq!(compare("a", "b", &cfg), Comparison::Less);
    assert_eq!(compare("b", "a", &cfg), Comparison::Greater);
    assert_eq!(compare("a", "a", &cfg), Comparison::Equal);
}

#[test]
fn test_reverse_stable_keeps_equal_lines_in_input_order() {
    let mut v = lines(&["B", "b", "a"]);
    let mut cfg = config(SortStrategy::Lexicographic);
    cfg.filters = vec![Filter::CaseFold];
    cfg.reverse = true;
    cfg.stable = true;
    sort(&mut v, &cfg);
    assert_eq!(v, lines(&["B", "b", "a"]));
}

#[test]
fn test_key_of_variants() {
    match key_of("abc", SortStrategy::Lexicographic) {
        SortKey::Text(t) => assert_eq!(t, "abc"),
        _ => panic!("wrong key variant"),
    }
    match key_of("abc", SortStrategy::NaturalOrder) {
        SortKey::Natural(t) => assert_eq!(t, "abc"),
        _ => panic!("wrong key variant"),
    }
    match key_of("abc", SortStrategy::VersionOrder) {
        SortKey::Version(t) => assert_eq!(t, "abc"),
        _ => panic!("wrong key variant"),
    }
    assert_eq!(
        key_of("abc", SortStrategy::GeneralNumeric),
        key_of("", SortStrategy::GeneralNumeric)
    );
    assert_eq!(
        key_of("3.5x", SortStrategy::GeneralNumeric),
        SortKey::Number(numeric_key("3.5"))
    );
}

#[test]
fn test_write_lines() {
    assert_eq!(write_lines(&lines(&["x", "y"])), "x\ny\n");
    assert_eq!(write_lines(&lines(&[])), "");
    assert_eq!(write_lines(&lines(&[""])), "\n");
}

#[test]
fn test_sort_empty_input() {
    let mut v: Vec<String> = Vec::new();
    sort(&mut v, &config(SortStrategy::Lexicographic));
    assert!(v.is_empty());
}
