use sortpar::filter::Filter;
use sortpar::filter::apply_filter;
use sortpar::filter::dictionary_order_filter;
use sortpar::filter::filter_function;
use sortpar::filter::fold_filter;
use sortpar::filter::leading_blanks_filter;

#[test]
fn test_dictionary_filter() {
    let spaces = " ".repeat(7);
    let cases = vec!["simple", "number 7", "some other characters $%", "", &spaces];
    let expected = vec!["simple", "number 7", "some other characters ", "", &spaces];

    for case in cases.into_iter().zip(expected) {
        let actual = dictionary_order_filter(case.0);
        assert_eq!(actual, case.1);
    }
}

#[test]
fn test_no_filter_returns_borrowed() {
    let input = "input";
    let result = filter_function(input, &vec![]);
    assert_eq!(result, input);
}

#[test]
fn test_filter_returns_owned() {
    let input = " input";
    let expected = String::from("input");
    let result = filter_function(input, &vec![Filter::StripLeadingBlanks]);
    assert_eq!(result, expected);
}

#[test]
fn test_multiple_filters() {
    let input = " INPUT$";
    let expected = String::from("input");
    let result = filter_function(
        input,
        &vec![Filter::StripLeadingBlanks, Filter::DictionaryOrder, Filter::CaseFold],
    );
    assert_eq!(result, expected);
}

#[test]
fn test_leading_blanks_keeps_inner_and_trailing_whitespace() {
    assert_eq!(leading_blanks_filter("  a b  "), "a b  ");
    assert_eq!(leading_blanks_filter("\t x"), "x");
    assert_eq!(leading_blanks_filter(""), "");
    assert_eq!(leading_blanks_filter("   "), "");
}

#[test]
fn test_case_fold_filter() {
    assert_eq!(apply_filter("HeLLo", Filter::CaseFold), "hello");
    assert_eq!(fold_filter("MASSE"), "masse");
    assert_eq!(fold_filter(""), "");
}

#[test]
fn test_filter_order_agrees_for_ascii() {
    // For ASCII text, stripping leading blanks before or after case
    // folding gives the same result, since the folding of an ASCII letter
    // is never whitespace.
    let inputs = vec!["  ABC", "X Y ", "", "   ", "MiXeD  case"];
    for input in inputs {
        let a = filter_function(input, &vec![Filter::StripLeadingBlanks, Filter::CaseFold]);
        let b = filter_function(input, &vec![Filter::CaseFold, Filter::StripLeadingBlanks]);
        assert_eq!(a, b);
    }
}
