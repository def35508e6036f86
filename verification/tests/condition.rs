use tsv_filter::error::FilterError;
use tsv_filter::filter::{numeric_literal, parse_condition, remove_comma, row_passes, Comparison, Condition, Op};

/// How each value compares with the condition's threshold, computed in `f64`.
fn comparisons(values: &[&str], c: &Condition) -> Vec<Comparison> {
    let t: f64 = c.threshold.parse().unwrap();
    values
        .iter()
        .map(|v| match numeric_literal(v) {
            Some(text) => {
                let x: f64 = text.parse().unwrap();
                if x.is_infinite() {
                    Comparison::OutOfRange
                } else {
                    let holds = match c.op {
                        Op::Gt => x > t,
                        Op::Lt => x < t,
                        Op::Eq => x == t,
                        Op::Ge => x >= t,
                        Op::Le => x <= t,
                        Op::Ne => x != t,
                    };
                    if holds { Comparison::Holds } else { Comparison::Fails }
                }
            }
            None => Comparison::Fails,
        })
        .collect()
}

fn passes(values: &[&str], c: &Condition, any: bool) -> Result<bool, FilterError> {
    row_passes(values, &comparisons(values, c), any)
}

#[test]
fn parses_ops() {
    assert_eq!(parse_condition("age>12").unwrap().op, Op::Gt);
    assert_eq!(parse_condition("age>=12").unwrap().op, Op::Ge);
    assert_eq!(parse_condition("age<=12").unwrap().op, Op::Le);
    assert_eq!(parse_condition("age=12").unwrap().op, Op::Eq);
    assert_eq!(parse_condition("age!=12").unwrap().op, Op::Ne);
    assert_eq!(parse_condition("age<>12").unwrap().op, Op::Ne);
}

#[test]
fn double_equals_rejected() {
    assert!(parse_condition("age==12").is_err());
}

#[test]
fn empty_filter_rejected() {
    assert!(parse_condition("").is_err());
}

#[test]
fn no_operator_rejected() {
    assert!(parse_condition("age").is_err());
}

#[test]
fn comma_threshold_rejected() {
    assert!(parse_condition("age>1,000").is_err());
}

#[test]
fn negative_and_scientific_threshold() {
    assert_eq!(parse_condition("x>-5").unwrap().threshold.parse::<f64>().unwrap(), -5.0);
    assert_eq!(parse_condition("x>1e3").unwrap().threshold.parse::<f64>().unwrap(), 1000.0);
}

#[test]
fn all_must_satisfy_by_default() {
    let c = parse_condition("f>10").unwrap();
    assert!(passes(&["20", "30"], &c, false).unwrap());
    assert!(!passes(&["20", "5"], &c, false).unwrap());
}

#[test]
fn any_accepts_on_first_hit() {
    let c = parse_condition("f>10").unwrap();
    assert!(passes(&["5", "50"], &c, true).unwrap());
    assert!(!passes(&["5", "8"], &c, true).unwrap());
}

#[test]
fn non_numeric_rejects_row() {
    let c = parse_condition("f>10").unwrap();
    assert!(!passes(&["abc", "50"], &c, false).unwrap());
    // Even under --any, a non-numeric value seen before a hit rejects.
    assert!(!passes(&["abc", "50"], &c, true).unwrap());
}

#[test]
fn comma_grouped_value_stripped() {
    let c = parse_condition("f>800").unwrap();
    assert!(passes(&["1,000"], &c, false).unwrap());
}

#[test]
fn redigitals_match_but_unparseable_errors() {
    let c = parse_condition("f>1").unwrap();
    assert!(passes(&["1.2.3"], &c, false).is_err());
}

// --- further cases ---

#[test]
fn condition_parts_are_split_lazily() {
    let c = parse_condition("a>b>=3").unwrap();
    assert_eq!(c.field_str, "a>b");
    assert_eq!(c.op, Op::Ge);
    assert_eq!(c.threshold, "3");
    let c = parse_condition("1,3<=2").unwrap();
    assert_eq!(c.field_str, "1,3");
    assert_eq!(c.op, Op::Le);
    assert_eq!(c.threshold, "2");
    let c = parse_condition("c*!=0").unwrap();
    assert_eq!(c.field_str, "c*");
    assert_eq!(c.op, Op::Ne);
}

#[test]
fn condition_errors_have_their_kind() {
    assert!(matches!(parse_condition(""), Err(FilterError::MissingFilter)));
    match parse_condition("age") {
        Err(FilterError::InvalidFilter { filter }) => assert_eq!(filter, "age"),
        _ => panic!("expected an invalid-filter error"),
    }
    match parse_condition("age==12") {
        Err(FilterError::InvalidExpression { op }) => assert_eq!(op, "=="),
        _ => panic!("expected an invalid-expression error"),
    }
    match parse_condition("age>1,0") {
        Err(FilterError::InvalidNumber { text }) => assert_eq!(text, "1,0"),
        _ => panic!("expected an invalid-number error"),
    }
    assert!(matches!(parse_condition(">5"), Err(FilterError::InvalidFilter { .. })));
    assert!(matches!(parse_condition("a\nb>5"), Err(FilterError::InvalidFilter { .. })));
}

#[test]
fn decimal_literals_accepted() {
    assert!(parse_condition("x>.5").is_ok());
    assert!(parse_condition("x>5.").is_ok());
    assert!(parse_condition("x>+5e-3").is_ok());
    assert!(parse_condition("x>1E+2").is_ok());
    assert!(parse_condition("x>.").is_err());
    assert!(parse_condition("x>1e").is_err());
    assert!(parse_condition("x>e5").is_err());
    assert!(parse_condition("x>1..2").is_err());
}

#[test]
fn numeric_literal_classifies_values() {
    assert_eq!(numeric_literal("1,000"), Some("1000".to_string()));
    assert_eq!(numeric_literal("-2.5e3"), Some("-2.5e3".to_string()));
    assert_eq!(numeric_literal("abc"), None);
    assert_eq!(numeric_literal(""), None);
    assert_eq!(numeric_literal("1.2.3"), None);
    assert_eq!(remove_comma("1,2,3"), "123");
    assert_eq!(remove_comma("x"), "x");
}

#[test]
fn out_of_range_value_errors() {
    let c = parse_condition("f>1").unwrap();
    assert!(matches!(passes(&["1e400"], &c, false), Err(FilterError::NumberOutOfRange { .. })));
}

#[test]
fn any_ignores_errors_after_the_first_hit() {
    let c = parse_condition("f>10").unwrap();
    assert!(passes(&["50", "1.2.3"], &c, true).unwrap());
    assert!(passes(&["50", "1.2.3"], &c, false).is_err());
}

#[test]
fn empty_selection_passes() {
    let c = parse_condition("f>10").unwrap();
    assert!(passes(&[], &c, false).unwrap());
    assert!(passes(&[], &c, true).unwrap());
}
