use tsv_filter::error::FilterError;
use tsv_filter::fields::{colname_index, parse, resolve, FieldSpec};

fn cols(field_str: &str, header: &[&str]) -> Vec<usize> {
    let spec = parse(field_str).ok().unwrap();
    let row: Vec<String> = header.iter().map(|s| (*s).to_string()).collect();
    resolve(&spec, &row, false).ok().unwrap()
}

fn fcols(field_str: &str, header: &[&str]) -> Vec<usize> {
    let spec = parse(field_str).ok().unwrap();
    let row: Vec<String> = header.iter().map(|s| (*s).to_string()).collect();
    resolve(&spec, &row, true).ok().unwrap()
}

fn header(names: &[&str]) -> Vec<String> {
    names.iter().map(|s| (*s).to_string()).collect()
}

#[test]
fn single_index() {
    assert_eq!(cols("2", &["a", "b", "c"]), vec![2]);
}

#[test]
fn multi_index() {
    assert_eq!(cols("1,3", &["a", "b", "c"]), vec![1, 3]);
}

#[test]
fn closed_range() {
    assert_eq!(cols("1-3", &["a", "b", "c", "d"]), vec![1, 2, 3]);
}

#[test]
fn open_range() {
    assert_eq!(cols("2-", &["a", "b", "c", "d"]), vec![2, 3, 4]);
}

#[test]
fn negative_index_excludes() {
    assert_eq!(cols("-2", &["a", "b", "c"]), vec![1, 3]);
}

#[test]
fn colname_single() {
    assert_eq!(cols("name", &["id", "name", "val"]), vec![2]);
}

#[test]
fn negative_colname_excludes() {
    assert_eq!(cols("-name", &["id", "name", "val"]), vec![1, 3]);
}

#[test]
fn fuzzy_prefix_glob() {
    // c* matches c1,c2 in header order.
    assert_eq!(fcols("c*", &["id", "c1", "c2", "x"]), vec![2, 3]);
}

#[test]
fn fuzzy_suffix_glob() {
    assert_eq!(fcols("*name", &["id", "myname", "surname", "x"]), vec![2, 3]);
}

#[test]
fn fuzzy_no_match_is_empty() {
    assert_eq!(fcols("zzz*", &["a", "b"]), Vec::<usize>::new());
}

#[test]
fn fuzzy_negative_excludes_matches() {
    assert_eq!(fcols("-c*", &["id", "c1", "c2", "x"]), vec![1, 4]);
}

#[test]
fn missing_colname_errors() {
    let spec = parse("nope").ok().unwrap();
    let row = header(&["id", "name"]);
    assert!(resolve(&spec, &row, false).is_err());
}

#[test]
fn out_of_range_errors() {
    let spec = parse("5").ok().unwrap();
    let row = header(&["a", "b"]);
    assert!(resolve(&spec, &row, false).is_err());
}

#[test]
fn zero_field_errors() {
    assert!(parse("0").is_err());
}

#[test]
fn mixed_sign_errors() {
    assert!(parse("1,-2").is_err());
}

// --- further cases ---

#[test]
fn negative_range_excludes_both_ends() {
    assert_eq!(cols("-3--2", &["a", "b", "c", "d"]), vec![1, 4]);
    assert_eq!(cols("-2--3", &["a", "b", "c", "d"]), vec![1, 4]);
}

#[test]
fn negative_open_range_keeps_head() {
    assert_eq!(cols("-2-", &["a", "b", "c", "d"]), vec![1]);
}

#[test]
fn open_range_counter_quirk() {
    // The second open range overwrites the counter slot of the first, so `2-`
    // stays a single field.
    assert_eq!(cols("2-,3-", &["a", "b", "c", "d", "e"]), vec![2, 3]);
}

#[test]
fn open_range_then_index() {
    assert_eq!(cols("3-,1", &["a", "b", "c", "d"]), vec![3, 4, 1]);
}

#[test]
fn plus_sign_index() {
    assert_eq!(cols("+2", &["a", "b", "c"]), vec![2]);
}

#[test]
fn index_errors_have_their_kind() {
    assert!(matches!(parse(""), Err(FilterError::EmptyFirstField { .. })));
    assert!(matches!(parse(",1"), Err(FilterError::EmptyFirstField { .. })));
    assert!(matches!(parse("0"), Err(FilterError::ZeroField)));
    assert!(matches!(parse("1,-2"), Err(FilterError::MixedIndexSigns)));
    assert!(matches!(parse("-2,1"), Err(FilterError::MixedIndexSigns)));
    assert!(matches!(parse("0-3"), Err(FilterError::ZeroInRange { .. })));
    assert!(matches!(parse("3-1"), Err(FilterError::RangeNotIncreasing { start: 3, end: 1, .. })));
    assert!(matches!(parse("2-2"), Err(FilterError::RangeNotIncreasing { .. })));
    assert!(matches!(parse("-1-3"), Err(FilterError::RangeSignsDiffer { start: -1, end: 3, .. })));
    assert!(matches!(parse("--5"), Err(FilterError::BadRangeBound { .. })));
    assert!(matches!(parse("1,x"), Err(FilterError::BadFieldNumber { .. })));
    assert!(matches!(parse("99999999999999999999"), Err(FilterError::BadFieldNumber { .. })));
}

#[test]
fn name_errors_have_their_kind() {
    assert!(matches!(parse("a,,b"), Err(FilterError::EmptyName { position: 2 })));
    assert!(matches!(parse("-a,b"), Err(FilterError::MixedNameSigns)));
    assert!(matches!(parse("a,-b"), Err(FilterError::MixedNameSigns)));
}

#[test]
fn duplicate_column_errors() {
    let spec = parse("a").ok().unwrap();
    let row = header(&["a", "b", "a"]);
    match resolve(&spec, &row, false) {
        Err(FilterError::DuplicateColumn { name }) => assert_eq!(name, "a"),
        _ => panic!("expected a duplicate-column error"),
    }
}

#[test]
fn out_of_range_reports_field_and_count() {
    let spec = parse("5").ok().unwrap();
    let row = header(&["a", "b"]);
    assert!(matches!(resolve(&spec, &row, false), Err(FilterError::FieldOutOfRange { field: 5, columns: 2 })));
}

#[test]
fn negative_missing_colname_errors() {
    let spec = parse("-nope").ok().unwrap();
    let row = header(&["a", "b"]);
    match resolve(&spec, &row, false) {
        Err(FilterError::MissingColumn { name }) => assert_eq!(name, "nope"),
        _ => panic!("expected a missing-column error"),
    }
}

#[test]
fn fuzzy_duplicate_columns_repeat() {
    // A matched name contributes all its positions, once per matching column.
    assert_eq!(fcols("c*", &["c", "x", "c"]), vec![1, 3, 1, 3]);
}

#[test]
fn fuzzy_dot_is_a_regex_dot() {
    assert_eq!(fcols("c.", &["cx", "c.", "cxy"]), vec![1, 2]);
}

#[test]
fn fuzzy_bad_pattern_errors() {
    let spec = parse("c(").ok().unwrap();
    let row = header(&["c"]);
    assert!(matches!(resolve(&spec, &row, true), Err(FilterError::InvalidFuzzyField { .. })));
}

#[test]
fn is_names_tells_modes_apart() {
    assert!(parse("age").ok().unwrap().is_names());
    assert!(!parse("2").ok().unwrap().is_names());
    match parse("1,3").ok().unwrap() {
        FieldSpec::Index { fields, negative, .. } => {
            assert_eq!(fields, vec![1, 3]);
            assert!(!negative);
        }
        FieldSpec::Names { .. } => panic!("expected index mode"),
    }
}

#[test]
fn colname_index_groups_positions() {
    let row = header(&["a", "b", "a"]);
    let mut index = colname_index(&row);
    index.sort_by(|x, y| x.0.cmp(&y.0));
    assert_eq!(index, vec![("a".to_string(), vec![1, 3]), ("b".to_string(), vec![2])]);
}

#[test]
fn exclusion_keeps_the_rest_in_order() {
    assert_eq!(cols("-3,-1", &["a", "b", "c", "d"]), vec![2, 4]);
    assert_eq!(cols("-d,-b", &["a", "b", "c", "d"]), vec![1, 3]);
    assert_eq!(cols("-1--2", &["a", "b", "c", "d"]), vec![3, 4]);
}

#[test]
fn non_ascii_digits_are_column_names() {
    match parse("\u{661}").ok().unwrap() {
        FieldSpec::Names { names, negative } => {
            assert_eq!(names, vec!["\u{661}".to_string()]);
            assert!(!negative);
        }
        FieldSpec::Index { .. } => panic!("expected column-name mode"),
    }
    assert_eq!(cols("\u{661}", &["a", "\u{661}"]), vec![2]);
}

#[test]
fn index_mode_shape() {
    match parse("-3--1,-5-").ok().unwrap() {
        FieldSpec::Index { fields, x2ends, negative } => {
            assert!(negative);
            assert!(fields.iter().all(|f| *f < 0));
            for (k, v) in x2ends.iter() {
                assert!(*k < fields.len());
                assert!(fields.contains(v));
            }
        }
        FieldSpec::Names { .. } => panic!("expected index mode"),
    }
}

#[test]
fn name_lists_need_one_sign() {
    assert!(matches!(parse("a,-b"), Err(FilterError::MixedNameSigns)));
    assert!(matches!(parse("-a,b"), Err(FilterError::MixedNameSigns)));
    assert!(matches!(parse("a,,b"), Err(FilterError::EmptyName { position: 2 })));
    match parse("-a,-b").ok().unwrap() {
        FieldSpec::Names { names, negative } => {
            assert_eq!(names, vec!["-a".to_string(), "-b".to_string()]);
            assert!(negative);
        }
        FieldSpec::Index { .. } => panic!("expected column-name mode"),
    }
}

#[test]
fn resolved_columns_stay_in_range() {
    for spec in ["1-3", "-5", "2-", "-2-", "c*", "-c*", "a,c", "-a"] {
        let fuzzy = spec.contains('*');
        let header = ["a", "c1", "c"];
        let got = if fuzzy { fcols(spec, &header) } else { cols(spec, &header) };
        assert!(got.iter().all(|c| 1 <= *c && *c <= header.len()), "{spec}: {got:?}");
    }
    assert_eq!(cols("-5", &["a", "b", "c"]), vec![1, 2, 3]);
}
