use tsv_filter::cli::{parse_delim, Cli};
use tsv_filter::error::FilterError;

fn flags() -> Cli {
    Cli {
        input: "-".to_string(),
        output: "-".to_string(),
        filter: "age>12".to_string(),
        any: false,
        fuzzy_fields: false,
        line_number: false,
        show_row_number: false,
        delimiter: ",".to_string(),
        out_delimiter: ",".to_string(),
        tabs: false,
        out_tabs: false,
        comment_char: "#".to_string(),
        no_header_row: false,
        delete_header: false,
        ignore_empty_row: false,
        ignore_illegal_row: false,
        lazy_quotes: false,
        json: false,
    }
}

#[test]
fn default_flags_give_commas() {
    let o = flags().options().unwrap();
    assert_eq!((o.in_delim, o.out_delim, o.comment), (b',', b',', Some(b'#')));
    assert_eq!(o.filter_str, "age>12");
}

#[test]
fn tabs_flag_drives_both_sides() {
    let mut c = flags();
    c.tabs = true;
    let o = c.options().unwrap();
    assert_eq!((o.in_delim, o.out_delim), (b'\t', b'\t'));
    c.out_delimiter = ";".to_string();
    let o = c.options().unwrap();
    assert_eq!((o.in_delim, o.out_delim), (b'\t', b';'));
}

#[test]
fn out_tabs_only_output() {
    let mut c = flags();
    c.out_tabs = true;
    let o = c.options().unwrap();
    assert_eq!((o.in_delim, o.out_delim), (b',', b'\t'));
}

#[test]
fn empty_comment_disables_comments() {
    let mut c = flags();
    c.comment_char = String::new();
    assert_eq!(c.options().unwrap().comment, None);
}

#[test]
fn line_number_flags_both_count() {
    let mut c = flags();
    c.show_row_number = true;
    assert!(c.options().unwrap().show_row_number);
    let mut c = flags();
    c.line_number = true;
    assert!(c.options().unwrap().show_row_number);
}

#[test]
fn long_delimiters_rejected() {
    assert!(matches!(parse_delim("ab", "delimiter"), Err(FilterError::BadFlagValue { .. })));
    assert!(matches!(parse_delim("", "delimiter"), Err(FilterError::BadFlagValue { .. })));
    assert!(matches!(parse_delim("é", "delimiter"), Err(FilterError::BadFlagValue { .. })));
    assert_eq!(parse_delim(";", "delimiter").unwrap(), b';');
    let mut c = flags();
    c.delimiter = "::".to_string();
    match c.options() {
        Err(FilterError::BadFlagValue { flag }) => assert_eq!(flag, "delimiter"),
        _ => panic!("expected a flag error"),
    }
}
