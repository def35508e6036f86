use tsv_filter::csv_format::{check_strict, normalize_crlf, write_record};
use tsv_filter::error::FilterError;

fn record(fields: &[&str], delim: u8) -> String {
    let mut out = Vec::new();
    write_record(&mut out, fields, delim);
    String::from_utf8(out).unwrap()
}

#[test]
fn writer_quotes_only_when_needed() {
    assert_eq!(record(&["a", "b"], b','), "a,b\n");
    assert_eq!(record(&["a,b", "c"], b','), "\"a,b\",c\n");
    assert_eq!(record(&["say \"hi\""], b','), "\"say \"\"hi\"\"\"\n");
    assert_eq!(record(&[" lead"], b','), "\" lead\"\n");
    assert_eq!(record(&["\\."], b','), "\"\\.\"\n");
    assert_eq!(record(&["", "x"], b','), ",x\n");
    assert_eq!(record(&["a\nb"], b','), "\"a\nb\"\n");
    assert_eq!(record(&["a,b"], b'\t'), "a,b\n");
    assert_eq!(record(&["a\tb"], b'\t'), "\"a\tb\"\n");
    assert_eq!(record(&["\u{3000}x"], b','), "\"\u{3000}x\"\n");
    assert_eq!(record(&[], b','), "\n");
}

#[test]
fn crlf_normalization() {
    assert_eq!(normalize_crlf(b"a\r\nb\r\n".to_vec()), b"a\nb\n".to_vec());
    assert_eq!(normalize_crlf(b"a\rb".to_vec()), b"a\rb".to_vec());
    assert_eq!(normalize_crlf(b"a\r".to_vec()), b"a".to_vec());
    assert_eq!(normalize_crlf(b"a\r\r\n".to_vec()), b"a\r\n".to_vec());
    assert_eq!(normalize_crlf(Vec::new()), Vec::<u8>::new());
}

#[test]
fn strict_quote_rules() {
    assert!(check_strict(b"a,\"b,c\"\n", b',', None).is_ok());
    assert!(check_strict(b"\"a\"\"b\"\n", b',', None).is_ok());
    assert!(matches!(check_strict(b"a,b\"c\n", b',', None), Err(FilterError::BareQuote { offset: 3 })));
    assert!(matches!(check_strict(b"\"a\"b\n", b',', None), Err(FilterError::MisplacedQuote { offset: 3 })));
    assert!(matches!(check_strict(b"\"abc\n", b',', None), Err(FilterError::UnclosedQuote)));
    assert!(check_strict(b"#a\"b\nx\n", b',', Some(b'#')).is_ok());
    assert!(check_strict(b"#a\"b\nx\n", b',', None).is_err());
    assert!(check_strict(b"\"multi\nline\",x\n", b',', None).is_ok());
}

#[test]
fn written_records_read_back_strictly() {
    let mut out = Vec::new();
    write_record(&mut out, &["say \"hi\"", "a,b", "", " lead"], b',');
    write_record(&mut out, &["multi\nline", "\\.", "x"], b',');
    write_record(&mut out, &[], b',');
    assert!(check_strict(&out, b',', None).is_ok());
    let mut tabbed = Vec::new();
    write_record(&mut tabbed, &["a\tb", "c\"d"], b'\t');
    assert!(check_strict(&tabbed, b'\t', None).is_ok());
}

#[test]
fn quote_as_delimiter_breaks_strict_reading() {
    let mut out = Vec::new();
    write_record(&mut out, &["a", "b"], b'"');
    assert_eq!(out, b"a\"b\n".to_vec());
    assert!(matches!(check_strict(&out, b'"', None), Err(FilterError::BareQuote { offset: 1 })));
}
