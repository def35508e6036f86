use tsv_filter::error::FilterError;
use tsv_filter::filter::{numeric_literal, parse_condition, Comparison, Op};
use tsv_filter::{filter, load_table, prepare, FilterOptions};

fn options(filter_str: &str) -> FilterOptions {
    FilterOptions {
        filter_str: filter_str.to_string(),
        any: false,
        fuzzy_fields: false,
        show_row_number: false,
        no_header_row: false,
        delete_header: false,
        in_delim: b',',
        out_delim: b',',
        comment: Some(b'#'),
        ignore_empty_row: false,
        lazy_quotes: false,
        ignore_illegal_row: false,
    }
}

/// The whole run, as the command line drives it: condition, threshold, fields,
/// table, comparisons in `f64`, row loop.
fn run(opts: &FilterOptions, input: &str) -> Result<(String, u64), FilterError> {
    let cond = parse_condition(&opts.filter_str)?;
    let threshold: f64 = cond.threshold.parse().unwrap();
    let prepared = prepare(cond, !threshold.is_infinite())?;
    let op = prepared.condition.op;
    let table = load_table(input.as_bytes().to_vec(), opts)?;
    let comparisons: Vec<Vec<Comparison>> = table
        .records
        .iter()
        .map(|rec| {
            rec.iter()
                .map(|f| match numeric_literal(f) {
                    Some(t) => {
                        let v: f64 = t.parse().unwrap();
                        if v.is_infinite() {
                            Comparison::OutOfRange
                        } else {
                            let holds = match op {
                                Op::Gt => v > threshold,
                                Op::Lt => v < threshold,
                                Op::Eq => v == threshold,
                                Op::Ge => v >= threshold,
                                Op::Le => v <= threshold,
                                Op::Ne => v != threshold,
                            };
                            if holds { Comparison::Holds } else { Comparison::Fails }
                        }
                    }
                    None => Comparison::Fails,
                })
                .collect()
        })
        .collect();
    let out = filter(table, &prepared.spec, opts, &comparisons)?;
    Ok((String::from_utf8(out.bytes).unwrap(), out.stats.rows))
}

const PEOPLE: &str = "name,age,score\nAlice,30,88\nBob,25,92\nCarol,27,85\nDave,35,70\n";

#[test]
fn ragged_row_fails_loud_by_default() {
    assert!(run(&options("1>0"), "a,b\n1,2\n3\n4,5\n").is_err());
}

#[test]
fn bare_quote_fails_loud_by_default() {
    assert!(run(&options("1>0"), "a,b\n1,x\"y\n").is_err());
}

#[test]
fn missing_filter_fails() {
    assert!(run(&options(""), PEOPLE).is_err());
}

#[test]
fn double_equals_is_invalid_expression() {
    assert!(run(&options("age==30"), PEOPLE).is_err());
}

#[test]
fn no_operator_is_invalid_filter() {
    assert!(run(&options("age"), PEOPLE).is_err());
}

#[test]
fn comma_in_threshold_fails() {
    assert!(run(&options("age>1,0"), PEOPLE).is_err());
}

#[test]
fn unparseable_numeric_value_fails() {
    assert!(run(&options("val>1"), "id,val\n1,5\n2,1.2.3\n").is_err());
}

// --- further cases ---

#[test]
fn numeric_gt_by_name() {
    let (out, rows) = run(&options("age>26"), PEOPLE).unwrap();
    assert_eq!(out, "name,age,score\nAlice,30,88\nCarol,27,85\nDave,35,70\n");
    assert_eq!(rows, 3);
}

#[test]
fn numeric_gt_by_index() {
    let (out, _) = run(&options("2>26"), PEOPLE).unwrap();
    assert_eq!(out, "name,age,score\nAlice,30,88\nCarol,27,85\nDave,35,70\n");
}

#[test]
fn ge_operator() {
    assert_eq!(run(&options("score>=88"), PEOPLE).unwrap().0, "name,age,score\nAlice,30,88\nBob,25,92\n");
}

#[test]
fn ne_operator() {
    assert_eq!(
        run(&options("age!=30"), PEOPLE).unwrap().0,
        "name,age,score\nBob,25,92\nCarol,27,85\nDave,35,70\n"
    );
}

#[test]
fn le_operator() {
    assert_eq!(
        run(&options("age<=30"), PEOPLE).unwrap().0,
        "name,age,score\nAlice,30,88\nBob,25,92\nCarol,27,85\n"
    );
}

#[test]
fn eq_operator_single_equals() {
    assert_eq!(run(&options("age=30"), PEOPLE).unwrap().0, "name,age,score\nAlice,30,88\n");
}

#[test]
fn ltgt_operator_alias() {
    assert_eq!(
        run(&options("age<>30"), PEOPLE).unwrap().0,
        "name,age,score\nBob,25,92\nCarol,27,85\nDave,35,70\n"
    );
}

#[test]
fn equality_and_inequality_spellings() {
    assert_eq!(run(&options("age=30"), PEOPLE).unwrap().0, "name,age,score\nAlice,30,88\n");
    let ne = run(&options("age!=30"), PEOPLE).unwrap().0;
    assert_eq!(ne, "name,age,score\nBob,25,92\nCarol,27,85\nDave,35,70\n");
    assert_eq!(run(&options("age<>30"), PEOPLE).unwrap().0, ne);
}

#[test]
fn range_fields_all() {
    let (out, _) = run(&options("2-3>20"), PEOPLE).unwrap();
    assert_eq!(out, PEOPLE);
    let (out, _) = run(&options("2-3>27"), PEOPLE).unwrap();
    assert_eq!(out, "name,age,score\nAlice,30,88\nDave,35,70\n");
}

#[test]
fn any_of_two_fields() {
    let mut o = options("age,score>90");
    o.any = true;
    assert_eq!(run(&o, PEOPLE).unwrap().0, "name,age,score\nBob,25,92\n");
}

#[test]
fn non_numeric_field_drops_rows() {
    assert_eq!(run(&options("name>0"), PEOPLE).unwrap(), ("name,age,score\n".to_string(), 0));
}

#[test]
fn line_number_column() {
    let mut o = options("age>26");
    o.show_row_number = true;
    assert_eq!(
        run(&o, PEOPLE).unwrap().0,
        "row,name,age,score\n1,Alice,30,88\n3,Carol,27,85\n4,Dave,35,70\n"
    );
}

#[test]
fn delete_header() {
    let mut o = options("age>26");
    o.delete_header = true;
    assert_eq!(run(&o, PEOPLE).unwrap().0, "Alice,30,88\nCarol,27,85\nDave,35,70\n");
}

#[test]
fn no_header_line_number() {
    let mut o = options("2>26");
    o.no_header_row = true;
    o.show_row_number = true;
    assert_eq!(run(&o, "Alice,30\nBob,25\n").unwrap().0, "1,Alice,30\n");
}

#[test]
fn no_header_ignored_for_names() {
    let mut o = options("age>26");
    o.no_header_row = true;
    assert_eq!(run(&o, "name,age\nAlice,30\nBob,25\n").unwrap().0, "name,age\nAlice,30\n");
}

#[test]
fn explicit_tab_delimiters() {
    let mut o = options("age>26");
    o.in_delim = b'\t';
    o.out_delim = b'\t';
    assert_eq!(run(&o, "name\tage\nAlice\t30\nBob\t25\n").unwrap().0, "name\tage\nAlice\t30\n");
}

#[test]
fn quoted_fields_roundtrip() {
    let input = "id,val,note\n1,200,\"a,b\"\n2,50,x\n3,300,\"say \"\"hi\"\"\"\n4,400,\" lead\"\n";
    assert_eq!(
        run(&options("val>100"), input).unwrap().0,
        "id,val,note\n1,200,\"a,b\"\n3,300,\"say \"\"hi\"\"\"\n4,400,\" lead\"\n"
    );
}

const COLS: &str = "id,c1,c2\n1,10,20\n2,5,30\n3,9,9\n";

#[test]
fn fuzzy_fields_all() {
    let mut o = options("c*>8");
    o.fuzzy_fields = true;
    assert_eq!(run(&o, COLS).unwrap().0, "id,c1,c2\n1,10,20\n3,9,9\n");
}

#[test]
fn fuzzy_fields_any() {
    let mut o = options("c*>25");
    o.fuzzy_fields = true;
    o.any = true;
    assert_eq!(run(&o, COLS).unwrap().0, "id,c1,c2\n2,5,30\n");
}

#[test]
fn fuzzy_no_match_writes_nothing() {
    let mut o = options("zz*>0");
    o.fuzzy_fields = true;
    assert_eq!(run(&o, "a,b\n1,2\n").unwrap(), (String::new(), 0));
}

#[test]
fn comment_line_and_line_number() {
    let mut o = options("age>26");
    o.show_row_number = true;
    assert_eq!(run(&o, "# note\nname,age\nAlice,30\nBob,25\n").unwrap().0, "row,name,age\n1,Alice,30\n");
}

#[test]
fn ragged_row_skipped_with_ignore_illegal() {
    let mut o = options("1>0");
    o.ignore_illegal_row = true;
    assert_eq!(run(&o, "a,b\n1,2\n3\n4,5\n").unwrap().0, "a,b\n1,2\n4,5\n");
}

#[test]
fn bare_quote_accepted_with_lazy_quotes() {
    let mut o = options("1>0");
    o.lazy_quotes = true;
    assert_eq!(run(&o, "a,b\n1,x\"y\n").unwrap().0, "a,b\n1,\"x\"\"y\"\n");
}

#[test]
fn crlf_input_is_normalized() {
    assert_eq!(run(&options("age>26"), "name,age\r\nAlice,30\r\nBob,25\r\n").unwrap().0, "name,age\nAlice,30\n");
}

#[test]
fn mid_stream_error_emits_no_partial_output() {
    // The ragged third record fails the run although the row before it passed.
    assert!(run(&options("v>0"), "k,v\na,1\nb\n").is_err());
}

#[test]
fn empty_rows_skipped_on_request() {
    let mut o = options("v>0");
    o.ignore_empty_row = true;
    o.ignore_illegal_row = true;
    assert_eq!(run(&o, "k,v\n,\na,1\n").unwrap().0, "k,v\na,1\n");
}

#[test]
fn thousands_separators_in_values() {
    assert_eq!(run(&options("v>999"), "k,v\na,\"1,000\"\nb,999\n").unwrap().0, "k,v\na,\"1,000\"\n");
}

#[test]
fn missing_column_is_an_error() {
    assert!(matches!(run(&options("nope>1"), PEOPLE), Err(FilterError::MissingColumn { .. })));
}

#[test]
fn filtered_output_reads_back_strictly() {
    let input = "id,val,note\n1,200,\"a,b\"\n2,50,x\n3,300,\"say \"\"hi\"\"\"\n4,400,\"two\nlines\"\n";
    let (out, rows) = run(&options("val>100"), input).unwrap();
    assert_eq!(rows, 3);
    assert!(tsv_filter::csv_format::check_strict(out.as_bytes(), b',', None).is_ok());
}

#[test]
fn passed_rows_never_exceed_records() {
    let mut o = options("2>0");
    o.no_header_row = true;
    o.show_row_number = true;
    let (out, rows) = run(&o, "1,5\n2,6\n3,7\n").unwrap();
    assert_eq!(rows, 3);
    assert_eq!(out, "1,1,5\n2,2,6\n3,3,7\n");
    let (_, rows) = run(&options("age>0"), PEOPLE).unwrap();
    assert_eq!(rows, 4);
}

#[test]
fn no_header_index() {
    let mut o = options("2>26");
    o.no_header_row = true;
    assert_eq!(run(&o, "Alice,30\nBob,25\nCarol,27\n").unwrap().0, "Alice,30\nCarol,27\n");
}

#[test]
fn tab_delimited() {
    let flags = tsv_filter::cli::Cli {
        input: "-".to_string(),
        output: "-".to_string(),
        filter: "age>26".to_string(),
        any: false,
        fuzzy_fields: false,
        line_number: false,
        show_row_number: false,
        delimiter: ",".to_string(),
        out_delimiter: ",".to_string(),
        tabs: true,
        out_tabs: false,
        comment_char: "#".to_string(),
        no_header_row: false,
        delete_header: false,
        ignore_empty_row: false,
        ignore_illegal_row: false,
        lazy_quotes: false,
        json: false,
    };
    let o = flags.options().ok().unwrap();
    assert_eq!(run(&o, "name\tage\nAlice\t30\nBob\t25\n").unwrap().0, "name\tage\nAlice\t30\n");
}

#[test]
fn crlf_in_quoted_field_normalized() {
    let input = "name,age,note\r\nAl,30,\"a\r\nb\"\r\nBo,20,x\r\n";
    assert_eq!(run(&options("age>26"), input).unwrap().0, "name,age,note\nAl,30,\"a\nb\"\n");
}

#[test]
fn bare_cr_kept_as_field_content() {
    let input = "n,note\n1,a\rb\n0,c\n";
    assert_eq!(run(&options("n>0"), input).unwrap().0, "n,note\n1,\"a\rb\"\n");
}

#[test]
fn trailing_cr_before_eof_dropped() {
    let input = "n,note\n1,a\r";
    assert_eq!(run(&options("n>0"), input).unwrap().0, "n,note\n1,a\n");
}

#[test]
fn prepare_checks_the_threshold_before_the_fields() {
    let cond = parse_condition("0>1e999").ok().unwrap();
    assert!(matches!(prepare(cond, false), Err(FilterError::NumberOutOfRange { .. })));
    let cond = parse_condition("0>1").ok().unwrap();
    assert!(matches!(prepare(cond, true), Err(FilterError::ZeroField)));
    let cond = parse_condition("age>=2").ok().unwrap();
    let p = prepare(cond, true).ok().unwrap();
    assert!(p.spec.is_names());
    assert_eq!(p.condition.op, Op::Ge);
    assert_eq!(p.condition.threshold, "2");
}

#[test]
fn bad_condition_or_quotes_fail_the_run() {
    assert!(matches!(run(&options("age==30"), PEOPLE), Err(FilterError::InvalidExpression { .. })));
    assert!(matches!(run(&options("age"), PEOPLE), Err(FilterError::InvalidFilter { .. })));
    assert!(matches!(run(&options("age>1,0"), PEOPLE), Err(FilterError::InvalidNumber { .. })));
    assert!(matches!(run(&options(""), PEOPLE), Err(FilterError::MissingFilter)));
    assert!(matches!(run(&options("1>0"), "a,b\n1,x\"y\n"), Err(FilterError::BareQuote { offset: 7 })));
}

#[test]
fn reader_error_is_handed_back() {
    assert!(matches!(run(&options("v>0"), "k,v\na,1\nb\n"), Err(FilterError::Read { .. })));
}
