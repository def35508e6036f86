//! Filtering CSV/TSV rows by an arithmetic condition on selected fields.
use vstd::prelude::*;

pub mod cli;
pub mod csv_format;
pub mod error;
pub mod fields;
pub mod filter;
pub mod laws;
pub mod outside;
pub mod text;

use crate::csv_format::{check_strict, encode_record, normalize_crlf, crlf_normalized, spec_check_strict, write_record};
use crate::error::{FilterError, Fault};
use crate::fields::{FieldSel, FieldSpec, lemma_parse_resolvable, parse, resolvable, resolve, spec_parse, spec_resolve, string_views};
use crate::filter::{Comparison, Condition, Op, row_passes, spec_parse_condition, spec_row_passes, str_views};
use crate::outside::{csv_parse, csv_read, records_view, string_from_chars};
use crate::text::{decimal, decimal_chars};

verus! {

/// What a filter run is asked to do.
pub struct FilterOptions {
    /// Raw `-f/--filter` condition, e.g. `age>12`, `1,3<=2`, `c*!=0`.
    pub filter_str: String,
    /// `--any`: pass a row if any selected field satisfies (default: all must).
    pub any: bool,
    /// `-F`: treat colnames as globs matched against the header.
    pub fuzzy_fields: bool,
    /// `-n`/`-Z`: prepend a row-number column (header `row`).
    pub show_row_number: bool,
    pub no_header_row: bool,
    pub delete_header: bool,
    pub in_delim: u8,
    pub out_delim: u8,
    pub comment: Option<u8>,
    pub ignore_empty_row: bool,
    pub lazy_quotes: bool,
    pub ignore_illegal_row: bool,
}

/// How many data rows passed.
pub struct FilterStats {
    pub rows: u64,
}

/// The records of the input, as the CSV reader yields them, up to its first error,
/// and the bytes they were read from.
pub struct Table {
    pub records: Vec<Vec<String>>,
    pub read_error: Option<csv::Error>,
    pub source: Ghost<Seq<u8>>,
}

/// A condition together with the field spec its field part names.
pub struct Prepared {
    pub condition: Condition,
    pub spec: FieldSpec,
}

/// What a parsed condition `c` completes to, given the caller's verdict on whether
/// its threshold is a finite number: an overflowing threshold is an error, and
/// otherwise the field part is parsed.
pub open spec fn spec_complete(c: (Seq<char>, Op, Seq<char>), threshold_in_range: bool) -> Result<FieldSel, Fault> {
    if !threshold_in_range {
        Err(Fault::NumberOutOfRange(c.2))
    } else {
        spec_parse(c.0)
    }
}

/// The condition and field selection that `filter_str` stands for: the condition
/// is read first, then completed.
pub open spec fn spec_prepare(filter_str: Seq<char>, threshold_in_range: bool) -> Result<((Seq<char>, Op, Seq<char>), FieldSel), Fault> {
    match spec_parse_condition(filter_str) {
        Err(e) => Err(e),
        Ok(c) => match spec_complete(c, threshold_in_range) {
            Err(e) => Err(e),
            Ok(sel) => Ok((c, sel)),
        },
    }
}

/// Completes a parsed condition: an overflowing threshold (as the caller found it)
/// is an error; otherwise the field part is parsed into a field spec.
pub fn prepare(condition: Condition, threshold_in_range: bool) -> (r: Result<Prepared, FilterError>)
    ensures
        match r {
            Ok(p) => p.condition.view_parts() == condition.view_parts() && spec_complete(condition.view_parts(), threshold_in_range)
                == Ok::<FieldSel, Fault>(p.spec@),
            Err(e) => spec_complete(condition.view_parts(), threshold_in_range) == Err::<FieldSel, Fault>(e@),
        },
{
    if !threshold_in_range {
        return Err(FilterError::NumberOutOfRange { text: condition.threshold });
    }
    match parse(condition.field_str.as_str()) {
        Ok(spec) => Ok(Prepared { condition, spec }),
        Err(e) => Err(e),
    }
}

/// The bytes to write out, and the count of passing rows.
pub struct FilterOutput {
    pub bytes: Vec<u8>,
    pub stats: FilterStats,
}

/// The table that `load_table` reads from `data`.
pub open spec fn spec_load(data: Seq<u8>, opts: FilterOptions) -> Result<(Seq<Seq<Seq<char>>>, bool), Fault> {
    let d = crlf_normalized(data);
    if !opts.lazy_quotes && spec_check_strict(d, opts.in_delim, opts.comment) is Err {
        Err(spec_check_strict(d, opts.in_delim, opts.comment)->Err_0)
    } else {
        Ok(csv_parse(d, opts.in_delim, opts.comment, opts.ignore_illegal_row))
    }
}

/// Normalises line ends, validates quoting Go-strictly unless lazy quotes are on,
/// and reads the records (ragged rows are an error unless they are to be skipped).
pub fn load_table(data: Vec<u8>, opts: &FilterOptions) -> (r: Result<Table, FilterError>)
    ensures
        match r {
            Ok(t) => spec_load(data@, *opts) == Ok::<_, Fault>((records_view(t.records@), t.read_error is Some))
                && t.source@ == data@,
            Err(e) => spec_load(data@, *opts) == Err::<(Seq<Seq<Seq<char>>>, bool), Fault>(e@),
        },
{
    let ghost source = data@;
    let data = normalize_crlf(data);
    if !opts.lazy_quotes {
        match check_strict(data.as_slice(), opts.in_delim, opts.comment) {
            Ok(()) => {},
            Err(e) => {
                return Err(e);
            },
        }
    }
    let (records, read_error) = csv_read(data.as_slice(), opts.in_delim, opts.comment, opts.ignore_illegal_row);
    Ok(Table { records, read_error, source: Ghost(source) })
}

/// Where the row loop stands after some records.
pub struct RunState {
    pub cols: Seq<usize>,
    pub expected: nat,
    pub first: bool,
    pub row: nat,
    pub kept: nat,
    pub out: Seq<u8>,
    pub stopped: bool,
}

pub open spec fn initial_run() -> RunState {
    RunState { cols: Seq::empty(), expected: 0, first: true, row: 0, kept: 0, out: Seq::empty(), stopped: false }
}

/// Whether the header row is read as such: unless `-H`, and always for column names.
pub open spec fn has_header(sel: FieldSel, opts: FilterOptions) -> bool {
    !opts.no_header_row || sel is Names
}

pub open spec fn all_empty(rec: Seq<Seq<char>>) -> bool {
    forall|i: int| 0 <= i < rec.len() ==> (#[trigger] rec[i]).len() == 0
}

/// The record as written: prefixed by `label` when row numbers are shown.
pub open spec fn labelled(rec: Seq<Seq<char>>, show: bool, label: Seq<char>) -> Seq<Seq<char>> {
    if show {
        seq![label] + rec
    } else {
        rec
    }
}

/// The value of column `c` (1-based); empty past the end of the record.
pub open spec fn value_at(rec: Seq<Seq<char>>, c: usize) -> Seq<char> {
    if 1 <= c <= rec.len() {
        rec[c - 1]
    } else {
        Seq::empty()
    }
}

pub open spec fn comparison_at(rc: Seq<Comparison>, c: usize) -> Comparison {
    if 1 <= c <= rc.len() {
        rc[c - 1]
    } else {
        Comparison::Fails
    }
}

pub open spec fn row_label() -> Seq<char> {
    seq!['r', 'o', 'w']
}

/// A data row: counted, decided, and written with its number when it passes.
pub open spec fn data_row(st: RunState, rec: Seq<Seq<char>>, rc: Seq<Comparison>, opts: FilterOptions) -> Result<RunState, Fault> {
    let row = st.row + 1;
    let values = st.cols.map_values(|c: usize| value_at(rec, c));
    let outcomes = st.cols.map_values(|c: usize| comparison_at(rc, c));
    match spec_row_passes(values, outcomes, opts.any) {
        Err(e) => Err(e),
        Ok(pass) => Ok(RunState {
            row,
            kept: if pass { st.kept + 1 } else { st.kept },
            out: if pass { st.out + encode_record(labelled(rec, opts.show_row_number, decimal(row)), opts.out_delim) } else { st.out },
            ..st
        }),
    }
}

/// One record of the loop: empty rows and (after the first) ragged rows may be
/// skipped; the first record resolves the fields (none: stop without output) and is
/// the header when there is one; every other record is a data row.
pub open spec fn run_step(st: RunState, rec: Seq<Seq<char>>, rc: Seq<Comparison>, sel: FieldSel, opts: FilterOptions) -> Result<RunState, Fault> {
    if opts.ignore_empty_row && all_empty(rec) {
        Ok(st)
    } else if st.first {
        match spec_resolve(sel, rec, opts.fuzzy_fields) {
            Err(e) => Err(e),
            Ok(cols) => if cols.len() == 0 {
                Ok(RunState { stopped: true, ..st })
            } else {
                let st1 = RunState { cols, expected: rec.len(), first: false, ..st };
                if has_header(sel, opts) {
                    Ok(RunState {
                        out: if opts.delete_header { st1.out } else { st1.out + encode_record(labelled(rec, opts.show_row_number, row_label()), opts.out_delim) },
                        ..st1
                    })
                } else {
                    data_row(st1, rec, rc, opts)
                }
            },
        }
    } else if opts.ignore_illegal_row && rec.len() != st.expected {
        Ok(st)
    } else {
        data_row(st, rec, rc, opts)
    }
}

/// The comparisons for record `k`; none when the caller gave fewer rows.
pub open spec fn outcome_row(outcomes: Seq<Seq<Comparison>>, k: int) -> Seq<Comparison> {
    if 0 <= k < outcomes.len() {
        outcomes[k]
    } else {
        Seq::empty()
    }
}

/// The loop after the first `k` records.
pub open spec fn run_upto(records: Seq<Seq<Seq<char>>>, outcomes: Seq<Seq<Comparison>>, sel: FieldSel, opts: FilterOptions, k: int) -> Result<RunState, Fault>
    decreases k,
{
    if k <= 0 {
        Ok(initial_run())
    } else {
        match run_upto(records, outcomes, sel, opts, k - 1) {
            Err(e) => Err(e),
            Ok(st) => if st.stopped {
                Ok(st)
            } else {
                run_step(st, records[k - 1], outcome_row(outcomes, k - 1), sel, opts)
            },
        }
    }
}

/// The output and passing-row count of a run over a table; a reader error that the
/// loop reaches is reported after the records before it.
pub open spec fn spec_filter(records: Seq<Seq<Seq<char>>>, read_failed: bool, outcomes: Seq<Seq<Comparison>>, sel: FieldSel, opts: FilterOptions) -> Result<(Seq<u8>, nat), Fault> {
    match run_upto(records, outcomes, sel, opts, records.len() as int) {
        Err(e) => Err(e),
        Ok(st) => if !st.stopped && read_failed {
            Err(Fault::Read)
        } else {
            Ok((st.out, st.kept))
        },
    }
}

/// A whole run: the condition and field part of `opts.filter_str` (with the
/// caller's verdict on the threshold), then the table read from `data`, then the
/// row loop over it with the given comparisons.
pub open spec fn spec_run(data: Seq<u8>, opts: FilterOptions, threshold_in_range: bool, outcomes: Seq<Seq<Comparison>>) -> Result<(Seq<u8>, nat), Fault> {
    match spec_prepare(opts.filter_str@, threshold_in_range) {
        Err(e) => Err(e),
        Ok((_, sel)) => match spec_load(data, opts) {
            Err(e) => Err(e),
            Ok((recs, failed)) => spec_filter(recs, failed, outcomes, sel, opts),
        },
    }
}

pub open spec fn comparison_rows(c: Seq<Vec<Comparison>>) -> Seq<Seq<Comparison>> {
    c.map_values(|r: Vec<Comparison>| r@)
}


pub proof fn lemma_run_settled(records: Seq<Seq<Seq<char>>>, outcomes: Seq<Seq<Comparison>>, sel: FieldSel, opts: FilterOptions, k: int, n: int)
    requires
        0 <= k <= n,
        run_upto(records, outcomes, sel, opts, k) is Err || (run_upto(records, outcomes, sel, opts, k) matches Ok(st) && st.stopped),
    ensures
        run_upto(records, outcomes, sel, opts, n) == run_upto(records, outcomes, sel, opts, k),
    decreases n - k,
{
    if k < n {
        lemma_run_settled(records, outcomes, sel, opts, k, n - 1);
    }
}

/// Appends a record, prefixed by `label` when row numbers are shown.
fn emit_row(out: &mut Vec<u8>, rec: &Vec<String>, show: bool, label: &str, delim: u8)
    ensures
        final(out)@ == old(out)@ + encode_record(labelled(string_views(rec@), show, label@), delim),
{
    let ghost want = labelled(string_views(rec@), show, label@);
    let mut fs: Vec<&str> = Vec::new();
    if show {
        fs.push(label);
    }
    let ghost base = fs@.map_values(|f: &str| f@);
    let mut i: usize = 0;
    while i < rec.len()
        invariant
            i <= rec@.len(),
            base == (if show { seq![label@] } else { Seq::<Seq<char>>::empty() }),
            fs@.map_values(|f: &str| f@) == base + string_views(rec@).take(i as int),
        decreases rec@.len() - i,
    {
        let ghost before = fs@;
        fs.push(rec[i].as_str());
        assert(fs@.map_values(|f: &str| f@) =~= before.map_values(|f: &str| f@).push(rec@[i as int]@));
        i = i + 1;
        assert(fs@.map_values(|f: &str| f@) =~= base + string_views(rec@).take(i as int));
    }
    assert(string_views(rec@).take(i as int) =~= string_views(rec@));
    assert(fs@.map_values(|f: &str| f@) =~= want);
    write_record(out, fs.as_slice(), delim);
}

fn all_fields_empty(rec: &Vec<String>) -> (b: bool)
    ensures
        b == all_empty(string_views(rec@)),
{
    let mut i: usize = 0;
    while i < rec.len()
        invariant
            i <= rec@.len(),
            forall|x: int| 0 <= x < i ==> (#[trigger] rec@[x])@.len() == 0,
        decreases rec@.len() - i,
    {
        if !rec[i].as_str().is_empty() {
            assert(string_views(rec@)[i as int] == rec@[i as int]@);
            return false;
        }
        i = i + 1;
    }
    assert forall|x: int| 0 <= x < string_views(rec@).len() implies (#[trigger] string_views(rec@)[x]).len() == 0 by {
        assert(string_views(rec@)[x] == rec@[x]@);
    }
    true
}

spec fn data_state(cols: Seq<usize>, expected: nat, row: nat, kept: nat, out: Seq<u8>) -> RunState {
    RunState { cols, expected, first: false, row, kept, out, stopped: false }
}

/// The data-row step: decides the row and writes it, numbered, when it passes.
fn run_data_row(out: &mut Vec<u8>, rec: &Vec<String>, rc: &Vec<Comparison>, cols: &Vec<usize>, row: u64, kept: u64, opts: &FilterOptions, Ghost(st): Ghost<RunState>) -> (r: Result<bool, FilterError>)
    requires
        row < u64::MAX,
        kept <= row,
        st.cols == cols@,
        st.row == row as nat,
        st.kept == kept as nat,
        st.out == old(out)@,
    ensures
        r matches Err(e) ==> !(e is Read),
        ({
            match r {
                Ok(pass) => data_row(st, string_views(rec@), rc@, *opts) == Ok::<RunState, Fault>(RunState {
                    row: (row + 1) as nat,
                    kept: if pass { (kept + 1) as nat } else { kept as nat },
                    out: final(out)@,
                    ..st
                }),
                Err(e) => data_row(st, string_views(rec@), rc@, *opts) == Err::<RunState, Fault>(e@),
            }
        }),
{
    let ghost recv = string_views(rec@);
    let row = row + 1;
    let mut values: Vec<&str> = Vec::new();
    let mut outcomes: Vec<Comparison> = Vec::new();
    let mut i: usize = 0;
    let empty = "";
    proof {
        reveal_strlit("");
    }
    assert(empty@.len() == 0);
    while i < cols.len()
        invariant
            i <= cols@.len(),
            empty@.len() == 0,
            recv == string_views(rec@),
            values@.map_values(|v: &str| v@) == cols@.take(i as int).map_values(|c: usize| value_at(recv, c)),
            outcomes@ == cols@.take(i as int).map_values(|c: usize| comparison_at(rc@, c)),
        decreases cols@.len() - i,
    {
        let c = cols[i];
        let ghost vb = values@;
        let ghost ob = outcomes@;
        assert(empty@ =~= Seq::<char>::empty());
        if 1 <= c && c <= rec.len() {
            let v = rec[c - 1].as_str();
            assert(recv[c - 1] == rec@[c - 1]@);
            assert(v@ == value_at(recv, c));
            values.push(v);
            assert(values@ == vb.push(v));
        } else {
            values.push(empty);
            assert(values@ == vb.push(empty));
        }
        if 1 <= c && c <= rc.len() {
            outcomes.push(rc[c - 1]);
        } else {
            outcomes.push(Comparison::Fails);
        }
        assert(values@.map_values(|v: &str| v@) =~= vb.map_values(|v: &str| v@).push(value_at(recv, c)));
        i = i + 1;
        assert(values@.map_values(|v: &str| v@) =~= cols@.take(i as int).map_values(|c: usize| value_at(recv, c)));
        assert(outcomes@ =~= cols@.take(i as int).map_values(|c: usize| comparison_at(rc@, c)));
    }
    assert(cols@.take(i as int) =~= cols@);
    assert(str_views(values@) == values@.map_values(|v: &str| v@));
    let pass = match row_passes(values.as_slice(), outcomes.as_slice(), opts.any) {
        Ok(p) => p,
        Err(e) => {
            return Err(e);
        },
    };
    if pass {
        let label = string_from_chars(decimal_chars(row).as_slice());
        emit_row(out, rec, opts.show_row_number, label.as_str(), opts.out_delim);
    }
    Ok(pass)
}

/// Runs the row loop over a table: the first record resolves the fields and is the
/// header when there is one; each data row is decided from its selected values and
/// `comparisons[k][c]`, how field `c` of record `k` compares with the threshold.
/// The whole record is written for a passing row, never a projection.
pub fn filter(table: Table, spec: &FieldSpec, opts: &FilterOptions, comparisons: &Vec<Vec<Comparison>>) -> (r: Result<FilterOutput, FilterError>)
    requires
        spec_prepare(opts.filter_str@, true) matches Ok((_, sel)) && sel == spec@,
        spec_load(table.source@, *opts) == Ok::<_, Fault>((records_view(table.records@), table.read_error is Some)),
    ensures
        match r {
            Ok(o) => spec_run(table.source@, *opts, true, comparison_rows(comparisons@)) == Ok::<(Seq<u8>, nat), Fault>(
                (o.bytes@, o.stats.rows as nat),
            ),
            Err(e) => spec_run(table.source@, *opts, true, comparison_rows(comparisons@)) == Err::<(Seq<u8>, nat), Fault>(e@),
        },
        r matches Err(FilterError::Read { csv_error }) ==> table.read_error == Some(csv_error),
        match r {
            Ok(o) => spec_filter(records_view(table.records@), table.read_error is Some, comparison_rows(comparisons@), spec@, *opts)
                == Ok::<(Seq<u8>, nat), Fault>((o.bytes@, o.stats.rows as nat)),
            Err(e) => spec_filter(records_view(table.records@), table.read_error is Some, comparison_rows(comparisons@), spec@, *opts)
                == Err::<(Seq<u8>, nat), Fault>(e@),
        },
{
    let ghost recs = records_view(table.records@);
    let ghost outs = comparison_rows(comparisons@);
    let ghost sel = spec@;
    let ghost read_failed = table.read_error is Some;
    proof {
        lemma_parse_resolvable(spec_parse_condition(opts.filter_str@)->Ok_0.0);
        assert(spec_run(table.source@, *opts, true, outs) == spec_filter(recs, read_failed, outs, sel, *opts));
    }
    let ghost src = table.source@;
    let Table { records, read_error, .. } = table;
    let no_outcomes: Vec<Comparison> = Vec::new();
    let header_mode = !opts.no_header_row || spec.is_names();
    let mut out: Vec<u8> = Vec::new();
    let mut cols: Vec<usize> = Vec::new();
    let mut expected: usize = 0;
    let mut first = true;
    let mut row: u64 = 0;
    let mut kept: u64 = 0;
    let mut k: usize = 0;
    let row_word = "row";
    proof {
        reveal_strlit("row");
    }
    assert(row_word@ == row_label());
    while k < records.len()
        invariant
            k <= records@.len(),
            recs == records_view(records@),
            recs == records_view(table.records@),
            src == table.source@,
            spec_run(src, *opts, true, outs) == spec_filter(recs, read_failed, outs, sel, *opts),
            outs == comparison_rows(comparisons@),
            sel == spec@,
            resolvable(sel),
            no_outcomes@.len() == 0,
            row_word@ == row_label(),
            header_mode == has_header(sel, *opts),
            row <= k,
            kept <= row,
            first ==> row == 0 && kept == 0 && out@.len() == 0,
            run_upto(recs, outs, sel, *opts, k as int) == Ok::<RunState, Fault>(RunState {
                cols: cols@,
                expected: if first { 0 } else { expected as nat },
                first,
                row: row as nat,
                kept: kept as nat,
                out: out@,
                stopped: false,
            }),
        decreases records@.len() - k,
    {
        let rec = &records[k];
        let rc = if k < comparisons.len() { &comparisons[k] } else { &no_outcomes };
        let ghost st = RunState {
            cols: cols@,
            expected: if first { 0 } else { expected as nat },
            first,
            row: row as nat,
            kept: kept as nat,
            out: out@,
            stopped: false,
        };
        proof {
            assert(recs[k as int] == string_views(rec@));
            assert(outcome_row(outs, k as int) == rc@);
        }
        if opts.ignore_empty_row && all_fields_empty(rec) {
            // skipped
        } else if first {
            let cs = match resolve(spec, rec.as_slice(), opts.fuzzy_fields) {
                Ok(cs) => cs,
                Err(e) => {
                    proof {
                        assert(spec_resolve(sel, recs[k as int], opts.fuzzy_fields) == Err::<Seq<usize>, Fault>(e@));
                        assert(run_step(st, recs[k as int], rc@, sel, *opts) == Err::<RunState, Fault>(e@));
                        assert(run_upto(recs, outs, sel, *opts, k + 1) == Err::<RunState, Fault>(e@));
                        lemma_run_settled(recs, outs, sel, *opts, k + 1, recs.len() as int);
                    }
                    return Err(e);
                },
            };
            if cs.len() == 0 {
                proof {
                    lemma_run_settled(recs, outs, sel, *opts, k + 1, recs.len() as int);
                }
                return Ok(FilterOutput { bytes: out, stats: FilterStats { rows: kept } });
            }
            cols = cs;
            expected = rec.len();
            first = false;
            if header_mode {
                if !opts.delete_header {
                    emit_row(&mut out, rec, opts.show_row_number, row_word, opts.out_delim);
                }
            } else {
                let ghost ds = data_state(cols@, expected as nat, row as nat, kept as nat, out@);
                match run_data_row(&mut out, rec, rc, &cols, row, kept, opts, Ghost(ds)) {
                    Ok(pass) => {
                        row = row + 1;
                        if pass {
                            kept = kept + 1;
                        }
                    },
                    Err(e) => {
                        proof {
                            lemma_run_settled(recs, outs, sel, *opts, k + 1, recs.len() as int);
                        }
                        return Err(e);
                    },
                }
            }
        } else if opts.ignore_illegal_row && rec.len() != expected {
            // skipped
        } else {
            let ghost ds = data_state(cols@, expected as nat, row as nat, kept as nat, out@);
                match run_data_row(&mut out, rec, rc, &cols, row, kept, opts, Ghost(ds)) {
                Ok(pass) => {
                    row = row + 1;
                    if pass {
                        kept = kept + 1;
                    }
                },
                Err(e) => {
                    proof {
                        lemma_run_settled(recs, outs, sel, *opts, k + 1, recs.len() as int);
                    }
                    return Err(e);
                },
            }
        }
        k = k + 1;
    }
    assert(k == recs.len());
    if let Some(e) = read_error {
        return Err(FilterError::Read { csv_error: e });
    }
    Ok(FilterOutput { bytes: out, stats: FilterStats { rows: kept } })
}

} // verus!
