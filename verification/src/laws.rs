//! What holds of the library across inputs and calls.
use vstd::prelude::*;
use crate::filter::{
    lemma_op_run_step,
    Comparison, Op, float_literal, is_op_char, is_value_char, lazy_field_len, looks_numeric, op_run, op_value_tail,
    row_scan, spec_op, spec_parse_condition, spec_row_passes, without_commas, exp_index, is_digital_char,
};

use crate::{
    FilterOptions, RunState, spec_prepare, spec_run, all_empty, comparison_at, data_row, has_header, initial_run, labelled, lemma_run_settled,
    outcome_row, row_label, run_step, run_upto, spec_filter, value_at,
};
use crate::csv_format::{
    ScanState, crlf_normalized, encode_field, encode_record, escape_quotes, join_fields, needs_quotes, spec_check_strict, strict_scan,
    strict_step,
};
use crate::error::Fault;
use crate::text::{decimal, has_sign};
use vstd::utf8::encode_utf8;
use crate::fields::{
    FieldSel, bare_names, columns_not_in, dash_from, glob_body, range_split, expand_all, expand_entry, first_above, fuzzy_select, glob_source, index_fold,
    index_step, is_open_entry, kept_positions, matched_positions, name_scan, spec_parse_names, positions_of, select_names, sign_scan, spec_parse,
    spec_parse_index, spec_resolve, spec_resolve_index, unmatched_positions,
};
use crate::text::split_at_char;

verus! {

/// A value that counts as a number in range: it looks numeric, is a decimal literal
/// once its commas are gone, and did not overflow.
pub open spec fn sound_number(values: Seq<Seq<char>>, outcomes: Seq<Comparison>, j: int) -> bool {
    looks_numeric(values[j]) && float_literal(without_commas(values[j])) && outcomes[j] != Comparison::OutOfRange
}

proof fn lemma_all_scan_behind(values: Seq<Seq<char>>, outcomes: Seq<Comparison>, i: int, n: nat)
    requires
        0 <= i <= values.len(),
        n < i,
    ensures
        row_scan(values, outcomes, false, i, n) != Ok::<bool, crate::error::Fault>(true),
    decreases values.len() - i,
{
    if i < values.len() {
        let n2: nat = if outcomes[i] == Comparison::Holds { n + 1 } else { n };
        lemma_all_scan_behind(values, outcomes, i + 1, n2);
    }
}

proof fn lemma_all_scan(values: Seq<Seq<char>>, outcomes: Seq<Comparison>, i: int)
    requires
        0 <= i <= values.len(),
    ensures
        row_scan(values, outcomes, false, i, i as nat) == Ok::<bool, crate::error::Fault>(true) <==> forall|j: int|
            i <= j < values.len() ==> sound_number(values, outcomes, j) && #[trigger] outcomes[j] == Comparison::Holds,
    decreases values.len() - i,
{
    if i < values.len() {
        lemma_all_scan(values, outcomes, i + 1);
        if sound_number(values, outcomes, i) && outcomes[i] != Comparison::Holds {
            lemma_all_scan_behind(values, outcomes, i + 1, i as nat);
        }
    }
}

/// By default a row passes exactly when every selected value is a number in range
/// that satisfies the condition.
pub proof fn law_all_mode_passes(values: Seq<Seq<char>>, outcomes: Seq<Comparison>)
    ensures
        spec_row_passes(values, outcomes, false) == Ok::<bool, crate::error::Fault>(true) <==> forall|j: int|
            0 <= j < values.len() ==> sound_number(values, outcomes, j) && #[trigger] outcomes[j] == Comparison::Holds,
{
    lemma_all_scan(values, outcomes, 0);
}

/// Some value from `i` on satisfies the condition, and it and every value from `i`
/// up to it are numbers in range.
pub open spec fn hit_from(values: Seq<Seq<char>>, outcomes: Seq<Comparison>, i: int) -> bool
    decreases values.len() - i,
{
    if i < 0 || i >= values.len() {
        false
    } else {
        sound_number(values, outcomes, i) && (outcomes[i] == Comparison::Holds || hit_from(values, outcomes, i + 1))
    }
}

proof fn lemma_any_scan(values: Seq<Seq<char>>, outcomes: Seq<Comparison>, i: int)
    requires
        0 <= i <= values.len(),
    ensures
        row_scan(values, outcomes, true, i, 0) == Ok::<bool, crate::error::Fault>(true) <==> (values.len() == 0 || hit_from(values, outcomes, i)),
    decreases values.len() - i,
{
    if i < values.len() {
        lemma_any_scan(values, outcomes, i + 1);
    }
}

proof fn lemma_hit_from(values: Seq<Seq<char>>, outcomes: Seq<Comparison>, i: int)
    requires
        0 <= i <= values.len(),
    ensures
        hit_from(values, outcomes, i) <==> exists|k: int|
            i <= k < values.len() && #[trigger] outcomes[k] == Comparison::Holds && forall|j: int|
                i <= j <= k ==> sound_number(values, outcomes, j),
    decreases values.len() - i,
{
    if i < values.len() {
        lemma_hit_from(values, outcomes, i + 1);
        if hit_from(values, outcomes, i) {
            if outcomes[i] == Comparison::Holds {
                assert(forall|j: int| i <= j <= i ==> sound_number(values, outcomes, j));
                assert(i <= i < values.len() && outcomes[i] == Comparison::Holds);
            } else {
                let k = choose|k: int| i + 1 <= k < values.len() && #[trigger] outcomes[k] == Comparison::Holds && forall|j: int|
                    i + 1 <= j <= k ==> sound_number(values, outcomes, j);
                assert forall|j: int| i <= j <= k implies sound_number(values, outcomes, j) by {
                    if j > i {
                        assert(i + 1 <= j <= k);
                    }
                }
                assert(i <= k < values.len() && outcomes[k] == Comparison::Holds);
            }
        } else {
            assert forall|k: int| i <= k < values.len() && #[trigger] outcomes[k] == Comparison::Holds implies !(forall|j: int|
                i <= j <= k ==> sound_number(values, outcomes, j)) by {
                if forall|j: int| i <= j <= k ==> sound_number(values, outcomes, j) {
                    assert(sound_number(values, outcomes, i));
                    if k > i {
                        assert forall|j: int| i + 1 <= j <= k implies sound_number(values, outcomes, j) by {
                            assert(i <= j <= k);
                        }
                        assert(i + 1 <= k < values.len() && outcomes[k] == Comparison::Holds);
                    }
                }
            }
        }
    }
}

/// Under `--any` a row passes exactly when it selects nothing, or some selected
/// value satisfies the condition and it and every value before it are numbers in
/// range (a non-numeric value before the first hit rejects the row).
pub proof fn law_any_mode_passes(values: Seq<Seq<char>>, outcomes: Seq<Comparison>)
    ensures
        spec_row_passes(values, outcomes, true) == Ok::<bool, crate::error::Fault>(true) <==> (values.len() == 0 || exists|k: int|
            0 <= k < values.len() && #[trigger] outcomes[k] == Comparison::Holds && forall|j: int|
                0 <= j <= k ==> sound_number(values, outcomes, j)),
{
    lemma_any_scan(values, outcomes, 0);
    lemma_hit_from(values, outcomes, 0);
}

/// A row that passes when all selected values must satisfy also passes when any may.
pub proof fn law_all_implies_any(values: Seq<Seq<char>>, outcomes: Seq<Comparison>)
    requires
        spec_row_passes(values, outcomes, false) == Ok::<bool, crate::error::Fault>(true),
    ensures
        spec_row_passes(values, outcomes, true) == Ok::<bool, crate::error::Fault>(true),
{
    law_all_mode_passes(values, outcomes);
    law_any_mode_passes(values, outcomes);
    if values.len() > 0 {
        assert(outcomes[0] == Comparison::Holds && forall|j: int| 0 <= j <= 0 ==> sound_number(values, outcomes, j));
    }
}


/// `s` and `t` agree on which positions hold line feeds, operator characters and
/// value characters.
pub open spec fn same_shape(s: Seq<char>, t: Seq<char>) -> bool {
    &&& s.len() == t.len()
    &&& forall|j: int| 0 <= j < s.len() ==> ((#[trigger] s[j] == '\n') == (t[j] == '\n') && is_op_char(s[j]) == is_op_char(t[j])
        && is_value_char(s[j]) == is_value_char(t[j]))
}

proof fn lemma_shape_op_run(s: Seq<char>, t: Seq<char>, i: int)
    requires
        same_shape(s, t),
        0 <= i <= s.len(),
    ensures
        op_run(s.skip(i)) == op_run(t.skip(i)),
    decreases s.len() - i,
{
    if i < s.len() {
        lemma_op_run_step(s, i);
        lemma_op_run_step(t, i);
        lemma_shape_op_run(s, t, i + 1);
    } else {
        assert(s.skip(i).len() == 0 && t.skip(i).len() == 0);
    }
}

proof fn lemma_shape_lazy(s: Seq<char>, t: Seq<char>, i: int)
    requires
        same_shape(s, t),
        1 <= i,
    ensures
        lazy_field_len(s, i) == lazy_field_len(t, i),
    decreases s.len() - i,
{
    if i < s.len() {
        lemma_shape_op_run(s, t, i);
        let k = op_run(s.skip(i));
        let rs = s.skip(i);
        let rt = t.skip(i);
        assert(rs.len() == rt.len());
        if op_value_tail(rs) {
            assert forall|j: int| k <= j < rt.len() implies is_value_char(#[trigger] rt[j]) by {
                assert(rs[j] == s[i + j] && rt[j] == t[i + j]);
                assert(is_value_char(rs[j]));
            }
            assert(op_value_tail(rt));
        }
        if op_value_tail(rt) {
            assert forall|j: int| k <= j < rs.len() implies is_value_char(#[trigger] rs[j]) by {
                assert(rs[j] == s[i + j] && rt[j] == t[i + j]);
                assert(is_value_char(rt[j]));
            }
            assert(op_value_tail(rs));
        }
        assert((s[i - 1] == '\n') == (t[i - 1] == '\n'));
        lemma_shape_lazy(s, t, i + 1);
    }
}

/// The lazy search never runs past a position whose rest is operators then a value.
proof fn lemma_lazy_bounded(s: Seq<char>, i: int, m: int)
    requires
        1 <= i <= m < s.len(),
        op_value_tail(s.skip(m)),
    ensures
        lazy_field_len(s, i) matches Some(x) ==> i <= x <= m,
    decreases m - i,
{
    if i < m {
        lemma_lazy_bounded(s, i + 1, m);
    }
}

pub open spec fn all_value_chars(v: Seq<char>) -> bool {
    forall|j: int| 0 <= j < v.len() ==> is_value_char(#[trigger] v[j])
}

/// With a nonempty field part and a value made of value characters, the operator
/// run that the condition grammar finds is exactly the two-character operator, or
/// it also takes in trailing operator characters of the field part.
proof fn lemma_two_char_op(f: Seq<char>, a: char, b: char, v: Seq<char>)
    requires
        f.len() > 0,
        v.len() > 0,
        all_value_chars(v),
        is_op_char(a),
        is_op_char(b),
    ensures
        ({
            let s = f + seq![a, b] + v;
            match lazy_field_len(s, 1) {
                Some(i) => {
                    let k = op_run(s.skip(i)) as int;
                    &&& i <= f.len()
                    &&& i == f.len() ==> k == 2 && s.skip(i).take(k) == seq![a, b] && s.skip(i).skip(k) == v && s.take(i) == f
                    &&& i < f.len() ==> k >= 3
                },
                None => true,
            }
        }),
{
    let s = f + seq![a, b] + v;
    let m = f.len() as int;
    let r = s.skip(m);
    assert(r =~= seq![a, b] + v);
    assert(!is_op_char(v[0]));
    lemma_op_run_step(s, m);
    lemma_op_run_step(s, m + 1);
    lemma_op_run_step(s, m + 2);
    assert(s[m] == a && s[m + 1] == b && s[m + 2] == v[0]);
    assert(op_run(r) == 2);
    assert forall|j: int| 2 <= j < r.len() implies is_value_char(#[trigger] r[j]) by {
        assert(r[j] == v[j - 2]);
    }
    assert(op_value_tail(r));
    lemma_lazy_bounded(s, 1, m);
    if let Some(i) = lazy_field_len(s, 1) {
        lemma_lazy_found(s, 1);
        let q = s.skip(i);
        let k = op_run(q) as int;
        if i == m {
            assert(q.take(k) =~= seq![a, b]);
            assert(q.skip(k) =~= v);
            assert(s.take(i) =~= f);
        } else {
            assert(op_value_tail(q));
            assert(q[m - i] == a && q[m - i + 1] == b);
            assert(!is_value_char(a) && !is_value_char(b));
            if k <= m - i + 1 {
                if k <= m - i {
                    assert(!is_value_char(q[m - i]));
                } else {
                    assert(!is_value_char(q[m - i + 1]));
                }
            }
        }
    }
}

proof fn lemma_lazy_found(s: Seq<char>, i: int)
    requires
        1 <= i,
    ensures
        lazy_field_len(s, i) matches Some(x) ==> i <= x < s.len() && op_value_tail(s.skip(x)),
    decreases s.len() - i,
{
    if i < s.len() {
        lemma_lazy_found(s, i + 1);
    }
}

/// `<>` is another spelling of `!=`: with a nonempty field part and a value made of
/// number characters, both spellings parse to the same condition, or both fail.
pub proof fn law_ne_spellings(f: Seq<char>, v: Seq<char>)
    requires
        f.len() > 0,
        v.len() > 0,
        all_value_chars(v),
    ensures
        match (spec_parse_condition(f + seq!['<', '>'] + v), spec_parse_condition(f + seq!['!', '='] + v)) {
            (Ok(x), Ok(y)) => x == y && x.1 == Op::Ne,
            (Err(_), Err(_)) => true,
            _ => false,
        },
{
    let s = f + seq!['<', '>'] + v;
    let t = f + seq!['!', '='] + v;
    assert forall|j: int| 0 <= j < s.len() implies ((#[trigger] s[j] == '\n') == (t[j] == '\n') && is_op_char(s[j]) == is_op_char(t[j])
        && is_value_char(s[j]) == is_value_char(t[j])) by {
        if j < f.len() || j >= f.len() + 2 {
            assert(s[j] == t[j]);
        }
    }
    lemma_shape_lazy(s, t, 1);
    lemma_two_char_op(f, '<', '>', v);
    lemma_two_char_op(f, '!', '=', v);
    lemma_lazy_found(s, 1);
    if let Some(i) = lazy_field_len(s, 1) {
        lemma_shape_op_run(s, t, i);
        let k = op_run(s.skip(i)) as int;
        if i < f.len() {
            assert(s.skip(i).take(k).len() == k);
            assert(t.skip(i).take(k).len() == k);
            assert(spec_op(s.skip(i).take(k)) is None);
            assert(spec_op(t.skip(i).take(k)) is None);
        } else {
            assert(t.take(i) =~= s.take(i));
            assert(spec_op(seq!['<', '>']) == Some(Op::Ne));
            assert(spec_op(seq!['!', '=']) == Some(Op::Ne));
        }
    }
}

/// `==` is no operator: with a nonempty field part and a value made of number
/// characters, a condition spelled with it never parses.
pub proof fn law_double_equals_rejected(f: Seq<char>, v: Seq<char>)
    requires
        f.len() > 0,
        v.len() > 0,
        all_value_chars(v),
    ensures
        spec_parse_condition(f + seq!['=', '='] + v) is Err,
{
    let s = f + seq!['=', '='] + v;
    lemma_two_char_op(f, '=', '=', v);
    lemma_lazy_found(s, 1);
    if let Some(i) = lazy_field_len(s, 1) {
        let k = op_run(s.skip(i)) as int;
        assert(s.skip(i).take(k).len() == k);
        assert(spec_op(seq!['=', '=']) is None);
    }
}


/// A selection that resolves to no column on the first record ends the run with
/// no output at all, not even the header.
pub proof fn law_empty_selection_writes_nothing(
    records: Seq<Seq<Seq<char>>>,
    read_failed: bool,
    outcomes: Seq<Seq<Comparison>>,
    sel: FieldSel,
    opts: FilterOptions,
)
    requires
        records.len() > 0,
        !(opts.ignore_empty_row && all_empty(records[0])),
        spec_resolve(sel, records[0], opts.fuzzy_fields) == Ok::<Seq<usize>, crate::error::Fault>(Seq::empty()),
    ensures
        spec_filter(records, read_failed, outcomes, sel, opts) == Ok::<(Seq<u8>, nat), crate::error::Fault>((Seq::empty(), 0)),
{
    assert(run_upto(records, outcomes, sel, opts, 0) == Ok::<RunState, crate::error::Fault>(initial_run()));
    lemma_run_settled(records, outcomes, sel, opts, 1, records.len() as int);
}

pub open spec fn is_prefix(a: Seq<u8>, b: Seq<u8>) -> bool {
    a.len() <= b.len() && b.take(a.len() as int) == a
}

proof fn lemma_step_extends(st: RunState, rec: Seq<Seq<char>>, rc: Seq<Comparison>, sel: FieldSel, opts: FilterOptions)
    ensures
        run_step(st, rec, rc, sel, opts) matches Ok(st2) ==> is_prefix(st.out, st2.out),
{
    assert(st.out.take(st.out.len() as int) =~= st.out);
    if let Ok(st2) = run_step(st, rec, rc, sel, opts) {
        if st2.out != st.out {
            assert(st2.out.take(st.out.len() as int) =~= st.out) by {
                assert(exists|x: Seq<u8>| st2.out == st.out + x);
            }
        }
    }
}

proof fn lemma_run_extends(records: Seq<Seq<Seq<char>>>, outcomes: Seq<Seq<Comparison>>, sel: FieldSel, opts: FilterOptions, k: int, m: int)
    requires
        0 <= k <= m,
        run_upto(records, outcomes, sel, opts, k) is Ok,
        run_upto(records, outcomes, sel, opts, m) is Ok,
    ensures
        is_prefix(run_upto(records, outcomes, sel, opts, k)->Ok_0.out, run_upto(records, outcomes, sel, opts, m)->Ok_0.out),
    decreases m - k,
{
    let a = run_upto(records, outcomes, sel, opts, k)->Ok_0.out;
    if k == m {
        assert(a.take(a.len() as int) =~= a);
    } else {
        let prev = run_upto(records, outcomes, sel, opts, m - 1);
        assert(prev is Ok);
        lemma_run_extends(records, outcomes, sel, opts, k, m - 1);
        let p = prev->Ok_0;
        if !p.stopped {
            lemma_step_extends(p, records[m - 1], outcome_row(outcomes, m - 1), sel, opts);
        }
        let c = run_upto(records, outcomes, sel, opts, m)->Ok_0.out;
        assert(c.take(a.len() as int) =~= c.take(p.out.len() as int).take(a.len() as int));
    }
}

/// The header passes through unfiltered: unless it is to be dropped, the output of
/// a successful run starts with the first record (labelled `row` when row numbers
/// are shown).
pub proof fn law_header_passes_through(
    records: Seq<Seq<Seq<char>>>,
    read_failed: bool,
    outcomes: Seq<Seq<Comparison>>,
    sel: FieldSel,
    opts: FilterOptions,
    out: Seq<u8>,
    kept: nat,
)
    requires
        records.len() > 0,
        !(opts.ignore_empty_row && all_empty(records[0])),
        has_header(sel, opts),
        !opts.delete_header,
        spec_resolve(sel, records[0], opts.fuzzy_fields) matches Ok(cols) && cols.len() > 0,
        spec_filter(records, read_failed, outcomes, sel, opts) == Ok::<(Seq<u8>, nat), crate::error::Fault>((out, kept)),
    ensures
        is_prefix(encode_record(labelled(records[0], opts.show_row_number, row_label()), opts.out_delim), out),
{
    assert(run_upto(records, outcomes, sel, opts, 0) == Ok::<RunState, crate::error::Fault>(initial_run()));
    let first = run_upto(records, outcomes, sel, opts, 1);
    let header = encode_record(labelled(records[0], opts.show_row_number, row_label()), opts.out_delim);
    assert(first is Ok && first->Ok_0.out =~= header);
    lemma_run_extends(records, outcomes, sel, opts, 1, records.len() as int);
}

/// Only the selected fields decide a data row: two records that agree on the
/// selected columns (and on how those compare) are both passed, both dropped, or
/// both fail the same way.
pub proof fn law_only_selected_fields_decide(
    st: RunState,
    r1: Seq<Seq<char>>,
    o1: Seq<Comparison>,
    r2: Seq<Seq<char>>,
    o2: Seq<Comparison>,
    opts: FilterOptions,
)
    requires
        forall|j: int| 0 <= j < st.cols.len() ==> value_at(r1, #[trigger] st.cols[j]) == value_at(r2, st.cols[j])
            && comparison_at(o1, st.cols[j]) == comparison_at(o2, st.cols[j]),
    ensures
        match (data_row(st, r1, o1, opts), data_row(st, r2, o2, opts)) {
            (Ok(a), Ok(b)) => a.kept == b.kept && a.row == b.row,
            (Err(x), Err(y)) => x == y,
            _ => false,
        },
{
    assert(st.cols.map_values(|c: usize| value_at(r1, c)) =~= st.cols.map_values(|c: usize| value_at(r2, c)));
    assert(st.cols.map_values(|c: usize| comparison_at(o1, c)) =~= st.cols.map_values(|c: usize| comparison_at(o2, c)));
}

/// Between records: at the start of a line, or of a field.
pub open spec fn at_boundary(r: Result<ScanState, Fault>) -> bool {
    r == Ok::<ScanState, Fault>(ScanState::LineStart) || r == Ok::<ScanState, Fault>(ScanState::FieldStart)
}

/// Just after a whole field: at a boundary, or after an unquoted or a closed quoted field.
pub open spec fn after_field(r: Result<ScanState, Fault>) -> bool {
    at_boundary(r) || r == Ok::<ScanState, Fault>(ScanState::Unquoted) || r == Ok::<ScanState, Fault>(
        ScanState::QuoteInQuoted,
    )
}

proof fn lemma_scan_push(q: Seq<u8>, c: u8, delim: u8, comment: Option<u8>)
    ensures
        strict_scan(q.push(c), delim, comment) == match strict_scan(q, delim, comment) {
            Err(e) => Err(e),
            Ok(st) => strict_step(st, c, delim, comment, q.len() as usize),
        },
{
    assert(q.push(c).drop_last() =~= q);
}

proof fn lemma_scan_plain(q: Seq<u8>, b: Seq<u8>, delim: u8)
    requires
        at_boundary(strict_scan(q, delim, None)) || strict_scan(q, delim, None) == Ok::<ScanState, Fault>(ScanState::Unquoted),
        forall|i: int| 0 <= i < b.len() ==> #[trigger] b[i] != 10 && b[i] != 34 && b[i] != delim,
    ensures
        after_field(strict_scan(q + b, delim, None)),
    decreases b.len(),
{
    if b.len() == 0 {
        assert(q + b =~= q);
    } else {
        lemma_scan_plain(q, b.drop_last(), delim);
        assert(q + b =~= (q + b.drop_last()).push(b.last()));
        lemma_scan_push(q + b.drop_last(), b.last(), delim, None);
        if b.drop_last().len() == 0 {
            assert(q + b.drop_last() =~= q);
        }
    }
}

proof fn lemma_scan_plain_unquoted(q: Seq<u8>, b: Seq<u8>, delim: u8)
    requires
        at_boundary(strict_scan(q, delim, None)) || strict_scan(q, delim, None) == Ok::<ScanState, Fault>(ScanState::Unquoted),
        forall|i: int| 0 <= i < b.len() ==> #[trigger] b[i] != 10 && b[i] != 34 && b[i] != delim,
    ensures
        b.len() > 0 ==> strict_scan(q + b, delim, None) == Ok::<ScanState, Fault>(ScanState::Unquoted),
        b.len() == 0 ==> strict_scan(q + b, delim, None) == strict_scan(q, delim, None),
    decreases b.len(),
{
    if b.len() == 0 {
        assert(q + b =~= q);
    } else {
        lemma_scan_plain_unquoted(q, b.drop_last(), delim);
        assert(q + b =~= (q + b.drop_last()).push(b.last()));
        lemma_scan_push(q + b.drop_last(), b.last(), delim, None);
    }
}

proof fn lemma_scan_escaped(q: Seq<u8>, e: Seq<u8>, delim: u8)
    requires
        strict_scan(q, delim, None) == Ok::<ScanState, Fault>(ScanState::Quoted),
    ensures
        strict_scan(q + escape_quotes(e), delim, None) == Ok::<ScanState, Fault>(ScanState::Quoted),
    decreases e.len(),
{
    if e.len() == 0 {
        assert(q + escape_quotes(e) =~= q);
    } else {
        lemma_scan_escaped(q, e.drop_last(), delim);
        let r = q + escape_quotes(e.drop_last());
        if e.last() == 34 {
            assert(q + escape_quotes(e) =~= r.push(34).push(34));
            lemma_scan_push(r, 34, delim, None);
            lemma_scan_push(r.push(34), 34, delim, None);
        } else {
            assert(q + escape_quotes(e) =~= r.push(e.last()));
            lemma_scan_push(r, e.last(), delim, None);
        }
    }
}

proof fn lemma_scan_field(q: Seq<u8>, f: Seq<char>, delim: u8)
    requires
        delim != 34,
        at_boundary(strict_scan(q, delim, None)),
    ensures
        after_field(strict_scan(q + encode_field(f, delim), delim, None)),
{
    let b = encode_utf8(f);
    if needs_quotes(f, delim) {
        let r = q.push(34);
        lemma_scan_push(q, 34, delim, None);
        lemma_scan_escaped(r, b, delim);
        assert(q + encode_field(f, delim) =~= (r + escape_quotes(b)).push(34));
        lemma_scan_push(r + escape_quotes(b), 34, delim, None);
    } else {
        if f.len() == 0 {
            assert(b.len() == 0);
        }
        assert forall|i: int| 0 <= i < b.len() implies #[trigger] b[i] != 10 && b[i] != 34 && b[i] != delim by {
            if b[i] == 10 || b[i] == 13 || b[i] == 34 || b[i] == delim {
                assert(f.len() > 0);
            }
        }
        lemma_scan_plain(q, b, delim);
    }
}

proof fn lemma_scan_join(q: Seq<u8>, fs: Seq<Seq<char>>, delim: u8)
    requires
        delim != 34,
        at_boundary(strict_scan(q, delim, None)),
    ensures
        after_field(strict_scan(q + join_fields(fs, delim), delim, None)),
    decreases fs.len(),
{
    if fs.len() == 0 {
        assert(q + join_fields(fs, delim) =~= q);
    } else if fs.len() == 1 {
        lemma_scan_field(q, fs[0], delim);
    } else {
        lemma_scan_join(q, fs.drop_last(), delim);
        let r = q + join_fields(fs.drop_last(), delim);
        lemma_scan_push(r, delim, delim, None);
        lemma_scan_field(r.push(delim), fs.last(), delim);
        assert(q + join_fields(fs, delim) =~= r.push(delim) + encode_field(fs.last(), delim));
    }
}

proof fn lemma_scan_record(q: Seq<u8>, fs: Seq<Seq<char>>, delim: u8)
    requires
        delim != 34,
        at_boundary(strict_scan(q, delim, None)),
    ensures
        at_boundary(strict_scan(q + encode_record(fs, delim), delim, None)),
{
    lemma_scan_join(q, fs, delim);
    let r = q + join_fields(fs, delim);
    lemma_scan_push(r, 10, delim, None);
    assert(q + encode_record(fs, delim) =~= r.push(10));
}

/// A record as the writer spells it reads back strictly: with no comment byte and
/// the writer's delimiter, it raises no quote error and ends at a line boundary.
pub proof fn law_record_reads_strictly(fields: Seq<Seq<char>>, delim: u8)
    requires
        delim != 34,
    ensures
        spec_check_strict(encode_record(fields, delim), delim, None) == Ok::<(), Fault>(()),
{
    let q = Seq::<u8>::empty();
    lemma_scan_record(q, fields, delim);
    assert(q + encode_record(fields, delim) =~= encode_record(fields, delim));
}

proof fn lemma_run_reads_strictly(records: Seq<Seq<Seq<char>>>, outcomes: Seq<Seq<Comparison>>, sel: FieldSel, opts: FilterOptions, k: int)
    requires
        0 <= k,
        opts.out_delim != 34,
        run_upto(records, outcomes, sel, opts, k) is Ok,
    ensures
        at_boundary(strict_scan(run_upto(records, outcomes, sel, opts, k)->Ok_0.out, opts.out_delim, None)),
    decreases k,
{
    if k == 0 {
    } else {
        lemma_run_reads_strictly(records, outcomes, sel, opts, k - 1);
        let st = run_upto(records, outcomes, sel, opts, k - 1)->Ok_0;
        if !st.stopped {
            let rec = records[k - 1];
            let rc = outcome_row(outcomes, k - 1);
            if !(opts.ignore_empty_row && all_empty(rec)) && st.first {
                if let Ok(cols) = spec_resolve(sel, rec, opts.fuzzy_fields) {
                    if cols.len() > 0 && has_header(sel, opts) && !opts.delete_header {
                        lemma_scan_record(st.out, labelled(rec, opts.show_row_number, row_label()), opts.out_delim);
                    }
                }
            }
            let row = st.row + 1;
            lemma_scan_record(st.out, labelled(rec, opts.show_row_number, decimal(row)), opts.out_delim);
        }
    }
}

/// What a successful run writes is strict CSV for its own output delimiter: read
/// back with no comment byte, it raises no quote error.
pub proof fn law_output_reads_strictly(
    records: Seq<Seq<Seq<char>>>,
    read_failed: bool,
    outcomes: Seq<Seq<Comparison>>,
    sel: FieldSel,
    opts: FilterOptions,
    out: Seq<u8>,
    kept: nat,
)
    requires
        opts.out_delim != 34,
        spec_filter(records, read_failed, outcomes, sel, opts) == Ok::<(Seq<u8>, nat), Fault>((out, kept)),
    ensures
        spec_check_strict(out, opts.out_delim, None) == Ok::<(), Fault>(()),
{
    lemma_run_reads_strictly(records, outcomes, sel, opts, records.len() as int);
}

proof fn lemma_run_counts(records: Seq<Seq<Seq<char>>>, outcomes: Seq<Seq<Comparison>>, sel: FieldSel, opts: FilterOptions, k: int)
    requires
        0 <= k,
        run_upto(records, outcomes, sel, opts, k) is Ok,
    ensures
        run_upto(records, outcomes, sel, opts, k)->Ok_0.kept <= run_upto(records, outcomes, sel, opts, k)->Ok_0.row <= k,
    decreases k,
{
    if k > 0 {
        lemma_run_counts(records, outcomes, sel, opts, k - 1);
    }
}

/// A run passes at most one row per record it read: the count it reports never
/// exceeds the number of records.
pub proof fn law_count_bounded(
    records: Seq<Seq<Seq<char>>>,
    read_failed: bool,
    outcomes: Seq<Seq<Comparison>>,
    sel: FieldSel,
    opts: FilterOptions,
    out: Seq<u8>,
    kept: nat,
)
    requires
        spec_filter(records, read_failed, outcomes, sel, opts) == Ok::<(Seq<u8>, nat), Fault>((out, kept)),
    ensures
        kept <= records.len(),
{
    lemma_run_counts(records, outcomes, sel, opts, records.len() as int);
}

proof fn lemma_push_contains(s: Seq<usize>, x: usize, c: usize)
    ensures
        s.push(x).contains(c) <==> s.contains(c) || c == x,
{
    if s.contains(c) {
        let k = choose|k: int| 0 <= k < s.len() && s[k] == c;
        assert(s.push(x)[k] == c);
    }
    if c == x {
        assert(s.push(x)[s.len() as int] == c);
    }
    if s.push(x).contains(c) {
        let k = choose|k: int| 0 <= k < s.push(x).len() && s.push(x)[k] == c;
        if k < s.len() {
            assert(s[k] == c);
        }
    }
}

/// Excluding by index keeps, in increasing order, exactly the positions `1..=m`
/// that no entry excludes.
pub proof fn law_index_exclusion_keeps_rest(e: Seq<int>, m: int)
    requires
        m <= usize::MAX,
    ensures
        forall|i: int, j: int| 0 <= i < j < kept_positions(e, m).len() ==> kept_positions(e, m)[i] < kept_positions(e, m)[j],
        forall|c: usize| kept_positions(e, m).contains(c) <==> 1 <= c <= m && !e.contains(-(c as int)),
    decreases m,
{
    lemma_kept_bounds(e, m);
    if m > 0 {
        law_index_exclusion_keeps_rest(e, m - 1);
        let prev = kept_positions(e, m - 1);
        lemma_kept_bounds(e, m - 1);
        if !e.contains(-m) {
            assert forall|c: usize| kept_positions(e, m).contains(c) <==> 1 <= c <= m && !e.contains(-(c as int)) by {
                lemma_push_contains(prev, m as usize, c);
            }
        }
    }
}

proof fn lemma_kept_bounds(e: Seq<int>, m: int)
    requires
        m <= usize::MAX,
    ensures
        forall|k: int| 0 <= k < kept_positions(e, m).len() ==> 1 <= #[trigger] kept_positions(e, m)[k] <= m,
    decreases m,
{
    if m > 0 {
        lemma_kept_bounds(e, m - 1);
        let prev = kept_positions(e, m - 1);
        assert forall|k: int| 0 <= k < kept_positions(e, m).len() implies 1 <= #[trigger] kept_positions(e, m)[k] <= m by {
            if k < prev.len() {
                assert(kept_positions(e, m)[k] == prev[k]);
            }
        }
    }
}

proof fn lemma_columns_bounds(header: Seq<Seq<char>>, bares: Seq<Seq<char>>, m: int)
    requires
        m <= usize::MAX,
    ensures
        forall|k: int| 0 <= k < columns_not_in(header, bares, m).len() ==> 1 <= #[trigger] columns_not_in(header, bares, m)[k] <= m,
    decreases m,
{
    if m > 0 {
        lemma_columns_bounds(header, bares, m - 1);
        let prev = columns_not_in(header, bares, m - 1);
        assert forall|k: int| 0 <= k < columns_not_in(header, bares, m).len() implies 1 <= #[trigger] columns_not_in(header, bares, m)[k] <= m by {
            if k < prev.len() {
                assert(columns_not_in(header, bares, m)[k] == prev[k]);
            }
        }
    }
}

/// Excluding by name keeps, in increasing order, exactly the columns among the
/// first `m` whose name is not excluded.
pub proof fn law_name_exclusion_keeps_rest(header: Seq<Seq<char>>, bares: Seq<Seq<char>>, m: int)
    requires
        m <= header.len(),
        m <= usize::MAX,
    ensures
        forall|i: int, j: int|
            0 <= i < j < columns_not_in(header, bares, m).len() ==> columns_not_in(header, bares, m)[i] < columns_not_in(
                header,
                bares,
                m,
            )[j],
        forall|c: usize| columns_not_in(header, bares, m).contains(c) <==> 1 <= c <= m && !bares.contains(header[c - 1]),
    decreases m,
{
    lemma_columns_bounds(header, bares, m);
    if m > 0 {
        law_name_exclusion_keeps_rest(header, bares, m - 1);
        let prev = columns_not_in(header, bares, m - 1);
        lemma_columns_bounds(header, bares, m - 1);
        if !bares.contains(header[m - 1]) {
            assert forall|c: usize| columns_not_in(header, bares, m).contains(c) <==> 1 <= c <= m && !bares.contains(header[c - 1]) by {
                lemma_push_contains(prev, m as usize, c);
            }
        }
    }
}

/// A condition that does not parse fails the whole run with that error, whatever
/// the data: nothing is written.
pub proof fn law_bad_condition_fails_run(data: Seq<u8>, opts: FilterOptions, threshold_in_range: bool, outcomes: Seq<Seq<Comparison>>)
    requires
        spec_parse_condition(opts.filter_str@) is Err,
    ensures
        spec_run(data, opts, threshold_in_range, outcomes) == Err::<(Seq<u8>, nat), Fault>(
            spec_parse_condition(opts.filter_str@)->Err_0,
        ),
{
}

/// Unless lazy quotes are on, input that breaks the strict quote rules fails the
/// run with that error once the condition is good: nothing is written.
pub proof fn law_bad_quotes_fail_run(data: Seq<u8>, opts: FilterOptions, outcomes: Seq<Seq<Comparison>>)
    requires
        spec_prepare(opts.filter_str@, true) is Ok,
        !opts.lazy_quotes,
        spec_check_strict(crlf_normalized(data), opts.in_delim, opts.comment) is Err,
    ensures
        spec_run(data, opts, true, outcomes) == Err::<(Seq<u8>, nat), Fault>(
            spec_check_strict(crlf_normalized(data), opts.in_delim, opts.comment)->Err_0,
        ),
{
}

/// Taking the commas out twice is the same as taking them out once.
pub proof fn law_remove_comma_idempotent(s: Seq<char>)
    ensures
        without_commas(without_commas(s)) == without_commas(s),
    decreases s.len(),
{
    if s.len() > 0 {
        law_remove_comma_idempotent(s.drop_last());
        lemma_without_commas_push(without_commas(s.drop_last()), s.last());
    }
}

proof fn lemma_without_commas_push(t: Seq<char>, c: char)
    ensures
        without_commas(t.push(c)) == if c == ',' { without_commas(t) } else { without_commas(t).push(c) },
{
    assert(t.push(c).drop_last() =~= t);
}

proof fn lemma_contains_push(s: Seq<i64>, y: i64, x: i64)
    requires
        s.contains(x),
    ensures
        s.push(y).contains(x),
{
    let k = choose|k: int| 0 <= k < s.len() && s[k] == x;
    assert(s.push(y)[k] == x);
}

proof fn lemma_contains_append(s: Seq<i64>, t: Seq<i64>, x: i64)
    requires
        s.contains(x),
    ensures
        (s + t).contains(x),
{
    let k = choose|k: int| 0 <= k < s.len() && s[k] == x;
    assert((s + t)[k] == x);
}

/// What the index-mode fold keeps: the counter never passes the number of fields,
/// and every open-range entry names a field (by a position below the count, when
/// that count fits a machine word).
proof fn lemma_index_fold_shape(parts: Seq<Seq<char>>)
    ensures
        index_fold(parts) matches Ok((f, m, j)) ==> j <= f.len() && (forall|k: usize|
            #[trigger] m.contains_key(k) ==> f.contains(m[k])) && (f.len() <= usize::MAX ==> forall|k: usize|
            #[trigger] m.contains_key(k) ==> k < f.len()),
    decreases parts.len(),
{
    if parts.len() > 0 {
        lemma_index_fold_shape(parts.drop_last());
        if let Ok((f0, m0, j0)) = index_fold(parts.drop_last()) {
            if let Ok((f, m, j)) = index_step((f0, m0, j0), parts.last()) {
                assert(f.len() >= f0.len());
                assert forall|k: usize| #[trigger] m.contains_key(k) implies f.contains(m[k]) by {
                    if m0.contains_key(k) && m[k] == m0[k] {
                        if f == f0.push(f[f.len() - 1]) {
                            lemma_contains_push(f0, f[f.len() - 1], m0[k]);
                        } else {
                            lemma_contains_append(f0, f.skip(f0.len() as int), m0[k]);
                            assert(f0 + f.skip(f0.len() as int) =~= f);
                        }
                    } else {
                        assert(f[f.len() - 1] == m[k]);
                    }
                }
            }
        }
    }
}

proof fn lemma_sign_scan(fields: Seq<i64>, i: int, b: bool)
    requires
        0 <= i,
    ensures
        sign_scan(fields, i, b) matches Ok(r) ==> (b ==> r) && (forall|x: int| i <= x < fields.len() ==> #[trigger] fields[x] != 0)
            && (!r ==> forall|x: int| i <= x < fields.len() ==> #[trigger] fields[x] > 0),
    decreases fields.len() - i,
{
    if i < fields.len() {
        lemma_sign_scan(fields, i + 1, fields[i] < 0 || b);
    }
}

/// What index mode hands back: no field is zero, every field has the sign that
/// `negative` says, and every open-range entry names one of the fields (by a
/// position below the number of fields, when that number fits a machine word).
pub proof fn law_index_spec_shape(parts: Seq<Seq<char>>)
    ensures
        spec_parse_index(parts) matches Ok(FieldSel::Index(fields, x2ends, negative)) ==> (forall|i: int|
            0 <= i < fields.len() ==> #[trigger] fields[i] != 0 && (fields[i] < 0 <==> negative)) && (forall|k: usize|
            #[trigger] x2ends.contains_key(k) ==> fields.contains(x2ends[k])) && (fields.len() <= usize::MAX ==> forall|k: usize|
            #[trigger] x2ends.contains_key(k) ==> k < fields.len()),
{
    lemma_index_fold_shape(parts);
    if let Ok((fields, x2ends, j)) = index_fold(parts) {
        lemma_sign_scan(fields, 0, false);
    }
}

/// Every position lies in `1..=n`.
pub open spec fn within(cols: Seq<usize>, n: int) -> bool {
    forall|k: int| 0 <= k < cols.len() ==> 1 <= #[trigger] cols[k] <= n
}

proof fn lemma_within_append(a: Seq<usize>, b: Seq<usize>, n: int)
    requires
        within(a, n),
        within(b, n),
    ensures
        within(a + b, n),
{
    assert forall|k: int| 0 <= k < (a + b).len() implies 1 <= #[trigger] (a + b)[k] <= n by {
        if k < a.len() {
            assert((a + b)[k] == a[k]);
        } else {
            assert((a + b)[k] == b[k - a.len()]);
        }
    }
}

proof fn lemma_positions_within(header: Seq<Seq<char>>, name: Seq<char>)
    requires
        header.len() <= usize::MAX,
    ensures
        within(positions_of(header, name), header.len() as int),
    decreases header.len(),
{
    if header.len() > 0 {
        lemma_positions_within(header.drop_last(), name);
        let prev = positions_of(header.drop_last(), name);
        assert forall|k: int| 0 <= k < positions_of(header, name).len() implies 1 <= #[trigger] positions_of(header, name)[k]
            <= header.len() by {
            if k < prev.len() {
                assert(positions_of(header, name)[k] == prev[k]);
            }
        }
    }
}

proof fn lemma_matched_within(cols: Seq<Seq<char>>, header: Seq<Seq<char>>, src: Seq<char>)
    requires
        header.len() <= usize::MAX,
    ensures
        within(matched_positions(cols, header, src), header.len() as int),
    decreases cols.len(),
{
    if cols.len() > 0 {
        lemma_matched_within(cols.drop_last(), header, src);
        lemma_positions_within(header, cols.last());
        lemma_within_append(matched_positions(cols.drop_last(), header, src), positions_of(header, cols.last()), header.len() as int);
    }
}

proof fn lemma_unmatched_within(cols: Seq<Seq<char>>, header: Seq<Seq<char>>, pats: Seq<Seq<char>>)
    requires
        header.len() <= usize::MAX,
    ensures
        within(unmatched_positions(cols, header, pats), header.len() as int),
    decreases cols.len(),
{
    if cols.len() > 0 {
        lemma_unmatched_within(cols.drop_last(), header, pats);
        lemma_positions_within(header, cols.last());
        lemma_within_append(unmatched_positions(cols.drop_last(), header, pats), positions_of(header, cols.last()), header.len() as int);
    }
}

proof fn lemma_fuzzy_select_within(names: Seq<Seq<char>>, header: Seq<Seq<char>>)
    requires
        header.len() <= usize::MAX,
    ensures
        fuzzy_select(names, header) matches Ok(cols) ==> within(cols, header.len() as int),
    decreases names.len(),
{
    if names.len() > 0 {
        lemma_fuzzy_select_within(names.drop_last(), header);
        if let Ok(acc) = fuzzy_select(names.drop_last(), header) {
            let src = glob_source(names.last());
            lemma_matched_within(header, header, src);
            lemma_within_append(acc, matched_positions(header, header, src), header.len() as int);
        }
    }
}

proof fn lemma_select_within(names: Seq<Seq<char>>, header: Seq<Seq<char>>)
    requires
        header.len() <= usize::MAX,
    ensures
        select_names(names, header) matches Ok(cols) ==> within(cols, header.len() as int),
    decreases names.len(),
{
    if names.len() > 0 {
        lemma_select_within(names.drop_last(), header);
        lemma_positions_within(header, names.last());
        if let Ok(acc) = select_names(names.drop_last(), header) {
            let ps = positions_of(header, names.last());
            if ps.len() == 1 {
                assert(1 <= ps[0] <= header.len());
                assert forall|k: int| 0 <= k < acc.push(ps[0]).len() implies 1 <= #[trigger] acc.push(ps[0])[k] <= header.len() by {
                    if k < acc.len() {
                        assert(acc.push(ps[0])[k] == acc[k]);
                    }
                }
            }
        }
    }
}

proof fn lemma_first_above_none(e: Seq<int>, n: int)
    ensures
        first_above(e, n) is None <==> forall|k: int| 0 <= k < e.len() ==> #[trigger] e[k] <= n,
    decreases e.len(),
{
    if e.len() > 0 {
        lemma_first_above_none(e.drop_first(), n);
        assert forall|k: int| 0 < k < e.len() implies #[trigger] e[k] == e.drop_first()[k - 1] by {}
        if first_above(e, n) is None {
            assert forall|k: int| 0 <= k < e.len() implies #[trigger] e[k] <= n by {
                if k > 0 {
                    assert(e[k] == e.drop_first()[k - 1]);
                }
            }
        } else if e[0] <= n {
            let k = choose|k: int| 0 <= k < e.drop_first().len() && #[trigger] e.drop_first()[k] > n;
            assert(e[k + 1] == e.drop_first()[k]);
        }
    }
}

proof fn lemma_expand_signs(fields: Seq<i64>, x2ends: Map<usize, i64>, negative: bool, n: int)
    requires
        forall|i: int| 0 <= i < fields.len() ==> #[trigger] fields[i] != 0 && (fields[i] < 0 <==> negative),
    ensures
        forall|k: int| 0 <= k < expand_all(fields, x2ends, negative, n).len() ==> if negative {
            #[trigger] expand_all(fields, x2ends, negative, n)[k] < 0
        } else {
            expand_all(fields, x2ends, negative, n)[k] >= 1
        },
    decreases fields.len(),
{
    if fields.len() > 0 {
        let i = fields.len() - 1;
        assert forall|x: int| 0 <= x < fields.drop_last().len() implies #[trigger] fields.drop_last()[x] != 0 && (
        fields.drop_last()[x] < 0 <==> negative) by {
            assert(fields.drop_last()[x] == fields[x]);
        }
        lemma_expand_signs(fields.drop_last(), x2ends, negative, n);
        let a = expand_all(fields.drop_last(), x2ends, negative, n);
        let b = expand_entry(fields[i], is_open_entry(fields, x2ends, i), negative, n);
        assert(fields[i] != 0 && (fields[i] < 0 <==> negative));
        assert forall|k: int| 0 <= k < (a + b).len() implies if negative {
            #[trigger] (a + b)[k] < 0
        } else {
            (a + b)[k] >= 1
        } by {
            if k < a.len() {
                assert((a + b)[k] == a[k]);
            } else {
                assert((a + b)[k] == b[k - a.len()]);
            }
        }
    }
}

/// Every column that a parsed field list resolves to is a 1-based position of the
/// first record.
pub proof fn law_resolved_columns_in_range(s: Seq<char>, header: Seq<Seq<char>>, fuzzy: bool)
    requires
        header.len() <= usize::MAX,
        spec_parse(s) is Ok,
    ensures
        spec_resolve(spec_parse(s)->Ok_0, header, fuzzy) matches Ok(cols) ==> within(cols, header.len() as int),
{
    let n = header.len() as int;
    match spec_parse(s)->Ok_0 {
        FieldSel::Index(fields, x2ends, negative) => {
            let parts = split_at_char(s, ',');
            law_index_spec_shape(parts);
            lemma_expand_signs(fields, x2ends, negative, n);
            let e = expand_all(fields, x2ends, negative, n);
            lemma_first_above_none(e, n);
            if negative {
                lemma_kept_bounds(e, n);
            } else if first_above(e, n) is None {
                let cols = e.map_values(|x: int| x as usize);
                assert forall|k: int| 0 <= k < cols.len() implies 1 <= #[trigger] cols[k] <= n by {
                    assert(1 <= e[k] <= n);
                }
            }
        },
        FieldSel::Names(names, negative) => {
            if fuzzy {
                if negative {
                    lemma_unmatched_within(header, header, bare_names(names));
                } else {
                    lemma_fuzzy_select_within(names, header);
                }
            } else if negative {
                lemma_columns_bounds(header, bare_names(names), n);
            } else {
                lemma_select_within(names, header);
            }
        },
    }
}

/// Excluding by index never fails: the columns kept are the positions of the
/// first record that no (expanded) entry excludes.
pub proof fn law_negative_index_never_fails(s: Seq<char>, n: int)
    requires
        0 <= n <= usize::MAX,
        spec_parse(s) matches Ok(FieldSel::Index(_, _, negative)) && negative,
    ensures
        spec_parse(s) matches Ok(FieldSel::Index(fields, x2ends, negative)) && spec_resolve_index(fields, x2ends, true, n)
            == Ok::<Seq<usize>, Fault>(kept_positions(expand_all(fields, x2ends, true, n), n)),
{
    if let Ok(FieldSel::Index(fields, x2ends, negative)) = spec_parse(s) {
        law_index_spec_shape(split_at_char(s, ','));
        lemma_expand_signs(fields, x2ends, true, n);
        lemma_first_above_none(expand_all(fields, x2ends, true, n), n);
    }
}

pub open spec fn dashed(p: Seq<char>) -> bool {
    p[0] == '-'
}

proof fn lemma_name_scan(parts: Seq<Seq<char>>, i: int, b: bool)
    requires
        0 <= i <= parts.len(),
    ensures
        name_scan(parts, i, b) is Ok <==> (forall|j: int| i <= j < parts.len() ==> (#[trigger] parts[j]).len() > 0) && (forall|j: int,
            k: int| i <= j < k < parts.len() && dashed(#[trigger] parts[j]) ==> dashed(#[trigger] parts[k])) && (b ==> forall|j: int|
            i <= j < parts.len() ==> dashed(#[trigger] parts[j])),
        name_scan(parts, i, b) matches Ok(r) ==> (r <==> b || exists|j: int| i <= j < parts.len() && dashed(#[trigger] parts[j])),
    decreases parts.len() - i,
{
    if i < parts.len() {
        if parts[i].len() > 0 {
            let b2 = dashed(parts[i]) || b;
            lemma_name_scan(parts, i + 1, b2);
            if let Ok(r) = name_scan(parts, i + 1, b2) {
                if r && !b2 {
                    let j = choose|j: int| i + 1 <= j < parts.len() && dashed(#[trigger] parts[j]);
                    assert(i <= j);
                }
                if b && !r {
                    assert(false);
                }
                if !b && !dashed(parts[i]) && !r {
                    assert forall|j: int| i <= j < parts.len() implies !dashed(#[trigger] parts[j]) by {
                        if j > i {
                        }
                    }
                }
            }
            if name_scan(parts, i, b) is Ok {
                assert forall|j: int, k: int| i <= j < k < parts.len() && dashed(#[trigger] parts[j]) implies dashed(#[trigger] parts[k]) by {
                    if j == i {
                        assert(b2);
                    }
                }
            }
            if !dashed(parts[i]) && b {
                assert(!(forall|j: int| i <= j < parts.len() ==> dashed(#[trigger] parts[j])));
            }
        } else {
            assert(!(forall|j: int| i <= j < parts.len() ==> (#[trigger] parts[j]).len() > 0));
        }
    }
}

/// Column-name mode accepts exactly a list of non-empty names that all carry the
/// exclusion `-` or none does; the names are kept as written.
pub proof fn law_names_accepted(parts: Seq<Seq<char>>)
    requires
        parts.len() >= 1,
    ensures
        spec_parse_names(parts) is Ok <==> (forall|i: int| 0 <= i < parts.len() ==> (#[trigger] parts[i]).len() > 0) && ((forall|i: int|
            0 <= i < parts.len() ==> dashed(#[trigger] parts[i])) || (forall|i: int| 0 <= i < parts.len() ==> !dashed(#[trigger] parts[i]))),
        spec_parse_names(parts) matches Ok(sel) ==> sel == FieldSel::Names(parts, dashed(parts[0])),
{
    lemma_name_scan(parts, 0, false);
    let all_d = forall|i: int| 0 <= i < parts.len() ==> dashed(#[trigger] parts[i]);
    let none_d = forall|i: int| 0 <= i < parts.len() ==> !dashed(#[trigger] parts[i]);
    if let Ok(neg) = name_scan(parts, 0, false) {
        if neg {
            if !(exists|i: int| 0 <= i < parts.len() && (#[trigger] parts[i])[0] != '-') {
                assert forall|i: int| 0 <= i < parts.len() implies dashed(#[trigger] parts[i]) by {
                    assert(parts[i][0] == '-');
                }
            } else {
                let i = choose|i: int| 0 <= i < parts.len() && (#[trigger] parts[i])[0] != '-';
                let j = choose|j: int| 0 <= j < parts.len() && dashed(#[trigger] parts[j]);
                assert(!dashed(parts[i]));
                assert(!all_d);
                assert(!none_d);
            }
        } else {
            assert(none_d);
        }
    } else {
        if all_d || none_d {
            assert forall|j: int, k: int| 0 <= j < k < parts.len() && dashed(#[trigger] parts[j]) implies dashed(#[trigger] parts[k]) by {
                if none_d {
                    assert(!dashed(parts[j]));
                }
            }
        }
    }
}

/// A record that `-E` drops before anything else looks at it.
pub open spec fn empty_skipped(rec: Seq<Seq<char>>, opts: FilterOptions) -> bool {
    opts.ignore_empty_row && all_empty(rec)
}

/// The first record from `i` on that is not dropped as empty (the length when none).
pub open spec fn first_from(records: Seq<Seq<Seq<char>>>, opts: FilterOptions, i: int) -> int
    decreases records.len() - i,
{
    if i < 0 || i >= records.len() {
        records.len() as int
    } else if !empty_skipped(records[i], opts) {
        i
    } else {
        first_from(records, opts, i + 1)
    }
}

/// Whether record `i` is a data row, given that record `h` is the first one kept: it
/// is not dropped as empty, it is not the header, and (under `-I`) it has as many
/// fields as record `h`.
pub open spec fn is_data(records: Seq<Seq<Seq<char>>>, sel: FieldSel, opts: FilterOptions, h: int, i: int) -> bool {
    &&& !empty_skipped(records[i], opts)
    &&& if i == h {
        !has_header(sel, opts)
    } else {
        i > h && !(opts.ignore_illegal_row && records[i].len() != records[h].len())
    }
}

/// How many of the first `k` records are data rows.
pub open spec fn data_count(records: Seq<Seq<Seq<char>>>, sel: FieldSel, opts: FilterOptions, h: int, k: int) -> nat
    decreases k,
{
    if k <= 0 {
        0
    } else {
        data_count(records, sel, opts, h, k - 1) + if is_data(records, sel, opts, h, k - 1) { 1nat } else { 0nat }
    }
}

/// Whether a record's selected values (columns `cols`) satisfy the condition.
pub open spec fn selected_pass(rec: Seq<Seq<char>>, rc: Seq<Comparison>, cols: Seq<usize>, opts: FilterOptions) -> bool {
    spec_row_passes(cols.map_values(|c: usize| value_at(rec, c)), cols.map_values(|c: usize| comparison_at(rc, c)), opts.any)
        == Ok::<bool, Fault>(true)
}

/// Whether record `i` is a data row that passes.
pub open spec fn passing(records: Seq<Seq<Seq<char>>>, outcomes: Seq<Seq<Comparison>>, sel: FieldSel, opts: FilterOptions, h: int, cols: Seq<usize>, i: int) -> bool {
    is_data(records, sel, opts, h, i) && selected_pass(records[i], outcome_row(outcomes, i), cols, opts)
}

/// How many of the first `k` records are data rows that pass.
pub open spec fn pass_count(records: Seq<Seq<Seq<char>>>, outcomes: Seq<Seq<Comparison>>, sel: FieldSel, opts: FilterOptions, h: int, cols: Seq<usize>, k: int) -> nat
    decreases k,
{
    if k <= 0 {
        0
    } else {
        pass_count(records, outcomes, sel, opts, h, cols, k - 1) + if passing(records, outcomes, sel, opts, h, cols, k - 1) {
            1nat
        } else {
            0nat
        }
    }
}

/// What record `i` contributes to the output: the header (labelled `row` when row
/// numbers are shown) unless it is dropped, a passing data row whole with its
/// data-row number when shown, or nothing.
pub open spec fn piece(records: Seq<Seq<Seq<char>>>, outcomes: Seq<Seq<Comparison>>, sel: FieldSel, opts: FilterOptions, h: int, cols: Seq<usize>, i: int) -> Seq<u8> {
    if i == h && has_header(sel, opts) {
        if opts.delete_header {
            Seq::empty()
        } else {
            encode_record(labelled(records[h], opts.show_row_number, row_label()), opts.out_delim)
        }
    } else if passing(records, outcomes, sel, opts, h, cols, i) {
        encode_record(
            labelled(records[i], opts.show_row_number, decimal(data_count(records, sel, opts, h, i) + 1)),
            opts.out_delim,
        )
    } else {
        Seq::empty()
    }
}

/// The pieces of the first `k` records, one after another.
pub open spec fn pieces_upto(records: Seq<Seq<Seq<char>>>, outcomes: Seq<Seq<Comparison>>, sel: FieldSel, opts: FilterOptions, h: int, cols: Seq<usize>, k: int) -> Seq<u8> {
    Seq::new(k as nat, |i: int| piece(records, outcomes, sel, opts, h, cols, i)).flatten()
}

proof fn lemma_pieces_push(records: Seq<Seq<Seq<char>>>, outcomes: Seq<Seq<Comparison>>, sel: FieldSel, opts: FilterOptions, h: int, cols: Seq<usize>, k: int)
    requires
        0 <= k,
    ensures
        pieces_upto(records, outcomes, sel, opts, h, cols, k + 1) == pieces_upto(records, outcomes, sel, opts, h, cols, k)
            + piece(records, outcomes, sel, opts, h, cols, k),
{
    let f = |i: int| piece(records, outcomes, sel, opts, h, cols, i);
    assert(Seq::new((k + 1) as nat, f) =~= Seq::new(k as nat, f).push(f(k)));
    Seq::new(k as nat, f).lemma_flatten_push(f(k));
}

proof fn lemma_first_from(records: Seq<Seq<Seq<char>>>, opts: FilterOptions, i: int)
    requires
        0 <= i <= records.len(),
    ensures
        i <= first_from(records, opts, i) <= records.len(),
        forall|j: int| i <= j < first_from(records, opts, i) ==> empty_skipped(#[trigger] records[j], opts),
        first_from(records, opts, i) < records.len() ==> !empty_skipped(records[first_from(records, opts, i)], opts),
    decreases records.len() - i,
{
    if i < records.len() && empty_skipped(records[i], opts) {
        lemma_first_from(records, opts, i + 1);
    }
}

/// The state of the row loop after `k` records, in closed form.
pub open spec fn closed_state(records: Seq<Seq<Seq<char>>>, outcomes: Seq<Seq<Comparison>>, sel: FieldSel, opts: FilterOptions, k: int, st: RunState) -> bool {
    let h = first_from(records, opts, 0);
    if k <= h {
        st == initial_run()
    } else {
        spec_resolve(sel, records[h], opts.fuzzy_fields) matches Ok(cols) && if cols.len() == 0 {
            st.stopped && st.out.len() == 0 && st.kept == 0
        } else {
            &&& !st.stopped
            &&& !st.first
            &&& st.cols == cols
            &&& st.expected == records[h].len()
            &&& st.row == data_count(records, sel, opts, h, k)
            &&& st.kept == pass_count(records, outcomes, sel, opts, h, cols, k)
            &&& st.out == pieces_upto(records, outcomes, sel, opts, h, cols, k)
        }
    }
}

proof fn lemma_before_header(records: Seq<Seq<Seq<char>>>, outcomes: Seq<Seq<Comparison>>, sel: FieldSel, opts: FilterOptions, cols: Seq<usize>, k: int)
    requires
        0 <= k <= first_from(records, opts, 0),
        first_from(records, opts, 0) <= records.len(),
        forall|j: int| 0 <= j < first_from(records, opts, 0) ==> empty_skipped(#[trigger] records[j], opts),
    ensures
        data_count(records, sel, opts, first_from(records, opts, 0), k) == 0,
        pass_count(records, outcomes, sel, opts, first_from(records, opts, 0), cols, k) == 0,
        pieces_upto(records, outcomes, sel, opts, first_from(records, opts, 0), cols, k).len() == 0,
    decreases k,
{
    let h = first_from(records, opts, 0);
    if k > 0 {
        lemma_before_header(records, outcomes, sel, opts, cols, k - 1);
        lemma_pieces_push(records, outcomes, sel, opts, h, cols, k - 1);
        assert(empty_skipped(records[k - 1], opts));
    } else {
        assert(Seq::new(0, |i: int| piece(records, outcomes, sel, opts, h, cols, i)) =~= Seq::<Seq<u8>>::empty());
    }
}

proof fn lemma_run_closed(records: Seq<Seq<Seq<char>>>, outcomes: Seq<Seq<Comparison>>, sel: FieldSel, opts: FilterOptions, k: int)
    requires
        0 <= k <= records.len(),
        run_upto(records, outcomes, sel, opts, k) is Ok,
    ensures
        closed_state(records, outcomes, sel, opts, k, run_upto(records, outcomes, sel, opts, k)->Ok_0),
    decreases k,
{
    let h = first_from(records, opts, 0);
    lemma_first_from(records, opts, 0);
    if k > 0 {
        assert(run_upto(records, outcomes, sel, opts, k - 1) is Ok);
        lemma_run_closed(records, outcomes, sel, opts, k - 1);
        let st = run_upto(records, outcomes, sel, opts, k - 1)->Ok_0;
        let i = k - 1;
        let rec = records[i];
        let rc = outcome_row(outcomes, i);
        if i < h {
            assert(empty_skipped(rec, opts));
        } else if i == h {
            let cols = spec_resolve(sel, rec, opts.fuzzy_fields)->Ok_0;
            if cols.len() > 0 {
                lemma_before_header(records, outcomes, sel, opts, cols, h);
                lemma_pieces_push(records, outcomes, sel, opts, h, cols, h);
                assert(pieces_upto(records, outcomes, sel, opts, h, cols, h) =~= Seq::<u8>::empty());
                let st1 = RunState { cols, expected: rec.len(), first: false, ..st };
                if !has_header(sel, opts) {
                    let vals = cols.map_values(|c: usize| value_at(rec, c));
                    let outs = cols.map_values(|c: usize| comparison_at(rc, c));
                    assert(st1.cols.map_values(|c: usize| value_at(rec, c)) == vals);
                    assert(st1.cols.map_values(|c: usize| comparison_at(rc, c)) == outs);
                } else {
                    assert(!is_data(records, sel, opts, h, h));
                }
            }
        } else {
            let cols = spec_resolve(sel, records[h], opts.fuzzy_fields)->Ok_0;
            if cols.len() > 0 {
                lemma_pieces_push(records, outcomes, sel, opts, h, cols, i);
                assert(st.cols == cols);
                if !empty_skipped(rec, opts) && !(opts.ignore_illegal_row && rec.len() != st.expected) {
                    assert(is_data(records, sel, opts, h, i));
                } else {
                    assert(!is_data(records, sel, opts, h, i));
                    assert(pieces_upto(records, outcomes, sel, opts, h, cols, k) =~= pieces_upto(records, outcomes, sel, opts, h, cols, i));
                }
            }
        }
    }
}

/// In closed form, what a successful run writes: with `h` the first record not
/// dropped as empty and `cols` the columns it resolves to, nothing when there is no
/// such record or no column; otherwise, record by record in input order, the
/// header (unless dropped) and every data row whose selected values pass, whole,
/// prefixed by its data-row number when row numbers are shown. The count is the
/// number of such data rows.
pub proof fn law_output_closed_form(
    records: Seq<Seq<Seq<char>>>,
    read_failed: bool,
    outcomes: Seq<Seq<Comparison>>,
    sel: FieldSel,
    opts: FilterOptions,
    out: Seq<u8>,
    kept: nat,
)
    requires
        spec_filter(records, read_failed, outcomes, sel, opts) == Ok::<(Seq<u8>, nat), Fault>((out, kept)),
    ensures
        ({
            let h = first_from(records, opts, 0);
            if h >= records.len() {
                out.len() == 0 && kept == 0
            } else {
                spec_resolve(sel, records[h], opts.fuzzy_fields) matches Ok(cols) && if cols.len() == 0 {
                    out.len() == 0 && kept == 0
                } else {
                    out == pieces_upto(records, outcomes, sel, opts, h, cols, records.len() as int)
                        && kept == pass_count(records, outcomes, sel, opts, h, cols, records.len() as int)
                }
            }
        }),
{
    lemma_run_closed(records, outcomes, sel, opts, records.len() as int);
    lemma_first_from(records, opts, 0);
}

proof fn lemma_glob_body_plain(p: Seq<char>)
    requires
        forall|i: int| 0 <= i < p.len() ==> p[i] != '*',
    ensures
        glob_body(p) == p,
    decreases p.len(),
{
    if p.len() > 0 {
        lemma_glob_body_plain(p.drop_last());
        assert(p.drop_last().push(p.last()) =~= p);
    }
}

/// A fuzzy field pattern becomes a regex anchored at both ends, so it must match a
/// whole column name: it starts with `^` and ends with `$`; a pattern without `*`
/// stands between them as written, and a trailing `*` after such a pattern becomes
/// the lazy `.*?` (so `c*` is `^c.*?$`).
pub proof fn law_glob_anchored(p: Seq<char>)
    ensures
        glob_source(p).len() >= 2,
        glob_source(p)[0] == '^',
        glob_source(p).last() == '$',
        (forall|i: int| 0 <= i < p.len() ==> p[i] != '*') ==> glob_source(p) == seq!['^'] + p + seq!['$'],
        (forall|i: int| 0 <= i < p.len() ==> p[i] != '*') ==> glob_source(p.push('*')) == seq!['^'] + p + seq!['.', '*', '?', '$'],
{
    if forall|i: int| 0 <= i < p.len() ==> p[i] != '*' {
        lemma_glob_body_plain(p);
        assert(p.push('*').drop_last() =~= p);
        assert(glob_source(p.push('*')) =~= seq!['^'] + p + seq!['.', '*', '?', '$']);
    }
}

proof fn lemma_exp_index_plain(d: Seq<char>)
    requires
        forall|i: int| 0 <= i < d.len() ==> is_digital_char(#[trigger] d[i]),
    ensures
        exp_index(d) == d.len(),
    decreases d.len(),
{
    if d.len() > 0 {
        assert forall|i: int| 0 <= i < d.drop_first().len() implies is_digital_char(#[trigger] d.drop_first()[i]) by {
            assert(d.drop_first()[i] == d[i + 1]);
        }
        lemma_exp_index_plain(d.drop_first());
    }
}

/// A leading `-` or `+` does not change whether a value looks numeric, and a
/// non-empty run of ASCII digits, dots and commas does (so `-5`, `+5` and `-1,000.5`
/// look numeric).
pub proof fn law_sign_keeps_numeric_look(d: Seq<char>, sign: char)
    requires
        sign == '-' || sign == '+',
        !has_sign(d),
    ensures
        looks_numeric(seq![sign] + d) == looks_numeric(d),
        d.len() > 0 && (forall|i: int| 0 <= i < d.len() ==> is_digital_char(#[trigger] d[i])) ==> looks_numeric(d),
{
    assert((seq![sign] + d).drop_first() =~= d);
    if d.len() > 0 && (forall|i: int| 0 <= i < d.len() ==> is_digital_char(#[trigger] d[i])) {
        lemma_exp_index_plain(d);
    }
}

/// An open range `k-`: a part whose only range dash ends it.
pub open spec fn is_open_part(q: Seq<char>) -> bool {
    range_split(q) matches Some(k) && k == q.len() - 1
}

proof fn lemma_range_split_bounds(q: Seq<char>)
    ensures
        range_split(q) matches Some(k) ==> 1 <= k < q.len(),
{
    if range_split(q) is Some {
        lemma_dash_from_bounds(q, 1);
    }
}

proof fn lemma_dash_from_bounds(q: Seq<char>, i: int)
    ensures
        dash_from(q, i) matches Some(k) ==> i <= k < q.len() && 1 <= k,
    decreases q.len() - i,
{
    if 1 <= i < q.len() && q[i] != '-' {
        lemma_dash_from_bounds(q, i + 1);
    }
}

proof fn lemma_fold_counter(parts: Seq<Seq<char>>)
    requires
        forall|i: int| 0 <= i < parts.len() ==> !is_open_part(#[trigger] parts[i]),
    ensures
        index_fold(parts) matches Ok((f, m, j)) ==> j == f.len(),
    decreases parts.len(),
{
    if parts.len() > 0 {
        assert forall|i: int| 0 <= i < parts.drop_last().len() implies !is_open_part(#[trigger] parts.drop_last()[i]) by {
            assert(parts.drop_last()[i] == parts[i]);
        }
        lemma_fold_counter(parts.drop_last());
        let q = parts.last();
        assert(!is_open_part(q));
        if let Ok((f0, m0, j0)) = index_fold(parts.drop_last()) {
            if let Some(k) = range_split(q) {
                lemma_range_split_bounds(q);
                assert(q.skip(k + 1).len() > 0);
            }
        }
    }
}

/// An open range after entries that are no open ranges is recognised as one: the
/// entry it adds is the last field and is marked open, so it expands to its start
/// and every column after it (`1,3-` on four columns is `1,3,4`).
pub proof fn law_open_range_is_marked(parts: Seq<Seq<char>>, q: Seq<char>, n: int)
    requires
        forall|i: int| 0 <= i < parts.len() ==> !is_open_part(#[trigger] parts[i]),
        is_open_part(q),
        index_fold(parts.push(q)) is Ok,
    ensures
        index_fold(parts.push(q)) matches Ok((f, m, j)) && f.len() > 0 && is_open_entry(f, m, f.len() - 1) && expand_all(
            f,
            m,
            false,
            n,
        ) == expand_all(f.drop_last(), m, false, n) + expand_entry(f.last(), true, false, n),
{
    lemma_fold_counter(parts);
    assert(parts.push(q).drop_last() =~= parts);
    assert(parts.push(q).last() == q);
}

/// `-E` drops a record only when every field of it is empty: a record with a
/// non-empty field is handled exactly as without `-E`, and one whose fields are
/// all empty is skipped.
pub proof fn law_empty_skip_needs_all_empty(st: RunState, rec: Seq<Seq<char>>, rc: Seq<Comparison>, sel: FieldSel, opts: FilterOptions)
    ensures
        (exists|i: int| 0 <= i < rec.len() && (#[trigger] rec[i]).len() > 0) ==> run_step(st, rec, rc, sel, opts) == run_step(
            st,
            rec,
            rc,
            sel,
            FilterOptions { ignore_empty_row: false, ..opts },
        ),
        opts.ignore_empty_row && (forall|i: int| 0 <= i < rec.len() ==> (#[trigger] rec[i]).len() == 0) ==> run_step(st, rec, rc, sel, opts)
            == Ok::<RunState, Fault>(st),
{
    let o2 = FilterOptions { ignore_empty_row: false, ..opts };
    assert(has_header(sel, o2) == has_header(sel, opts));
    assert(data_row(st, rec, rc, o2) == data_row(st, rec, rc, opts));
    if exists|i: int| 0 <= i < rec.len() && (#[trigger] rec[i]).len() > 0 {
        let i = choose|i: int| 0 <= i < rec.len() && (#[trigger] rec[i]).len() > 0;
        assert(!all_empty(rec));
        if let Ok(cols) = spec_resolve(sel, rec, opts.fuzzy_fields) {
            let st1 = RunState { cols, expected: rec.len(), first: false, ..st };
            assert(data_row(st1, rec, rc, o2) == data_row(st1, rec, rc, opts));
        }
    }
}

proof fn lemma_row_scan_errors(values: Seq<Seq<char>>, outcomes: Seq<Comparison>, any: bool, i: int, n: nat)
    requires
        0 <= i,
    ensures
        row_scan(values, outcomes, any, i, n) is Err ==> exists|j: int| i <= j < values.len() && looks_numeric(#[trigger] values[j]),
    decreases values.len() - i,
{
    if i < values.len() && looks_numeric(values[i]) {
        let n2: nat = if outcomes[i] == Comparison::Holds { n + 1 } else { n };
        lemma_row_scan_errors(values, outcomes, any, i + 1, n2);
    }
}

/// A row decision fails only on a value that looks numeric: a row none of whose
/// selected values looks numeric (an empty value, say) is rejected, never an error.
pub proof fn law_row_error_needs_numeric_look(values: Seq<Seq<char>>, outcomes: Seq<Comparison>, any: bool)
    ensures
        spec_row_passes(values, outcomes, any) is Err ==> exists|j: int| 0 <= j < values.len() && looks_numeric(#[trigger] values[j]),
        values.len() > 0 && !looks_numeric(values[0]) ==> spec_row_passes(values, outcomes, any) == Ok::<bool, Fault>(false),
{
    lemma_row_scan_errors(values, outcomes, any, 0, 0);
}

} // verus!
