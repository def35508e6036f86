//! The condition `<fields><op><value>` and the per-row pass/fail decision.
use vstd::prelude::*;
use crate::error::{FilterError, Fault};
use crate::outside::string_from_chars;
use crate::text::{chars_of, is_ascii_digit, all_ascii_digits, unsigned_part};

verus! {

/// A comparison operator of the condition.
#[derive(Clone, Copy, PartialEq, Eq, Debug, Structural)]
pub enum Op {
    Gt,
    Lt,
    Eq,
    Ge,
    Le,
    Ne,
}

/// A parsed condition. The threshold is kept as the decimal literal the user
/// wrote; comparing numbers against it is floating-point work that the caller does.
pub struct Condition {
    pub field_str: String,
    pub op: Op,
    pub threshold: String,
}

/// How one numeric field value compares with the threshold: the caller parses
/// both as `f64` and reports whether `value op threshold` holds, or that the value
/// overflowed to infinity.
#[derive(Clone, Copy, PartialEq, Eq, Debug, Structural)]
pub enum Comparison {
    Holds,
    Fails,
    OutOfRange,
}

pub open spec fn is_op_char(c: char) -> bool {
    c == '!' || c == '<' || c == '=' || c == '>'
}

pub open spec fn is_value_char(c: char) -> bool {
    c == '-' || is_ascii_digit(c) || c == '.' || c == 'e' || c == ',' || c == 'E' || c == '+'
}

/// The length of the run of operator characters that starts `r`.
pub open spec fn op_run(r: Seq<char>) -> nat
    decreases r.len(),
{
    if r.len() > 0 && is_op_char(r[0]) {
        1 + op_run(r.drop_first())
    } else {
        0
    }
}

/// `r` is one or more operator characters followed by one or more value characters.
pub open spec fn op_value_tail(r: Seq<char>) -> bool {
    let k = op_run(r);
    &&& 1 <= k < r.len()
    &&& forall|j: int| k <= j < r.len() ==> is_value_char(#[trigger] r[j])
}

/// The length of the field part that `^(.+?)([!<=>]+)([\-0-9\.e,E\+]+)$` captures:
/// the shortest length from `i` up whose prefix holds no line feed and whose rest
/// is an operator run followed by a value.
pub open spec fn lazy_field_len(s: Seq<char>, i: int) -> Option<int>
    decreases s.len() - i,
{
    if i < 1 || i >= s.len() {
        None
    } else if s[i - 1] == '\n' {
        None
    } else if op_value_tail(s.skip(i)) {
        Some(i)
    } else {
        lazy_field_len(s, i + 1)
    }
}

/// The operator that a run of operator characters spells, if any.
pub open spec fn spec_op(t: Seq<char>) -> Option<Op> {
    if t.len() == 1 {
        if t[0] == '>' {
            Some(Op::Gt)
        } else if t[0] == '<' {
            Some(Op::Lt)
        } else if t[0] == '=' {
            Some(Op::Eq)
        } else {
            None
        }
    } else if t.len() == 2 {
        if t[0] == '>' && t[1] == '=' {
            Some(Op::Ge)
        } else if t[0] == '<' && t[1] == '=' {
            Some(Op::Le)
        } else if (t[0] == '!' && t[1] == '=') || (t[0] == '<' && t[1] == '>') {
            Some(Op::Ne)
        } else {
            None
        }
    } else {
        None
    }
}

pub open spec fn is_exp_marker(c: char) -> bool {
    c == 'e' || c == 'E'
}

/// The index of the first `e` or `E` in `s`, or its length if there is none.
pub open spec fn exp_index(s: Seq<char>) -> int
    decreases s.len(),
{
    if s.len() == 0 {
        0
    } else if is_exp_marker(s[0]) {
        0
    } else {
        1 + exp_index(s.drop_first())
    }
}

/// Digits with at most one decimal point and at least one digit.
pub open spec fn is_mantissa(m: Seq<char>) -> bool {
    &&& forall|i: int| 0 <= i < m.len() ==> is_ascii_digit(#[trigger] m[i]) || m[i] == '.'
    &&& forall|i: int, j: int| 0 <= i < j < m.len() ==> !(#[trigger] m[i] == '.' && #[trigger] m[j] == '.')
    &&& exists|i: int| 0 <= i < m.len() && is_ascii_digit(#[trigger] m[i])
}

/// An optional sign and one or more digits.
pub open spec fn is_exponent(x: Seq<char>) -> bool {
    let b = unsigned_part(x);
    b.len() > 0 && all_ascii_digits(b)
}

/// A decimal literal that `str::parse::<f64>` reads: an optional sign, a mantissa
/// of digits with at most one point, and an optional exponent `e`/`E`, sign, digits.
pub open spec fn float_literal(s: Seq<char>) -> bool {
    let b = unsigned_part(s);
    let k = exp_index(b);
    if k == b.len() {
        is_mantissa(b)
    } else {
        is_mantissa(b.take(k)) && is_exponent(b.skip(k + 1))
    }
}

pub open spec fn is_digital_char(c: char) -> bool {
    is_ascii_digit(c) || c == '.' || c == ','
}

pub open spec fn is_exp_char(c: char) -> bool {
    c == '-' || c == '+' || is_ascii_digit(c)
}

/// Whether `s` looks numeric, per `^[\-\+]?[0-9\.,]+$|^[\-\+]?[0-9\.,]+[eE][\-\+0-9]+$`.
pub open spec fn looks_numeric(s: Seq<char>) -> bool {
    let b = unsigned_part(s);
    let k = exp_index(b);
    if k == b.len() {
        b.len() > 0 && forall|i: int| 0 <= i < b.len() ==> is_digital_char(#[trigger] b[i])
    } else {
        &&& k > 0
        &&& forall|i: int| 0 <= i < k ==> is_digital_char(#[trigger] b[i])
        &&& k + 1 < b.len()
        &&& forall|i: int| k + 1 <= i < b.len() ==> is_exp_char(#[trigger] b[i])
    }
}

/// `s` with every comma taken out.
pub open spec fn without_commas(s: Seq<char>) -> Seq<char>
    decreases s.len(),
{
    if s.len() == 0 {
        s
    } else if s.last() == ',' {
        without_commas(s.drop_last())
    } else {
        without_commas(s.drop_last()).push(s.last())
    }
}

/// The parts of a condition: field list, operator, threshold.
pub open spec fn spec_parse_condition(s: Seq<char>) -> Result<(Seq<char>, Op, Seq<char>), Fault> {
    if s.len() == 0 {
        Err(Fault::MissingFilter)
    } else {
        match lazy_field_len(s, 1) {
            None => Err(Fault::InvalidFilter(s)),
            Some(i) => {
                let rest = s.skip(i);
                let k = op_run(rest) as int;
                let op_text = rest.take(k);
                let value = rest.skip(k);
                match spec_op(op_text) {
                    None => Err(Fault::InvalidExpression(op_text)),
                    Some(op) => if float_literal(value) {
                        Ok((s.take(i), op, value))
                    } else {
                        Err(Fault::InvalidNumber(value))
                    },
                }
            },
        }
    }
}

/// The pass/fail decision for one row, scanning the selected values from index `i`
/// with `n` of them satisfied so far: the first value that does not look numeric
/// rejects the row; a looking-numeric value that is no decimal literal, or whose
/// value overflows, is an error; under `any` the first satisfying value accepts the
/// row; otherwise the row passes when every value satisfied.
pub open spec fn row_scan(values: Seq<Seq<char>>, outcomes: Seq<Comparison>, any: bool, i: int, n: nat) -> Result<bool, Fault>
    decreases values.len() - i,
{
    if i >= values.len() || i < 0 {
        Ok(n == values.len())
    } else if !looks_numeric(values[i]) {
        Ok(false)
    } else {
        let t = without_commas(values[i]);
        if !float_literal(t) {
            Err(Fault::InvalidNumber(t))
        } else if outcomes[i] == Comparison::OutOfRange {
            Err(Fault::NumberOutOfRange(t))
        } else {
            let n2: nat = if outcomes[i] == Comparison::Holds { n + 1 } else { n };
            if any && n2 == 1 {
                Ok(true)
            } else {
                row_scan(values, outcomes, any, i + 1, n2)
            }
        }
    }
}

/// Whether a row with these selected values passes, given how each numeric value
/// compares with the threshold.
pub open spec fn spec_row_passes(values: Seq<Seq<char>>, outcomes: Seq<Comparison>, any: bool) -> Result<bool, Fault> {
    row_scan(values, outcomes, any, 0, 0)
}

pub open spec fn str_views(values: Seq<&str>) -> Seq<Seq<char>> {
    values.map_values(|v: &str| v@)
}

impl Condition {
    pub open spec fn view_parts(self) -> (Seq<char>, Op, Seq<char>) {
        (self.field_str@, self.op, self.threshold@)
    }
}


fn is_op_char_exec(c: char) -> (b: bool)
    ensures
        b == is_op_char(c),
{
    c == '!' || c == '<' || c == '=' || c == '>'
}

fn is_value_char_exec(c: char) -> (b: bool)
    ensures
        b == is_value_char(c),
{
    c == '-' || ('0' <= c && c <= '9') || c == '.' || c == 'e' || c == ',' || c == 'E' || c == '+'
}

pub proof fn lemma_op_run_step(s: Seq<char>, j: int)
    requires
        0 <= j < s.len(),
    ensures
        op_run(s.skip(j)) == if is_op_char(s[j]) { 1 + op_run(s.skip(j + 1)) } else { 0 },
{
    assert(s.skip(j).drop_first() =~= s.skip(j + 1));
}

/// The end of the operator run that starts at `i`.
fn op_run_end(s: &[char], i: usize) -> (j: usize)
    requires
        i <= s@.len(),
    ensures
        j == i + op_run(s@.skip(i as int)),
        j <= s@.len(),
{
    let mut j = i;
    while j < s.len() && is_op_char_exec(s[j])
        invariant
            i <= j <= s@.len(),
            op_run(s@.skip(i as int)) == (j - i) + op_run(s@.skip(j as int)),
        decreases s@.len() - j,
    {
        proof {
            lemma_op_run_step(s@, j as int);
        }
        j = j + 1;
    }
    proof {
        if j < s@.len() {
            lemma_op_run_step(s@, j as int);
        } else {
            assert(s@.skip(j as int).len() == 0);
        }
    }
    j
}

/// Whether `s[i..]` is an operator run followed by a value.
fn is_op_value_tail(s: &[char], i: usize) -> (b: bool)
    requires
        i <= s@.len(),
    ensures
        b == op_value_tail(s@.skip(i as int)),
{
    let j = op_run_end(s, i);
    let ghost r = s@.skip(i as int);
    if j == i || j >= s.len() {
        return false;
    }
    let mut m = j;
    while m < s.len()
        invariant
            j <= m <= s@.len(),
            r == s@.skip(i as int),
            j == i + op_run(r),
            forall|x: int| j <= x < m ==> is_value_char(#[trigger] s@[x]),
        decreases s@.len() - m,
    {
        if !is_value_char_exec(s[m]) {
            assert(r[m - i] == s@[m as int]);
            return false;
        }
        m = m + 1;
    }
    assert forall|x: int| op_run(r) <= x < r.len() implies is_value_char(#[trigger] r[x]) by {
        assert(r[x] == s@[x + i]);
    }
    true
}

/// The length of the field part of a condition, searched as the lazy regex does.
fn field_part_len(s: &[char]) -> (r: Option<usize>)
    ensures
        r matches Some(i) ==> lazy_field_len(s@, 1) == Some(i as int) && 1 <= i < s@.len(),
        r is None ==> lazy_field_len(s@, 1) is None,
{
    let mut i: usize = 1;
    while i < s.len()
        invariant
            1 <= i,
            lazy_field_len(s@, 1) == lazy_field_len(s@, i as int),
        decreases s@.len() - i,
    {
        if s[i - 1] == '\n' {
            return None;
        }
        if is_op_value_tail(s, i) {
            return Some(i);
        }
        i = i + 1;
    }
    None
}

/// The operator spelled by `s[from..to]`.
fn op_from(s: &[char], from: usize, to: usize) -> (r: Option<Op>)
    requires
        from <= to <= s@.len(),
    ensures
        r == spec_op(s@.subrange(from as int, to as int)),
{
    let ghost t = s@.subrange(from as int, to as int);
    let n = to - from;
    if n == 1 {
        let c = s[from];
        assert(t[0] == c);
        if c == '>' {
            Some(Op::Gt)
        } else if c == '<' {
            Some(Op::Lt)
        } else if c == '=' {
            Some(Op::Eq)
        } else {
            None
        }
    } else if n == 2 {
        let a = s[from];
        let b = s[from + 1];
        assert(t[0] == a && t[1] == b);
        if a == '>' && b == '=' {
            Some(Op::Ge)
        } else if a == '<' && b == '=' {
            Some(Op::Le)
        } else if (a == '!' && b == '=') || (a == '<' && b == '>') {
            Some(Op::Ne)
        } else {
            None
        }
    } else {
        None
    }
}

proof fn lemma_exp_index_step(s: Seq<char>, j: int)
    requires
        0 <= j < s.len(),
    ensures
        exp_index(s.skip(j)) == if is_exp_marker(s[j]) { 0 } else { 1 + exp_index(s.skip(j + 1)) },
{
    assert(s.skip(j).drop_first() =~= s.skip(j + 1));
}

/// The index of the first `e`/`E` in `s[from..to]`, or `to`.
fn exp_index_in(s: &[char], from: usize, to: usize) -> (k: usize)
    requires
        from <= to <= s@.len(),
    ensures
        k == from + exp_index(s@.subrange(from as int, to as int)),
        from <= k <= to,
{
    let ghost t = s@.subrange(from as int, to as int);
    assert(t.skip(0) =~= t);
    let mut k = from;
    while k < to && !(s[k] == 'e' || s[k] == 'E')
        invariant
            from <= k <= to <= s@.len(),
            t == s@.subrange(from as int, to as int),
            exp_index(t) == (k - from) + exp_index(t.skip(k - from)),
        decreases to - k,
    {
        proof {
            lemma_exp_index_step(t, k - from);
        }
        k = k + 1;
    }
    proof {
        if k < to {
            lemma_exp_index_step(t, k - from);
        } else {
            assert(t.skip(k - from).len() == 0);
        }
    }
    k
}

/// Whether `s[from..to]` is a mantissa.
fn is_mantissa_in(s: &[char], from: usize, to: usize) -> (b: bool)
    requires
        from <= to <= s@.len(),
    ensures
        b == is_mantissa(s@.subrange(from as int, to as int)),
{
    let ghost m = s@.subrange(from as int, to as int);
    let mut dot: Option<usize> = None;
    let mut digit = false;
    let mut i = from;
    while i < to
        invariant
            from <= i <= to <= s@.len(),
            m == s@.subrange(from as int, to as int),
            forall|x: int| 0 <= x < i - from ==> is_ascii_digit(#[trigger] m[x]) || m[x] == '.',
            match dot {
                Some(d) => from <= d < i && m[d - from] == '.' && forall|x: int|
                    0 <= x < i - from && x != d - from ==> #[trigger] m[x] != '.',
                None => forall|x: int| 0 <= x < i - from ==> #[trigger] m[x] != '.',
            },
            digit <==> exists|x: int| 0 <= x < i - from && is_ascii_digit(#[trigger] m[x]),
        decreases to - i,
    {
        let c = s[i];
        assert(m[i - from] == c);
        if '0' <= c && c <= '9' {
            digit = true;
        } else if c == '.' {
            if let Some(d) = dot {
                assert(!(m[d - from] == '.' && m[i - from] == '.') ==> false);
                return false;
            }
            dot = Some(i);
        } else {
            return false;
        }
        i = i + 1;
    }
    if !digit {
        return false;
    }
    assert forall|x: int, y: int| 0 <= x < y < m.len() implies !(#[trigger] m[x] == '.'
        && #[trigger] m[y] == '.') by {}
    true
}

/// Whether `s[from..to]` is an optional sign and one or more digits.
fn is_exponent_in(s: &[char], from: usize, to: usize) -> (b: bool)
    requires
        from <= to <= s@.len(),
    ensures
        b == is_exponent(s@.subrange(from as int, to as int)),
{
    let ghost x = s@.subrange(from as int, to as int);
    let mut start = from;
    if from < to && (s[from] == '-' || s[from] == '+') {
        start = from + 1;
    }
    let ghost b = s@.subrange(start as int, to as int);
    assert(b =~= unsigned_part(x));
    if start == to {
        return false;
    }
    let mut i = start;
    while i < to
        invariant
            start <= i <= to <= s@.len(),
            b == s@.subrange(start as int, to as int),
            x == s@.subrange(from as int, to as int),
            b == unsigned_part(x),
            forall|y: int| 0 <= y < i - start ==> is_ascii_digit(#[trigger] b[y]),
        decreases to - i,
    {
        if !('0' <= s[i] && s[i] <= '9') {
            assert(b[i - start] == s@[i as int]);
            assert(!is_ascii_digit(b[i - start]));
            return false;
        }
        i = i + 1;
    }
    true
}

/// Whether `s` is a decimal literal that `str::parse::<f64>` reads.
pub fn is_float_literal(s: &[char]) -> (b: bool)
    ensures
        b == float_literal(s@),
{
    let n = s.len();
    let mut start: usize = 0;
    if n > 0 && (s[0] == '-' || s[0] == '+') {
        start = 1;
    }
    let ghost b = s@.subrange(start as int, n as int);
    assert(b =~= unsigned_part(s@));
    let k = exp_index_in(s, start, n);
    if k == n {
        is_mantissa_in(s, start, n)
    } else {
        assert(s@.subrange(start as int, k as int) =~= b.take(k - start));
        assert(s@.subrange(k + 1, n as int) =~= b.skip(k - start + 1));
        is_mantissa_in(s, start, k) && is_exponent_in(s, k + 1, n)
    }
}

fn all_in_class(s: &[char], from: usize, to: usize, exponent: bool) -> (b: bool)
    requires
        from <= to <= s@.len(),
    ensures
        b == forall|i: int| from <= i < to ==> (if exponent { is_exp_char(#[trigger] s@[i]) } else { is_digital_char(s@[i]) }),
{
    let mut i = from;
    while i < to
        invariant
            from <= i <= to <= s@.len(),
            forall|x: int| from <= x < i ==> (if exponent { is_exp_char(#[trigger] s@[x]) } else { is_digital_char(s@[x]) }),
        decreases to - i,
    {
        let c = s[i];
        let ok = if exponent {
            c == '-' || c == '+' || ('0' <= c && c <= '9')
        } else {
            ('0' <= c && c <= '9') || c == '.' || c == ','
        };
        if !ok {
            return false;
        }
        i = i + 1;
    }
    true
}

/// Whether `s` looks numeric: an optional sign, digits, dots and commas, and an
/// optional exponent.
pub fn is_numeric_looking(s: &[char]) -> (b: bool)
    ensures
        b == looks_numeric(s@),
{
    let n = s.len();
    let mut start: usize = 0;
    if n > 0 && (s[0] == '-' || s[0] == '+') {
        start = 1;
    }
    let ghost b = s@.subrange(start as int, n as int);
    assert(b =~= unsigned_part(s@));
    let k = exp_index_in(s, start, n);
    if k == n {
        let ok = start < n && all_in_class(s, start, n, false);
        proof {
            if ok {
                assert forall|i: int| 0 <= i < b.len() implies is_digital_char(#[trigger] b[i]) by {
                    assert(b[i] == s@[i + start]);
                }
            } else if start < n {
                let w = choose|i: int| start <= i < n && !is_digital_char(s@[i]);
                assert(b[w - start] == s@[w]);
            }
        }
        ok
    } else {
        let lead = k > start && k + 1 < n && all_in_class(s, start, k, false);
        let ok = lead && all_in_class(s, k + 1, n, true);
        proof {
            let kk = k - start;
            if ok {
                assert forall|i: int| 0 <= i < kk implies is_digital_char(#[trigger] b[i]) by {
                    assert(b[i] == s@[i + start]);
                }
                assert forall|i: int| kk + 1 <= i < b.len() implies is_exp_char(#[trigger] b[i]) by {
                    assert(b[i] == s@[i + start]);
                }
            } else if k > start && k + 1 < n {
                if !lead {
                    let w = choose|i: int| start <= i < k && !is_digital_char(s@[i]);
                    assert(b[w - start] == s@[w]);
                } else {
                    let w = choose|i: int| k + 1 <= i < n && !is_exp_char(s@[i]);
                    assert(b[w - start] == s@[w]);
                }
            }
        }
        ok
    }
}

/// `s[..to]` with its commas taken out.
fn without_commas_prefix(s: &[char]) -> (v: Vec<char>)
    ensures
        v@ == without_commas(s@),
{
    let mut v: Vec<char> = Vec::new();
    let mut i: usize = 0;
    while i < s.len()
        invariant
            i <= s@.len(),
            v@ == without_commas(s@.take(i as int)),
        decreases s@.len() - i,
    {
        assert(s@.take(i + 1).drop_last() =~= s@.take(i as int));
        if s[i] != ',' {
            v.push(s[i]);
        }
        i = i + 1;
    }
    assert(s@.take(i as int) =~= s@);
    v
}

/// `s` with every comma taken out (thousands separators in field values).
pub fn remove_comma(s: &str) -> (r: String)
    ensures
        r@ == without_commas(s@),
{
    let chars = chars_of(s);
    let v = without_commas_prefix(chars.as_slice());
    string_from_chars(v.as_slice())
}

/// Parses `-f "<fields><op><value>"`: the shortest field part such that the rest is
/// an operator run and a value; the operator must be one of the seven spellings
/// (`==` is not one) and the value a decimal literal.
pub fn parse_condition(filter_str: &str) -> (r: Result<Condition, FilterError>)
    ensures
        match r {
            Ok(c) => spec_parse_condition(filter_str@) == Ok::<_, Fault>(c.view_parts()),
            Err(e) => spec_parse_condition(filter_str@) == Err::<(Seq<char>, Op, Seq<char>), _>(e@),
        },
{
    let s = chars_of(filter_str);
    let n = s.len();
    if n == 0 {
        return Err(FilterError::MissingFilter);
    }
    let i = match field_part_len(s.as_slice()) {
        Some(i) => i,
        None => {
            return Err(FilterError::InvalidFilter { filter: string_from_chars(s.as_slice()) });
        },
    };
    let ghost rest = s@.skip(i as int);
    let j = op_run_end(s.as_slice(), i);
    assert(s@.subrange(i as int, j as int) =~= rest.take(j - i));
    assert(s@.subrange(j as int, n as int) =~= rest.skip(j - i));
    let op = match op_from(s.as_slice(), i, j) {
        Some(op) => op,
        None => {
            let text = string_from_chars(vstd::slice::slice_subrange(s.as_slice(), i, j));
            return Err(FilterError::InvalidExpression { op: text });
        },
    };
    let value: Vec<char> = vstd::slice::slice_to_vec(vstd::slice::slice_subrange(s.as_slice(), j, n));
    if !is_float_literal(value.as_slice()) {
        return Err(FilterError::InvalidNumber { text: string_from_chars(value.as_slice()) });
    }
    Ok(Condition {
        field_str: string_from_chars(vstd::slice::slice_subrange(s.as_slice(), 0, i)),
        op,
        threshold: string_from_chars(value.as_slice()),
    })
}


/// The number that a field value stands for, with its thousands separators taken
/// out, when the value looks numeric and is a decimal literal.
pub open spec fn spec_numeric_literal(value: Seq<char>) -> Option<Seq<char>> {
    if looks_numeric(value) && float_literal(without_commas(value)) {
        Some(without_commas(value))
    } else {
        None
    }
}

/// The decimal literal that a field value stands for, if it is a number: what the
/// caller must parse and compare with the threshold.
pub fn numeric_literal(value: &str) -> (r: Option<String>)
    ensures
        match r {
            Some(t) => spec_numeric_literal(value@) == Some(t@),
            None => spec_numeric_literal(value@) is None,
        },
{
    let chars = chars_of(value);
    if !is_numeric_looking(chars.as_slice()) {
        return None;
    }
    let t = without_commas_prefix(chars.as_slice());
    if !is_float_literal(t.as_slice()) {
        return None;
    }
    Some(string_from_chars(t.as_slice()))
}

/// Decides whether a data row passes by a walk over the selected values, in order;
/// `comparisons[i]` is how `values[i]` compares with the threshold.
pub fn row_passes(values: &[&str], comparisons: &[Comparison], any: bool) -> (r: Result<bool, FilterError>)
    requires
        comparisons@.len() == values@.len(),
    ensures
        r matches Err(e) ==> !(e is Read),
        match r {
            Ok(b) => spec_row_passes(str_views(values@), comparisons@, any) == Ok::<bool, Fault>(b),
            Err(e) => spec_row_passes(str_views(values@), comparisons@, any) == Err::<bool, Fault>(e@),
        },
{
    let ghost vals = str_views(values@);
    let mut n: usize = 0;
    let mut i: usize = 0;
    while i < values.len()
        invariant
            i <= values@.len(),
            n <= i,
            comparisons@.len() == values@.len(),
            vals == str_views(values@),
            spec_row_passes(vals, comparisons@, any) == row_scan(vals, comparisons@, any, i as int, n as nat),
        decreases values@.len() - i,
    {
        let chars = chars_of(values[i]);
        assert(chars@ == vals[i as int]);
        if !is_numeric_looking(chars.as_slice()) {
            return Ok(false);
        }
        let t = without_commas_prefix(chars.as_slice());
        if !is_float_literal(t.as_slice()) {
            return Err(FilterError::InvalidNumber { text: string_from_chars(t.as_slice()) });
        }
        match comparisons[i] {
            Comparison::OutOfRange => {
                return Err(FilterError::NumberOutOfRange { text: string_from_chars(t.as_slice()) });
            },
            Comparison::Holds => {
                n = n + 1;
            },
            Comparison::Fails => {},
        }
        if any && n == 1 {
            return Ok(true);
        }
        i = i + 1;
    }
    Ok(n == values.len())
}

} // verus!
