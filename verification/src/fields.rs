//! Field specs (`-f` field part): parsing, and resolving them to column positions.
use vstd::prelude::*;
use std::collections::HashMap;
use crate::error::{FilterError, Fault, result_view_spec};
use crate::outside::{CompiledRegex, regex_accepts, regex_is_match, string_from_chars};
use crate::text::{chars_of, is_ascii_digit, split_chars, split_at_char, spec_parse_i64, parse_i64, lemma_split_nonempty};

verus! {

broadcast use vstd::std_specs::hash::group_hash_axioms;

/// A parsed field spec. Index mode when the first comma-separated part is all
/// `[-+0-9]`; column-name mode otherwise.
pub enum FieldSpec {
    /// 1-based signed indices. `x2ends` records open ranges (`3-`) by a counter of
    /// the entries pushed before them (open ranges do not advance it).
    Index { fields: Vec<i64>, x2ends: HashMap<usize, i64>, negative: bool },
    /// Column names (or globs under fuzzy matching); `-name` entries exclude.
    Names { names: Vec<String>, negative: bool },
}

/// A field spec as plain values.
pub enum FieldSel {
    Index(Seq<i64>, Map<usize, i64>, bool),
    Names(Seq<Seq<char>>, bool),
}

pub open spec fn string_views(v: Seq<String>) -> Seq<Seq<char>> {
    v.map_values(|s: String| s@)
}

impl View for FieldSpec {
    type V = FieldSel;

    open spec fn view(&self) -> FieldSel {
        match self {
            FieldSpec::Index { fields, x2ends, negative } => FieldSel::Index(fields@, x2ends@, *negative),
            FieldSpec::Names { names, negative } => FieldSel::Names(string_views(names@), *negative),
        }
    }
}

impl FieldSpec {
    pub fn is_names(&self) -> (b: bool)
        ensures
            b == (self@ is Names),
    {
        match self {
            FieldSpec::Names { .. } => true,
            FieldSpec::Index { .. } => false,
        }
    }
}

/// A part made only of `-`, `+` and ASCII digits: the first part decides index mode.
pub open spec fn is_index_part(p: Seq<char>) -> bool {
    p.len() > 0 && forall|i: int| 0 <= i < p.len() ==> (#[trigger] p[i] == '-' || p[i] == '+' || is_ascii_digit(p[i]))
}

/// The first index from `k` on that holds a `-`.
pub open spec fn dash_from(s: Seq<char>, k: int) -> Option<int>
    decreases s.len() - k,
{
    if k < 1 || k >= s.len() {
        None
    } else if s[k] == '-' {
        Some(k)
    } else {
        dash_from(s, k + 1)
    }
}

/// Where a range `lo-hi` splits `s`: the position of the separating `-` (the first
/// one after the first character), when every character is a `-` or an ASCII digit.
pub open spec fn range_split(s: Seq<char>) -> Option<int> {
    if forall|i: int| 0 <= i < s.len() ==> (#[trigger] s[i] == '-' || is_ascii_digit(s[i])) {
        dash_from(s, 1)
    } else {
        None
    }
}

/// `lo`, `lo + 1`, ..., `hi`.
pub open spec fn int_range(lo: i64, hi: i64) -> Seq<i64> {
    Seq::new((hi - lo + 1) as nat, |i: int| (lo + i) as i64)
}

/// Parsing state of index mode: fields so far, open-range starts by counter, counter.
pub type IndexState = (Seq<i64>, Map<usize, i64>, nat);

/// One comma-separated part of an index-mode field spec.
pub open spec fn index_step(st: IndexState, s: Seq<char>) -> Result<IndexState, Fault> {
    let (fields, x2ends, j) = st;
    match range_split(s) {
        Some(k) => {
            let first = s.take(k);
            let second = s.skip(k + 1);
            match spec_parse_i64(first) {
                None => Err(Fault::BadRangeBound(first)),
                Some(start) => if second.len() == 0 {
                    Ok((fields.push(start), x2ends.insert(j as usize, start), j))
                } else {
                    match spec_parse_i64(second) {
                        None => Err(Fault::BadRangeBound(second)),
                        Some(end) => if start == 0 || end == 0 {
                            Err(Fault::ZeroInRange(s))
                        } else if start < 0 && end < 0 {
                            let lo = if start < end { start } else { end };
                            let hi = if start < end { end } else { start };
                            Ok((fields + int_range(lo, hi), x2ends, j + int_range(lo, hi).len()))
                        } else if start > 0 && end > 0 {
                            if start >= end {
                                Err(Fault::RangeNotIncreasing(s, start, end))
                            } else {
                                Ok((fields + int_range(start, end), x2ends, j + int_range(start, end).len()))
                            }
                        } else {
                            Err(Fault::RangeSignsDiffer(s, start, end))
                        },
                    }
                },
            }
        },
        None => match spec_parse_i64(s) {
            None => Err(Fault::BadFieldNumber(s)),
            Some(f) => Ok((fields.push(f), x2ends, j + 1)),
        },
    }
}

/// The index-mode parts parsed in order; the first failing part decides the error.
pub open spec fn index_fold(parts: Seq<Seq<char>>) -> Result<IndexState, Fault>
    decreases parts.len(),
{
    if parts.len() == 0 {
        Ok((Seq::<i64>::empty(), Map::<usize, i64>::empty(), 0))
    } else {
        match index_fold(parts.drop_last()) {
            Err(e) => Err(e),
            Ok(st) => index_step(st, parts.last()),
        }
    }
}

/// The sign check over the fields from `i`, with `negative` telling whether a
/// negative field came before: a zero is an error, a positive after a negative too.
pub open spec fn sign_scan(fields: Seq<i64>, i: int, negative: bool) -> Result<bool, Fault>
    decreases fields.len() - i,
{
    if i < 0 || i >= fields.len() {
        Ok(negative)
    } else if fields[i] == 0 {
        Err(Fault::ZeroField)
    } else if fields[i] < 0 {
        sign_scan(fields, i + 1, true)
    } else if negative {
        Err(Fault::MixedIndexSigns)
    } else {
        sign_scan(fields, i + 1, false)
    }
}

/// Index mode: the parts, then the sign checks.
pub open spec fn spec_parse_index(parts: Seq<Seq<char>>) -> Result<FieldSel, Fault> {
    match index_fold(parts) {
        Err(e) => Err(e),
        Ok((fields, x2ends, _j)) => match sign_scan(fields, 0, false) {
            Err(e) => Err(e),
            Ok(negative) => if negative && exists|i: int| 0 <= i < fields.len() && #[trigger] fields[i] > 0 {
                Err(Fault::MixedIndexSigns)
            } else {
                Ok(FieldSel::Index(fields, x2ends, negative))
            },
        },
    }
}

/// The name-mode check over the parts from `i`: an empty name is an error; a name
/// without `-` after one with it too.
pub open spec fn name_scan(parts: Seq<Seq<char>>, i: int, negative: bool) -> Result<bool, Fault>
    decreases parts.len() - i,
{
    if i < 0 || i >= parts.len() {
        Ok(negative)
    } else if parts[i].len() == 0 {
        Err(Fault::EmptyName((i + 1) as usize))
    } else if parts[i][0] == '-' {
        name_scan(parts, i + 1, true)
    } else if negative {
        Err(Fault::MixedNameSigns)
    } else {
        name_scan(parts, i + 1, false)
    }
}

/// Name mode: the scan, then every name must carry the `-` when one does.
pub open spec fn spec_parse_names(parts: Seq<Seq<char>>) -> Result<FieldSel, Fault> {
    match name_scan(parts, 0, false) {
        Err(e) => Err(e),
        Ok(negative) => if negative && exists|i: int| 0 <= i < parts.len() && (#[trigger] parts[i])[0] != '-' {
            Err(Fault::MixedNameSigns)
        } else {
            Ok(FieldSel::Names(parts, negative))
        },
    }
}

/// A field list (`1,3`, `2-`, `-2`, `name`, `c*`), parsed.
pub open spec fn spec_parse(s: Seq<char>) -> Result<FieldSel, Fault> {
    let parts = split_at_char(s, ',');
    if parts[0].len() == 0 {
        Err(Fault::EmptyFirstField(s))
    } else if is_index_part(parts[0]) {
        spec_parse_index(parts)
    } else {
        spec_parse_names(parts)
    }
}


pub open spec fn char_vecs(v: Seq<Vec<char>>) -> Seq<Seq<char>> {
    v.map_values(|p: Vec<char>| p@)
}

fn is_index_part_exec(p: &[char]) -> (b: bool)
    ensures
        b == is_index_part(p@),
{
    if p.len() == 0 {
        return false;
    }
    let mut i: usize = 0;
    while i < p.len()
        invariant
            i <= p@.len(),
            forall|x: int| 0 <= x < i ==> (#[trigger] p@[x] == '-' || p@[x] == '+' || is_ascii_digit(p@[x])),
        decreases p@.len() - i,
    {
        let c = p[i];
        if !(c == '-' || c == '+' || ('0' <= c && c <= '9')) {
            return false;
        }
        i = i + 1;
    }
    true
}

fn range_split_exec(s: &[char]) -> (r: Option<usize>)
    ensures
        r matches Some(k) ==> range_split(s@) == Some(k as int) && 1 <= k < s@.len(),
        r is None ==> range_split(s@) is None,
{
    let mut i: usize = 0;
    while i < s.len()
        invariant
            i <= s@.len(),
            forall|x: int| 0 <= x < i ==> (#[trigger] s@[x] == '-' || is_ascii_digit(s@[x])),
        decreases s@.len() - i,
    {
        let c = s[i];
        if !(c == '-' || ('0' <= c && c <= '9')) {
            return None;
        }
        i = i + 1;
    }
    let mut k: usize = 1;
    while k < s.len()
        invariant
            1 <= k,
            forall|x: int| 0 <= x < s@.len() ==> (#[trigger] s@[x] == '-' || is_ascii_digit(s@[x])),
            dash_from(s@, 1) == dash_from(s@, k as int),
        decreases s@.len() - k,
    {
        if s[k] == '-' {
            return Some(k);
        }
        k = k + 1;
    }
    None
}

/// Appends `lo`, `lo + 1`, ..., `hi`.
fn push_range(fields: &mut Vec<i64>, lo: i64, hi: i64)
    requires
        lo <= hi,
    ensures
        final(fields)@ == old(fields)@ + int_range(lo, hi),
{
    let mut k = lo;
    while k < hi
        invariant
            lo <= k <= hi,
            fields@ == old(fields)@ + Seq::new((k - lo) as nat, |i: int| (lo + i) as i64),
        decreases hi - k,
    {
        fields.push(k);
        k = k + 1;
        assert(fields@ =~= old(fields)@ + Seq::new((k - lo) as nat, |i: int| (lo + i) as i64));
    }
    fields.push(hi);
    assert(fields@ =~= old(fields)@ + int_range(lo, hi));
}

fn string_of(s: &[char], from: usize, to: usize) -> (r: String)
    requires
        from <= to <= s@.len(),
    ensures
        r@ == s@.subrange(from as int, to as int),
{
    string_from_chars(vstd::slice::slice_subrange(s, from, to))
}

/// An error on a prefix of the parts is the error of the whole.
proof fn lemma_index_fold_prefix(ps: Seq<Seq<char>>, k: int)
    requires
        0 <= k <= ps.len(),
    ensures
        index_fold(ps.take(k)) is Err ==> index_fold(ps) == index_fold(ps.take(k)),
    decreases ps.len() - k,
{
    if k < ps.len() {
        lemma_index_fold_prefix(ps, k + 1);
        assert(ps.take(k + 1).drop_last() =~= ps.take(k));
    } else {
        assert(ps.take(k) =~= ps);
    }
}

/// Index mode: every part parsed in order, then the sign checks.
fn parse_index(parts: &Vec<Vec<char>>) -> (r: Result<FieldSpec, FilterError>)
    ensures
        result_view_spec(r) == spec_parse_index(char_vecs(parts@)),
{
    let ghost ps = char_vecs(parts@);
    let mut fields: Vec<i64> = Vec::new();
    let mut x2ends: HashMap<usize, i64> = HashMap::new();
    let mut j: usize = 0;
    let mut p: usize = 0;
    while p < parts.len()
        invariant
            p <= parts@.len(),
            ps == char_vecs(parts@),
            j <= fields@.len(),
            index_fold(ps.take(p as int)) == Ok::<IndexState, Fault>((fields@, x2ends@, j as nat)),
        decreases parts@.len() - p,
    {
        proof {
            assert(ps.take(p + 1).drop_last() =~= ps.take(p as int));
            assert(ps.take(p + 1).last() == parts@[p as int]@);
            lemma_index_fold_prefix(ps, p + 1);
        }
        let s = parts[p].as_slice();
        let n = s.len();
        match range_split_exec(s) {
            Some(k) => {
                assert(s@.subrange(0, n as int) =~= s@);
                assert(s@.take(k as int) =~= s@.subrange(0, k as int));
                assert(s@.skip(k + 1) =~= s@.subrange(k + 1, n as int));
                let start = match parse_i64(s, 0, k) {
                    Some(v) => v,
                    None => {
                        return Err(FilterError::BadRangeBound { text: string_of(s, 0, k) });
                    },
                };
                if k + 1 == n {
                    fields.push(start);
                    x2ends.insert(j, start);
                } else {
                    let end = match parse_i64(s, k + 1, n) {
                        Some(v) => v,
                        None => {
                            return Err(FilterError::BadRangeBound { text: string_of(s, k + 1, n) });
                        },
                    };
                    if start == 0 || end == 0 {
                        return Err(FilterError::ZeroInRange { range: string_of(s, 0, n) });
                    }
                    let before = fields.len();
                    if start < 0 && end < 0 {
                        let lo = if start < end { start } else { end };
                        let hi = if start < end { end } else { start };
                        push_range(&mut fields, lo, hi);
                    } else if start > 0 && end > 0 {
                        if start >= end {
                            return Err(FilterError::RangeNotIncreasing { range: string_of(s, 0, n), start, end });
                        }
                        push_range(&mut fields, start, end);
                    } else {
                        return Err(FilterError::RangeSignsDiffer { range: string_of(s, 0, n), start, end });
                    }
                    j = j + (fields.len() - before);
                }
            },
            None => {
                assert(s@.subrange(0, n as int) =~= s@);
                match parse_i64(s, 0, n) {
                    Some(f) => {
                        let before = fields.len();
                        fields.push(f);
                        j = j + (fields.len() - before);
                    },
                    None => {
                        return Err(FilterError::BadFieldNumber { text: string_of(s, 0, n) });
                    },
                }
            },
        }
        p = p + 1;
    }
    assert(ps.take(p as int) =~= ps);
    let mut negative = false;
    let mut i: usize = 0;
    while i < fields.len()
        invariant
            i <= fields@.len(),
            ps == char_vecs(parts@),
            index_fold(ps) == Ok::<IndexState, Fault>((fields@, x2ends@, j as nat)),
            sign_scan(fields@, 0, false) == sign_scan(fields@, i as int, negative),
        decreases fields@.len() - i,
    {
        let f = fields[i];
        if f == 0 {
            return Err(FilterError::ZeroField);
        } else if f < 0 {
            negative = true;
        } else if negative {
            return Err(FilterError::MixedIndexSigns);
        }
        i = i + 1;
    }
    if negative {
        let mut i: usize = 0;
        while i < fields.len()
            invariant
                i <= fields@.len(),
                ps == char_vecs(parts@),
                index_fold(ps) == Ok::<IndexState, Fault>((fields@, x2ends@, j as nat)),
                sign_scan(fields@, 0, false) == Ok::<bool, Fault>(negative),
                negative,
                forall|x: int| 0 <= x < i ==> #[trigger] fields@[x] <= 0,
            decreases fields@.len() - i,
        {
            if fields[i] > 0 {
                assert(fields@[i as int] > 0);
                return Err(FilterError::MixedIndexSigns);
            }
            i = i + 1;
        }
    }
    Ok(FieldSpec::Index { fields, x2ends, negative })
}

/// Name mode: the checks, then the names as given.
fn parse_names(parts: &Vec<Vec<char>>) -> (r: Result<FieldSpec, FilterError>)
    ensures
        result_view_spec(r) == spec_parse_names(char_vecs(parts@)),
{
    let ghost ps = char_vecs(parts@);
    let mut negative = false;
    let mut i: usize = 0;
    while i < parts.len()
        invariant
            i <= parts@.len(),
            ps == char_vecs(parts@),
            forall|x: int| 0 <= x < i ==> (#[trigger] ps[x]).len() > 0,
            name_scan(ps, 0, false) == name_scan(ps, i as int, negative),
        decreases parts@.len() - i,
    {
        let f = parts[i].as_slice();
        assert(f@ == ps[i as int]);
        if f.len() == 0 {
            return Err(FilterError::EmptyName { position: i + 1 });
        } else if f[0] == '-' {
            negative = true;
        } else if negative {
            return Err(FilterError::MixedNameSigns);
        }
        i = i + 1;
    }
    if negative {
        let mut i: usize = 0;
        while i < parts.len()
            invariant
                i <= parts@.len(),
                ps == char_vecs(parts@),
                name_scan(ps, 0, false) == Ok::<bool, Fault>(negative),
                negative,
                forall|x: int| 0 <= x < ps.len() ==> (#[trigger] ps[x]).len() > 0,
                forall|x: int| 0 <= x < i ==> (#[trigger] ps[x])[0] == '-',
            decreases parts@.len() - i,
        {
            assert(parts@[i as int]@ == ps[i as int]);
            if parts[i][0] != '-' {
                assert(ps[i as int][0] != '-');
                return Err(FilterError::MixedNameSigns);
            }
            i = i + 1;
        }
    }
    let mut names: Vec<String> = Vec::new();
    let mut i: usize = 0;
    while i < parts.len()
        invariant
            i <= parts@.len(),
            ps == char_vecs(parts@),
            string_views(names@) == ps.take(i as int),
        decreases parts@.len() - i,
    {
        let ghost before = names@;
        let name = string_from_chars(parts[i].as_slice());
        assert(name@ == ps[i as int]);
        names.push(name);
        assert(string_views(names@) =~= string_views(before).push(name@));
        i = i + 1;
        assert(string_views(names@) =~= ps.take(i as int));
    }
    assert(ps.take(i as int) =~= ps);
    Ok(FieldSpec::Names { names, negative })
}

proof fn lemma_name_scan_nonempty(parts: Seq<Seq<char>>, i: int, negative: bool)
    requires
        0 <= i,
        name_scan(parts, i, negative) is Ok,
    ensures
        forall|j: int| i <= j < parts.len() ==> (#[trigger] parts[j]).len() > 0,
    decreases parts.len() - i,
{
    if i < parts.len() {
        lemma_name_scan_nonempty(parts, i + 1, parts[i][0] == '-' || negative);
    }
}

/// Every spec that parsing yields can be resolved: excluding names start with `-`.
pub proof fn lemma_parse_resolvable(s: Seq<char>)
    ensures
        spec_parse(s) matches Ok(sel) ==> resolvable(sel),
{
    let parts = split_at_char(s, ',');
    if spec_parse(s) is Ok && !is_index_part(parts[0]) && parts[0].len() > 0 {
        lemma_name_scan_nonempty(parts, 0, false);
        if let Ok(FieldSel::Names(names, negative)) = spec_parse(s) {
            if negative {
                assert forall|i: int| 0 <= i < names.len() implies (#[trigger] names[i]).len() > 0 && (names[i][0] as u32) < 128 by {
                    assert(names[i][0] == '-');
                }
            }
        }
    }
}

/// Parses a field list: index mode when the first part is all
/// `-`, `+` and ASCII digits, column names otherwise.
pub fn parse(field_str: &str) -> (r: Result<FieldSpec, FilterError>)
    ensures
        result_view_spec(r) == spec_parse(field_str@),
        r matches Ok(spec) ==> resolvable(spec@),
{
    proof {
        lemma_parse_resolvable(field_str@);
    }
    let s = chars_of(field_str);
    let parts = split_chars(s.as_slice(), ',');
    proof {
        lemma_split_nonempty(s@, ',');
        assert(char_vecs(parts@) =~= split_at_char(s@, ','));
    }
    if parts[0].len() == 0 {
        return Err(FilterError::EmptyFirstField { fields: string_from_chars(s.as_slice()) });
    }
    if is_index_part_exec(parts[0].as_slice()) {
        parse_index(&parts)
    } else {
        parse_names(&parts)
    }
}


/// The 1-based positions, in header order, of the columns named `name`.
pub open spec fn positions_of(header: Seq<Seq<char>>, name: Seq<char>) -> Seq<usize>
    decreases header.len(),
{
    if header.len() == 0 {
        Seq::<usize>::empty()
    } else {
        let prev = positions_of(header.drop_last(), name);
        if header.last() == name {
            prev.push(header.len() as usize)
        } else {
            prev
        }
    }
}

/// What `colname_index` hands back: distinct names, each with all its positions,
/// and every header column among them.
pub open spec fn is_colname_index(index: Seq<(Seq<char>, Seq<usize>)>, header: Seq<Seq<char>>) -> bool {
    &&& forall|k: int| 0 <= k < index.len() ==> (#[trigger] index[k]).1 == positions_of(header, index[k].0)
    &&& forall|k: int| 0 <= k < index.len() ==> (#[trigger] index[k]).1.len() > 0
    &&& forall|k: int, l: int| 0 <= k < l < index.len() ==> (#[trigger] index[k]).0 != (#[trigger] index[l]).0
    &&& forall|i: int| 0 <= i < header.len() ==> exists|k: int| 0 <= k < index.len() && (#[trigger] index[k]).0 == #[trigger] header[i]
}

pub open spec fn index_view(index: Seq<(String, Vec<usize>)>) -> Seq<(Seq<char>, Seq<usize>)> {
    index.map_values(|e: (String, Vec<usize>)| (e.0@, e.1@))
}

proof fn lemma_positions_step(header: Seq<Seq<char>>, i: int, name: Seq<char>)
    requires
        0 <= i < header.len(),
    ensures
        positions_of(header.take(i + 1), name) == if header[i] == name {
            positions_of(header.take(i), name).push((i + 1) as usize)
        } else {
            positions_of(header.take(i), name)
        },
{
    assert(header.take(i + 1).drop_last() =~= header.take(i));
}

proof fn lemma_positions_bounds(header: Seq<Seq<char>>, name: Seq<char>)
    requires
        header.len() <= usize::MAX,
    ensures
        forall|j: int| 0 <= j < positions_of(header, name).len() ==> {
            let p = #[trigger] positions_of(header, name)[j];
            1 <= p <= header.len() && header[p - 1] == name
        },
    decreases header.len(),
{
    if header.len() > 0 {
        let prev = header.drop_last();
        lemma_positions_bounds(prev, name);
        assert forall|j: int| 0 <= j < positions_of(header, name).len() implies {
            let p = #[trigger] positions_of(header, name)[j];
            1 <= p <= header.len() && header[p - 1] == name
        } by {
            let q = positions_of(prev, name);
            if j < q.len() {
                let p = q[j];
                assert(positions_of(header, name)[j] == p);
                assert(prev[p - 1] == header[p - 1]);
            } else {
                assert(header.last() == name);
                assert(positions_of(header, name) == q.push(header.len() as usize));
                assert(positions_of(header, name)[j] == header.len() as usize);
            }
        }
    }
}

/// The entry of `index` named `name`, if any.
fn find_name(index: &Vec<(String, Vec<usize>)>, name: &String) -> (r: Option<usize>)
    ensures
        r matches Some(k) ==> k < index@.len() && index@[k as int].0@ == name@,
        r is None ==> forall|l: int| 0 <= l < index@.len() ==> (#[trigger] index@[l]).0@ != name@,
{
    let mut k: usize = 0;
    while k < index.len()
        invariant
            k <= index@.len(),
            forall|l: int| 0 <= l < k ==> (#[trigger] index@[l]).0@ != name@,
        decreases index@.len() - k,
    {
        if index[k].0 == *name {
            return Some(k);
        }
        k = k + 1;
    }
    None
}

/// Maps each column name of the header to its 1-based positions.
pub fn colname_index(header: &[String]) -> (index: Vec<(String, Vec<usize>)>)
    ensures
        is_colname_index(index_view(index@), string_views(header@)),
{
    let ghost h = string_views(header@);
    let mut index: Vec<(String, Vec<usize>)> = Vec::new();
    let mut i: usize = 0;
    while i < header.len()
        invariant
            i <= header@.len(),
            h == string_views(header@),
            is_colname_index(index_view(index@), h.take(i as int)),
        decreases header@.len() - i,
    {
        let ghost before = index_view(index@);
        proof {
            assert forall|name: Seq<char>| true implies positions_of(h.take(i + 1), name) == if h[i as int] == name {
                positions_of(h.take(i as int), name).push((i + 1) as usize)
            } else {
                positions_of(h.take(i as int), name)
            } by {
                lemma_positions_step(h, i as int, name);
            }
        }
        let found = find_name(&index, &header[i]);
        if let Some(k) = found {
            assert(index_view(index@)[k as int].0 == index@[k as int].0@);
            assert(before[k as int].0 == h[i as int]);
            index[k].1.push(i + 1);
            proof {
                let after = index_view(index@);
                assert(after =~= before.update(k as int, (before[k as int].0, before[k as int].1.push((i + 1) as usize))));
                assert forall|l: int| 0 <= l < after.len() implies (#[trigger] after[l]).1 == positions_of(h.take(i + 1), after[l].0) by {
                    if l != k {
                        assert(before[l].0 != h[i as int]);
                    }
                }
                assert forall|x: int| 0 <= x < i + 1 implies exists|l: int| 0 <= l < after.len() && (#[trigger] after[l]).0 == #[trigger] h.take(i + 1)[x] by {
                    if x < i {
                        assert(h.take(i + 1)[x] == h.take(i as int)[x]);
                        let l = choose|l: int| 0 <= l < before.len() && (#[trigger] before[l]).0 == h.take(i as int)[x];
                        assert(after[l].0 == before[l].0);
                    } else {
                        assert(after[k as int].0 == h.take(i + 1)[x]);
                    }
                }
            }
        } else {
            let mut ps: Vec<usize> = Vec::new();
            ps.push(i + 1);
            index.push((header[i].clone(), ps));
            proof {
                let after = index_view(index@);
                assert(after =~= before.push((h[i as int], seq![(i + 1) as usize])));
                assert(positions_of(h.take(i as int), h[i as int]).len() == 0) by {
                    if positions_of(h.take(i as int), h[i as int]).len() > 0 {
                        lemma_positions_bounds(h.take(i as int), h[i as int]);
                        let p = positions_of(h.take(i as int), h[i as int])[0];
                        let l = choose|l: int| 0 <= l < before.len() && (#[trigger] before[l]).0 == #[trigger] h.take(i as int)[p - 1];
                    }
                }
                assert(positions_of(h.take(i as int), h[i as int]).push((i + 1) as usize) =~= seq![(i + 1) as usize]);
                assert forall|l: int| 0 <= l < after.len() implies (#[trigger] after[l]).1 == positions_of(h.take(i + 1), after[l].0) by {
                    if l < before.len() {
                        assert(before[l].0 != h[i as int]);
                    }
                }
                assert forall|x: int| 0 <= x < i + 1 implies exists|l: int| 0 <= l < after.len() && (#[trigger] after[l]).0 == #[trigger] h.take(i + 1)[x] by {
                    if x < i {
                        assert(h.take(i + 1)[x] == h.take(i as int)[x]);
                        let l = choose|l: int| 0 <= l < before.len() && (#[trigger] before[l]).0 == h.take(i as int)[x];
                        assert(after[l].0 == before[l].0);
                    } else {
                        assert(after[before.len() as int].0 == h.take(i + 1)[x]);
                    }
                }
            }
        }
        i = i + 1;
    }
    assert(h.take(i as int) =~= h);
    index
}


/// The positions that `colname_index` holds for `name`: all of them, or none.
proof fn lemma_index_lookup(index: Seq<(Seq<char>, Seq<usize>)>, header: Seq<Seq<char>>, name: Seq<char>)
    requires
        is_colname_index(index, header),
        header.len() <= usize::MAX,
        forall|l: int| 0 <= l < index.len() ==> (#[trigger] index[l]).0 != name,
    ensures
        positions_of(header, name).len() == 0,
{
    if positions_of(header, name).len() > 0 {
        lemma_positions_bounds(header, name);
        let p = positions_of(header, name)[0];
        let l = choose|l: int| 0 <= l < index.len() && (#[trigger] index[l]).0 == #[trigger] header[p - 1];
    }
}

/// The positions of the columns named `name`, looked up in a column index.
fn lookup(index: &Vec<(String, Vec<usize>)>, header: &[String], name: &String) -> (r: Vec<usize>)
    requires
        is_colname_index(index_view(index@), string_views(header@)),
    ensures
        r@ == positions_of(string_views(header@), name@),
{
    let _columns = header.len();
    match find_name(index, name) {
        Some(k) => {
            assert(index_view(index@)[k as int] == (index@[k as int].0@, index@[k as int].1@));
            index[k].1.clone()
        },
        None => {
            proof {
                assert forall|l: int| 0 <= l < index_view(index@).len() implies (#[trigger] index_view(index@)[l]).0 != name@ by {
                    assert(index_view(index@)[l].0 == index@[l].0@);
                }
                lemma_index_lookup(index_view(index@), string_views(header@), name@);
            }
            Vec::new()
        },
    }
}

/// What one index entry stands for: an open range runs up to the last column (`n`).
pub open spec fn expand_entry(f: i64, open: bool, negative: bool, n: int) -> Seq<int> {
    if open {
        if negative {
            let start = -(f as int);
            Seq::new(if n >= start { (n - start + 1) as nat } else { 0 }, |i: int| -(start + i))
        } else {
            let start = f as int;
            Seq::new(if n >= start { (n - start + 1) as nat } else { 0 }, |i: int| start + i)
        }
    } else {
        seq![f as int]
    }
}

/// Whether entry `i` is an open range: `x2ends` holds this very field under `i`.
pub open spec fn is_open_entry(fields: Seq<i64>, x2ends: Map<usize, i64>, i: int) -> bool {
    x2ends.contains_key(i as usize) && x2ends[i as usize] == fields[i]
}

/// Every index entry expanded, in order.
pub open spec fn expand_all(fields: Seq<i64>, x2ends: Map<usize, i64>, negative: bool, n: int) -> Seq<int>
    decreases fields.len(),
{
    if fields.len() == 0 {
        Seq::<int>::empty()
    } else {
        let i = fields.len() - 1;
        expand_all(fields.drop_last(), x2ends, negative, n) + expand_entry(fields[i], is_open_entry(fields, x2ends, i), negative, n)
    }
}

/// The first entry above `n`, if any.
pub open spec fn first_above(e: Seq<int>, n: int) -> Option<int>
    decreases e.len(),
{
    if e.len() == 0 {
        None
    } else if e[0] > n {
        Some(e[0])
    } else {
        first_above(e.drop_first(), n)
    }
}

/// Positions `1..=m` that no entry excludes (an entry `-p` excludes `p`).
pub open spec fn kept_positions(e: Seq<int>, m: int) -> Seq<usize>
    decreases m,
{
    if m <= 0 {
        Seq::<usize>::empty()
    } else if e.contains(-m) {
        kept_positions(e, m - 1)
    } else {
        kept_positions(e, m - 1).push(m as usize)
    }
}

/// Index mode against a record of `n` columns.
pub open spec fn spec_resolve_index(fields: Seq<i64>, x2ends: Map<usize, i64>, negative: bool, n: int) -> Result<Seq<usize>, Fault> {
    let e = expand_all(fields, x2ends, negative, n);
    match first_above(e, n) {
        Some(f) => Err(Fault::FieldOutOfRange(f as i64, n as i64)),
        None => if negative {
            Ok(kept_positions(e, n))
        } else {
            Ok(e.map_values(|x: int| x as usize))
        },
    }
}

proof fn lemma_first_above_append(a: Seq<int>, b: Seq<int>, n: int)
    ensures
        first_above(a + b, n) == if first_above(a, n) is Some { first_above(a, n) } else { first_above(b, n) },
    decreases a.len(),
{
    if a.len() > 0 {
        assert((a + b).drop_first() =~= a.drop_first() + b);
        lemma_first_above_append(a.drop_first(), b, n);
    } else {
        assert(a + b =~= b);
    }
}

fn resolve_index(fields: &Vec<i64>, x2ends: &HashMap<usize, i64>, negative: bool, columns: usize) -> (r: Result<Vec<usize>, FilterError>)
    ensures
        r matches Err(e) ==> !(e is Read),
        result_view_spec(r) == spec_resolve_index(fields@, x2ends@, negative, columns as int),
{
    let bound: i128 = 0x1_0000_0000_0000_0000;
    let n: i128 = columns as i128;
    let mut expanded: Vec<i128> = Vec::new();
    let mut i: usize = 0;
    while i < fields.len()
        invariant
            i <= fields@.len(),
            n == columns as i128,
            bound == 0x1_0000_0000_0000_0000,
            forall|j: int| 0 <= j < expanded@.len() ==> -bound <= #[trigger] expanded@[j] <= bound,
            expanded@.map_values(|x: i128| x as int) == expand_all(fields@.take(i as int), x2ends@, negative, n as int),
        decreases fields@.len() - i,
    {
        let f = fields[i];
        let open = match x2ends.get(&i) {
            Some(v) => *v == f,
            None => false,
        };
        let ghost before = expanded@.map_values(|x: i128| x as int);
        proof {
            assert(fields@.take(i + 1).drop_last() =~= fields@.take(i as int));
            assert(is_open_entry(fields@.take(i + 1), x2ends@, i as int) == open);
        }
        if open {
            let start: i128 = if negative { -(f as i128) } else { f as i128 };
            let mut k: i128 = start;
            while k <= n
                invariant
                    n == columns as i128,
                    bound == 0x1_0000_0000_0000_0000,
                    -bound <= start <= bound,
                    start <= k,
                    k <= n + 1 || k == start,
                    forall|j: int| 0 <= j < expanded@.len() ==> -bound <= #[trigger] expanded@[j] <= bound,
                    expanded@.map_values(|x: i128| x as int) == before + Seq::new((k - start) as nat, |j: int| if negative { -(start + j) } else { start + j }),
                decreases n + 1 - k,
            {
                let ghost prev = expanded@;
                let x = if negative { -k } else { k };
                expanded.push(x);
                proof {
                    assert(expanded@ == prev.push(x));
                    let s_old = Seq::new((k - start) as nat, |j: int| if negative { -(start + j) } else { start + j });
                    let s_new = Seq::new((k + 1 - start) as nat, |j: int| if negative { -(start + j) } else { start + j });
                    assert(s_new =~= s_old.push(x as int));
                    assert(expanded@.map_values(|x: i128| x as int) =~= prev.map_values(|x: i128| x as int).push(x as int));
                }
                k = k + 1;
            }
            assert(expanded@.map_values(|x: i128| x as int) =~= before + expand_entry(f, true, negative, n as int));
        } else {
            let ghost prev = expanded@;
            expanded.push(f as i128);
            assert(expanded@.map_values(|x: i128| x as int) =~= prev.map_values(|x: i128| x as int).push(f as int));
            assert(expanded@.map_values(|x: i128| x as int) =~= before + expand_entry(f, false, negative, n as int));
        }
        i = i + 1;
    }
    assert(fields@.take(i as int) =~= fields@);
    let ghost ev = expanded@.map_values(|x: i128| x as int);
    assert(ev == expand_all(fields@, x2ends@, negative, columns as int));
    assert(ev.skip(0) =~= ev);
    let mut i: usize = 0;
    while i < expanded.len()
        invariant
            i <= expanded@.len(),
            ev == expanded@.map_values(|x: i128| x as int),
            ev == expand_all(fields@, x2ends@, negative, columns as int),
            n == columns as i128,
            first_above(ev, n as int) == first_above(ev.skip(i as int), n as int),
        decreases expanded@.len() - i,
    {
        proof {
            assert(ev.skip(i as int).drop_first() =~= ev.skip(i + 1));
        }
        if expanded[i] > n {
            assert(ev.skip(i as int)[0] == ev[i as int]);
            return Err(FilterError::FieldOutOfRange { field: expanded[i] as i64, columns: columns as i64 });
        }
        i = i + 1;
    }
    proof {
        assert(ev.skip(i as int).len() == 0);
    }
    if negative {
        let mut drop: std::collections::HashSet<i128> = std::collections::HashSet::new();
        let mut i: usize = 0;
        while i < expanded.len()
            invariant
                i <= expanded@.len(),
                bound == 0x1_0000_0000_0000_0000,
                forall|j: int| 0 <= j < expanded@.len() ==> -bound <= #[trigger] expanded@[j] <= bound,
                forall|x: i128| #[trigger] drop@.contains(x) <==> exists|j: int| 0 <= j < i && expanded@[j] == -x,
            decreases expanded@.len() - i,
        {
            let x = -expanded[i];
            drop.insert(x);
            assert forall|y: i128| #[trigger] drop@.contains(y) <==> exists|j: int| 0 <= j < i + 1 && expanded@[j] == -y by {
                if y == x {
                    assert(expanded@[i as int] == -y);
                }
            }
            i = i + 1;
        }
        let mut out: Vec<usize> = Vec::new();
        let mut q: usize = 0;
        while q < columns
            invariant
                q <= columns,
                ev == expanded@.map_values(|x: i128| x as int),
                forall|x: i128| #[trigger] drop@.contains(x) <==> exists|j: int| 0 <= j < expanded@.len() && expanded@[j] == -x,
                out@ == kept_positions(ev, q as int),
            decreases columns - q,
        {
            let p = q + 1;
            let dropped = drop.contains(&(p as i128));
            proof {
                if dropped {
                    let j = choose|j: int| 0 <= j < expanded@.len() && expanded@[j] == -(p as i128);
                    assert(ev[j] == -(p as int));
                    assert(ev.contains(-(p as int)));
                } else {
                    if ev.contains(-(p as int)) {
                        let j = choose|j: int| 0 <= j < ev.len() && ev[j] == -(p as int);
                        assert(expanded@[j] == -(p as i128));
                    }
                }
            }
            if !dropped {
                out.push(p);
            }
            q = q + 1;
        }
        Ok(out)
    } else {
        let mut out: Vec<usize> = Vec::new();
        let mut i: usize = 0;
        while i < expanded.len()
            invariant
                i <= expanded@.len(),
                ev == expanded@.map_values(|x: i128| x as int),
                out@ == ev.take(i as int).map_values(|x: int| x as usize),
            decreases expanded@.len() - i,
        {
            out.push(expanded[i] as usize);
            i = i + 1;
            assert(out@ =~= ev.take(i as int).map_values(|x: int| x as usize));
        }
        assert(ev.take(i as int) =~= ev);
        Ok(out)
    }
}


/// Name mode, selecting: each name must name exactly one column.
pub open spec fn select_names(names: Seq<Seq<char>>, header: Seq<Seq<char>>) -> Result<Seq<usize>, Fault>
    decreases names.len(),
{
    if names.len() == 0 {
        Ok(Seq::<usize>::empty())
    } else {
        match select_names(names.drop_last(), header) {
            Err(e) => Err(e),
            Ok(acc) => {
                let ps = positions_of(header, names.last());
                if ps.len() > 1 {
                    Err(Fault::DuplicateColumn(names.last()))
                } else if ps.len() == 0 {
                    Err(Fault::MissingColumn(names.last()))
                } else {
                    Ok(acc.push(ps[0]))
                }
            },
        }
    }
}

/// The names without their leading `-`.
pub open spec fn bare_names(names: Seq<Seq<char>>) -> Seq<Seq<char>> {
    names.map_values(|n: Seq<char>| n.drop_first())
}

/// The first of `bares` that names no column.
pub open spec fn first_missing(bares: Seq<Seq<char>>, header: Seq<Seq<char>>) -> Option<Seq<char>>
    decreases bares.len(),
{
    if bares.len() == 0 {
        None
    } else {
        match first_missing(bares.drop_last(), header) {
            Some(b) => Some(b),
            None => if positions_of(header, bares.last()).len() == 0 {
                Some(bares.last())
            } else {
                None
            },
        }
    }
}

/// The 1-based positions among the first `m` columns whose name is not in `bares`.
pub open spec fn columns_not_in(header: Seq<Seq<char>>, bares: Seq<Seq<char>>, m: int) -> Seq<usize>
    decreases m,
{
    if m <= 0 {
        Seq::<usize>::empty()
    } else if bares.contains(header[m - 1]) {
        columns_not_in(header, bares, m - 1)
    } else {
        columns_not_in(header, bares, m - 1).push(m as usize)
    }
}

/// Name mode, excluding: every excluded name must exist; the other columns stay.
pub open spec fn exclude_names(names: Seq<Seq<char>>, header: Seq<Seq<char>>) -> Result<Seq<usize>, Fault> {
    match first_missing(bare_names(names), header) {
        Some(b) => Err(Fault::MissingColumn(b)),
        None => Ok(columns_not_in(header, bare_names(names), header.len() as int)),
    }
}

/// A glob with each `*` turned into `.*?`.
pub open spec fn glob_body(p: Seq<char>) -> Seq<char>
    decreases p.len(),
{
    if p.len() == 0 {
        p
    } else if p.last() == '*' {
        glob_body(p.drop_last()) + seq!['.', '*', '?']
    } else {
        glob_body(p.drop_last()).push(p.last())
    }
}

/// The regex a fuzzy field pattern stands for: `^pattern$` with `*` as `.*?`.
pub open spec fn glob_source(p: Seq<char>) -> Seq<char> {
    seq!['^'] + glob_body(p) + seq!['$']
}

/// For each column of `cols` that `src` matches, in order, every position of that
/// column's name in `header`.
pub open spec fn matched_positions(cols: Seq<Seq<char>>, header: Seq<Seq<char>>, src: Seq<char>) -> Seq<usize>
    decreases cols.len(),
{
    if cols.len() == 0 {
        Seq::<usize>::empty()
    } else if regex_is_match(src, cols.last()) {
        matched_positions(cols.drop_last(), header, src) + positions_of(header, cols.last())
    } else {
        matched_positions(cols.drop_last(), header, src)
    }
}

/// Fuzzy name mode, selecting: each pattern in turn, each header column it matches.
pub open spec fn fuzzy_select(names: Seq<Seq<char>>, header: Seq<Seq<char>>) -> Result<Seq<usize>, Fault>
    decreases names.len(),
{
    if names.len() == 0 {
        Ok(Seq::<usize>::empty())
    } else {
        match fuzzy_select(names.drop_last(), header) {
            Err(e) => Err(e),
            Ok(acc) => if regex_accepts(glob_source(names.last())) {
                Ok(acc + matched_positions(header, header, glob_source(names.last())))
            } else {
                Err(Fault::InvalidFuzzyField(names.last()))
            },
        }
    }
}

/// The first pattern whose regex does not compile.
pub open spec fn first_bad_glob(pats: Seq<Seq<char>>) -> Option<Seq<char>>
    decreases pats.len(),
{
    if pats.len() == 0 {
        None
    } else {
        match first_bad_glob(pats.drop_last()) {
            Some(p) => Some(p),
            None => if regex_accepts(glob_source(pats.last())) {
                None
            } else {
                Some(pats.last())
            },
        }
    }
}

/// Whether some pattern matches `col`.
pub open spec fn some_glob_matches(pats: Seq<Seq<char>>, col: Seq<char>) -> bool {
    exists|i: int| 0 <= i < pats.len() && regex_is_match(glob_source(#[trigger] pats[i]), col)
}

/// For each column of `cols` that no pattern matches, in order, every position of
/// that column's name in `header`.
pub open spec fn unmatched_positions(cols: Seq<Seq<char>>, header: Seq<Seq<char>>, pats: Seq<Seq<char>>) -> Seq<usize>
    decreases cols.len(),
{
    if cols.len() == 0 {
        Seq::<usize>::empty()
    } else if some_glob_matches(pats, cols.last()) {
        unmatched_positions(cols.drop_last(), header, pats)
    } else {
        unmatched_positions(cols.drop_last(), header, pats) + positions_of(header, cols.last())
    }
}

/// Fuzzy name mode, excluding: all patterns compiled first; the columns that none
/// matches stay.
pub open spec fn fuzzy_exclude(names: Seq<Seq<char>>, header: Seq<Seq<char>>) -> Result<Seq<usize>, Fault> {
    match first_bad_glob(bare_names(names)) {
        Some(p) => Err(Fault::InvalidFuzzyField(p)),
        None => Ok(unmatched_positions(header, header, bare_names(names))),
    }
}

/// A field spec resolved to 1-based column positions against the first record.
pub open spec fn spec_resolve(sel: FieldSel, header: Seq<Seq<char>>, fuzzy: bool) -> Result<Seq<usize>, Fault> {
    match sel {
        FieldSel::Index(fields, x2ends, negative) => spec_resolve_index(fields, x2ends, negative, header.len() as int),
        FieldSel::Names(names, negative) => if fuzzy {
            if negative { fuzzy_exclude(names, header) } else { fuzzy_select(names, header) }
        } else {
            if negative { exclude_names(names, header) } else { select_names(names, header) }
        },
    }
}

/// Excluding names carry a one-byte first character (the `-`), which is dropped.
pub open spec fn resolvable(sel: FieldSel) -> bool {
    match sel {
        FieldSel::Names(names, negative) => negative ==> forall|i: int| 0 <= i < names.len() ==> (#[trigger] names[i]).len() > 0 && (names[i][0] as u32) < 128,
        FieldSel::Index(..) => true,
    }
}

fn drop_first_char(name: &String) -> (r: String)
    requires
        name@.len() > 0,
    ensures
        r@ == name@.drop_first(),
{
    let chars = chars_of(name.as_str());
    string_of(chars.as_slice(), 1, chars.len())
}

fn select_columns(names: &Vec<String>, header: &[String]) -> (r: Result<Vec<usize>, FilterError>)
    ensures
        r matches Err(e) ==> !(e is Read),
        result_view_spec(r) == select_names(string_views(names@), string_views(header@)),
{
    let ghost h = string_views(header@);
    let ghost ns = string_views(names@);
    let index = colname_index(header);
    let mut out: Vec<usize> = Vec::new();
    let mut k: usize = 0;
    while k < names.len()
        invariant
            k <= names@.len(),
            h == string_views(header@),
            ns == string_views(names@),
            is_colname_index(index_view(index@), h),
            select_names(ns.take(k as int), h) == Ok::<Seq<usize>, Fault>(out@),
        decreases names@.len() - k,
    {
        proof {
            assert(ns.take(k + 1).drop_last() =~= ns.take(k as int));
            lemma_select_prefix(ns, h, k + 1);
        }
        let cols = lookup(&index, header, &names[k]);
        if cols.len() > 1 {
            return Err(FilterError::DuplicateColumn { name: names[k].clone() });
        }
        if cols.len() == 0 {
            return Err(FilterError::MissingColumn { name: names[k].clone() });
        }
        out.push(cols[0]);
        k = k + 1;
    }
    assert(ns.take(k as int) =~= ns);
    Ok(out)
}

proof fn lemma_select_prefix(ns: Seq<Seq<char>>, h: Seq<Seq<char>>, k: int)
    requires
        0 <= k <= ns.len(),
    ensures
        select_names(ns.take(k), h) is Err ==> select_names(ns, h) == select_names(ns.take(k), h),
    decreases ns.len() - k,
{
    if k < ns.len() {
        lemma_select_prefix(ns, h, k + 1);
        assert(ns.take(k + 1).drop_last() =~= ns.take(k));
    } else {
        assert(ns.take(k) =~= ns);
    }
}

proof fn lemma_missing_prefix(bs: Seq<Seq<char>>, h: Seq<Seq<char>>, k: int)
    requires
        0 <= k <= bs.len(),
    ensures
        first_missing(bs.take(k), h) is Some ==> first_missing(bs, h) == first_missing(bs.take(k), h),
    decreases bs.len() - k,
{
    if k < bs.len() {
        lemma_missing_prefix(bs, h, k + 1);
        assert(bs.take(k + 1).drop_last() =~= bs.take(k));
    } else {
        assert(bs.take(k) =~= bs);
    }
}

fn exclude_columns(names: &Vec<String>, header: &[String]) -> (r: Result<Vec<usize>, FilterError>)
    requires
        forall|i: int| 0 <= i < names@.len() ==> (#[trigger] names@[i])@.len() > 0,
    ensures
        r matches Err(e) ==> !(e is Read),
        result_view_spec(r) == exclude_names(string_views(names@), string_views(header@)),
{
    let ghost h = string_views(header@);
    let ghost bs = bare_names(string_views(names@));
    let index = colname_index(header);
    let mut bares: Vec<String> = Vec::new();
    let mut k: usize = 0;
    while k < names.len()
        invariant
            k <= names@.len(),
            h == string_views(header@),
            bs == bare_names(string_views(names@)),
            forall|i: int| 0 <= i < names@.len() ==> (#[trigger] names@[i])@.len() > 0,
            is_colname_index(index_view(index@), h),
            first_missing(bs.take(k as int), h) is None,
            string_views(bares@) == bs.take(k as int),
        decreases names@.len() - k,
    {
        proof {
            assert(bs.take(k + 1).drop_last() =~= bs.take(k as int));
            lemma_missing_prefix(bs, h, k + 1);
        }
        let bare = drop_first_char(&names[k]);
        assert(bare@ == bs[k as int]);
        let cols = lookup(&index, header, &bare);
        if cols.len() == 0 {
            return Err(FilterError::MissingColumn { name: bare });
        }
        let ghost before = bares@;
        bares.push(bare);
        assert(string_views(bares@) =~= string_views(before).push(bs[k as int]));
        k = k + 1;
        assert(string_views(bares@) =~= bs.take(k as int));
    }
    assert(bs.take(k as int) =~= bs);
    let mut out: Vec<usize> = Vec::new();
    let mut i: usize = 0;
    while i < header.len()
        invariant
            i <= header@.len(),
            h == string_views(header@),
            string_views(bares@) == bs,
            out@ == columns_not_in(h, bs, i as int),
        decreases header@.len() - i,
    {
        let mut excluded = false;
        let mut b: usize = 0;
        while b < bares.len()
            invariant
                b <= bares@.len(),
                i < header@.len(),
                h == string_views(header@),
                string_views(bares@) == bs,
                excluded <==> exists|x: int| 0 <= x < b && bs[x] == h[i as int],
            decreases bares@.len() - b,
        {
            assert(bs[b as int] == bares@[b as int]@);
            assert(h[i as int] == header@[i as int]@);
            if bares[b] == header[i] {
                excluded = true;
            }
            b = b + 1;
        }
        proof {
            if excluded {
                let x = choose|x: int| 0 <= x < b && bs[x] == h[i as int];
                assert(bs.contains(h[i as int]));
            } else {
                assert(!bs.contains(h[i as int]));
            }
        }
        if !excluded {
            out.push(i + 1);
        }
        i = i + 1;
    }
    Ok(out)
}

/// The regex source of a fuzzy field pattern.
fn glob_regex_source(pattern: &String) -> (r: String)
    ensures
        r@ == glob_source(pattern@),
{
    let p = chars_of(pattern.as_str());
    let mut v: Vec<char> = Vec::new();
    v.push('^');
    let mut i: usize = 0;
    while i < p.len()
        invariant
            i <= p@.len(),
            v@ == seq!['^'] + glob_body(p@.take(i as int)),
        decreases p@.len() - i,
    {
        assert(p@.take(i + 1).drop_last() =~= p@.take(i as int));
        if p[i] == '*' {
            v.push('.');
            v.push('*');
            v.push('?');
        } else {
            v.push(p[i]);
        }
        i = i + 1;
        assert(v@ =~= seq!['^'] + glob_body(p@.take(i as int)));
    }
    v.push('$');
    assert(p@.take(i as int) =~= p@);
    assert(v@ =~= glob_source(pattern@));
    string_from_chars(v.as_slice())
}

proof fn lemma_fuzzy_prefix(ns: Seq<Seq<char>>, h: Seq<Seq<char>>, k: int)
    requires
        0 <= k <= ns.len(),
    ensures
        fuzzy_select(ns.take(k), h) is Err ==> fuzzy_select(ns, h) == fuzzy_select(ns.take(k), h),
    decreases ns.len() - k,
{
    if k < ns.len() {
        lemma_fuzzy_prefix(ns, h, k + 1);
        assert(ns.take(k + 1).drop_last() =~= ns.take(k));
    } else {
        assert(ns.take(k) =~= ns);
    }
}

proof fn lemma_bad_glob_prefix(ps: Seq<Seq<char>>, k: int)
    requires
        0 <= k <= ps.len(),
    ensures
        first_bad_glob(ps.take(k)) is Some ==> first_bad_glob(ps) == first_bad_glob(ps.take(k)),
    decreases ps.len() - k,
{
    if k < ps.len() {
        lemma_bad_glob_prefix(ps, k + 1);
        assert(ps.take(k + 1).drop_last() =~= ps.take(k));
    } else {
        assert(ps.take(k) =~= ps);
    }
}

fn fuzzy_select_columns(names: &Vec<String>, header: &[String]) -> (r: Result<Vec<usize>, FilterError>)
    ensures
        r matches Err(e) ==> !(e is Read),
        result_view_spec(r) == fuzzy_select(string_views(names@), string_views(header@)),
{
    let ghost h = string_views(header@);
    let ghost ns = string_views(names@);
    let index = colname_index(header);
    let mut out: Vec<usize> = Vec::new();
    let mut k: usize = 0;
    while k < names.len()
        invariant
            k <= names@.len(),
            h == string_views(header@),
            ns == string_views(names@),
            is_colname_index(index_view(index@), h),
            fuzzy_select(ns.take(k as int), h) == Ok::<Seq<usize>, Fault>(out@),
        decreases names@.len() - k,
    {
        proof {
            assert(ns.take(k + 1).drop_last() =~= ns.take(k as int));
            lemma_fuzzy_prefix(ns, h, k + 1);
        }
        let re = match CompiledRegex::new(glob_regex_source(&names[k])) {
            Ok(re) => re,
            Err(e) => {
                return Err(FilterError::InvalidFuzzyField { pattern: names[k].clone(), regex_error: e });
            },
        };
        let ghost acc = out@;
        let mut c: usize = 0;
        while c < header.len()
            invariant
                c <= header@.len(),
                h == string_views(header@),
                is_colname_index(index_view(index@), h),
                re.source() == glob_source(ns[k as int]),
                out@ == acc + matched_positions(h.take(c as int), h, re.source()),
            decreases header@.len() - c,
        {
            assert(h.take(c + 1).drop_last() =~= h.take(c as int));
            if re.is_match(header[c].as_str()) {
                let cols = lookup(&index, header, &header[c]);
                let mut x: usize = 0;
                let ghost mid = out@;
                while x < cols.len()
                    invariant
                        x <= cols@.len(),
                        out@ == mid + cols@.take(x as int),
                    decreases cols@.len() - x,
                {
                    out.push(cols[x]);
                    x = x + 1;
                    assert(out@ =~= mid + cols@.take(x as int));
                }
                assert(cols@.take(x as int) =~= cols@);
                assert(out@ =~= acc + matched_positions(h.take(c + 1), h, re.source()));
            }
            c = c + 1;
        }
        assert(h.take(c as int) =~= h);
        k = k + 1;
    }
    assert(ns.take(k as int) =~= ns);
    Ok(out)
}

fn fuzzy_exclude_columns(names: &Vec<String>, header: &[String]) -> (r: Result<Vec<usize>, FilterError>)
    requires
        forall|i: int| 0 <= i < names@.len() ==> (#[trigger] names@[i])@.len() > 0,
    ensures
        r matches Err(e) ==> !(e is Read),
        result_view_spec(r) == fuzzy_exclude(string_views(names@), string_views(header@)),
{
    let ghost h = string_views(header@);
    let ghost ps = bare_names(string_views(names@));
    let index = colname_index(header);
    let mut res: Vec<CompiledRegex> = Vec::new();
    let mut k: usize = 0;
    while k < names.len()
        invariant
            k <= names@.len(),
            ps == bare_names(string_views(names@)),
            forall|i: int| 0 <= i < names@.len() ==> (#[trigger] names@[i])@.len() > 0,
            first_bad_glob(ps.take(k as int)) is None,
            res@.len() == k,
            forall|i: int| 0 <= i < k ==> (#[trigger] res@[i]).source() == glob_source(ps[i]),
        decreases names@.len() - k,
    {
        proof {
            assert(ps.take(k + 1).drop_last() =~= ps.take(k as int));
            lemma_bad_glob_prefix(ps, k + 1);
        }
        let bare = drop_first_char(&names[k]);
        assert(bare@ == ps[k as int]);
        match CompiledRegex::new(glob_regex_source(&bare)) {
            Ok(re) => res.push(re),
            Err(e) => {
                return Err(FilterError::InvalidFuzzyField { pattern: bare, regex_error: e });
            },
        }
        k = k + 1;
    }
    assert(ps.take(k as int) =~= ps);
    let mut out: Vec<usize> = Vec::new();
    let mut c: usize = 0;
    while c < header.len()
        invariant
            c <= header@.len(),
            h == string_views(header@),
            is_colname_index(index_view(index@), h),
            res@.len() == ps.len(),
            forall|i: int| 0 <= i < ps.len() ==> (#[trigger] res@[i]).source() == glob_source(ps[i]),
            out@ == unmatched_positions(h.take(c as int), h, ps),
        decreases header@.len() - c,
    {
        assert(h.take(c + 1).drop_last() =~= h.take(c as int));
        let mut hit = false;
        let mut x: usize = 0;
        while x < res.len()
            invariant
                x <= res@.len(),
                c < header@.len(),
                h == string_views(header@),
                res@.len() == ps.len(),
                forall|i: int| 0 <= i < ps.len() ==> (#[trigger] res@[i]).source() == glob_source(ps[i]),
                hit <==> exists|i: int| 0 <= i < x && regex_is_match(glob_source(#[trigger] ps[i]), h[c as int]),
            decreases res@.len() - x,
        {
            assert(h[c as int] == header@[c as int]@);
            if res[x].is_match(header[c].as_str()) {
                hit = true;
            }
            x = x + 1;
        }
        assert(hit == some_glob_matches(ps, h[c as int]));
        if !hit {
            let cols = lookup(&index, header, &header[c]);
            let mut y: usize = 0;
            let ghost mid = out@;
            while y < cols.len()
                invariant
                    y <= cols@.len(),
                    out@ == mid + cols@.take(y as int),
                decreases cols@.len() - y,
            {
                out.push(cols[y]);
                y = y + 1;
                assert(out@ =~= mid + cols@.take(y as int));
            }
            assert(cols@.take(y as int) =~= cols@);
        }
        c = c + 1;
    }
    assert(h.take(c as int) =~= h);
    Ok(out)
}

/// Resolves a field spec to 1-based column positions against the first record.
/// Index specs may run past it only in error; fuzzy (`-F`) turns every column name
/// into `^…$` with `*` → `.*?`; index specs ignore `fuzzy`.
pub fn resolve(spec: &FieldSpec, first: &[String], fuzzy: bool) -> (r: Result<Vec<usize>, FilterError>)
    requires
        resolvable(spec@),
    ensures
        r matches Err(e) ==> !(e is Read),
        result_view_spec(r) == spec_resolve(spec@, string_views(first@), fuzzy),
{
    match spec {
        FieldSpec::Index { fields, x2ends, negative } => {
            assert(string_views(first@).len() == first@.len());
            resolve_index(fields, x2ends, *negative, first.len())
        },
        FieldSpec::Names { names, negative } => {
            proof {
                if *negative {
                    assert forall|i: int| 0 <= i < names@.len() implies (#[trigger] names@[i])@.len() > 0 by {
                        assert(string_views(names@)[i] == names@[i]@);
                    }
                }
            }
            if fuzzy {
                if *negative {
                    fuzzy_exclude_columns(names, first)
                } else {
                    fuzzy_select_columns(names, first)
                }
            } else {
                if *negative {
                    exclude_columns(names, first)
                } else {
                    select_columns(names, first)
                }
            }
        },
    }
}

} // verus!
