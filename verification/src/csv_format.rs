//! The CSV dialect of Go's `encoding/csv`: line-end normalisation, strict quote
//! validation, and the writer's quoting.
use vstd::prelude::*;
use crate::error::{FilterError, Fault};
use crate::text::chars_of;
use vstd::utf8::encode_utf8;
use vstd::string::StringSliceAdditionalSpecFns;

verus! {

/// `data` with every CR LF turned into LF, and a CR that ends the data dropped.
pub open spec fn crlf_normalized(d: Seq<u8>) -> Seq<u8>
    decreases d.len(),
{
    if d.len() == 0 {
        d
    } else if d[0] == 13 && d.len() >= 2 && d[1] == 10 {
        seq![10u8] + crlf_normalized(d.skip(2))
    } else if d[0] == 13 && d.len() == 1 {
        Seq::<u8>::empty()
    } else {
        seq![d[0]] + crlf_normalized(d.skip(1))
    }
}

/// Turns every CR LF into LF and drops a CR that ends the data, as Go's CSV
/// reader sees its input.
pub fn normalize_crlf(data: Vec<u8>) -> (out: Vec<u8>)
    ensures
        out@ == crlf_normalized(data@),
{
    let mut out: Vec<u8> = Vec::new();
    let n = data.len();
    let mut i: usize = 0;
    assert(data@.skip(0) =~= data@);
    assert(out@ + crlf_normalized(data@) =~= crlf_normalized(data@));
    while i < n
        invariant
            i <= n == data@.len(),
            out@ + crlf_normalized(data@.skip(i as int)) == crlf_normalized(data@),
        decreases n - i,
    {
        let ghost rest = data@.skip(i as int);
        if data[i] == 13 && i + 1 < n && data[i + 1] == 10 {
            assert(rest.skip(2) =~= data@.skip(i + 2));
            assert(rest[0] == 13 && rest[1] == 10);
            out.push(10);
            i = i + 2;
            assert(out@ + crlf_normalized(data@.skip(i as int)) =~= crlf_normalized(data@));
        } else if data[i] == 13 && i + 1 == n {
            assert(rest.len() == 1 && rest[0] == 13);
            i = i + 1;
            assert(data@.skip(i as int).len() == 0);
            assert(out@ + crlf_normalized(data@.skip(i as int)) =~= crlf_normalized(data@));
        } else {
            assert(rest.skip(1) =~= data@.skip(i + 1));
            assert(rest[0] == data@[i as int]);
            out.push(data[i]);
            i = i + 1;
            assert(out@ + crlf_normalized(data@.skip(i as int)) =~= crlf_normalized(data@));
        }
    }
    assert(data@.skip(i as int).len() == 0);
    assert(out@ =~= crlf_normalized(data@));
    out
}

/// Where a strict reader stands between two bytes.
#[derive(PartialEq, Eq, Structural, Clone, Copy)]
pub enum ScanState {
    LineStart,
    FieldStart,
    Unquoted,
    Quoted,
    QuoteInQuoted,
    Comment,
}

/// One byte of strict reading; `i` is its offset.
pub open spec fn strict_step(st: ScanState, c: u8, delim: u8, comment: Option<u8>, i: usize) -> Result<ScanState, Fault> {
    match st {
        ScanState::LineStart | ScanState::FieldStart => if st == ScanState::LineStart && comment == Some(c) {
            Ok(ScanState::Comment)
        } else if c == 34 {
            Ok(ScanState::Quoted)
        } else if c == delim {
            Ok(ScanState::FieldStart)
        } else if c == 10 {
            Ok(ScanState::LineStart)
        } else {
            Ok(ScanState::Unquoted)
        },
        ScanState::Unquoted => if c == 34 {
            Err(Fault::BareQuote(i))
        } else if c == delim {
            Ok(ScanState::FieldStart)
        } else if c == 10 {
            Ok(ScanState::LineStart)
        } else {
            Ok(ScanState::Unquoted)
        },
        ScanState::Quoted => if c == 34 {
            Ok(ScanState::QuoteInQuoted)
        } else {
            Ok(ScanState::Quoted)
        },
        ScanState::QuoteInQuoted => if c == 34 {
            Ok(ScanState::Quoted)
        } else if c == delim {
            Ok(ScanState::FieldStart)
        } else if c == 10 {
            Ok(ScanState::LineStart)
        } else {
            Err(Fault::MisplacedQuote(i))
        },
        ScanState::Comment => if c == 10 {
            Ok(ScanState::LineStart)
        } else {
            Ok(ScanState::Comment)
        },
    }
}

/// Strict reading of the bytes of `d`, from the start of a line.
pub open spec fn strict_scan(d: Seq<u8>, delim: u8, comment: Option<u8>) -> Result<ScanState, Fault>
    decreases d.len(),
{
    if d.len() == 0 {
        Ok(ScanState::LineStart)
    } else {
        match strict_scan(d.drop_last(), delim, comment) {
            Err(e) => Err(e),
            Ok(st) => strict_step(st, d.last(), delim, comment, (d.len() - 1) as usize),
        }
    }
}

/// Go's strict quote rules (no lazy quotes): a quote may open a field and, inside a
/// quoted field, be doubled or close it before a delimiter or line end; comment
/// lines are skipped; a quoted field must be closed.
pub open spec fn spec_check_strict(d: Seq<u8>, delim: u8, comment: Option<u8>) -> Result<(), Fault> {
    match strict_scan(d, delim, comment) {
        Err(e) => Err(e),
        Ok(ScanState::Quoted) => Err(Fault::UnclosedQuote),
        Ok(_) => Ok(()),
    }
}

proof fn lemma_strict_prefix(d: Seq<u8>, delim: u8, comment: Option<u8>, k: int)
    requires
        0 <= k <= d.len(),
    ensures
        strict_scan(d.take(k), delim, comment) is Err ==> strict_scan(d, delim, comment) == strict_scan(d.take(k), delim, comment),
    decreases d.len() - k,
{
    if k < d.len() {
        lemma_strict_prefix(d, delim, comment, k + 1);
        assert(d.take(k + 1).drop_last() =~= d.take(k));
    } else {
        assert(d.take(k) =~= d);
    }
}

/// Validates quoting the way Go's CSV reader does without lazy quotes.
pub fn check_strict(data: &[u8], delim: u8, comment: Option<u8>) -> (r: Result<(), FilterError>)
    ensures
        match r {
            Ok(()) => spec_check_strict(data@, delim, comment) == Ok::<(), Fault>(()),
            Err(e) => spec_check_strict(data@, delim, comment) == Err::<(), Fault>(e@),
        },
{
    let mut st = ScanState::LineStart;
    let mut i: usize = 0;
    while i < data.len()
        invariant
            i <= data@.len(),
            strict_scan(data@.take(i as int), delim, comment) == Ok::<ScanState, Fault>(st),
        decreases data@.len() - i,
    {
        proof {
            assert(data@.take(i + 1).drop_last() =~= data@.take(i as int));
            lemma_strict_prefix(data@, delim, comment, i + 1);
        }
        let c = data[i];
        st = match st {
            ScanState::LineStart | ScanState::FieldStart => {
                if st == ScanState::LineStart && comment == Some(c) {
                    ScanState::Comment
                } else if c == 34 {
                    ScanState::Quoted
                } else if c == delim {
                    ScanState::FieldStart
                } else if c == 10 {
                    ScanState::LineStart
                } else {
                    ScanState::Unquoted
                }
            },
            ScanState::Unquoted => {
                if c == 34 {
                    return Err(FilterError::BareQuote { offset: i });
                } else if c == delim {
                    ScanState::FieldStart
                } else if c == 10 {
                    ScanState::LineStart
                } else {
                    ScanState::Unquoted
                }
            },
            ScanState::Quoted => {
                if c == 34 {
                    ScanState::QuoteInQuoted
                } else {
                    ScanState::Quoted
                }
            },
            ScanState::QuoteInQuoted => {
                if c == 34 {
                    ScanState::Quoted
                } else if c == delim {
                    ScanState::FieldStart
                } else if c == 10 {
                    ScanState::LineStart
                } else {
                    return Err(FilterError::MisplacedQuote { offset: i });
                }
            },
            ScanState::Comment => {
                if c == 10 {
                    ScanState::LineStart
                } else {
                    ScanState::Comment
                }
            },
        };
        i = i + 1;
    }
    assert(data@.take(i as int) =~= data@);
    if st == ScanState::Quoted {
        return Err(FilterError::UnclosedQuote);
    }
    Ok(())
}

/// Go's `unicode.IsSpace`.
pub open spec fn is_go_space(c: char) -> bool {
    ||| c == '\t' || c == '\n' || c == '\u{0B}' || c == '\u{0C}' || c == '\r' || c == ' '
    ||| c == '\u{85}' || c == '\u{A0}' || c == '\u{1680}'
    ||| ('\u{2000}' <= c && c <= '\u{200A}')
    ||| c == '\u{2028}' || c == '\u{2029}' || c == '\u{202F}' || c == '\u{205F}' || c == '\u{3000}'
}

/// Whether Go's CSV writer quotes this field: not when empty; always for `\.`;
/// when its bytes hold a line feed, carriage return, quote or the delimiter; or when
/// it starts with a space character.
pub open spec fn needs_quotes(f: Seq<char>, delim: u8) -> bool {
    let b = encode_utf8(f);
    if f.len() == 0 {
        false
    } else if f == seq!['\\', '.'] {
        true
    } else if exists|i: int| 0 <= i < b.len() && (#[trigger] b[i] == 10 || b[i] == 13 || b[i] == 34 || b[i] == delim) {
        true
    } else {
        is_go_space(f[0])
    }
}

/// Bytes with every quote doubled.
pub open spec fn escape_quotes(b: Seq<u8>) -> Seq<u8>
    decreases b.len(),
{
    if b.len() == 0 {
        b
    } else if b.last() == 34 {
        escape_quotes(b.drop_last()) + seq![34u8, 34u8]
    } else {
        escape_quotes(b.drop_last()).push(b.last())
    }
}

/// One field as the writer spells it.
pub open spec fn encode_field(f: Seq<char>, delim: u8) -> Seq<u8> {
    if needs_quotes(f, delim) {
        seq![34u8] + escape_quotes(encode_utf8(f)) + seq![34u8]
    } else {
        encode_utf8(f)
    }
}

/// Fields joined by the delimiter.
pub open spec fn join_fields(fields: Seq<Seq<char>>, delim: u8) -> Seq<u8>
    decreases fields.len(),
{
    if fields.len() == 0 {
        Seq::<u8>::empty()
    } else if fields.len() == 1 {
        encode_field(fields[0], delim)
    } else {
        join_fields(fields.drop_last(), delim) + seq![delim] + encode_field(fields.last(), delim)
    }
}

/// One record as the writer spells it: the fields, then a line feed.
pub open spec fn encode_record(fields: Seq<Seq<char>>, delim: u8) -> Seq<u8> {
    join_fields(fields, delim).push(10)
}

fn is_go_space_exec(c: char) -> (b: bool)
    ensures
        b == is_go_space(c),
{
    c == '\t' || c == '\n' || c == '\u{0B}' || c == '\u{0C}' || c == '\r' || c == ' ' || c == '\u{85}'
        || c == '\u{A0}' || c == '\u{1680}' || ('\u{2000}' <= c && c <= '\u{200A}') || c == '\u{2028}'
        || c == '\u{2029}' || c == '\u{202F}' || c == '\u{205F}' || c == '\u{3000}'
}

fn needs_quotes_exec(f: &str, delim: u8) -> (q: bool)
    ensures
        q == needs_quotes(f@, delim),
{
    let chars = chars_of(f);
    if chars.len() == 0 {
        return false;
    }
    if chars.len() == 2 && chars[0] == '\\' && chars[1] == '.' {
        assert(chars@ =~= seq!['\\', '.']);
        return true;
    }
    assert(chars@ != seq!['\\', '.'] ==> true);
    if chars.len() == 2 {
        assert(chars@[0] != '\\' || chars@[1] != '.');
        assert(chars@ != seq!['\\', '.']) by {
            if chars@ == seq!['\\', '.'] {
                assert(chars@[0] == '\\' && chars@[1] == '.');
            }
        }
    }
    let b = f.as_bytes();
    let mut i: usize = 0;
    while i < b.len()
        invariant
            i <= b@.len(),
            b@ == encode_utf8(f@),
            forall|x: int| 0 <= x < i ==> !(#[trigger] b@[x] == 10 || b@[x] == 13 || b@[x] == 34 || b@[x] == delim),
        decreases b@.len() - i,
    {
        let c = b[i];
        if c == 10 || c == 13 || c == 34 || c == delim {
            return true;
        }
        i = i + 1;
    }
    is_go_space_exec(chars[0])
}

/// Appends one field as Go's CSV writer spells it.
fn write_field(out: &mut Vec<u8>, f: &str, delim: u8)
    ensures
        final(out)@ == old(out)@ + encode_field(f@, delim),
{
    let b = f.as_bytes();
    if !needs_quotes_exec(f, delim) {
        let mut i: usize = 0;
        while i < b.len()
            invariant
                i <= b@.len(),
                out@ == old(out)@ + b@.take(i as int),
            decreases b@.len() - i,
        {
            out.push(b[i]);
            i = i + 1;
            assert(out@ =~= old(out)@ + b@.take(i as int));
        }
        assert(b@.take(i as int) =~= b@);
    } else {
        out.push(34);
        let ghost start = out@;
        let mut i: usize = 0;
        while i < b.len()
            invariant
                i <= b@.len(),
                out@ == start + escape_quotes(b@.take(i as int)),
            decreases b@.len() - i,
        {
            assert(b@.take(i + 1).drop_last() =~= b@.take(i as int));
            if b[i] == 34 {
                out.push(34);
                out.push(34);
            } else {
                out.push(b[i]);
            }
            i = i + 1;
            assert(out@ =~= start + escape_quotes(b@.take(i as int)));
        }
        assert(b@.take(i as int) =~= b@);
        out.push(34);
        assert(out@ =~= old(out)@ + encode_field(f@, delim));
    }
}

/// Appends one record as Go's CSV writer spells it.
pub fn write_record(out: &mut Vec<u8>, fields: &[&str], delim: u8)
    ensures
        final(out)@ == old(out)@ + encode_record(fields@.map_values(|f: &str| f@), delim),
{
    let ghost fs = fields@.map_values(|f: &str| f@);
    let mut i: usize = 0;
    while i < fields.len()
        invariant
            i <= fields@.len(),
            fs == fields@.map_values(|f: &str| f@),
            out@ == old(out)@ + join_fields(fs.take(i as int), delim),
        decreases fields@.len() - i,
    {
        assert(fs.take(i + 1).drop_last() =~= fs.take(i as int));
        assert(fs.take(i + 1).last() == fields@[i as int]@);
        if i > 0 {
            out.push(delim);
        } else {
            assert(fs.take(0).len() == 0);
        }
        write_field(out, fields[i], delim);
        i = i + 1;
        assert(out@ =~= old(out)@ + join_fields(fs.take(i as int), delim));
    }
    assert(fs.take(i as int) =~= fs);
    out.push(10);
}

} // verus!
