//! What the library takes from the `regex` and `csv` crates and from std's
//! `String` collection, each behind a contract that Verus believes.
use vstd::prelude::*;

verus! {

#[verifier::external_type_specification]
#[verifier::external_body]
pub struct ExRegex(regex::Regex);

#[verifier::external_type_specification]
#[verifier::external_body]
pub struct ExRegexError(regex::Error);

#[verifier::external_type_specification]
#[verifier::external_body]
pub struct ExCsvError(csv::Error);

/// Whether `regex::Regex::new` accepts `source` as a pattern.
pub uninterp spec fn regex_accepts(source: Seq<char>) -> bool;

/// Whether the regex compiled from `source` matches somewhere in `text`
/// (`regex::Regex::is_match`).
pub uninterp spec fn regex_is_match(source: Seq<char>, text: Seq<char>) -> bool;

/// The records that a `csv::Reader` built with `delimiter`, `comment`, `flexible`,
/// a line feed as the only record terminator and no header row yields from `data`,
/// up to its first error, and whether it stopped on an error.
pub uninterp spec fn csv_parse(data: Seq<u8>, delimiter: u8, comment: Option<u8>, flexible: bool) -> (
    Seq<Seq<Seq<char>>>,
    bool,
);

/// A compiled regex together with the pattern it was compiled from.
pub struct CompiledRegex {
    source: String,
    regex: regex::Regex,
}

impl CompiledRegex {
    /// The pattern this regex was compiled from.
    pub closed spec fn source(self) -> Seq<char> {
        self.source@
    }

    /// Compiles `source` with `regex::Regex::new`. Claims: it succeeds exactly when
    /// the crate accepts the pattern, and the result remembers the pattern.
    #[verifier::external_body]
    pub(crate) fn new(source: String) -> (r: Result<CompiledRegex, regex::Error>)
        ensures
            r is Ok <==> regex_accepts(source@),
            r matches Ok(re) ==> re.source() == source@,
    {
        match regex::Regex::new(&source) {
            Ok(regex) => Ok(CompiledRegex { source, regex }),
            Err(e) => Err(e),
        }
    }

    /// `regex::Regex::is_match` on `text`. Claims: the answer is the named result
    /// for this regex's pattern and `text`.
    #[verifier::external_body]
    pub(crate) fn is_match(&self, text: &str) -> (b: bool)
        ensures
            b == regex_is_match(self.source(), text@),
    {
        self.regex.is_match(text)
    }
}

/// The records of a table as plain character sequences.
pub open spec fn records_view(records: Seq<Vec<String>>) -> Seq<Seq<Seq<char>>> {
    records.map_values(|r: Vec<String>| r@.map_values(|f: String| f@))
}

/// Reads every record of `data` with a `csv::Reader` (no header row, records ended
/// by line feeds alone, the given delimiter, comment byte and flexibility) and stops
/// at the first error, which it hands back. Claims: the records and whether an
/// error came are the named result.
#[verifier::external_body]
pub(crate) fn csv_read(data: &[u8], delimiter: u8, comment: Option<u8>, flexible: bool) -> (r: (
    Vec<Vec<String>>,
    Option<csv::Error>,
))
    ensures
        (records_view(r.0@), r.1 is Some) == csv_parse(data@, delimiter, comment, flexible),
{
    let mut reader = csv::ReaderBuilder::new().delimiter(delimiter).comment(comment).flexible(
        flexible,
    ).terminator(csv::Terminator::Any(10)).has_headers(false).from_reader(data);
    let mut records: Vec<Vec<String>> = Vec::new();
    for record in reader.records() {
        match record {
            Ok(rec) => records.push(rec.iter().map(String::from).collect()),
            Err(e) => return (records, Some(e)),
        }
    }
    (records, None)
}

/// Collects characters into a `String` (std's `FromIterator<&char> for String`).
/// Claims: the string holds exactly these characters.
#[verifier::external_body]
pub(crate) fn string_from_chars(chars: &[char]) -> (s: String)
    ensures
        s@ == chars@,
{
    chars.iter().collect()
}

} // verus!
