//! Why a filter run fails.
use vstd::prelude::*;

verus! {

/// Every way a filter run can fail.
#[derive(Debug)]
pub enum FilterError {
    /// `-f` was empty.
    MissingFilter,
    /// The condition is not `<fields><op><value>`.
    InvalidFilter { filter: String },
    /// The operator part is not one of `>`, `<`, `=`, `>=`, `<=`, `!=`, `<>`.
    InvalidExpression { op: String },
    /// A number (threshold or comma-stripped field value) that is not a decimal literal.
    InvalidNumber { text: String },
    /// A number whose value overflows to infinity.
    NumberOutOfRange { text: String },
    /// The field list starts with an empty entry.
    EmptyFirstField { fields: String },
    /// A bound of a field range is not an integer.
    BadRangeBound { text: String },
    /// A field range with a zero bound.
    ZeroInRange { range: String },
    /// A positive field range whose start is not below its end.
    RangeNotIncreasing { range: String, start: i64, end: i64 },
    /// A field range with one positive and one negative bound.
    RangeSignsDiffer { range: String, start: i64, end: i64 },
    /// A field entry that is not an integer.
    BadFieldNumber { text: String },
    /// A field index of zero.
    ZeroField,
    /// Field indices of both signs.
    MixedIndexSigns,
    /// An empty column name, at this 1-based position.
    EmptyName { position: usize },
    /// Column names both with and without the exclusion `-`.
    MixedNameSigns,
    /// A field index beyond the number of columns.
    FieldOutOfRange { field: i64, columns: i64 },
    /// A column name that the header does not hold.
    MissingColumn { name: String },
    /// A column name that the header holds more than once.
    DuplicateColumn { name: String },
    /// A fuzzy field pattern that does not compile.
    InvalidFuzzyField { pattern: String, regex_error: regex::Error },
    /// A quote inside an unquoted field, at this byte offset.
    BareQuote { offset: usize },
    /// A quote in a quoted field followed by something other than a quote, a
    /// delimiter or a line end, at this byte offset.
    MisplacedQuote { offset: usize },
    /// A quoted field that the input never closes.
    UnclosedQuote,
    /// The CSV reader failed.
    Read { csv_error: csv::Error },
    /// A delimiter or comment flag whose value is not exactly one byte.
    BadFlagValue { flag: String },
}

/// A `FilterError` with its strings as character sequences.
pub enum Fault {
    MissingFilter,
    InvalidFilter(Seq<char>),
    InvalidExpression(Seq<char>),
    InvalidNumber(Seq<char>),
    NumberOutOfRange(Seq<char>),
    EmptyFirstField(Seq<char>),
    BadRangeBound(Seq<char>),
    ZeroInRange(Seq<char>),
    RangeNotIncreasing(Seq<char>, i64, i64),
    RangeSignsDiffer(Seq<char>, i64, i64),
    BadFieldNumber(Seq<char>),
    ZeroField,
    MixedIndexSigns,
    EmptyName(usize),
    MixedNameSigns,
    FieldOutOfRange(i64, i64),
    MissingColumn(Seq<char>),
    DuplicateColumn(Seq<char>),
    InvalidFuzzyField(Seq<char>),
    BareQuote(usize),
    MisplacedQuote(usize),
    UnclosedQuote,
    Read,
    BadFlagValue(Seq<char>),
}

impl View for FilterError {
    type V = Fault;

    open spec fn view(&self) -> Fault {
        match self {
            FilterError::MissingFilter => Fault::MissingFilter,
            FilterError::InvalidFilter { filter } => Fault::InvalidFilter(filter@),
            FilterError::InvalidExpression { op } => Fault::InvalidExpression(op@),
            FilterError::InvalidNumber { text } => Fault::InvalidNumber(text@),
            FilterError::NumberOutOfRange { text } => Fault::NumberOutOfRange(text@),
            FilterError::EmptyFirstField { fields } => Fault::EmptyFirstField(fields@),
            FilterError::BadRangeBound { text } => Fault::BadRangeBound(text@),
            FilterError::ZeroInRange { range } => Fault::ZeroInRange(range@),
            FilterError::RangeNotIncreasing { range, start, end } => Fault::RangeNotIncreasing(
                range@,
                *start,
                *end,
            ),
            FilterError::RangeSignsDiffer { range, start, end } => Fault::RangeSignsDiffer(
                range@,
                *start,
                *end,
            ),
            FilterError::BadFieldNumber { text } => Fault::BadFieldNumber(text@),
            FilterError::ZeroField => Fault::ZeroField,
            FilterError::MixedIndexSigns => Fault::MixedIndexSigns,
            FilterError::EmptyName { position } => Fault::EmptyName(*position),
            FilterError::MixedNameSigns => Fault::MixedNameSigns,
            FilterError::FieldOutOfRange { field, columns } => Fault::FieldOutOfRange(
                *field,
                *columns,
            ),
            FilterError::MissingColumn { name } => Fault::MissingColumn(name@),
            FilterError::DuplicateColumn { name } => Fault::DuplicateColumn(name@),
            FilterError::InvalidFuzzyField { pattern, .. } => Fault::InvalidFuzzyField(pattern@),
            FilterError::BareQuote { offset } => Fault::BareQuote(*offset),
            FilterError::MisplacedQuote { offset } => Fault::MisplacedQuote(*offset),
            FilterError::UnclosedQuote => Fault::UnclosedQuote,
            FilterError::Read { .. } => Fault::Read,
            FilterError::BadFlagValue { flag } => Fault::BadFlagValue(flag@),
        }
    }
}

/// A result seen through the views of its value and its error.
pub open spec fn result_view_spec<T: View>(r: Result<T, FilterError>) -> Result<T::V, Fault> {
    match r {
        Ok(v) => Ok(v@),
        Err(e) => Err(e@),
    }
}

} // verus!
