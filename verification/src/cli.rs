//! The command-line flags as plain values, and the options they stand for.
use vstd::prelude::*;
use vstd::string::StringSliceAdditionalSpecFns;
use crate::error::{FilterError, Fault};
use crate::FilterOptions;

verus! {

/// The flags of the command line.
pub struct Cli {
    pub input: String,
    pub output: String,
    pub filter: String,
    pub any: bool,
    pub fuzzy_fields: bool,
    pub line_number: bool,
    pub show_row_number: bool,
    pub delimiter: String,
    pub out_delimiter: String,
    pub tabs: bool,
    pub out_tabs: bool,
    pub comment_char: String,
    pub no_header_row: bool,
    pub delete_header: bool,
    pub ignore_empty_row: bool,
    pub ignore_illegal_row: bool,
    pub lazy_quotes: bool,
    pub json: bool,
}

/// What a run reports.
pub struct FilterReport {
    pub input: String,
    pub output: String,
    pub rows: u64,
}

/// The single byte of a one-byte flag value.
pub open spec fn spec_parse_delim(s: Seq<char>, flag: Seq<char>) -> Result<u8, Fault> {
    let b = vstd::utf8::encode_utf8(s);
    if b.len() != 1 {
        Err(Fault::BadFlagValue(flag))
    } else {
        Ok(b[0])
    }
}

/// Reads a delimiter-like flag value, which must be exactly one byte.
pub fn parse_delim(s: &str, flag: &str) -> (r: Result<u8, FilterError>)
    ensures
        match r {
            Ok(b) => spec_parse_delim(s@, flag@) == Ok::<u8, Fault>(b),
            Err(e) => spec_parse_delim(s@, flag@) == Err::<u8, Fault>(e@),
        },
{
    let bytes = s.as_bytes();
    if bytes.len() != 1 {
        return Err(FilterError::BadFlagValue { flag: flag.to_owned() });
    }
    Ok(bytes[0])
}

pub open spec fn flag_delimiter() -> Seq<char> {
    seq!['d', 'e', 'l', 'i', 'm', 'i', 't', 'e', 'r']
}

pub open spec fn flag_out_delimiter() -> Seq<char> {
    seq!['o', 'u', 't', '-'] + flag_delimiter()
}

pub open spec fn flag_comment_char() -> Seq<char> {
    seq!['c', 'o', 'm', 'm', 'e', 'n', 't', '-', 'c', 'h', 'a', 'r']
}

/// The delimiters and comment byte that the flags ask for: `--tabs` reads tabs and,
/// unless `-D` says otherwise, writes them, as `-T` does; an empty comment flag
/// turns comments off.
pub open spec fn spec_delimiters(cli: Cli) -> Result<(u8, u8, Option<u8>), Fault> {
    match spec_parse_delim(cli.delimiter@, flag_delimiter()) {
        Err(e) => Err(e),
        Ok(delimiter) => match spec_parse_delim(cli.out_delimiter@, flag_out_delimiter()) {
            Err(e) => Err(e),
            Ok(out_delimiter) => {
                let comment = if cli.comment_char@.len() == 0 {
                    Ok(None)
                } else {
                    match spec_parse_delim(cli.comment_char@, flag_comment_char()) {
                        Err(e) => Err(e),
                        Ok(c) => Ok(Some(c)),
                    }
                };
                match comment {
                    Err(e) => Err(e),
                    Ok(comment) => {
                        let in_delim = if cli.tabs { 9u8 } else { delimiter };
                        let out_delim = if cli.out_tabs || cli.tabs {
                            if out_delimiter == 44 { 9u8 } else { out_delimiter }
                        } else {
                            out_delimiter
                        };
                        Ok((in_delim, out_delim, comment))
                    },
                }
            },
        },
    }
}

impl Cli {
    /// The filter options these flags stand for.
    pub fn options(&self) -> (r: Result<FilterOptions, FilterError>)
        ensures
            match r {
                Ok(o) => spec_delimiters(*self) == Ok::<(u8, u8, Option<u8>), Fault>((o.in_delim, o.out_delim, o.comment))
                    && o.filter_str@ == self.filter@ && o.any == self.any && o.fuzzy_fields == self.fuzzy_fields
                    && o.show_row_number == (self.line_number || self.show_row_number)
                    && o.no_header_row == self.no_header_row && o.delete_header == self.delete_header
                    && o.ignore_empty_row == self.ignore_empty_row && o.lazy_quotes == self.lazy_quotes
                    && o.ignore_illegal_row == self.ignore_illegal_row,
                Err(e) => spec_delimiters(*self) == Err::<(u8, u8, Option<u8>), Fault>(e@),
            },
    {
        let flag = "delimiter";
        let out_flag = "out-delimiter";
        let comment_flag = "comment-char";
        proof {
            reveal_strlit("delimiter");
            reveal_strlit("out-delimiter");
            reveal_strlit("comment-char");
        }
        assert(flag@ == flag_delimiter());
        assert(out_flag@ =~= flag_out_delimiter());
        assert(comment_flag@ == flag_comment_char());
        let delimiter = match parse_delim(self.delimiter.as_str(), flag) {
            Ok(d) => d,
            Err(e) => {
                return Err(e);
            },
        };
        let out_delimiter = match parse_delim(self.out_delimiter.as_str(), out_flag) {
            Ok(d) => d,
            Err(e) => {
                return Err(e);
            },
        };
        let comment = if self.comment_char.as_str().is_empty() {
            None
        } else {
            match parse_delim(self.comment_char.as_str(), comment_flag) {
                Ok(c) => Some(c),
                Err(e) => {
                    return Err(e);
                },
            }
        };
        let in_delim = if self.tabs { 9u8 } else { delimiter };
        let out_delim = if self.out_tabs || self.tabs {
            if out_delimiter == 44 { 9u8 } else { out_delimiter }
        } else {
            out_delimiter
        };
        Ok(FilterOptions {
            filter_str: self.filter.clone(),
            any: self.any,
            fuzzy_fields: self.fuzzy_fields,
            show_row_number: self.line_number || self.show_row_number,
            no_header_row: self.no_header_row,
            delete_header: self.delete_header,
            in_delim,
            out_delim,
            comment,
            ignore_empty_row: self.ignore_empty_row,
            lazy_quotes: self.lazy_quotes,
            ignore_illegal_row: self.ignore_illegal_row,
        })
    }
}

} // verus!
