//! The errors of the library, and the rule on file extensions.

use vstd::prelude::*;
use vstd::string::StrSliceExecFns;

verus! {

/// Why a parse, or the choice of an input, failed.
#[derive(Debug, Clone, Copy, PartialEq, Eq)]
pub enum CsvError {
    /// The input is no CSV file by its name: the extension is missing or is
    /// not `csv`.
    InvalidInput,
    /// The bytes are not well-formed UTF-8.
    InvalidEncoding,
    /// A double quote stands inside a field that did not start with one.
    UnexpectedQuote { line: u64 },
    /// The quote that closes a field is followed by something other than a
    /// comma, a line break or the end of the input, or the input ends inside
    /// a quoted field.
    UnterminatedQuote { line: u64 },
    /// The record at `line` has `found` fields, where the first record has
    /// `expected`.
    FieldCountMismatch { expected: u64, found: u64, line: u64 },
}

/// The mathematical content of a `CsvError`.
pub enum Failure {
    InvalidInput,
    InvalidEncoding,
    UnexpectedQuote { line: nat },
    UnterminatedQuote { line: nat },
    FieldCountMismatch { expected: nat, found: nat, line: nat },
}

impl View for CsvError {
    type V = Failure;

    open spec fn view(&self) -> Failure {
        match *self {
            CsvError::InvalidInput => Failure::InvalidInput,
            CsvError::InvalidEncoding => Failure::InvalidEncoding,
            CsvError::UnexpectedQuote { line } => Failure::UnexpectedQuote { line: line as nat },
            CsvError::UnterminatedQuote { line } => Failure::UnterminatedQuote {
                line: line as nat,
            },
            CsvError::FieldCountMismatch { expected, found, line } => Failure::FieldCountMismatch {
                expected: expected as nat,
                found: found as nat,
                line: line as nat,
            },
        }
    }
}

/// The extension that a CSV file carries.
pub open spec fn csv_extension() -> Seq<char> {
    seq!['c', 's', 'v']
}

/// Whether `extension` is exactly `csv`.
pub fn is_csv_extension(extension: &str) -> (b: bool)
    ensures
        b == (extension@ == csv_extension()),
{
    if extension.unicode_len() != 3 {
        return false;
    }
    let b = extension.get_char(0) == 'c' && extension.get_char(1) == 's' && extension.get_char(2)
        == 'v';
    proof {
        if b {
            assert(extension@ =~= csv_extension());
        }
    }
    b
}

/// Accepts a file by the extension of its name: `Ok` for the extension `csv`,
/// `InvalidInput` for any other extension and for a name without one.
pub fn check_extension(extension: Option<&str>) -> (r: Result<(), CsvError>)
    ensures
        r is Ok <==> (extension matches Some(e) && e@ == csv_extension()),
        r is Err ==> r == Err::<(), CsvError>(CsvError::InvalidInput),
{
    match extension {
        Some(e) => {
            if is_csv_extension(e) {
                Ok(())
            } else {
                Err(CsvError::InvalidInput)
            }
        },
        None => Err(CsvError::InvalidInput),
    }
}

} // verus!
