//! The error type shared by every fallible operation of the library.

use vstd::prelude::*;
use vstd::std_specs::cmp::PartialEqSpecImpl;

verus! {

/// `std::io::Error`, carried through as it is.
#[verifier::external_type_specification]
#[verifier::external_body]
pub struct ExIoError(std::io::Error);

/// Coarse classification of an [`Error`].
#[derive(Copy, Clone, PartialEq, Eq, Debug, Structural)]
pub enum Category {
    Io,
    Data,
    Syntax,
}

/// What went wrong.
#[derive(Debug)]
pub enum ErrorCode {
    /// Free-form message.
    Message(String),
    /// An input/output failure reported by the operating system or a driver.
    Io(std::io::Error),
    /// A site index at or beyond the chain length, or two equal indices
    /// where distinct ones are needed.
    InvalidBitIndex,
    /// A configuration that does not fit the chain length, or an index
    /// beyond a declared dimension.
    OverFlow,
    /// A sector that holds no state.
    InvalidConfiguration,
    /// A basis that cannot be refined to the requested sector.
    InvalidArgument,
}

impl ErrorCode {
    /// The category a code falls under.
    pub open spec fn category(self) -> Category {
        match self {
            ErrorCode::Message(_) => Category::Data,
            ErrorCode::Io(_) => Category::Io,
            _ => Category::Syntax,
        }
    }
}

/// An error of the library.  Two errors compare equal when they fall under
/// the same [`Category`].
#[derive(Debug)]
pub struct Error {
    err: Box<ErrorCode>,
}

/// `r` is an error that carries exactly `code`.
pub open spec fn fails_with<T>(r: Result<T, Error>, code: ErrorCode) -> bool {
    r is Err && r->Err_0.code() == code
}

/// Renders an input/output error with the `Display` implementation of
/// `std::io::Error`.  The text depends on the platform, so nothing is
/// claimed about it.
#[verifier::external_body]
fn io_error_text(error: &std::io::Error) -> String {
    format!("{}", error)
}

impl Error {
    /// The code carried by the error.
    pub closed spec fn code(self) -> ErrorCode {
        *self.err
    }

    /// The category of the carried code.
    pub open spec fn category(self) -> Category {
        self.code().category()
    }

    pub fn make_error_msg(msg: String) -> (e: Self)
        ensures
            e.code() == ErrorCode::Message(msg),
    {
        Error { err: Box::new(ErrorCode::Message(msg)) }
    }

    pub fn make_error_io(error: std::io::Error) -> (e: Self)
        ensures
            e.code() == ErrorCode::Io(error),
    {
        Error { err: Box::new(ErrorCode::Io(error)) }
    }

    pub fn make_error_syntax(code: ErrorCode) -> (e: Self)
        ensures
            e.code() == code,
    {
        Error { err: Box::new(code) }
    }

    /// Takes the error apart.
    pub fn into_code(self) -> (code: ErrorCode)
        ensures
            code == self.code(),
    {
        *self.err
    }

    pub fn classify(&self) -> (c: Category)
        ensures
            c == self.category(),
    {
        match &*self.err {
            ErrorCode::Message(_) => Category::Data,
            ErrorCode::Io(_) => Category::Io,
            ErrorCode::InvalidBitIndex => Category::Syntax,
            ErrorCode::OverFlow => Category::Syntax,
            ErrorCode::InvalidConfiguration => Category::Syntax,
            ErrorCode::InvalidArgument => Category::Syntax,
        }
    }

    pub fn is_io(&self) -> (b: bool)
        ensures
            b == (self.category() == Category::Io),
    {
        self.classify() == Category::Io
    }

    pub fn is_data(&self) -> (b: bool)
        ensures
            b == (self.category() == Category::Data),
    {
        self.classify() == Category::Data
    }

    pub fn is_syntax(&self) -> (b: bool)
        ensures
            b == (self.category() == Category::Syntax),
    {
        self.classify() == Category::Syntax
    }

    /// The human-readable text of the error.  The text of an input/output
    /// error is whatever the platform reports.
    pub fn to_string(&self) -> (text: String)
        ensures
            match self.code() {
                ErrorCode::Message(msg) => text@ == msg@,
                ErrorCode::Io(_) => true,
                ErrorCode::InvalidBitIndex => text@ == "Invalid Bit index."@,
                ErrorCode::OverFlow => text@ == "State representation over flows."@,
                ErrorCode::InvalidConfiguration => text@ == "No state in the requested sector."@,
                ErrorCode::InvalidArgument => text@
                    == "Basis cannot be extended to the requested sector."@,
            },
    {
        match &*self.err {
            ErrorCode::Message(msg) => msg.clone(),
            ErrorCode::Io(error) => io_error_text(error),
            ErrorCode::InvalidBitIndex => "Invalid Bit index.".to_owned(),
            ErrorCode::OverFlow => "State representation over flows.".to_owned(),
            ErrorCode::InvalidConfiguration => "No state in the requested sector.".to_owned(),
            ErrorCode::InvalidArgument => "Basis cannot be extended to the requested sector.".to_owned(),
        }
    }
}

impl PartialEq for Error {
    fn eq(&self, other: &Self) -> (equal: bool) {
        self.classify() == other.classify()
    }
}

impl PartialEqSpecImpl for Error {
    open spec fn obeys_eq_spec() -> bool {
        true
    }

    open spec fn eq_spec(&self, other: &Self) -> bool {
        self.category() == other.category()
    }
}

} // verus!
