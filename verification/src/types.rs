//! Core type definitions: error codes, rich errors, and cell-type bit sets.

use vstd::prelude::*;

verus! {

/// Signed axis number of an APL value.
pub type SAxis = i16;

/// Unsigned rank of an APL value.
pub type URank = u32;

/// Length of one dimension (axis) of an APL shape.
pub type ShapeItem = i64;

/// One APL character value (Unicode code point).
pub type Unicode = u32;

/// One APL integer value.
pub type APLInteger = i64;

/// Maximum rank of an APL value.
pub const MAX_RANK: usize = 8;

/// APL error codes.
#[derive(Clone, Copy, Debug, PartialEq, Eq, Structural)]
pub enum ErrorCode {
    NoError,
    SyntaxError,
    DomainError,
    LengthError,
    IndexError,
    RankError,
    ValueError,
    NonceError,
    LimitError,
    SystemError,
    InternalError,
    FileError,
    SecurityError,
}

/// The numeric value that GNU APL gives each error code.
pub open spec fn spec_error_number(c: ErrorCode) -> u32 {
    match c {
        ErrorCode::NoError => 0,
        ErrorCode::SyntaxError => 1,
        ErrorCode::DomainError => 2,
        ErrorCode::LengthError => 3,
        ErrorCode::IndexError => 4,
        ErrorCode::RankError => 5,
        ErrorCode::ValueError => 6,
        ErrorCode::NonceError => 7,
        ErrorCode::LimitError => 8,
        ErrorCode::SystemError => 9,
        ErrorCode::InternalError => 10,
        ErrorCode::FileError => 11,
        ErrorCode::SecurityError => 12,
    }
}

impl ErrorCode {
    /// The error number of this code.
    pub fn number(&self) -> (n: u32)
        ensures
            n == spec_error_number(*self),
    {
        match self {
            ErrorCode::NoError => 0,
            ErrorCode::SyntaxError => 1,
            ErrorCode::DomainError => 2,
            ErrorCode::LengthError => 3,
            ErrorCode::IndexError => 4,
            ErrorCode::RankError => 5,
            ErrorCode::ValueError => 6,
            ErrorCode::NonceError => 7,
            ErrorCode::LimitError => 8,
            ErrorCode::SystemError => 9,
            ErrorCode::InternalError => 10,
            ErrorCode::FileError => 11,
            ErrorCode::SecurityError => 12,
        }
    }

    /// The display name of this code, such as `DOMAIN ERROR`.
    pub fn name(&self) -> (s: &'static str)
        ensures
            *self == ErrorCode::NoError ==> s@ == "no error"@,
            *self == ErrorCode::SyntaxError ==> s@ == "SYNTAX ERROR"@,
            *self == ErrorCode::DomainError ==> s@ == "DOMAIN ERROR"@,
            *self == ErrorCode::LengthError ==> s@ == "LENGTH ERROR"@,
            *self == ErrorCode::IndexError ==> s@ == "INDEX ERROR"@,
            *self == ErrorCode::RankError ==> s@ == "RANK ERROR"@,
            *self == ErrorCode::ValueError ==> s@ == "VALUE ERROR"@,
            *self == ErrorCode::NonceError ==> s@ == "NONCE ERROR"@,
            *self == ErrorCode::LimitError ==> s@ == "LIMIT ERROR"@,
            *self == ErrorCode::SystemError ==> s@ == "SYSTEM ERROR"@,
            *self == ErrorCode::InternalError ==> s@ == "INTERNAL ERROR"@,
            *self == ErrorCode::FileError ==> s@ == "FILE ERROR"@,
            *self == ErrorCode::SecurityError ==> s@ == "SECURITY ERROR"@,
    {
        match self {
            ErrorCode::NoError => "no error",
            ErrorCode::SyntaxError => "SYNTAX ERROR",
            ErrorCode::DomainError => "DOMAIN ERROR",
            ErrorCode::LengthError => "LENGTH ERROR",
            ErrorCode::IndexError => "INDEX ERROR",
            ErrorCode::RankError => "RANK ERROR",
            ErrorCode::ValueError => "VALUE ERROR",
            ErrorCode::NonceError => "NONCE ERROR",
            ErrorCode::LimitError => "LIMIT ERROR",
            ErrorCode::SystemError => "SYSTEM ERROR",
            ErrorCode::InternalError => "INTERNAL ERROR",
            ErrorCode::FileError => "FILE ERROR",
            ErrorCode::SecurityError => "SECURITY ERROR",
        }
    }
}

/// Convenient result alias used throughout the crate.
pub type AplResult<T> = Result<T, ErrorCode>;

/// Rich APL error: the error code plus an optional message and source
/// context (source line and caret range).
#[derive(Debug, Clone)]
pub struct AplError {
    pub code: ErrorCode,
    /// human-readable explanation (empty = none)
    pub message: String,
    /// source line that triggered the error
    pub source_line: Option<String>,
    /// caret start position in the source line (inclusive)
    pub caret_start: Option<usize>,
    /// caret end position in the source line (exclusive)
    pub caret_end: Option<usize>,
}

impl AplError {
    /// A bare error with no message and no source context.
    pub fn bare(code: ErrorCode) -> (e: Self)
        ensures
            e.code == code,
            e.message@ == Seq::<char>::empty(),
            e.source_line is None,
            e.caret_start is None,
            e.caret_end is None,
    {
        AplError {
            code,
            message: String::new(),
            source_line: None,
            caret_start: None,
            caret_end: None,
        }
    }

    /// An error with an explanatory message and no source context.
    pub fn with_message(code: ErrorCode, message: &str) -> (e: Self)
        ensures
            e.code == code,
            e.message@ == message@,
            e.source_line is None,
            e.caret_start is None,
            e.caret_end is None,
    {
        AplError {
            code,
            message: message.to_owned(),
            source_line: None,
            caret_start: None,
            caret_end: None,
        }
    }

    /// An error with full source context for caret display.
    pub fn with_source(code: ErrorCode, source_line: &str, caret_start: usize, caret_end: usize) -> (e: Self)
        ensures
            e.code == code,
            e.message@ == Seq::<char>::empty(),
            e.source_line matches Some(l) && l@ == source_line@,
            e.caret_start == Some(caret_start),
            e.caret_end == Some(caret_end),
    {
        AplError {
            code,
            message: String::new(),
            source_line: Some(source_line.to_owned()),
            caret_start: Some(caret_start),
            caret_end: Some(caret_end),
        }
    }

    /// An error with both a message and source context.
    pub fn with_source_and_message(
        code: ErrorCode,
        message: &str,
        source_line: &str,
        caret_start: usize,
        caret_end: usize,
    ) -> (e: Self)
        ensures
            e.code == code,
            e.message@ == message@,
            e.source_line matches Some(l) && l@ == source_line@,
            e.caret_start == Some(caret_start),
            e.caret_end == Some(caret_end),
    {
        AplError {
            code,
            message: message.to_owned(),
            source_line: Some(source_line.to_owned()),
            caret_start: Some(caret_start),
            caret_end: Some(caret_end),
        }
    }

    /// True iff no source context was attached.
    pub fn is_bare(&self) -> (b: bool)
        ensures
            b == (self.source_line is None),
    {
        self.source_line.is_none()
    }

    /// The error built from a bare code.
    pub fn from_code(code: ErrorCode) -> (e: Self)
        ensures
            e.code == code,
            e.message@ == Seq::<char>::empty(),
            e.source_line is None,
    {
        Self::bare(code)
    }
}

/// A set of cell types, held as a bit map.
#[derive(Clone, Copy, Debug, PartialEq, Eq, Structural)]
pub struct CellType(pub u16);

pub const CELLTYPE_NONE: u16 = 0x00;
pub const CELLTYPE_CHAR: u16 = 0x02;
pub const CELLTYPE_POINTER: u16 = 0x04;
pub const CELLTYPE_CELLREF: u16 = 0x08;
pub const CELLTYPE_INT: u16 = 0x10;
pub const CELLTYPE_FLOAT: u16 = 0x20;
pub const CELLTYPE_COMPLEX: u16 = 0x40;
pub const CELLTYPE_NUMERIC: u16 = 0x70;
pub const CELLTYPE_SIMPLE: u16 = 0x72;
pub const CELLTYPE_MASK: u16 = 0x7e;

impl CellType {
    /// The raw bits of the set.
    pub fn bits(self) -> (b: u16)
        ensures
            b == self.0,
    {
        self.0
    }

    /// True iff every type in `other` is in `self`.
    pub fn contains(self, other: CellType) -> (b: bool)
        ensures
            b == (self.0 & other.0 == other.0),
    {
        self.0 & other.0 == other.0
    }

    /// True iff `self` and `other` share a type.
    pub fn intersects(self, other: CellType) -> (b: bool)
        ensures
            b == (self.0 & other.0 != 0),
    {
        self.0 & other.0 != 0
    }

    /// The union of two sets.
    pub fn union(self, other: CellType) -> (r: CellType)
        ensures
            r.0 == self.0 | other.0,
    {
        CellType(self.0 | other.0)
    }
}

} // verus!
