//! Status codes, error kinds and the error records a document hands out.

use crate::qpdf::QPDF;
use vstd::prelude::*;
use vstd::std_specs::convert::FromSpecImpl;
use vstd::string::StringExecFns;

verus! {

/// How an operation on a document ended. The variants are ordered by
/// severity: `Success`, then `Warnings`, then `Errors`.
#[derive(Debug, Clone, Copy, PartialEq, Eq, Structural)]
pub enum QPDFInternalErrorCode {
    Success,
    Warnings,
    Errors,
}

impl QPDFInternalErrorCode {
    /// The code that a numeric status stands for: 0 is success, 1 is
    /// warnings, every other number is errors.
    pub open spec fn of_status(value: int) -> Self {
        if value == 0 {
            QPDFInternalErrorCode::Success
        } else if value == 1 {
            QPDFInternalErrorCode::Warnings
        } else {
            QPDFInternalErrorCode::Errors
        }
    }

    /// The rank of a code: 0, 1 or 2.
    pub open spec fn rank(self) -> int {
        match self {
            QPDFInternalErrorCode::Success => 0,
            QPDFInternalErrorCode::Warnings => 1,
            QPDFInternalErrorCode::Errors => 2,
        }
    }

    /// The more severe of two codes.
    pub open spec fn worse_of(self, other: Self) -> Self {
        if self.rank() >= other.rank() {
            self
        } else {
            other
        }
    }

    pub fn severity(&self) -> (r: u8)
        ensures
            r as int == self.rank(),
    {
        match self {
            QPDFInternalErrorCode::Success => 0,
            QPDFInternalErrorCode::Warnings => 1,
            QPDFInternalErrorCode::Errors => 2,
        }
    }

    pub fn worse(self, other: Self) -> (r: Self)
        ensures
            r == self.worse_of(other),
    {
        if self.severity() >= other.severity() {
            self
        } else {
            other
        }
    }
}

impl From<u32> for QPDFInternalErrorCode {
    fn from(value: u32) -> (r: Self) {
        match value {
            0 => QPDFInternalErrorCode::Success,
            1 => QPDFInternalErrorCode::Warnings,
            _ => QPDFInternalErrorCode::Errors,
        }
    }
}

impl FromSpecImpl<u32> for QPDFInternalErrorCode {
    open spec fn obeys_from_spec() -> bool {
        true
    }

    open spec fn from_spec(value: u32) -> Self {
        QPDFInternalErrorCode::of_status(value as int)
    }
}

impl From<i32> for QPDFInternalErrorCode {
    fn from(value: i32) -> (r: Self) {
        match value {
            0 => QPDFInternalErrorCode::Success,
            1 => QPDFInternalErrorCode::Warnings,
            _ => QPDFInternalErrorCode::Errors,
        }
    }
}

impl FromSpecImpl<i32> for QPDFInternalErrorCode {
    open spec fn obeys_from_spec() -> bool {
        true
    }

    open spec fn from_spec(value: i32) -> Self {
        QPDFInternalErrorCode::of_status(value as int)
    }
}

/// What went wrong.
#[derive(Debug, Clone, Copy, PartialEq, Eq, Structural)]
pub enum ErrorKind {
    /// The bytes do not follow the grammar.
    ParseError,
    /// The cross-reference data is missing or wrong.
    XrefCorruption,
    /// The document is encrypted and cannot be opened.
    EncryptionError,
    /// A value was read as a type that it does not have or does not fit.
    ConversionError,
    /// The operation is not allowed in the document's current state.
    InvalidState,
    /// A key, page or object is missing.
    NotFound,
    /// The file system failed.
    IoError,
    /// An error record was queried after it had been superseded.
    StaleError,
}

/// The one way a lookup in the information dictionary fails.
#[derive(Debug, Clone, Copy, PartialEq, Eq, Structural)]
pub enum QPDFErrors {
    KeyNotFound,
}

/// One recorded error or warning.
#[derive(Debug)]
pub struct ErrorRecord {
    pub code: QPDFInternalErrorCode,
    pub kind: ErrorKind,
    pub filename: String,
    pub detail: String,
}

/// The mathematical content of an [`ErrorRecord`].
pub struct ErrorRecordView {
    pub code: QPDFInternalErrorCode,
    pub kind: ErrorKind,
    pub filename: Seq<char>,
    pub detail: Seq<char>,
}

impl ErrorRecordView {
    /// The full text of a record: the file name, a colon and a space, then
    /// the detail.
    pub open spec fn full_text(self) -> Seq<char> {
        self.filename + seq![':', ' '] + self.detail
    }
}

impl View for ErrorRecord {
    type V = ErrorRecordView;

    open spec fn view(&self) -> ErrorRecordView {
        ErrorRecordView {
            code: self.code,
            kind: self.kind,
            filename: self.filename@,
            detail: self.detail@,
        }
    }
}

impl ErrorRecord {
    pub fn new(code: QPDFInternalErrorCode, kind: ErrorKind, filename: &str, detail: &str) -> (r:
        Self)
        ensures
            r@ == (ErrorRecordView { code, kind, filename: filename@, detail: detail@ }),
    {
        ErrorRecord {
            code,
            kind,
            filename: String::from_str(filename),
            detail: String::from_str(detail),
        }
    }

    pub fn duplicate(&self) -> (r: Self)
        ensures
            r@ == self@,
    {
        ErrorRecord {
            code: self.code,
            kind: self.kind,
            filename: self.filename.clone(),
            detail: self.detail.clone(),
        }
    }

    pub fn full_text(&self) -> (r: String)
        ensures
            r@ == self@.full_text(),
    {
        let sep: &str = ": ";
        proof {
            reveal_strlit(": ");
            assert(sep@ =~= seq![':', ' ']);
        }
        let s: String = self.filename.clone();
        let s: String = s.concat(sep);
        s.concat(self.detail.as_str())
    }
}

impl ErrorKind {
    /// What a record of this kind says.
    pub open spec fn description(self) -> Seq<char> {
        match self {
            ErrorKind::ParseError => "the bytes do not follow the grammar"@,
            ErrorKind::XrefCorruption => "the cross-reference data is damaged"@,
            ErrorKind::EncryptionError => "the document is encrypted"@,
            ErrorKind::ConversionError => "the value has another type"@,
            ErrorKind::InvalidState => "the operation does not fit the state of the document"@,
            ErrorKind::NotFound => "not found"@,
            ErrorKind::IoError => "the file system failed"@,
            ErrorKind::StaleError => "the error record is out of date"@,
        }
    }

    pub fn describe(&self) -> (r: &'static str)
        ensures
            r@ == self.description(),
    {
        match self {
            ErrorKind::ParseError => "the bytes do not follow the grammar",
            ErrorKind::XrefCorruption => "the cross-reference data is damaged",
            ErrorKind::EncryptionError => "the document is encrypted",
            ErrorKind::ConversionError => "the value has another type",
            ErrorKind::InvalidState => "the operation does not fit the state of the document",
            ErrorKind::NotFound => "not found",
            ErrorKind::IoError => "the file system failed",
            ErrorKind::StaleError => "the error record is out of date",
        }
    }
}

/// The record of a condition of the kind `kind` met on the file
/// `filename`.
pub open spec fn record_of(code: QPDFInternalErrorCode, kind: ErrorKind, filename: Seq<char>)
    -> ErrorRecordView {
    ErrorRecordView { code, kind, filename, detail: kind.description() }
}

/// Makes the record of a condition of the kind `kind`.
pub fn make_record(code: QPDFInternalErrorCode, kind: ErrorKind, filename: &String) -> (r:
    ErrorRecord)
    ensures
        r@ == record_of(code, kind, filename@),
{
    ErrorRecord::new(code, kind, filename.as_str(), kind.describe())
}

/// A handle on an error or a warning that a document handed out. It is
/// current until the document hands out the next one.
#[derive(Debug)]
pub struct QPDFInternalError {
    serial: u64,
    record: Option<ErrorRecord>,
}

/// The model of an error handle: the serial number under which the
/// document handed it out, 0 for a handle on nothing, and the record.
pub struct ErrorHandleModel {
    pub serial: nat,
    pub record: Option<ErrorRecordView>,
}

impl ErrorHandleModel {
    /// Whether the handle refers to a record.
    pub open spec fn present(self) -> bool {
        self.serial != 0 && self.record is Some
    }

    /// Whether the handle is current for a document whose last handle has
    /// the serial number `serial`.
    pub open spec fn current(self, serial: nat) -> bool {
        self.present() && self.serial == serial
    }
}

impl View for QPDFInternalError {
    type V = ErrorHandleModel;

    closed spec fn view(&self) -> ErrorHandleModel {
        ErrorHandleModel {
            serial: self.serial as nat,
            record: match self.record {
                Some(r) => Some(r@),
                None => None,
            },
        }
    }
}

impl QPDFInternalError {
    /// A handle with the serial number `serial` on `record`.
    pub fn new(serial: u64, record: Option<ErrorRecord>) -> (r: Self)
        ensures
            r@ == (ErrorHandleModel {
                serial: serial as nat,
                record: match record {
                    Some(x) => Some(x@),
                    None => None,
                },
            }),
    {
        QPDFInternalError { serial, record }
    }

    /// Whether the handle refers to a record.
    pub fn is_present(&self) -> (r: bool)
        ensures
            r == self@.present(),
    {
        self.serial != 0 && self.record.is_some()
    }

    /// The full text of the record: file name and detail.
    pub fn full(&self, owner: &QPDF) -> (r: Result<String, ErrorKind>)
        ensures
            self@.current(owner@.serial) ==> (r matches Ok(text) && text@
                == self@.record->0.full_text()),
            !self@.current(owner@.serial) ==> r == Err::<String, ErrorKind>(ErrorKind::StaleError),
    {
        match &self.record {
            Some(record) => {
                if self.serial != 0 && self.serial == owner.error_serial() {
                    Ok(record.full_text())
                } else {
                    Err(ErrorKind::StaleError)
                }
            },
            None => Err(ErrorKind::StaleError),
        }
    }

    /// The detail of the record.
    pub fn details(&self, owner: &QPDF) -> (r: Result<String, ErrorKind>)
        ensures
            self@.current(owner@.serial) ==> (r matches Ok(text) && text@
                == self@.record->0.detail),
            !self@.current(owner@.serial) ==> r == Err::<String, ErrorKind>(ErrorKind::StaleError),
    {
        match &self.record {
            Some(record) => {
                if self.serial != 0 && self.serial == owner.error_serial() {
                    Ok(record.detail.clone())
                } else {
                    Err(ErrorKind::StaleError)
                }
            },
            None => Err(ErrorKind::StaleError),
        }
    }

    /// The file name of the record.
    pub fn filename(&self, owner: &QPDF) -> (r: Result<String, ErrorKind>)
        ensures
            self@.current(owner@.serial) ==> (r matches Ok(text) && text@
                == self@.record->0.filename),
            !self@.current(owner@.serial) ==> r == Err::<String, ErrorKind>(ErrorKind::StaleError),
    {
        match &self.record {
            Some(record) => {
                if self.serial != 0 && self.serial == owner.error_serial() {
                    Ok(record.filename.clone())
                } else {
                    Err(ErrorKind::StaleError)
                }
            },
            None => Err(ErrorKind::StaleError),
        }
    }

    /// The severity of the record.
    pub fn code(&self, owner: &QPDF) -> (r: Result<QPDFInternalErrorCode, ErrorKind>)
        ensures
            self@.current(owner@.serial) ==> r == Ok::<QPDFInternalErrorCode, ErrorKind>(
                self@.record->0.code,
            ),
            !self@.current(owner@.serial) ==> r == Err::<QPDFInternalErrorCode, ErrorKind>(
                ErrorKind::StaleError,
            ),
    {
        match &self.record {
            Some(record) => {
                if self.serial != 0 && self.serial == owner.error_serial() {
                    Ok(record.code)
                } else {
                    Err(ErrorKind::StaleError)
                }
            },
            None => Err(ErrorKind::StaleError),
        }
    }

    /// The kind of the record.
    pub fn kind(&self, owner: &QPDF) -> (r: Result<ErrorKind, ErrorKind>)
        ensures
            self@.current(owner@.serial) ==> r == Ok::<ErrorKind, ErrorKind>(
                self@.record->0.kind,
            ),
            !self@.current(owner@.serial) ==> r == Err::<ErrorKind, ErrorKind>(
                ErrorKind::StaleError,
            ),
    {
        match &self.record {
            Some(record) => {
                if self.serial != 0 && self.serial == owner.error_serial() {
                    Ok(record.kind)
                } else {
                    Err(ErrorKind::StaleError)
                }
            },
            None => Err(ErrorKind::StaleError),
        }
    }
}

} // verus!
