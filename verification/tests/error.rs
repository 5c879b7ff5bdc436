use qpdf::qpdf::error::{
    ErrorKind, ErrorRecord, QPDFErrors, QPDFInternalError, QPDFInternalErrorCode,
};
use qpdf::qpdf::QPDF;

#[test]
fn create_error() {
    let mut qpdf = QPDF::default();
    qpdf.enable_warning_supression();

    qpdf.check_pdf(); // No PDF Loaded

    assert!(qpdf.has_error());
    assert!(qpdf.get_error().is_present())
}

#[test]
fn error_information_is_valid() {
    let mut qpdf = QPDF::default();
    qpdf.enable_warning_supression();

    qpdf.check_pdf();

    assert!(qpdf.has_error());

    let error = qpdf.get_error();

    assert!(error.is_present());
    assert!(error.full(&qpdf).is_ok());
    assert!(error.details(&qpdf).is_ok());
    assert!(error.filename(&qpdf).is_ok());
    assert!(error.code(&qpdf).is_ok());
}

#[test]
fn status_numbers_become_codes() {
    assert_eq!(QPDFInternalErrorCode::Success, QPDFInternalErrorCode::from(0u32));
    assert_eq!(QPDFInternalErrorCode::Warnings, QPDFInternalErrorCode::from(1u32));
    assert_eq!(QPDFInternalErrorCode::Errors, QPDFInternalErrorCode::from(2u32));
    assert_eq!(QPDFInternalErrorCode::Errors, QPDFInternalErrorCode::from(u32::MAX));
    assert_eq!(QPDFInternalErrorCode::Success, QPDFInternalErrorCode::from(0i32));
    assert_eq!(QPDFInternalErrorCode::Warnings, QPDFInternalErrorCode::from(1i32));
    assert_eq!(QPDFInternalErrorCode::Errors, QPDFInternalErrorCode::from(3i32));
    assert_eq!(QPDFInternalErrorCode::Errors, QPDFInternalErrorCode::from(-1i32));
    assert_eq!(QPDFInternalErrorCode::Errors, QPDFInternalErrorCode::from(i32::MIN));
}

#[test]
fn codes_are_ordered_by_severity() {
    assert_eq!(0, QPDFInternalErrorCode::Success.severity());
    assert_eq!(1, QPDFInternalErrorCode::Warnings.severity());
    assert_eq!(2, QPDFInternalErrorCode::Errors.severity());
    assert_eq!(
        QPDFInternalErrorCode::Errors,
        QPDFInternalErrorCode::Warnings.worse(QPDFInternalErrorCode::Errors)
    );
    assert_eq!(
        QPDFInternalErrorCode::Warnings,
        QPDFInternalErrorCode::Warnings.worse(QPDFInternalErrorCode::Success)
    );
    assert_eq!(
        QPDFInternalErrorCode::Success,
        QPDFInternalErrorCode::Success.worse(QPDFInternalErrorCode::Success)
    );
}

#[test]
fn a_record_has_its_full_text() {
    let record = ErrorRecord::new(
        QPDFInternalErrorCode::Errors,
        ErrorKind::IoError,
        "a.pdf",
        "cannot be opened",
    );
    assert_eq!("a.pdf: cannot be opened", record.full_text());
    let copy = record.duplicate();
    assert_eq!(record.filename, copy.filename);
    assert_eq!(record.detail, copy.detail);
    assert_eq!(record.kind, copy.kind);
    assert_eq!(record.code, copy.code);
}

#[test]
fn every_kind_describes_itself() {
    assert_eq!("the bytes do not follow the grammar", ErrorKind::ParseError.describe());
    assert_eq!("the cross-reference data is damaged", ErrorKind::XrefCorruption.describe());
    assert_eq!("the document is encrypted", ErrorKind::EncryptionError.describe());
    assert_eq!("the value has another type", ErrorKind::ConversionError.describe());
    assert_eq!(
        "the operation does not fit the state of the document",
        ErrorKind::InvalidState.describe()
    );
    assert_eq!("not found", ErrorKind::NotFound.describe());
    assert_eq!("the file system failed", ErrorKind::IoError.describe());
    assert_eq!("the error record is out of date", ErrorKind::StaleError.describe());
    assert_eq!(QPDFErrors::KeyNotFound, QPDFErrors::KeyNotFound);
}

#[test]
fn a_handle_goes_stale_with_the_next_one() {
    let mut qpdf = QPDF::default();
    assert_eq!(QPDFInternalErrorCode::Errors, qpdf.check_pdf());
    let first = qpdf.get_error();
    assert_eq!(Ok(ErrorKind::InvalidState), first.kind(&qpdf));
    assert_eq!(Ok(QPDFInternalErrorCode::Errors), first.code(&qpdf));
    // the error was handed out: none is pending any more
    assert!(!qpdf.has_error());

    // no error is pending: the handle refers to nothing, the first stays current
    let nothing = qpdf.get_error();
    assert!(!nothing.is_present());
    assert_eq!(Err(ErrorKind::StaleError), nothing.full(&qpdf));
    assert_eq!(Ok(ErrorKind::InvalidState), first.kind(&qpdf));

    // the next handle supersedes the first
    assert_eq!(QPDFInternalErrorCode::Errors, qpdf.write());
    let second = qpdf.get_error();
    assert!(second.is_present());
    assert_eq!(Ok(ErrorKind::InvalidState), second.kind(&qpdf));
    assert!(first.is_present());
    assert_eq!(Err(ErrorKind::StaleError), first.full(&qpdf));
    assert_eq!(Err(ErrorKind::StaleError), first.details(&qpdf));
    assert_eq!(Err(ErrorKind::StaleError), first.filename(&qpdf));
    assert_eq!(Err(ErrorKind::StaleError), first.code(&qpdf));
    assert_eq!(Err(ErrorKind::StaleError), first.kind(&qpdf));
}

#[test]
fn a_handle_made_by_hand_is_checked_like_any_other() {
    let qpdf = QPDF::default();
    let null = QPDFInternalError::new(0, None);
    assert!(!null.is_present());
    assert_eq!(Err(ErrorKind::StaleError), null.code(&qpdf));
    let foreign = QPDFInternalError::new(
        5,
        Some(ErrorRecord::new(QPDFInternalErrorCode::Warnings, ErrorKind::NotFound, "f", "d")),
    );
    assert!(foreign.is_present());
    assert_eq!(Err(ErrorKind::StaleError), foreign.code(&qpdf));
    assert_eq!(0, qpdf.error_serial());
}

#[test]
fn silencing_keeps_errors_on_record() {
    let mut qpdf = QPDF::default();
    assert!(!qpdf.is_silenced());
    qpdf.silence_errors();
    assert!(qpdf.is_silenced());
    qpdf.check_pdf();
    assert!(qpdf.has_error());
}
