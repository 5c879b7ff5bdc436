use qpdf::qpdf::error::{ErrorKind, QPDFErrors, QPDFInternalErrorCode};
use qpdf::qpdf::object::types::QPDFIsObjectType;
use qpdf::qpdf::object::value::ObjectValue;
use qpdf::qpdf::read::QPDFReadParams;
use qpdf::qpdf::write::{
    QPDFWriteDecodeLevel, QPDFWriteObjectStream, QPDFWriteParams, QPDFWriteStreamData,
    QPDFWriteVersion,
};
use qpdf::qpdf::{DocState, QPDF};
use std::path::PathBuf;

/// The text of a file with the given objects, each a number and a body,
/// a cross-reference table and a trailer.
fn file_of(objects: &[(i32, &str)], trailer: &str) -> Vec<u8> {
    let mut text = String::from("%PDF-1.3\n");
    let mut offsets: Vec<(i32, usize)> = Vec::new();
    for (id, body) in objects {
        offsets.push((*id, text.len()));
        text.push_str(&format!("{} 0 obj\n{}\nendobj\n", id, body));
    }
    let table = text.len();
    text.push_str("xref\n0 1\n0000000000 65535 f \n");
    for (id, offset) in &offsets {
        text.push_str(&format!("{} 1\n{:010} 00000 n \n", id, offset));
    }
    text.push_str(&format!("trailer\n{}\nstartxref\n{}\n%%EOF\n", trailer, table));
    text.into_bytes()
}

/// A file of version 1.3 with one page, a title and no author, whose
/// root is the object 22.
fn sample() -> Vec<u8> {
    let content = "BT /F1 12 Tf 72 720 Td (Hi) Tj ET";
    let stream = format!("<< /Length {} >>\nstream\n{}\nendstream", content.len(), content);
    file_of(
        &[
            (1, "<< /Type /Pages /Kids [2 0 R] /Count 1 >>"),
            (2, "<< /Type /Page /Parent 1 0 R /MediaBox [0 0 612 792] /Contents 4 0 R >>"),
            (3, "<< /Title (Sample) /Producer (by hand) >>"),
            (4, &stream),
            (22, "<< /Type /Catalog /Pages 1 0 R >>"),
        ],
        "<< /Size 23 /Root 22 0 R /Info 3 0 R >>",
    )
}

fn sample_name() -> String {
    PathBuf::from(".").join("assets").join("testpdf1.pdf").to_string_lossy().to_string()
}

fn load(qpdf: &mut QPDF) {
    qpdf.enable_warning_supression();
    let status = qpdf.process_file(sample_name(), sample(), QPDFReadParams::default(), None);
    assert_ne!(QPDFInternalErrorCode::Errors, status);
}

#[test]
fn construct_new_qpdf_instance() {
    let qpdf = QPDF::default();
    assert_eq!(b'1', qpdf.version() as u8);
}

#[test]
fn check_qpdf_errors() {
    let qpdf = QPDF::default();
    assert!(!qpdf.has_error())
}

#[test]
fn check_qpdf_warnings() {
    let qpdf = QPDF::default();
    assert!(!qpdf.has_warnings())
}

#[test]
fn check_null_pdf() {
    let mut qpdf = QPDF::default();
    qpdf.enable_warning_supression();

    let check = qpdf.check_pdf();

    assert_eq!(check, QPDFInternalErrorCode::Errors)
}

#[test]
fn process_empty_pdf() {
    let mut qpdf = QPDF::default();
    qpdf.enable_warning_supression();

    assert_eq!(QPDFInternalErrorCode::Success, qpdf.empty());
    assert_eq!(QPDFInternalErrorCode::Success, qpdf.check_pdf());
}

#[test]
fn write_empty_pdf() {
    let pdf = PathBuf::from(".").join("assets").join(".outpdf.test.pdf");
    let mut qpdf = QPDF::default();

    assert_eq!(QPDFInternalErrorCode::Success, qpdf.empty());
    assert_eq!(
        QPDFInternalErrorCode::Success,
        qpdf.write_init(pdf.to_string_lossy().to_string(), QPDFWriteParams::default())
    );
    assert_eq!(QPDFInternalErrorCode::Success, qpdf.write())
}

#[test]
fn process_pdf_file_without_password() {
    let mut qpdf = QPDF::default();
    qpdf.enable_warning_supression();

    let status = qpdf.process_file(
        sample_name(),
        sample(),
        QPDFReadParams::default().with_attempt_recovery(),
        None,
    );

    assert_eq!(QPDFInternalErrorCode::Success, status);

    assert_ne!(QPDFInternalErrorCode::Errors, qpdf.check_pdf())
}

#[test]
fn check_pdf_version() {
    let mut qpdf = QPDF::default();
    load(&mut qpdf);

    let status = qpdf.pdf_version();
    assert_eq!("1.3", status)
}

#[test]
fn check_pdf_extension_level() {
    let mut qpdf = QPDF::default();
    load(&mut qpdf);

    let extension = qpdf.pdf_extension_level();
    assert_eq!(0, extension)
}

#[test]
fn check_get_pdf_info() {
    let mut qpdf = QPDF::default();
    load(&mut qpdf);

    assert!(qpdf.pdf_get_info_key("/Author".to_string()).is_err());
    assert!(qpdf.pdf_get_info_key("/Title".to_string()).is_ok())
}

#[test]
fn check_set_pdf_info() {
    let mut qpdf = QPDF::default();
    load(&mut qpdf);

    assert!(qpdf.pdf_get_info_key("/Author".to_string()).is_err());
    qpdf.pdf_set_info_key("/Author".to_string(), "Something".to_string());
    assert!(qpdf.pdf_get_info_key("/Author".to_string()).is_ok())
}

#[test]
fn test_pdf_attribs() {
    let mut qpdf = QPDF::default();
    load(&mut qpdf);

    assert!(!qpdf.pdf_is_linearized());
    assert!(!qpdf.pdf_is_encrypted());
    assert!(qpdf.pdf_allow_accessibility());
    assert!(qpdf.pdf_allow_extract_all());
    assert!(qpdf.pdf_allow_print_low_res());
    assert!(qpdf.pdf_allow_print_high_res());
    assert!(qpdf.pdf_allow_modify_assembly());
    assert!(qpdf.pdf_allow_modify_form());
    assert!(qpdf.pdf_allow_modify_annotation());
    assert!(qpdf.pdf_allow_modify_other());
    assert!(qpdf.pdf_allow_modify_all());
}

#[test]
fn check_root_name() {
    let mut qpdf = QPDF::default();
    load(&mut qpdf);

    let root = qpdf.get_object_root();
    assert!(root.is_some());
    let root = root.unwrap();

    assert_eq!(0, root.generation());
    assert_eq!(22, root.object_id());
}

#[test]
fn info_key_round_trip_of_text() {
    let mut qpdf = QPDF::default();
    load(&mut qpdf);
    assert_eq!("Sample", qpdf.pdf_get_info_key("/Title".to_string()).unwrap());
    assert_eq!(Err(QPDFErrors::KeyNotFound), qpdf.pdf_get_info_key("/Author".to_string()));
    qpdf.pdf_set_info_key("/Author".to_string(), "X".to_string());
    assert_eq!("X", qpdf.pdf_get_info_key("/Author".to_string()).unwrap());
    // a key without a slash changes nothing
    qpdf.pdf_set_info_key("Subject".to_string(), "Y".to_string());
    assert!(qpdf.pdf_get_info_key("Subject".to_string()).is_err());
}

#[test]
fn info_dictionary_is_made_where_missing() {
    let mut qpdf = QPDF::default();
    assert_eq!(QPDFInternalErrorCode::Success, qpdf.empty());
    assert!(qpdf.pdf_get_info_key("/Title".to_string()).is_err());
    qpdf.pdf_set_info_key("/Title".to_string(), "Blank".to_string());
    assert_eq!("Blank", qpdf.pdf_get_info_key("/Title".to_string()).unwrap());
    let info = qpdf.get_object_id(3, 0).unwrap();
    assert!(info.is(QPDFIsObjectType::Dictionary));
}

#[test]
fn operations_in_the_wrong_state_are_refused() {
    let mut qpdf = QPDF::default();
    assert_eq!(DocState::Uninitialized, qpdf.state());
    assert_eq!(QPDFInternalErrorCode::Errors, qpdf.write());
    assert_eq!(
        QPDFInternalErrorCode::Errors,
        qpdf.write_init("out.pdf".to_string(), QPDFWriteParams::default())
    );
    assert_eq!(QPDFInternalErrorCode::Errors, qpdf.update_page_cache());
    assert!(qpdf.get_object_trailer().is_none());
    assert!(qpdf.get_object_root().is_none());
    let error = qpdf.get_error();
    assert_eq!(Ok(ErrorKind::InvalidState), error.kind(&qpdf));

    assert_eq!(QPDFInternalErrorCode::Success, qpdf.empty());
    assert_eq!(DocState::Loaded, qpdf.state());
    // a second document cannot be read into a loaded one
    assert_eq!(QPDFInternalErrorCode::Errors, qpdf.empty());
    assert_eq!(
        QPDFInternalErrorCode::Errors,
        qpdf.process_file(sample_name(), sample(), QPDFReadParams::default(), None)
    );
    // writing needs write_init first
    assert_eq!(QPDFInternalErrorCode::Errors, qpdf.write());
    assert_eq!(
        QPDFInternalErrorCode::Success,
        qpdf.write_init("out.pdf".to_string(), QPDFWriteParams::default())
    );
    assert_eq!(Some("out.pdf".to_string()), qpdf.target());
    assert_eq!(QPDFInternalErrorCode::Success, qpdf.write());
    assert_eq!(DocState::Written, qpdf.state());
    assert_eq!(None, qpdf.target());
    assert_eq!(QPDFInternalErrorCode::Errors, qpdf.write());
}

#[test]
fn empty_document_is_written_byte_for_byte() {
    let mut qpdf = QPDF::default();
    qpdf.empty();
    qpdf.write_init("out.pdf".to_string(), QPDFWriteParams::default());
    assert_eq!(QPDFInternalErrorCode::Success, qpdf.write());
    let expected = "%PDF-1.3\n\
1 0 obj\n<< /Type /Catalog /Pages 2 0 R >>\nendobj\n\
2 0 obj\n<< /Type /Pages /Kids [ ] /Count 0 >>\nendobj\n\
xref\n0 3\n0000000000 65535 f \n0000000009 00000 n \n0000000058 00000 n \n\
trailer\n<< /Root 1 0 R /Size 3 >>\nstartxref\n111\n%%EOF\n";
    assert_eq!(expected, String::from_utf8(qpdf.output().clone()).unwrap());
}

#[test]
fn empty_document_written_and_read_again_is_sound() {
    let mut qpdf = QPDF::default();
    qpdf.empty();
    qpdf.write_init("out.pdf".to_string(), QPDFWriteParams::default().with_static_id());
    assert_eq!(QPDFInternalErrorCode::Success, qpdf.write());
    let bytes = qpdf.output().clone();

    let mut again = QPDF::default();
    assert_eq!(
        QPDFInternalErrorCode::Success,
        again.process_file("out.pdf".to_string(), bytes, QPDFReadParams::default(), None)
    );
    assert_eq!(QPDFInternalErrorCode::Success, again.check_pdf());
    assert_eq!(0, again.len_pages());
    assert_eq!("1.3", again.pdf_version());
    let trailer = again.get_object_trailer().unwrap();
    assert!(trailer.dict_has_key("/ID".to_string()));
    let id = trailer.dict_get_key(&again, "/ID".to_string());
    assert_eq!(2, id.array_len());
    assert_eq!(
        vec![
            0x31u8, 0x41, 0x59, 0x26, 0x53, 0x58, 0x97, 0x93, 0x23, 0x84, 0x62, 0x64, 0x33, 0x83,
            0x27, 0x95
        ],
        id.array_get_at(&again, 0).try_as_bytes().unwrap()
    );
}

#[test]
fn sample_written_and_read_again_is_the_same_up_to_numbers() {
    let mut qpdf = QPDF::default();
    load(&mut qpdf);
    assert_eq!(1, qpdf.len_pages());
    qpdf.write_init("out.pdf".to_string(), QPDFWriteParams::default());
    assert_eq!(QPDFInternalErrorCode::Success, qpdf.write());
    let bytes = qpdf.output().clone();

    let mut again = QPDF::default();
    assert_eq!(
        QPDFInternalErrorCode::Success,
        again.process_file("out.pdf".to_string(), bytes, QPDFReadParams::default(), None)
    );
    assert_eq!(QPDFInternalErrorCode::Success, again.check_pdf());
    // the root is the first object that the trailer reaches
    let root = again.get_object_root().unwrap();
    assert_eq!(1, root.object_id());
    assert_eq!(0, root.generation());
    assert!(root.is(QPDFIsObjectType::DictionaryOfType("/Catalog".to_string(), "".to_string())));
    assert_eq!(1, again.len_pages());
    let page = again.get_page(0).unwrap();
    assert!(page.is(QPDFIsObjectType::DictionaryOfType("/Page".to_string(), "".to_string())));
    let media = page.dict_get_key(&again, "/MediaBox".to_string());
    assert_eq!(4, media.array_len());
    assert_eq!(Ok(612), media.array_get_at(&again, 2).try_as_i32());
    let contents = page.dict_get_key(&again, "/Contents".to_string());
    assert!(contents.is(QPDFIsObjectType::Indirect));
    let stream = again.get_object_id(contents.object_id(), contents.generation()).unwrap();
    assert!(stream.is(QPDFIsObjectType::Stream));
    assert_eq!(Ok(33), stream.dict().dict_get_key(&again, "/Length".to_string()).try_as_i64());
    assert_eq!("Sample", again.pdf_get_info_key("/Title".to_string()).unwrap());
    // five objects were reached and numbered from 1 on
    assert!(again.get_object_id(5, 0).is_some());
    assert!(again.get_object_id(6, 0).is_none());

    // writing what was read gives the same bytes again
    again.write_init("again.pdf".to_string(), QPDFWriteParams::default());
    assert_eq!(QPDFInternalErrorCode::Success, again.write());
    assert_eq!(qpdf.output(), again.output());
}

/// The sample with the offset after `startxref` pointing nowhere useful.
fn damaged() -> Vec<u8> {
    let text = String::from_utf8(sample()).unwrap();
    let at = text.rfind("startxref").unwrap();
    let mut out = String::from(&text[..at]);
    out.push_str("startxref\n7\n%%EOF\n");
    out.into_bytes()
}

#[test]
fn damaged_table_is_an_error_without_recovery() {
    let mut qpdf = QPDF::default();
    let status =
        qpdf.process_file(sample_name(), damaged(), QPDFReadParams::default(), None);
    assert_eq!(QPDFInternalErrorCode::Errors, status);
    assert!(qpdf.has_error());
    assert_eq!(QPDFInternalErrorCode::Errors, qpdf.check_pdf());
    let error = qpdf.get_error();
    assert!(error.is_present());
}

#[test]
fn damaged_table_is_rebuilt_with_recovery() {
    let mut qpdf = QPDF::default();
    let status = qpdf.process_file(
        sample_name(),
        damaged(),
        QPDFReadParams::default().with_attempt_recovery(),
        None,
    );
    assert_eq!(QPDFInternalErrorCode::Warnings, status);
    assert_eq!(QPDFInternalErrorCode::Success, qpdf.check_pdf());
    assert_eq!(22, qpdf.get_object_root().unwrap().object_id());
    assert_eq!(1, qpdf.len_pages());
    // the warning is recorded once and drained by its handle
    assert!(qpdf.has_warnings());
    let warning = qpdf.get_next_warning();
    assert_eq!(Ok(QPDFInternalErrorCode::Warnings), warning.code(&qpdf));
    assert_eq!(Ok(ErrorKind::XrefCorruption), warning.kind(&qpdf));
    assert_eq!(Ok(sample_name()), warning.filename(&qpdf));
    assert!(!qpdf.has_warnings());
    assert!(!qpdf.get_next_warning().is_present());
}

#[test]
fn suppressed_warnings_are_not_recorded() {
    let mut qpdf = QPDF::default();
    qpdf.enable_warning_supression();
    let status = qpdf.process_file(
        sample_name(),
        damaged(),
        QPDFReadParams::default().with_attempt_recovery(),
        None,
    );
    assert_eq!(QPDFInternalErrorCode::Warnings, status);
    assert!(!qpdf.has_warnings());
    qpdf.disable_warning_supression();
    assert!(!qpdf.has_warnings());
}

#[test]
fn files_that_are_no_documents_are_parse_errors() {
    let mut qpdf = QPDF::default();
    let status = qpdf.process_file(
        "x".to_string(),
        b"hello".to_vec(),
        QPDFReadParams::default().with_attempt_recovery(),
        None,
    );
    assert_eq!(QPDFInternalErrorCode::Errors, status);
    assert_eq!(Ok(ErrorKind::ParseError), qpdf.get_error().kind(&qpdf));

    // a header without anything else: the scan finds no trailer
    let mut second = QPDF::default();
    let status = second.process_file(
        "y".to_string(),
        b"%PDF-1.7\n".to_vec(),
        QPDFReadParams::default().with_attempt_recovery(),
        None,
    );
    assert_eq!(QPDFInternalErrorCode::Errors, status);
    assert_eq!(Ok(ErrorKind::ParseError), second.get_error().kind(&second));

    let mut third = QPDF::default();
    let status =
        third.process_file("z".to_string(), b"%PDF-1.7\n".to_vec(), QPDFReadParams::default(), None);
    assert_eq!(QPDFInternalErrorCode::Errors, status);
    assert_eq!(Ok(ErrorKind::XrefCorruption), third.get_error().kind(&third));
}

#[test]
fn encrypted_files_are_refused() {
    let bytes = file_of(
        &[
            (1, "<< /Type /Catalog /Pages 2 0 R >>"),
            (2, "<< /Type /Pages /Kids [] /Count 0 >>"),
            (3, "<< /Filter /Standard /V 1 /R 2 /P -44 >>"),
        ],
        "<< /Size 4 /Root 1 0 R /Encrypt 3 0 R >>",
    );
    let mut qpdf = QPDF::default();
    let status = qpdf.process_file(
        "secret.pdf".to_string(),
        bytes,
        QPDFReadParams::default(),
        Some("password".to_string()),
    );
    assert_eq!(QPDFInternalErrorCode::Errors, status);
    let error = qpdf.get_error();
    assert_eq!(Ok(ErrorKind::EncryptionError), error.kind(&qpdf));
    assert_eq!(Ok("secret.pdf: the document is encrypted".to_string()), error.full(&qpdf));
    assert_eq!(Ok("the document is encrypted".to_string()), error.details(&qpdf));
}

#[test]
fn version_rules_of_writing() {
    let mut qpdf = QPDF::default();
    qpdf.empty();
    // a lower minimum keeps the version of the document
    qpdf.write_init(
        "a.pdf".to_string(),
        QPDFWriteParams::default().with_version(QPDFWriteVersion::MinVersion("1.2".to_string())),
    );
    qpdf.write();
    assert!(qpdf.output().starts_with(b"%PDF-1.3\n"));
    // a higher minimum raises it
    qpdf.write_init(
        "b.pdf".to_string(),
        QPDFWriteParams::default().with_version(QPDFWriteVersion::MinVersion("1.10".to_string())),
    );
    qpdf.write();
    assert!(qpdf.output().starts_with(b"%PDF-1.10\n"));
    // a forced version wins even where it is lower
    qpdf.write_init(
        "c.pdf".to_string(),
        QPDFWriteParams::default()
            .with_version(QPDFWriteVersion::ForceVersionAndExtension("1.1".to_string(), 3)),
    );
    qpdf.write();
    assert!(qpdf.output().starts_with(b"%PDF-1.1\n"));
    // a text that is no version is left aside
    qpdf.write_init(
        "d.pdf".to_string(),
        QPDFWriteParams::default().with_version(QPDFWriteVersion::ForceVersion("new".to_string())),
    );
    qpdf.write();
    assert!(qpdf.output().starts_with(b"%PDF-1.3\n"));
}

#[test]
fn the_options_of_reading_reach_the_reader() {
    let text = String::from_utf8(sample()).unwrap();
    let hybrid = text.replace("/Info 3 0 R >>", "/Info 3 0 R /XRefStm 5 >>").into_bytes();
    let mut strict = QPDF::default();
    assert_eq!(
        QPDFInternalErrorCode::Errors,
        strict.process_file(sample_name(), hybrid.clone(), QPDFReadParams::default(), None)
    );
    assert_eq!(Ok(ErrorKind::XrefCorruption), strict.get_error().kind(&strict));
    let mut tolerant = QPDF::default();
    assert_eq!(
        QPDFInternalErrorCode::Success,
        tolerant.process_file(
            sample_name(),
            hybrid,
            QPDFReadParams::default().with_ignore_xref(),
            None
        )
    );
    assert_eq!(22, tolerant.get_object_root().unwrap().object_id());
}

#[test]
fn the_extension_level_is_written_and_read() {
    let mut qpdf = QPDF::default();
    qpdf.empty();
    assert_eq!(0, qpdf.pdf_extension_level());
    qpdf.write_init(
        "a.pdf".to_string(),
        QPDFWriteParams::default()
            .with_version(QPDFWriteVersion::MinVersionAndExtension("1.7".to_string(), 3)),
    );
    assert_eq!(QPDFInternalErrorCode::Success, qpdf.write());
    let text = String::from_utf8(qpdf.output().clone()).unwrap();
    assert!(text.starts_with("%PDF-1.7\n"));
    assert!(text.contains(
        "/Extensions << /ADBE << /BaseVersion /1.7 /ExtensionLevel 3 >> >>"
    ));
    // the document itself declares nothing
    assert!(!qpdf.get_object_root().unwrap().dict_has_key("/Extensions".to_string()));

    let mut again = QPDF::default();
    again.process_file("a.pdf".to_string(), qpdf.output().clone(), QPDFReadParams::default(), None);
    assert_eq!("1.7", again.pdf_version());
    assert_eq!(3, again.pdf_extension_level());
    // a lower minimum changes nothing; the level is kept
    again.write_init(
        "b.pdf".to_string(),
        QPDFWriteParams::default()
            .with_version(QPDFWriteVersion::MinVersionAndExtension("1.7".to_string(), 2)),
    );
    assert_eq!(QPDFInternalErrorCode::Success, again.write());
    assert_eq!(qpdf.output(), again.output());
    // a higher level of the same version is taken
    again.write_init(
        "c.pdf".to_string(),
        QPDFWriteParams::default()
            .with_version(QPDFWriteVersion::MinVersionAndExtension("1.7".to_string(), 8)),
    );
    again.write();
    assert!(String::from_utf8(again.output().clone()).unwrap().contains("/ExtensionLevel 8"));
    // a forced version without a level takes the declaration out
    again.write_init(
        "d.pdf".to_string(),
        QPDFWriteParams::default().with_version(QPDFWriteVersion::ForceVersion("1.4".to_string())),
    );
    again.write();
    let text = String::from_utf8(again.output().clone()).unwrap();
    assert!(text.starts_with("%PDF-1.4\n"));
    assert!(!text.contains("/Extensions"));
}

#[test]
fn builders_set_what_they_name() {
    let base = QPDFWriteParams::default();
    assert_eq!(QPDFWriteObjectStream::Disable, base.object_stream);
    assert_eq!(QPDFWriteStreamData::Uncompress, base.stream_data);
    assert_eq!(QPDFWriteDecodeLevel::Disabled, base.decode_level);
    assert!(matches!(base.version, QPDFWriteVersion::Unset));
    assert!(
        !(base.compress_stream
            || base.preserve_unreferenced_objects
            || base.newline_before_endstream
            || base.content_normalization
            || base.qdf_mode
            || base.static_id
            || base.suppress_original_object_ids
            || base.preserve_encryption
            || base.linearization)
    );
    let all = QPDFWriteParams::default()
        .with_object_stream(QPDFWriteObjectStream::Generate)
        .with_stream_data(QPDFWriteStreamData::Preserve)
        .with_compress_stream()
        .with_decode_level(QPDFWriteDecodeLevel::ALl)
        .with_preserve_unreferenced_objects()
        .with_newline_before_endstream()
        .with_content_normalization()
        .with_qdf_mode()
        .with_static_id()
        .with_suppress_original_object_ids()
        .with_preserve_encryption()
        .with_linearization()
        .with_version(QPDFWriteVersion::ForceVersion("1.6".to_string()));
    assert_eq!(QPDFWriteObjectStream::Generate, all.object_stream);
    assert_eq!(QPDFWriteStreamData::Preserve, all.stream_data);
    assert_eq!(QPDFWriteDecodeLevel::ALl, all.decode_level);
    assert!(matches!(&all.version, QPDFWriteVersion::ForceVersion(v) if v == "1.6"));
    assert!(
        all.compress_stream
            && all.preserve_unreferenced_objects
            && all.newline_before_endstream
            && all.content_normalization
            && all.qdf_mode
            && all.static_id
            && all.suppress_original_object_ids
            && all.preserve_encryption
            && all.linearization
    );
    // one builder changes one field
    let one = QPDFWriteParams::default().with_qdf_mode();
    assert!(one.qdf_mode && !one.static_id && !one.linearization);
    assert_eq!(QPDFWriteObjectStream::Preserve, QPDFWriteParams::default()
        .with_object_stream(QPDFWriteObjectStream::Preserve).object_stream);

    let read = QPDFReadParams::default();
    assert!(!read.attempt_recovery && !read.ignore_xref);
    let read = read.with_attempt_recovery();
    assert!(read.attempt_recovery && !read.ignore_xref);
    let read = read.with_ignore_xref();
    assert!(read.attempt_recovery && read.ignore_xref);
    let mut qpdf = QPDF::default();
    qpdf.process_read_params(QPDFReadParams::default().with_ignore_xref());
    qpdf.attempt_recovery(true);
    qpdf.ignore_xref_streams(false);
    // the options alone load nothing
    assert_eq!(DocState::Uninitialized, qpdf.state());
}

#[test]
fn text_that_is_not_valid_is_read_lossily() {
    let mut qpdf = QPDF::default();
    qpdf.empty();
    let info = ObjectValue::Dictionary(vec![
        ("/Title".to_string(), ObjectValue::String(vec![0x41, 0xff, 0x42])),
        ("/Pages".to_string(), ObjectValue::Integer(3)),
    ]);
    assert!(qpdf.put(3, 0, info));
    let mut trailer = qpdf.get_object_trailer().unwrap();
    trailer.dict_replace_key("/Info".to_string(), qpdf.get_object_id(3, 0).unwrap());
    assert_eq!(QPDFInternalErrorCode::Success, qpdf.replace_trailer(&trailer));
    // the byte that is no text gives way to the replacement character
    assert_eq!(Ok("A\u{fffd}B".to_string()), qpdf.pdf_get_info_key("/Title".to_string()));
    // what is no string is not found
    assert_eq!(Err(QPDFErrors::KeyNotFound), qpdf.pdf_get_info_key("/Pages".to_string()));
    assert_eq!(Err(QPDFErrors::KeyNotFound), qpdf.pdf_get_info_key("/Author".to_string()));
}

fn position(bytes: &[u8], word: &[u8]) -> usize {
    (0..bytes.len() - word.len() + 1).rev().find(|i| &bytes[*i..*i + word.len()] == word).unwrap()
}

#[test]
fn a_written_file_that_lost_its_table_is_rebuilt() {
    let mut qpdf = QPDF::default();
    load(&mut qpdf);
    qpdf.write_init("out.pdf".to_string(), QPDFWriteParams::default());
    assert_eq!(QPDFInternalErrorCode::Success, qpdf.write());
    let whole = qpdf.output().clone();
    // the file without its table and the offset of it
    let table_at = position(&whole, b"endobj\nxref\n") + 7;
    let trailer_at = position(&whole, b"trailer\n");
    let closing_at = position(&whole, b"\nstartxref\n");
    let mut cut: Vec<u8> = Vec::new();
    cut.extend_from_slice(&whole[..table_at]);
    cut.extend_from_slice(&whole[trailer_at..closing_at]);
    cut.extend_from_slice(b"\n%%EOF\n");

    let mut strict = QPDF::default();
    assert_eq!(
        QPDFInternalErrorCode::Errors,
        strict.process_file("cut.pdf".to_string(), cut.clone(), QPDFReadParams::default(), None)
    );
    assert_eq!(Ok(ErrorKind::XrefCorruption), strict.get_error().kind(&strict));

    let mut rebuilt = QPDF::default();
    assert_eq!(
        QPDFInternalErrorCode::Warnings,
        rebuilt.process_file(
            "cut.pdf".to_string(),
            cut,
            QPDFReadParams::default().with_attempt_recovery(),
            None
        )
    );
    assert_eq!(QPDFInternalErrorCode::Success, rebuilt.check_pdf());
    // it is the document that the whole file gives
    let mut again = QPDF::default();
    assert_eq!(
        QPDFInternalErrorCode::Success,
        again.process_file("out.pdf".to_string(), whole, QPDFReadParams::default(), None)
    );
    assert_eq!(again.len_pages(), rebuilt.len_pages());
    assert_eq!(again.pdf_version(), rebuilt.pdf_version());
    for id in 1..=6 {
        assert_eq!(
            format!("{:?}", again.get(id, 0)),
            format!("{:?}", rebuilt.get(id, 0)),
            "object {}",
            id
        );
    }
    assert_eq!(
        format!("{:?}", again.get_object_trailer().unwrap().value()),
        format!("{:?}", rebuilt.get_object_trailer().unwrap().value())
    );
    // written again, both give the same bytes
    again.write_init("a.pdf".to_string(), QPDFWriteParams::default());
    rebuilt.write_init("a.pdf".to_string(), QPDFWriteParams::default());
    assert_eq!(QPDFInternalErrorCode::Success, again.write());
    assert_eq!(QPDFInternalErrorCode::Success, rebuilt.write());
    assert_eq!(again.output(), rebuilt.output());
}
