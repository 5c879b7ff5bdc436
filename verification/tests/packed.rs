use qpdf::qpdf::error::QPDFInternalErrorCode;
use qpdf::qpdf::object::types::{ObjectRef, QPDFIsObjectType};
use qpdf::qpdf::object::value::ObjectValue;
use qpdf::qpdf::packed::{push_field, push_row};
use qpdf::qpdf::read::QPDFReadParams;
use qpdf::qpdf::write::{QPDFWriteObjectStream, QPDFWriteParams, QPDFWriteVersion};
use qpdf::qpdf::QPDF;

fn packing() -> QPDFWriteParams {
    QPDFWriteParams::default().with_object_stream(QPDFWriteObjectStream::Generate)
}

fn written(qpdf: &mut QPDF, params: QPDFWriteParams) -> Vec<u8> {
    assert_eq!(QPDFInternalErrorCode::Success, qpdf.write_init("out.pdf".to_string(), params));
    assert_eq!(QPDFInternalErrorCode::Success, qpdf.write());
    qpdf.output().clone()
}

fn read(bytes: &Vec<u8>) -> QPDF {
    let mut qpdf = QPDF::default();
    assert_eq!(
        QPDFInternalErrorCode::Success,
        qpdf.process_file("in.pdf".to_string(), bytes.clone(), QPDFReadParams::default(), None)
    );
    qpdf
}

#[test]
fn fields_and_rows() {
    let mut out = Vec::new();
    push_field(&mut out, 0x0102, 3);
    assert_eq!(vec![0u8, 1, 2], out);
    push_field(&mut out, 0xabcdef, 2);
    assert_eq!(vec![0u8, 1, 2, 0xcd, 0xef], out);
    push_field(&mut out, 7, 0);
    assert_eq!(5, out.len());
    let mut row = Vec::new();
    push_row(&mut row, 2, 9999999999, 258);
    assert_eq!(vec![2u8, 0x02, 0x54, 0x0b, 0xe3, 0xff, 0, 1, 2], row);
}

#[test]
fn the_blank_document_is_packed_byte_for_byte() {
    let mut qpdf = QPDF::default();
    qpdf.empty();
    let bytes = written(&mut qpdf, packing());
    let mut expected: Vec<u8> = Vec::new();
    expected.extend_from_slice(b"%PDF-1.5\n");
    let container_at = expected.len();
    let pairs = "1 0 2 34 ";
    let members = "<< /Type /Catalog /Pages 2 0 R >>\n<< /Type /Pages /Kids [ ] /Count 0 >>\n";
    expected.extend_from_slice(
        format!(
            "3 0 obj\n<< /Type /ObjStm /N 2 /First {} /Length {} >>\nstream\n{}{}\nendstream\nendobj\n",
            pairs.len(),
            pairs.len() + members.len(),
            pairs,
            members
        )
        .as_bytes(),
    );
    let table_at = expected.len();
    expected.extend_from_slice(
        b"4 0 obj\n<< /Root 1 0 R /Size 5 /Type /XRef /W [ 1 5 3 ] /Length 45 >>\nstream\n",
    );
    expected.extend_from_slice(&[0, 0, 0, 0, 0, 0, 0, 0, 0]);
    expected.extend_from_slice(&[2, 0, 0, 0, 0, 3, 0, 0, 0]);
    expected.extend_from_slice(&[2, 0, 0, 0, 0, 3, 0, 0, 1]);
    expected.extend_from_slice(&[1, 0, 0, 0, 0, container_at as u8, 0, 0, 0]);
    expected.extend_from_slice(&[1, 0, 0, 0, 0, table_at as u8, 0, 0, 0]);
    expected
        .extend_from_slice(format!("\nendstream\nendobj\n\nstartxref\n{}\n%%EOF\n", table_at).as_bytes());
    assert_eq!(String::from_utf8_lossy(&expected), String::from_utf8_lossy(&bytes));
    assert_eq!(expected, bytes);
}

fn sample() -> QPDF {
    let mut qpdf = QPDF::default();
    qpdf.empty();
    let data = ObjectValue::Stream(
        vec![("/Length".to_string(), ObjectValue::Integer(9))],
        b"endstream".to_vec(),
    );
    assert!(qpdf.put(3, 0, data));
    assert!(qpdf.put(
        4,
        0,
        ObjectValue::Array(vec![
            ObjectValue::Integer(1),
            ObjectValue::Integer(2),
            ObjectValue::Indirect(ObjectRef::new(3, 0)),
            ObjectValue::Real("0.5".to_string()),
        ])
    ));
    assert!(qpdf.put(5, 0, ObjectValue::Integer(7)));
    assert!(qpdf.put(6, 0, ObjectValue::Integer(8)));
    let mut root = qpdf.get_object_id(1, 0).unwrap();
    root.dict_replace_key("/List".to_string(), qpdf.get_object_id(4, 0).unwrap());
    root.dict_replace_key("/Seven".to_string(), qpdf.get_object_id(5, 0).unwrap());
    root.dict_replace_key("/Eight".to_string(), qpdf.get_object_id(6, 0).unwrap());
    root.replace(&mut qpdf, 1, 0);
    qpdf.pdf_set_info_key("/Title".to_string(), "Packed".to_string());
    qpdf
}

#[test]
fn a_packed_file_is_read_as_the_document() {
    let mut qpdf = sample();
    let plain = written(&mut qpdf, QPDFWriteParams::default());
    let packed = written(&mut qpdf, packing());
    assert_ne!(plain, packed);
    assert!(packed.starts_with(b"%PDF-1.5\n"));
    let text = String::from_utf8_lossy(&packed).to_string();
    assert!(text.contains("/Type /ObjStm"));
    assert!(text.contains("/Type /XRef"));
    assert!(!text.contains("trailer"));

    let mut again = read(&packed);
    assert_eq!(QPDFInternalErrorCode::Success, again.check_pdf());
    assert_eq!("Packed", again.pdf_get_info_key("/Title".to_string()).unwrap());
    let root = again.get_object_root().unwrap();
    let list = root.dict_get_key(&again, "/List".to_string());
    let list = again.get_object_id(list.object_id(), 0).unwrap();
    assert_eq!(4, list.array_len());
    assert_eq!(Ok(2), list.array_get_at(&again, 1).try_as_i64());
    let data = list.array_get_at(&again, 2);
    assert!(data.is(QPDFIsObjectType::Indirect));
    let data = again.get_object_id(data.object_id(), 0).unwrap();
    assert!(data.is(QPDFIsObjectType::Stream));
    let seven = again.get_object_id(root.dict_get_key(&again, "/Seven".to_string()).object_id(), 0);
    assert_eq!(Ok(7), seven.unwrap().try_as_i64());
    let eight = again.get_object_id(root.dict_get_key(&again, "/Eight".to_string()).object_id(), 0);
    assert_eq!(Ok(8), eight.unwrap().try_as_i64());

    // written without object streams, it is the plain file of the same version
    let unpacked = written(
        &mut again,
        QPDFWriteParams::default().with_version(QPDFWriteVersion::ForceVersion("1.3".to_string())),
    );
    assert_eq!(String::from_utf8_lossy(&plain), String::from_utf8_lossy(&unpacked));
    // and packed again, it is the packed file
    let repacked = written(&mut again, packing());
    assert_eq!(packed, repacked);
}

#[test]
fn a_packed_file_needs_its_streams_to_be_read() {
    let mut qpdf = sample();
    let packed = written(&mut qpdf, packing());
    let mut strict = QPDF::default();
    assert_eq!(
        QPDFInternalErrorCode::Errors,
        strict.process_file(
            "in.pdf".to_string(),
            packed,
            QPDFReadParams::default().with_ignore_xref(),
            None
        )
    );
}

#[test]
fn the_version_of_a_packed_file() {
    let mut qpdf = sample();
    // a higher minimum stays
    let bytes = written(
        &mut qpdf,
        packing().with_version(QPDFWriteVersion::MinVersion("1.7".to_string())),
    );
    assert!(bytes.starts_with(b"%PDF-1.7\n"));
    // a lower one is raised
    let bytes = written(
        &mut qpdf,
        packing().with_version(QPDFWriteVersion::MinVersion("1.4".to_string())),
    );
    assert!(bytes.starts_with(b"%PDF-1.5\n"));
    // a forced version is kept as it is
    let bytes = written(
        &mut qpdf,
        packing().with_version(QPDFWriteVersion::ForceVersion("1.2".to_string())),
    );
    assert!(bytes.starts_with(b"%PDF-1.2\n"));
    // to preserve object streams is to write none
    let kept = written(
        &mut qpdf,
        QPDFWriteParams::default().with_object_stream(QPDFWriteObjectStream::Preserve),
    );
    let plain = written(&mut qpdf, QPDFWriteParams::default());
    assert_eq!(plain, kept);
}

#[test]
fn a_packed_file_holds_its_two_streams_after_the_objects() {
    let mut qpdf = QPDF::default();
    qpdf.empty();
    let bytes = written(&mut qpdf, packing());
    let again = read(&bytes);
    assert_eq!("1.5", again.pdf_version());
    // the objects that were written, under their numbers
    let root = again.get(1, 0).unwrap();
    match &root {
        ObjectValue::Dictionary(entries) => {
            assert_eq!(2, entries.len());
            assert_eq!("/Type", entries[0].0);
            assert_eq!("/Pages", entries[1].0);
            assert!(matches!(&entries[1].1, ObjectValue::Indirect(r) if r.id == 2 && r.generation == 0));
        }
        _ => panic!("the root is a dictionary"),
    }
    assert!(matches!(again.get(2, 0), Some(ObjectValue::Dictionary(_))));
    // then the object stream
    let pairs = "1 0 2 34 ";
    let members = "<< /Type /Catalog /Pages 2 0 R >>\n<< /Type /Pages /Kids [ ] /Count 0 >>\n";
    match again.get(3, 0) {
        Some(ObjectValue::Stream(entries, data)) => {
            assert_eq!(4, entries.len());
            assert!(matches!(&entries[0].1, ObjectValue::Name(n) if n == "/ObjStm"));
            assert!(matches!(&entries[1].1, ObjectValue::Integer(2)));
            assert!(matches!(&entries[2].1, ObjectValue::Integer(9)));
            assert_eq!(format!("{}{}", pairs, members).as_bytes().to_vec(), data);
        }
        _ => panic!("the object stream is a stream"),
    }
    // then the cross-reference stream, and nothing after it
    match again.get(4, 0) {
        Some(ObjectValue::Stream(entries, data)) => {
            assert_eq!(5, entries.len());
            assert_eq!(45, data.len());
            assert_eq!(vec![2u8, 0, 0, 0, 0, 3, 0, 0, 1], data[18..27].to_vec());
        }
        _ => panic!("the cross-reference stream is a stream"),
    }
    assert!(again.get(5, 0).is_none());
    // the trailer is the dictionary of the cross-reference stream without
    // what describes the stream
    let trailer = again.get_object_trailer().unwrap();
    assert!(trailer.dict_has_key("/Root".to_string()));
    assert_eq!(Ok(5), trailer.dict_get_key(&again, "/Size".to_string()).try_as_i64());
    assert!(!trailer.dict_has_key("/Type".to_string()));
    assert!(!trailer.dict_has_key("/W".to_string()));
    assert!(!trailer.dict_has_key("/Length".to_string()));
}

#[test]
fn whole_numbers_side_by_side_stay_apart_in_an_object_stream() {
    let mut qpdf = QPDF::default();
    qpdf.empty();
    assert!(qpdf.put(3, 0, ObjectValue::Integer(5)));
    assert!(qpdf.put(4, 0, ObjectValue::Integer(0)));
    assert!(qpdf.put(5, 0, ObjectValue::Indirect(ObjectRef::new(3, 0))));
    assert!(qpdf.put(6, 0, ObjectValue::Real("1.5".to_string())));
    let params = packing().with_preserve_unreferenced_objects();
    let bytes = written(&mut qpdf, params);
    let again = read(&bytes);
    let mut five = 0;
    let mut zero = 0;
    let mut reference = 0;
    let mut real = 0;
    for id in 1..=6 {
        match again.get(id, 0) {
            Some(ObjectValue::Integer(5)) => five += 1,
            Some(ObjectValue::Integer(0)) => zero += 1,
            Some(ObjectValue::Indirect(r)) => {
                assert!(matches!(again.resolve(r), ObjectValue::Integer(5)));
                reference += 1;
            }
            Some(ObjectValue::Real(text)) => {
                assert_eq!("1.5", text);
                real += 1;
            }
            Some(ObjectValue::Dictionary(_)) => {}
            other => panic!("object {} is read as {:?}", id, other),
        }
    }
    assert_eq!((1, 1, 1, 1), (five, zero, reference, real));
}
