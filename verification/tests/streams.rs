use qpdf::qpdf::document::load_document;
use qpdf::qpdf::error::{ErrorKind, QPDFInternalErrorCode};
use qpdf::qpdf::object::types::QPDFIsObjectType;
use qpdf::qpdf::object::value::ObjectValue;
use qpdf::qpdf::read::QPDFReadParams;
use qpdf::qpdf::streams::{read_field, read_nth_pair, read_object_in_stream};
use qpdf::qpdf::QPDF;

fn hex(bytes: &[u8]) -> Vec<u8> {
    let mut out = Vec::new();
    for b in bytes {
        out.extend_from_slice(format!("{:02x}", b).as_bytes());
    }
    out.push(b'>');
    out
}

/// A file whose cross-reference data is a stream, and whose objects 3 and
/// 4 are held in the object stream 2. `index` is the text of `/Index`,
/// `filtered` asks for the data of the cross-reference stream in
/// hexadecimal digits.
fn modern(filtered: bool, index: &str, bad_member: bool) -> Vec<u8> {
    let mut file: Vec<u8> = b"%PDF-1.5\n".to_vec();
    let first = file.len();
    file.extend_from_slice(b"1 0 obj\n<< /Type /Catalog /Pages 3 0 R >>\nendobj\n");
    let second = file.len();
    let members = "<< /Type /Pages /Kids [ ] /Count 0 >> (text)";
    let header = if bad_member { "3 0 5 38 " } else { "3 0 4 38 " };
    let data = format!("{}{}", header, members);
    file.extend_from_slice(
        format!(
            "2 0 obj\n<< /Type /ObjStm /N 2 /First {} /Length {} >>\nstream\n{}\nendstream\nendobj\n",
            header.len(),
            data.len(),
            data
        )
        .as_bytes(),
    );
    let table = file.len();
    let row = |kind: u8, middle: usize, last: u8| -> Vec<u8> {
        vec![kind, (middle / 256) as u8, (middle % 256) as u8, last]
    };
    let mut rows: Vec<u8> = Vec::new();
    rows.extend(row(0, 0, 255));
    rows.extend(row(1, first, 0));
    rows.extend(row(1, second, 0));
    rows.extend(row(2, 2, 0));
    rows.extend(row(2, 2, 1));
    rows.extend(row(1, table, 0));
    let (filter, rows) =
        if filtered { ("/Filter /ASCIIHexDecode ", hex(&rows)) } else { ("", rows) };
    file.extend_from_slice(
        format!(
            "5 0 obj\n<< /Type /XRef /W [ 1 2 1 ] {}/Size 6 {}/Root 1 0 R /Length {} >>\nstream\n",
            index,
            filter,
            rows.len()
        )
        .as_bytes(),
    );
    file.extend_from_slice(&rows);
    file.extend_from_slice(format!("\nendstream\nendobj\nstartxref\n{}\n%%EOF\n", table).as_bytes());
    file
}

#[test]
fn a_cross_reference_stream_is_read() {
    for filtered in [false, true] {
        for index in ["", "/Index [ 0 6 ] ", "/Index [ 0 2 2 4 ] "] {
            let loaded = load_document(&modern(filtered, index, false), false, false).ok().unwrap();
            assert!(!loaded.recovered);
            assert_eq!("1.5", loaded.version);
            assert_eq!(5, loaded.objects.len());
            assert!(matches!(loaded.objects.get(1, 0), Some(ObjectValue::Dictionary(_))));
            assert!(matches!(loaded.objects.get(2, 0), Some(ObjectValue::Stream(_, _))));
            // the objects that the object stream holds
            match loaded.objects.get(3, 0) {
                Some(ObjectValue::Dictionary(entries)) => assert_eq!(3, entries.len()),
                other => panic!("{:?}", other),
            }
            match loaded.objects.get(4, 0) {
                Some(ObjectValue::String(bytes)) => assert_eq!(b"text".to_vec(), bytes),
                other => panic!("{:?}", other),
            }
            // the dictionary of the stream is the trailer
            assert!(loaded.trailer.iter().any(|e| e.0 == "/Root"));
        }
    }
}

#[test]
fn a_cross_reference_stream_can_be_left_aside() {
    let bytes = modern(false, "", false);
    assert_eq!(Some(ErrorKind::XrefCorruption), load_document(&bytes, false, true).err());
    // the scan finds the objects that stand in the file, but no trailer
    assert_eq!(Some(ErrorKind::ParseError), load_document(&bytes, true, true).err());
}

#[test]
fn damaged_cross_reference_streams_are_damage() {
    // an index that names more rows than there are
    let bytes = modern(false, "/Index [ 0 7 ] ", false);
    assert_eq!(Some(ErrorKind::XrefCorruption), load_document(&bytes, false, false).err());
    // an index with half a pair
    let bytes = modern(false, "/Index [ 0 ] ", false);
    assert_eq!(Some(ErrorKind::XrefCorruption), load_document(&bytes, false, false).err());
    // an object stream that names another number at the place
    let bytes = modern(false, "", true);
    assert_eq!(Some(ErrorKind::XrefCorruption), load_document(&bytes, false, false).err());
    // widths that are none
    let text = String::from_utf8_lossy(&modern(true, "", false)).replace("[ 1 2 1 ]", "[ 1 2 ]");
    assert_eq!(
        Some(ErrorKind::XrefCorruption),
        load_document(&text.into_bytes(), false, false).err()
    );
    let text = String::from_utf8_lossy(&modern(true, "", false)).replace("[ 1 2 1 ]", "[ 0 0 0 ]");
    assert_eq!(
        Some(ErrorKind::XrefCorruption),
        load_document(&text.into_bytes(), false, false).err()
    );
    // a filter that the library does not undo
    let text =
        String::from_utf8_lossy(&modern(true, "", false)).replace("/ASCIIHexDecode", "/FlateDecode");
    assert_eq!(
        Some(ErrorKind::XrefCorruption),
        load_document(&text.into_bytes(), false, false).err()
    );
}

#[test]
fn a_document_with_streams_of_objects_is_a_document() {
    let mut qpdf = QPDF::default();
    assert_eq!(
        QPDFInternalErrorCode::Success,
        qpdf.process_file(
            "modern.pdf".to_string(),
            modern(true, "", false),
            QPDFReadParams::default(),
            None
        )
    );
    assert_eq!(QPDFInternalErrorCode::Success, qpdf.check_pdf());
    assert_eq!(0, qpdf.len_pages());
    let pages = qpdf.get_object_root().unwrap().dict_get_key(&qpdf, "/Pages".to_string());
    assert_eq!(3, pages.object_id());
    let tree = qpdf.get_object_id(3, 0).unwrap();
    assert!(tree.is(QPDFIsObjectType::DictionaryOfType("/Pages".to_string(), "".to_string())));
}

#[test]
fn fields_count_their_first_byte_most() {
    let data = vec![1u8, 2, 3, 255, 255, 255, 255, 255, 255, 255];
    assert_eq!(0, read_field(&data, 0, 0));
    assert_eq!(1, read_field(&data, 0, 1));
    assert_eq!(258, read_field(&data, 0, 2));
    assert_eq!(66051, read_field(&data, 0, 3));
    assert_eq!(0x00ff_ffff_ffff_ffff, read_field(&data, 3, 7));
    assert_eq!(0, read_field(&data, 10, 0));
}

#[test]
fn pairs_and_members_of_an_object_stream() {
    let plain = b" 10 0\n11 7 12 9 true (x) 5".to_vec();
    assert_eq!(Some((10, 0)), read_nth_pair(&plain, 0));
    assert_eq!(Some((11, 7)), read_nth_pair(&plain, 1));
    assert_eq!(Some((12, 9)), read_nth_pair(&plain, 2));
    assert_eq!(None, read_nth_pair(&plain, 3));
    assert_eq!(None, read_nth_pair(&b"1 99".to_vec(), 0));
    assert_eq!(None, read_nth_pair(&b"8388608 0".to_vec(), 0));

    let container = |n: i64, first: i64| {
        ObjectValue::Stream(
            vec![
                ("/Type".to_string(), ObjectValue::Name("/ObjStm".to_string())),
                ("/N".to_string(), ObjectValue::Integer(n)),
                ("/First".to_string(), ObjectValue::Integer(first)),
            ],
            b"10 0 11 5 true (x)".to_vec(),
        )
    };
    assert!(matches!(
        read_object_in_stream(&container(2, 10), 0, 10),
        Some(ObjectValue::Bool(true))
    ));
    assert!(matches!(read_object_in_stream(&container(2, 10), 1, 11), Some(ObjectValue::String(_))));
    // another number at the place, a place that is none, a start that is none
    assert!(read_object_in_stream(&container(2, 10), 1, 10).is_none());
    assert!(read_object_in_stream(&container(2, 10), 2, 11).is_none());
    assert!(read_object_in_stream(&container(1, 10), 1, 11).is_none());
    assert!(read_object_in_stream(&container(2, 99), 0, 10).is_none());
    assert!(read_object_in_stream(&container(2, -1), 0, 10).is_none());
    assert!(read_object_in_stream(&ObjectValue::Null, 0, 10).is_none());
}
