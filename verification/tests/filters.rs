use qpdf::qpdf::error::QPDFInternalErrorCode;
use qpdf::qpdf::filters::{recode, run_length_decode, run_length_encode, Recoding};
use qpdf::qpdf::object::types::QPDFIsObjectType;
use qpdf::qpdf::object::value::ObjectValue;
use qpdf::qpdf::read::QPDFReadParams;
use qpdf::qpdf::write::{QPDFWriteDecodeLevel, QPDFWriteParams, QPDFWriteStreamData};
use qpdf::qpdf::QPDF;

#[test]
fn run_lengths_are_encoded() {
    assert_eq!(vec![128u8], run_length_encode(&vec![]));
    assert_eq!(vec![0u8, 7, 128], run_length_encode(&vec![7]));
    assert_eq!(vec![255u8, 7, 128], run_length_encode(&vec![7, 7]));
    assert_eq!(
        vec![253u8, b'a', 2, b'b', b'c', b'd', 128],
        run_length_encode(&b"aaaabcd".to_vec())
    );
    assert_eq!(
        vec![1u8, b'a', b'b', 254, b'c', 0, b'd', 128],
        run_length_encode(&b"abcccd".to_vec())
    );
    // a run is at most 128 bytes long
    assert_eq!(vec![129u8, 9, 129, 9, 0, 9, 128], run_length_encode(&vec![9u8; 257]));
    // so are bytes taken as they are
    let plain: Vec<u8> = (0..130u8).collect();
    let code = run_length_encode(&plain);
    assert_eq!(127, code[0]);
    assert_eq!(1, code[129]);
    assert_eq!(vec![128u8, 129, 128], code[130..].to_vec());
}

#[test]
fn run_lengths_are_decoded() {
    assert_eq!(Some(vec![]), run_length_decode(&vec![128]));
    assert_eq!(Some(vec![]), run_length_decode(&vec![]));
    assert_eq!(Some(b"aaaabcd".to_vec()), run_length_decode(&vec![253, b'a', 2, b'b', b'c', b'd', 128]));
    // what follows the end mark is not looked at
    assert_eq!(Some(vec![5, 5]), run_length_decode(&vec![255, 5, 128, 3, 1]));
    // the end mark may be missing
    assert_eq!(Some(vec![5, 6]), run_length_decode(&vec![1, 5, 6]));
    assert_eq!(Some(vec![4u8; 128]), run_length_decode(&vec![129, 4]));
    // the bytes end within a run
    assert_eq!(None, run_length_decode(&vec![1, 5]));
    assert_eq!(None, run_length_decode(&vec![200]));
    assert_eq!(None, run_length_decode(&vec![0]));
}

#[test]
fn every_kind_of_data_comes_back() {
    let mut samples: Vec<Vec<u8>> = vec![
        vec![],
        vec![0],
        vec![128],
        vec![128, 128, 128],
        b"abababab".to_vec(),
        (0..=255u8).collect(),
        vec![1u8; 1000],
    ];
    let mut mixed = Vec::new();
    for i in 0..2000u32 {
        mixed.push(((i * i / 7) % 5) as u8);
    }
    samples.push(mixed);
    for plain in samples {
        let code = run_length_encode(&plain);
        assert_eq!(Some(plain), run_length_decode(&code));
    }
}

fn stream(filter: Option<&str>, data: &[u8]) -> ObjectValue {
    let mut entries = vec![("/Length".to_string(), ObjectValue::Integer(data.len() as i64))];
    if let Some(name) = filter {
        entries.push(("/Filter".to_string(), ObjectValue::Name(name.to_string())));
        entries.push(("/DecodeParms".to_string(), ObjectValue::Null));
    }
    ObjectValue::Stream(entries, data.to_vec())
}

fn parts(v: &ObjectValue) -> (Vec<String>, Vec<u8>) {
    match v {
        ObjectValue::Stream(entries, data) => {
            (entries.iter().map(|e| e.0.clone()).collect(), data.clone())
        }
        other => panic!("{:?}", other),
    }
}

fn rc(compress: bool, decode: bool, level: QPDFWriteDecodeLevel) -> Recoding {
    Recoding { compress, decode, level }
}

#[test]
fn streams_are_recoded_as_asked() {
    let plain = stream(None, b"aaaaaaaaaa");
    let hex = stream(Some("/ASCIIHexDecode"), b"61 62\n63>");
    let runs = stream(Some("/RunLengthDecode"), &[253, b'a', 128]);
    let flate = stream(Some("/FlateDecode"), b"opaque");

    // nothing asked for: nothing changes
    for v in [&plain, &hex, &runs, &flate] {
        let same = recode(v, &rc(false, false, QPDFWriteDecodeLevel::ALl));
        assert_eq!(parts(v), parts(&same));
        let same = recode(v, &rc(false, true, QPDFWriteDecodeLevel::Disabled));
        assert_eq!(parts(v), parts(&same));
    }
    // the general level undoes hexadecimal digits, not run lengths
    let level = rc(false, true, QPDFWriteDecodeLevel::Generalized);
    assert_eq!((vec!["/Length".to_string()], b"abc".to_vec()), parts(&recode(&hex, &level)));
    assert_eq!(parts(&runs), parts(&recode(&runs, &level)));
    // the special level undoes both
    let level = rc(false, true, QPDFWriteDecodeLevel::Specialized);
    assert_eq!((vec!["/Length".to_string()], b"abc".to_vec()), parts(&recode(&hex, &level)));
    assert_eq!((vec!["/Length".to_string()], b"aaaa".to_vec()), parts(&recode(&runs, &level)));
    // a filter that the library does not know stays
    assert_eq!(parts(&flate), parts(&recode(&flate, &level)));
    // data that cannot be decoded stays
    let broken = stream(Some("/ASCIIHexDecode"), b"6x>");
    assert_eq!(parts(&broken), parts(&recode(&broken, &level)));
    // compression encodes what has no filter
    let packed = recode(&plain, &rc(true, false, QPDFWriteDecodeLevel::Disabled));
    assert_eq!(
        (vec!["/Length".to_string(), "/Filter".to_string()], vec![247, b'a', 128]),
        parts(&packed)
    );
    assert_eq!(parts(&hex), parts(&recode(&hex, &rc(true, false, QPDFWriteDecodeLevel::ALl))));
    // what is no stream stays
    let other = recode(&ObjectValue::Integer(3), &rc(true, false, QPDFWriteDecodeLevel::ALl));
    assert!(matches!(other, ObjectValue::Integer(3)));
}

fn document_with_stream() -> QPDF {
    let mut qpdf = QPDF::default();
    qpdf.empty();
    assert!(qpdf.put(3, 0, stream(None, b"zzzzzzzzzzzzzzzzzzzz and more")));
    let mut root = qpdf.get_object_id(1, 0).unwrap();
    root.dict_replace_key("/Data".to_string(), qpdf.get_object_id(3, 0).unwrap());
    root.replace(&mut qpdf, 1, 0);
    qpdf
}

fn read_back(bytes: &Vec<u8>) -> QPDF {
    let mut again = QPDF::default();
    assert_eq!(
        QPDFInternalErrorCode::Success,
        again.process_file("a.pdf".to_string(), bytes.clone(), QPDFReadParams::default(), None)
    );
    again
}

#[test]
fn the_options_of_writing_reach_the_streams() {
    let mut qpdf = document_with_stream();
    // the default keeps the data
    qpdf.write_init("a.pdf".to_string(), QPDFWriteParams::default());
    assert_eq!(QPDFInternalErrorCode::Success, qpdf.write());
    let kept = read_back(qpdf.output());
    let data = kept.get_object_id(3, 0).unwrap();
    assert!(!data.dict().dict_has_key("/Filter".to_string()));
    assert_eq!(Ok(29), data.dict().dict_get_key(&kept, "/Length".to_string()).try_as_i64());

    // compression packs it and names the filter; the document itself keeps its data
    qpdf.write_init(
        "b.pdf".to_string(),
        QPDFWriteParams::default().with_stream_data(QPDFWriteStreamData::Compress),
    );
    assert_eq!(QPDFInternalErrorCode::Success, qpdf.write());
    let mut packed = read_back(qpdf.output());
    let data = packed.get_object_id(3, 0).unwrap();
    assert!(data.is(QPDFIsObjectType::Stream));
    assert_eq!(
        Ok("/RunLengthDecode".to_string()),
        data.dict().dict_get_key(&packed, "/Filter".to_string()).name()
    );
    assert_eq!(Ok(13), data.dict().dict_get_key(&packed, "/Length".to_string()).try_as_i64());
    assert!(!qpdf.get_object_id(3, 0).unwrap().dict().dict_has_key("/Filter".to_string()));

    // the flag for compression does the same
    qpdf.write_init("c.pdf".to_string(), QPDFWriteParams::default().with_compress_stream());
    let before = qpdf.output().clone();
    assert_eq!(QPDFInternalErrorCode::Success, qpdf.write());
    assert_eq!(&before, qpdf.output());

    // written without compression at the special level, the data is plain again
    packed.write_init(
        "d.pdf".to_string(),
        QPDFWriteParams::default()
            .with_stream_data(QPDFWriteStreamData::Uncompress)
            .with_decode_level(QPDFWriteDecodeLevel::Specialized),
    );
    assert_eq!(QPDFInternalErrorCode::Success, packed.write());
    let plain = read_back(packed.output());
    let data = plain.get_object_id(3, 0).unwrap();
    assert!(!data.dict().dict_has_key("/Filter".to_string()));
    assert_eq!(Ok(29), data.dict().dict_get_key(&plain, "/Length".to_string()).try_as_i64());
    assert_eq!(kept.output(), plain.output());

    // the general level leaves run lengths alone
    packed.write_init(
        "e.pdf".to_string(),
        QPDFWriteParams::default().with_decode_level(QPDFWriteDecodeLevel::Generalized),
    );
    assert_eq!(QPDFInternalErrorCode::Success, packed.write());
    let still = read_back(packed.output());
    assert!(still.get_object_id(3, 0).unwrap().dict().dict_has_key("/Filter".to_string()));
    // and so does preserving
    packed.write_init(
        "f.pdf".to_string(),
        QPDFWriteParams::default()
            .with_stream_data(QPDFWriteStreamData::Preserve)
            .with_decode_level(QPDFWriteDecodeLevel::ALl),
    );
    assert_eq!(QPDFInternalErrorCode::Success, packed.write());
    let still = read_back(packed.output());
    assert!(still.get_object_id(3, 0).unwrap().dict().dict_has_key("/Filter".to_string()));
}

#[test]
fn the_layout_to_be_read_by_eye_packs_nothing() {
    let mut qpdf = QPDF::default();
    qpdf.empty();
    assert!(qpdf.put(3, 0, stream(Some("/ASCIIHexDecode"), b"48 65 6c 6c 6f>")));
    let mut root = qpdf.get_object_id(1, 0).unwrap();
    root.dict_replace_key("/Data".to_string(), qpdf.get_object_id(3, 0).unwrap());
    root.replace(&mut qpdf, 1, 0);
    // asked to compress and to pack, the layout does neither
    let params = QPDFWriteParams::default()
        .with_qdf_mode()
        .with_compress_stream()
        .with_object_stream(qpdf::qpdf::write::QPDFWriteObjectStream::Generate);
    qpdf.write_init("q.pdf".to_string(), params);
    assert_eq!(QPDFInternalErrorCode::Success, qpdf.write());
    let text = String::from_utf8_lossy(qpdf.output()).to_string();
    assert!(text.starts_with("%PDF-1.3\n"));
    assert!(text.contains("\nxref\n"));
    assert!(!text.contains("/ObjStm"));
    assert!(!text.contains("/Filter"));
    assert!(text.contains("stream\nHello\nendstream"));
    let again = read_back(qpdf.output());
    let data = again.get_object_id(3, 0).unwrap();
    assert_eq!(Ok(5), data.dict().dict_get_key(&again, "/Length".to_string()).try_as_i64());
}
