use qpdf::qpdf::document::{
    load_document, read_header_version, read_indirect_object, read_xref_table,
};
use qpdf::qpdf::error::ErrorKind;
use qpdf::qpdf::object::types::ObjectRef;
use qpdf::qpdf::object::value::ObjectValue;
use qpdf::qpdf::reader::{read_value, MAX_DEPTH};
use qpdf::qpdf::syntax::{push_int, read_digits, skip_white};
use qpdf::qpdf::writer::push_value;

fn parse(text: &str) -> Option<(ObjectValue, usize)> {
    read_value(&text.as_bytes().to_vec(), 0, MAX_DEPTH)
}

fn written(value: &ObjectValue) -> String {
    let mut out = Vec::new();
    push_value(&mut out, value);
    String::from_utf8(out).unwrap()
}

/// Two values are the same, member by member.
fn same(a: &ObjectValue, b: &ObjectValue) -> bool {
    match (a, b) {
        (ObjectValue::Null, ObjectValue::Null) => true,
        (ObjectValue::Bool(x), ObjectValue::Bool(y)) => x == y,
        (ObjectValue::Integer(x), ObjectValue::Integer(y)) => x == y,
        (ObjectValue::Real(x), ObjectValue::Real(y)) => x == y,
        (ObjectValue::Name(x), ObjectValue::Name(y)) => x == y,
        (ObjectValue::String(x), ObjectValue::String(y)) => x == y,
        (ObjectValue::Operator(x), ObjectValue::Operator(y)) => x == y,
        (ObjectValue::Indirect(x), ObjectValue::Indirect(y)) => x == y,
        (ObjectValue::Array(x), ObjectValue::Array(y)) => {
            x.len() == y.len() && x.iter().zip(y).all(|(p, q)| same(p, q))
        }
        (ObjectValue::Dictionary(x), ObjectValue::Dictionary(y)) => {
            x.len() == y.len() && x.iter().zip(y).all(|(p, q)| p.0 == q.0 && same(&p.1, &q.1))
        }
        (ObjectValue::Stream(x, d), ObjectValue::Stream(y, e)) => {
            d == e && x.len() == y.len() && x.iter().zip(y).all(|(p, q)| p.0 == q.0 && same(&p.1, &q.1))
        }
        _ => false,
    }
}

fn reads_as(text: &str, expected: ObjectValue, end: usize) {
    let (value, next) = parse(text).unwrap();
    assert!(same(&value, &expected), "{} read as {:?}", text, value);
    assert_eq!(end, next, "{}", text);
}

#[test]
fn keywords_and_numbers() {
    reads_as("null", ObjectValue::Null, 4);
    reads_as("true ", ObjectValue::Bool(true), 4);
    reads_as("  false]", ObjectValue::Bool(false), 7);
    reads_as("0", ObjectValue::Integer(0), 1);
    reads_as("-17 ", ObjectValue::Integer(-17), 3);
    reads_as("+17", ObjectValue::Integer(17), 3);
    reads_as("007", ObjectValue::Integer(7), 3);
    reads_as("9223372036854775807", ObjectValue::Integer(i64::MAX), 19);
    reads_as("-9223372036854775808", ObjectValue::Integer(i64::MIN), 20);
    reads_as("3.14", ObjectValue::Real("3.14".to_string()), 4);
    reads_as("-.5", ObjectValue::Real("-.5".to_string()), 3);
    reads_as("4.", ObjectValue::Real("4.".to_string()), 2);
    reads_as("+0.0/", ObjectValue::Real("+0.0".to_string()), 4);
    for bad in [
        "9223372036854775808",
        "-9223372036854775809",
        ".",
        "-",
        "+",
        "1.2.3",
        "1e5",
        "--1",
        "12a",
        "nul",
        "nulll",
        "True",
        "",
        "   ",
        "% only a comment",
        ")",
        "]",
        ">>",
    ] {
        assert!(parse(bad).is_none(), "{}", bad);
    }
}

#[test]
fn white_space_and_comments_are_skipped() {
    reads_as("\n\t % a comment\r\n  42", ObjectValue::Integer(42), 20);
    reads_as("%one\n%two\n/N", ObjectValue::Name("/N".to_string()), 12);
    let bytes = b"  %x\n  y".to_vec();
    assert_eq!(7, skip_white(&bytes, 0));
    assert_eq!(8, skip_white(&bytes, 8));
    assert_eq!(3, skip_white(&b"\0\x0c ".to_vec(), 0));
}

#[test]
fn names() {
    reads_as("/Name", ObjectValue::Name("/Name".to_string()), 5);
    reads_as("/A#20B#23 ", ObjectValue::Name("/A B#".to_string()), 9);
    reads_as("/", ObjectValue::Name("/".to_string()), 1);
    reads_as("/a/b", ObjectValue::Name("/a".to_string()), 2);
    reads_as("/caf#c3#a9", ObjectValue::Name("/caf\u{e9}".to_string()), 10);
    assert!(parse("/A#2").is_none());
    assert!(parse("/A#zz").is_none());
    // bytes that are not valid UTF-8
    assert!(parse("/A#ff").is_none());
    assert_eq!("/A#20B#23", written(&ObjectValue::Name("/A B#".to_string())));
    assert_eq!("/caf#C3#A9", written(&ObjectValue::Name("/caf\u{e9}".to_string())));
    assert_eq!("/a#2Fb#28#29", written(&ObjectValue::Name("/a/b()".to_string())));
    assert_eq!("/", written(&ObjectValue::Name("".to_string())));
}

#[test]
fn strings() {
    reads_as("(abc)", ObjectValue::String(b"abc".to_vec()), 5);
    reads_as("()", ObjectValue::String(vec![]), 2);
    reads_as("(a(b)c)", ObjectValue::String(b"a(b)c".to_vec()), 7);
    reads_as("(a\\)b)", ObjectValue::String(b"a)b".to_vec()), 6);
    reads_as(
        "(\\n\\r\\t\\b\\f\\\\\\(\\x)",
        ObjectValue::String(vec![10, 13, 9, 8, 12, 92, 40, 120]),
        18,
    );
    reads_as("(\\101\\7\\18\\777)", ObjectValue::String(vec![65, 7, 1, 56, 255]), 15);
    reads_as("(a\\\nb\\\r\nc)", ObjectValue::String(b"abc".to_vec()), 10);
    reads_as("(a\rb\r\nc\nd)", ObjectValue::String(b"a\nb\nc\nd".to_vec()), 10);
    reads_as("<48656C6c6F>", ObjectValue::String(b"Hello".to_vec()), 12);
    reads_as("< 48 65\n7 >", ObjectValue::String(vec![0x48, 0x65, 0x70]), 11);
    reads_as("<>", ObjectValue::String(vec![]), 2);
    for bad in ["(abc", "(a(b)", "(a\\", "<48", "<4G>", "<48 65"] {
        assert!(parse(bad).is_none(), "{}", bad);
    }
    assert_eq!("<48656C6C6F00FF>", written(&ObjectValue::String(b"Hello\0\xff".to_vec())));
    assert_eq!("<>", written(&ObjectValue::String(vec![])));
}

#[test]
fn references() {
    reads_as("12 0 R", ObjectValue::Indirect(ObjectRef::new(12, 0)), 6);
    reads_as("12  %c\n 3 R]", ObjectValue::Indirect(ObjectRef::new(12, 3)), 11);
    reads_as("12 65535 R", ObjectValue::Indirect(ObjectRef::new(12, 65535)), 10);
    // no reference: the first number stands alone
    reads_as("12 0 Rx", ObjectValue::Integer(12), 2);
    reads_as("12 0 obj", ObjectValue::Integer(12), 2);
    reads_as("12 65536 R", ObjectValue::Integer(12), 2);
    reads_as("12 -1 R", ObjectValue::Integer(12), 2);
    reads_as("+12 0 R", ObjectValue::Integer(12), 3);
    reads_as("-12 0 R", ObjectValue::Integer(-12), 3);
    reads_as("12 0", ObjectValue::Integer(12), 2);
    // a number that no object can have makes the reference null
    reads_as("0 0 R", ObjectValue::Null, 5);
    reads_as("8388608 0 R", ObjectValue::Null, 11);
    reads_as("8388607 0 R", ObjectValue::Indirect(ObjectRef::new(8388607, 0)), 11);
    assert_eq!("12 3 R", written(&ObjectValue::Indirect(ObjectRef::new(12, 3))));
}

#[test]
fn arrays_and_dictionaries() {
    reads_as("[]", ObjectValue::Array(vec![]), 2);
    reads_as(
        "[1 2 R 3 0 R (s)/N[true]]",
        ObjectValue::Array(vec![
            ObjectValue::Indirect(ObjectRef::new(1, 2)),
            ObjectValue::Indirect(ObjectRef::new(3, 0)),
            ObjectValue::String(b"s".to_vec()),
            ObjectValue::Name("/N".to_string()),
            ObjectValue::Array(vec![ObjectValue::Bool(true)]),
        ]),
        25,
    );
    reads_as(
        "[ 1 2 ]",
        ObjectValue::Array(vec![ObjectValue::Integer(1), ObjectValue::Integer(2)]),
        7,
    );
}

#[test]
fn nested_values() {
    reads_as(
        "[1 2 3 0 R (s)/N[true]<</K null>>]",
        ObjectValue::Array(vec![
            ObjectValue::Integer(1),
            ObjectValue::Integer(2),
            ObjectValue::Indirect(ObjectRef::new(3, 0)),
            ObjectValue::String(b"s".to_vec()),
            ObjectValue::Name("/N".to_string()),
            ObjectValue::Array(vec![ObjectValue::Bool(true)]),
            ObjectValue::Dictionary(vec![("/K".to_string(), ObjectValue::Null)]),
        ]),
        34,
    );
    reads_as(
        "<< /A 1 /B [ /C ] /A 2 >>",
        ObjectValue::Dictionary(vec![
            ("/A".to_string(), ObjectValue::Integer(2)),
            ("/B".to_string(), ObjectValue::Array(vec![ObjectValue::Name("/C".to_string())])),
        ]),
        25,
    );
    reads_as("<<>>", ObjectValue::Dictionary(vec![]), 4);
    for bad in ["[1 2", "[1 )", "<< /A >>", "<< 1 2 >>", "<< /A 1 >", "<< /A 1", "[<<]"] {
        assert!(parse(bad).is_none(), "{}", bad);
    }
}

fn nest(depth: usize) -> String {
    format!("{}{}", "[".repeat(depth), "]".repeat(depth))
}

#[test]
fn nesting_has_a_limit() {
    assert!(parse(&nest(MAX_DEPTH)).is_some());
    assert!(parse(&nest(MAX_DEPTH + 1)).is_none());
    assert!(read_value(&b"1".to_vec(), 0, 1).is_some());
    assert!(read_value(&b"1".to_vec(), 0, 0).is_none());
    assert!(read_value(&b"[1]".to_vec(), 0, 1).is_none());
    assert!(read_value(&b"[1]".to_vec(), 0, 2).is_some());
}

#[test]
fn values_are_read_back_as_written() {
    let values = vec![
        ObjectValue::Null,
        ObjectValue::Bool(true),
        ObjectValue::Bool(false),
        ObjectValue::Integer(0),
        ObjectValue::Integer(-1),
        ObjectValue::Integer(i64::MAX),
        ObjectValue::Integer(i64::MIN),
        ObjectValue::Real("-0.25".to_string()),
        ObjectValue::Name("/With space#and(more)".to_string()),
        ObjectValue::Name("/\u{4e2d}\u{6587}".to_string()),
        ObjectValue::String((0u8..=255).collect()),
        ObjectValue::Indirect(ObjectRef::new(8388607, 65535)),
        ObjectValue::Array(vec![
            ObjectValue::Integer(0),
            ObjectValue::Integer(0),
            ObjectValue::Integer(612),
            ObjectValue::Integer(792),
        ]),
        ObjectValue::Array(vec![
            ObjectValue::Integer(1),
            ObjectValue::Integer(2),
            ObjectValue::Indirect(ObjectRef::new(3, 4)),
            ObjectValue::Integer(5),
            ObjectValue::Integer(6),
        ]),
        ObjectValue::Dictionary(vec![
            ("/A".to_string(), ObjectValue::Integer(1)),
            ("/B b".to_string(), ObjectValue::Integer(2)),
            (
                "/C".to_string(),
                ObjectValue::Dictionary(vec![(
                    "/D".to_string(),
                    ObjectValue::Array(vec![ObjectValue::Array(vec![]), ObjectValue::Null]),
                )]),
            ),
        ]),
    ];
    for value in &values {
        let text = written(value);
        let followed = format!("{}\nendobj", text);
        let (back, next) = parse(&followed).unwrap();
        assert!(same(value, &back), "{} read as {:?}", text, back);
        assert_eq!(text.len(), next);
    }
    assert_eq!(
        "<< /A 1 /B [ 2 3 0 R ] >>",
        written(&ObjectValue::Dictionary(vec![
            ("/A".to_string(), ObjectValue::Integer(1)),
            (
                "/B".to_string(),
                ObjectValue::Array(vec![
                    ObjectValue::Integer(2),
                    ObjectValue::Indirect(ObjectRef::new(3, 0))
                ])
            ),
        ]))
    );
}

#[test]
fn integers_as_text() {
    for (n, text) in [
        (0i64, "0"),
        (9, "9"),
        (10, "10"),
        (-10, "-10"),
        (i64::MAX, "9223372036854775807"),
        (i64::MIN, "-9223372036854775808"),
    ] {
        let mut out = Vec::new();
        push_int(&mut out, n);
        assert_eq!(text.as_bytes(), &out[..]);
    }
    let digits = b"x0123y".to_vec();
    assert_eq!(Some(123), read_digits(&digits, 1, 5, 123));
    assert_eq!(None, read_digits(&digits, 1, 5, 122));
    assert_eq!(None, read_digits(&digits, 0, 5, 1000));
    assert_eq!(None, read_digits(&digits, 1, 1, 1000));
    assert_eq!(
        Some(u64::MAX),
        read_digits(&b"18446744073709551615".to_vec(), 0, 20, u64::MAX)
    );
    assert_eq!(None, read_digits(&b"18446744073709551616".to_vec(), 0, 20, u64::MAX));
}

#[test]
fn headers() {
    assert_eq!(Some("1.7".to_string()), read_header_version(&b"%PDF-1.7\n".to_vec()));
    assert_eq!(Some("2.0".to_string()), read_header_version(&b"%PDF-2.0".to_vec()));
    assert_eq!(Some("1.10".to_string()), read_header_version(&b"%PDF-1.10 x".to_vec()));
    for bad in ["%PDF-", "%PDF-1", "%PDF-1.", "%PDF-.5", " %PDF-1.4", "%pdf-1.4", ""] {
        assert_eq!(None, read_header_version(&bad.as_bytes().to_vec()), "{}", bad);
    }
}

fn object(text: &str) -> Option<(ObjectRef, ObjectValue, usize)> {
    read_indirect_object(&text.as_bytes().to_vec(), 0)
}

#[test]
fn indirect_objects_and_streams() {
    let (reference, value, next) = object("7 2 obj\n(a)\nendobj").unwrap();
    assert_eq!(ObjectRef::new(7, 2), reference);
    assert!(same(&value, &ObjectValue::String(b"a".to_vec())));
    assert_eq!(11, next);
    for bad in ["0 0 obj 1", "7 obj 1", "7 0 objx 1", "7 0 obj", "a 0 obj 1", "8388608 0 obj 1"] {
        assert!(object(bad).is_none(), "{}", bad);
    }

    // the length is taken where endstream follows the data
    let (_, value, next) = object("1 0 obj << /Length 5 >> stream\r\nab\ncd\nendstream endobj").unwrap();
    assert!(same(
        &value,
        &ObjectValue::Stream(
            vec![("/Length".to_string(), ObjectValue::Integer(5))],
            b"ab\ncd".to_vec()
        )
    ));
    assert_eq!(47, next);
    // endstream inside the data belongs to it
    let text = "1 0 obj <</Length 11>>\nstream\nendstream\n!\nendstream";
    let (_, value, _) = object(text).unwrap();
    assert!(same(
        &value,
        &ObjectValue::Stream(
            vec![("/Length".to_string(), ObjectValue::Integer(11))],
            b"endstream\n!".to_vec()
        )
    ));
    // a length that is wrong, missing or a reference: the data runs to endstream
    for head in ["<< /Length 3 >>", "<< >>", "<< /Length 9 0 R >>", "<< /Length -1 >>"] {
        let text = format!("1 0 obj {} stream\nab\ncd\r\nendstream", head);
        let (_, value, _) = object(&text).unwrap();
        assert!(
            same(
                &value,
                &ObjectValue::Stream(
                    vec![("/Length".to_string(), ObjectValue::Integer(5))],
                    b"ab\ncd".to_vec()
                )
            ),
            "{}",
            head
        );
    }
    // empty data
    let (_, value, _) = object("1 0 obj <<>> stream\nendstream").unwrap();
    assert!(same(
        &value,
        &ObjectValue::Stream(vec![("/Length".to_string(), ObjectValue::Integer(0))], vec![])
    ));
    assert!(object("1 0 obj <<>> stream\nabc").is_none());
    assert!(object("1 0 obj <<>> stream abc endstream").is_none());
    // stream after what is no dictionary is not looked at
    let (_, value, next) = object("1 0 obj 5 stream\nabc\nendstream").unwrap();
    assert!(same(&value, &ObjectValue::Integer(5)));
    assert_eq!(9, next);
    assert_eq!(
        "<< /Length 2 >>\nstream\nhi\nendstream",
        written(&ObjectValue::Stream(
            vec![("/Length".to_string(), ObjectValue::Integer(2))],
            b"hi".to_vec()
        ))
    );
}

#[test]
fn cross_reference_tables() {
    let text = "xref\n0 2\n0000000000 65535 f \n0000000017 00000 n \n5 1\n0000000123 00002 n\ntrailer\n<< /Size 6 >>";
    let (lines, trailer) = read_xref_table(&text.as_bytes().to_vec(), 0).unwrap();
    assert_eq!(3, lines.len());
    assert_eq!((0, 0, 65535, false), (lines[0].id, lines[0].offset, lines[0].generation, lines[0].in_use));
    assert_eq!((1, 17, 0, true), (lines[1].id, lines[1].offset, lines[1].generation, lines[1].in_use));
    assert_eq!((5, 123, 2, true), (lines[2].id, lines[2].offset, lines[2].generation, lines[2].in_use));
    assert_eq!(1, trailer.len());
    assert_eq!("/Size", trailer[0].0);
    for bad in [
        "xref\n0 2\n0000000000 65535 f \ntrailer\n<< >>",
        "xref\n0 1\n0000000000 65535 x \ntrailer\n<< >>",
        "xref\n0 1\n0000000000 65536 f \ntrailer\n<< >>",
        "xref\n0 1\n99999999999 65535 f \ntrailer\n<< >>",
        "xref\n0 1\n0000000000 65535 f \ntrailer\n[ ]",
        "xref\n0 1\n0000000000 65535 f \n",
        "xref\n8388607 2\n0000000000 00000 n \n0000000000 00000 n \ntrailer\n<< >>",
        "xre\n0 0\ntrailer\n<< >>",
    ] {
        assert!(read_xref_table(&bad.as_bytes().to_vec(), 0).is_none(), "{}", bad);
    }
    assert!(read_xref_table(&b"xref\ntrailer\n<< >>".to_vec(), 0).is_some());
}

#[test]
fn loading_decides_between_table_and_scan() {
    let good = "%PDF-1.5\n1 0 obj\n<< /Pages 9 0 R >>\nendobj\nxref\n0 2\n0000000000 65535 f \n0000000009 00000 n \ntrailer\n<< /Root 1 0 R >>\nstartxref\n43\n%%EOF\n";
    let loaded = load_document(&good.as_bytes().to_vec(), false, false).ok().unwrap();
    assert_eq!("1.5", loaded.version);
    assert!(!loaded.recovered);
    assert_eq!(1, loaded.objects.len());

    // an offset that names another object is damage
    let wrong = good.replace("0000000009 00000 n", "0000000010 00000 n");
    assert_eq!(
        Some(ErrorKind::XrefCorruption),
        load_document(&wrong.as_bytes().to_vec(), false, false).err()
    );
    let loaded = load_document(&wrong.as_bytes().to_vec(), true, false).ok().unwrap();
    assert!(loaded.recovered);
    assert_eq!(1, loaded.objects.len());

    // a generation that differs is damage, too
    let wrong = good.replace("0000000009 00000 n", "0000000009 00001 n");
    assert_eq!(
        Some(ErrorKind::XrefCorruption),
        load_document(&wrong.as_bytes().to_vec(), false, false).err()
    );
    // a root that is no dictionary
    let wrong = good.replace("<< /Pages 9 0 R >>", "[ /Pages 9 0 R  ]");
    assert_eq!(
        Some(ErrorKind::XrefCorruption),
        load_document(&wrong.as_bytes().to_vec(), false, false).err()
    );
    assert_eq!(Some(ErrorKind::ParseError), load_document(&wrong.as_bytes().to_vec(), true, false).err());
    // an earlier table is named: only the scan reads such a file
    let wrong = good.replace("<< /Root 1 0 R >>", "<< /Root 1 0 R /Prev 5 >>");
    assert_eq!(
        Some(ErrorKind::XrefCorruption),
        load_document(&wrong.as_bytes().to_vec(), false, false).err()
    );
    assert!(load_document(&wrong.as_bytes().to_vec(), true, false).is_ok());
}

#[test]
fn the_scan_keeps_the_later_of_two_objects() {
    let text = "%PDF-1.5\n1 0 obj\n<< /V 1 >>\nendobj\n2 0 obj\n(x)\nendobj\n1 0 obj\n<< /V 2 >>\nendobj\n 3 0 obj\n(not at the start of a line)\nendobj\ntrailer\n<< /Root 1 0 R >>\n";
    let loaded = load_document(&text.as_bytes().to_vec(), true, false).ok().unwrap();
    assert!(loaded.recovered);
    assert_eq!(2, loaded.objects.len());
    match loaded.objects.get(1, 0) {
        Some(ObjectValue::Dictionary(entries)) => {
            assert!(same(&entries[0].1, &ObjectValue::Integer(2)))
        }
        other => panic!("{:?}", other),
    }
    assert!(loaded.objects.get(3, 0).is_none());
}

/// A file with one update appended: object 1 is given anew and object 3
/// is freed. `extra` is added to the trailer of the update.
fn updated(prev_of: fn(usize, usize) -> String, extra: &str) -> Vec<u8> {
    let mut text = String::from("%PDF-1.4\n");
    let first = text.len();
    text.push_str("1 0 obj\n<< /Pages 2 0 R /V 1 >>\nendobj\n");
    let second = text.len();
    text.push_str("2 0 obj\n<< /Kids [] >>\nendobj\n");
    let third = text.len();
    text.push_str("3 0 obj\n(old)\nendobj\n");
    let table = text.len();
    text.push_str(&format!(
        "xref\n0 4\n0000000000 65535 f \n{:010} 00000 n \n{:010} 00000 n \n{:010} 00000 n \n",
        first, second, third
    ));
    text.push_str(&format!("trailer\n<< /Size 4 /Root 1 0 R >>\nstartxref\n{}\n%%EOF\n", table));
    let again = text.len();
    text.push_str("1 0 obj\n<< /Pages 2 0 R /V 2 >>\nendobj\n");
    let update = text.len();
    text.push_str(&format!(
        "xref\n0 1\n0000000000 65535 f \n1 1\n{:010} 00000 n \n3 1\n0000000000 00001 f \n",
        again
    ));
    text.push_str(&format!(
        "trailer\n<< /Size 4 /Root 1 0 R /Prev {} {}>>\nstartxref\n{}\n%%EOF\n",
        prev_of(table, update),
        extra,
        update
    ));
    text.into_bytes()
}

fn version_of(objects: &qpdf::qpdf::store::ObjectStore) -> i64 {
    match objects.get(1, 0) {
        Some(ObjectValue::Dictionary(entries)) => match &entries[1].1 {
            ObjectValue::Integer(n) => *n,
            other => panic!("{:?}", other),
        },
        other => panic!("{:?}", other),
    }
}

#[test]
fn a_later_table_takes_the_place_of_an_earlier_one() {
    let bytes = updated(|table, _| table.to_string(), "");
    let loaded = load_document(&bytes, false, false).ok().unwrap();
    assert!(!loaded.recovered);
    assert_eq!(2, version_of(&loaded.objects));
    assert!(loaded.objects.get(2, 0).is_some());
    // the number that the update frees is in use no longer
    assert!(loaded.objects.get(3, 0).is_none());
    assert_eq!(3, loaded.trailer.len());
    // the scan keeps what it finds, the freed object too
    let scanned = load_document(&bytes, true, false).ok().unwrap();
    assert!(!scanned.recovered);
}

#[test]
fn tables_that_name_one_another_are_damage() {
    // the update names itself as the earlier table
    let bytes = updated(|_, update| update.to_string(), "");
    assert_eq!(Some(ErrorKind::XrefCorruption), load_document(&bytes, false, false).err());
    let scanned = load_document(&bytes, true, false).ok().unwrap();
    assert!(scanned.recovered);
    assert_eq!(2, version_of(&scanned.objects));
    assert!(scanned.objects.get(3, 0).is_some());
    // an earlier table that is none
    let bytes = updated(|_, _| "5".to_string(), "");
    assert_eq!(Some(ErrorKind::XrefCorruption), load_document(&bytes, false, false).err());
    let bytes = updated(|_, _| "-1".to_string(), "");
    assert_eq!(Some(ErrorKind::XrefCorruption), load_document(&bytes, false, false).err());
    let bytes = updated(|_, _| "/Name".to_string(), "");
    assert_eq!(Some(ErrorKind::XrefCorruption), load_document(&bytes, false, false).err());
}

#[test]
fn a_cross_reference_stream_is_left_aside_on_request() {
    let bytes = updated(|table, _| table.to_string(), "/XRefStm 99 ");
    // the stream would have to be read: the table cannot be used
    assert_eq!(Some(ErrorKind::XrefCorruption), load_document(&bytes, false, false).err());
    // left aside, the tables are enough
    let loaded = load_document(&bytes, false, true).ok().unwrap();
    assert!(!loaded.recovered);
    assert_eq!(2, version_of(&loaded.objects));
    // without the request, the scan helps
    let scanned = load_document(&bytes, true, false).ok().unwrap();
    assert!(scanned.recovered);
}
