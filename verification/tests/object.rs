use qpdf::qpdf::error::{ErrorKind, QPDFInternalErrorCode};
use qpdf::qpdf::object::types::{ObjectRef, QPDFIsObjectType};
use qpdf::qpdf::object::value::ObjectValue;
use qpdf::qpdf::object::QPDFObjectHandler;
use qpdf::qpdf::QPDF;

fn name(text: &str) -> ObjectValue {
    ObjectValue::Name(text.to_string())
}

/// A document that holds nothing: every reference resolves to null in it.
fn nothing() -> QPDF {
    QPDF::default()
}

fn handle(value: ObjectValue) -> QPDFObjectHandler {
    assert!(value.is_wf());
    QPDFObjectHandler::new(value)
}

fn numbers() -> QPDFObjectHandler {
    handle(ObjectValue::Array(vec![
        ObjectValue::Integer(10),
        ObjectValue::Integer(20),
        ObjectValue::Integer(30),
    ]))
}

fn page_like() -> QPDFObjectHandler {
    handle(ObjectValue::Dictionary(vec![
        ("/Type".to_string(), name("/Page")),
        ("/Subtype".to_string(), name("/Image")),
        ("/Rotate".to_string(), ObjectValue::Integer(90)),
    ]))
}

fn every_variant() -> Vec<ObjectValue> {
    vec![
        ObjectValue::Null,
        ObjectValue::Bool(true),
        ObjectValue::Integer(7),
        ObjectValue::Real("1.5".to_string()),
        name("/N"),
        ObjectValue::String(b"text".to_vec()),
        ObjectValue::Array(vec![]),
        ObjectValue::Dictionary(vec![]),
        ObjectValue::Stream(vec![], vec![1, 2, 3]),
        ObjectValue::Operator("Tj".to_string()),
        ObjectValue::Indirect(ObjectRef::new(3, 0)),
    ]
}

#[test]
fn conversions_fail_on_every_other_variant() {
    for (i, value) in every_variant().into_iter().enumerate() {
        let h = handle(value);
        assert_eq!(i == 1, h.try_as_bool().is_ok());
        assert_eq!(i == 2, h.try_as_i64().is_ok());
        assert_eq!(i == 2, h.try_as_i32().is_ok());
        assert_eq!(i == 2, h.try_as_u64().is_ok());
        assert_eq!(i == 2, h.try_as_u32().is_ok());
        assert_eq!(i == 3, h.try_as_real().is_ok());
        assert_eq!(i == 4, h.name().is_ok());
        assert_eq!(i == 5, h.try_as_string().is_ok());
        assert_eq!(i == 5, h.try_as_bytes().is_ok());
        if i != 1 {
            assert_eq!(Err(ErrorKind::ConversionError), h.try_as_bool());
        }
    }
}

#[test]
fn conversions_return_the_stored_value() {
    assert_eq!(Ok(true), handle(ObjectValue::Bool(true)).try_as_bool());
    assert_eq!(Ok(false), handle(ObjectValue::Bool(false)).try_as_bool());
    assert_eq!(Ok(-5), handle(ObjectValue::Integer(-5)).try_as_i64());
    assert_eq!(Ok(i64::MIN), handle(ObjectValue::Integer(i64::MIN)).try_as_i64());
    assert_eq!(Ok("3.14".to_string()), handle(ObjectValue::Real("3.14".to_string())).try_as_real());
    assert_eq!(Ok("/Name".to_string()), handle(name("/Name")).name());
    assert_eq!(Ok(vec![0u8, 255]), handle(ObjectValue::String(vec![0, 255])).try_as_bytes());
    assert_eq!(
        Ok("h\u{e9}llo".to_string()),
        handle(ObjectValue::String("h\u{e9}llo".as_bytes().to_vec())).try_as_string()
    );
}

#[test]
fn integers_must_fit_the_target() {
    let big = handle(ObjectValue::Integer(i32::MAX as i64 + 1));
    assert_eq!(Err(ErrorKind::ConversionError), big.try_as_i32());
    assert_eq!(Ok(2147483648), big.try_as_u32());
    assert_eq!(Ok(2147483648), big.try_as_u64());
    assert_eq!(Ok(i32::MAX), handle(ObjectValue::Integer(i32::MAX as i64)).try_as_i32());
    assert_eq!(Ok(i32::MIN), handle(ObjectValue::Integer(i32::MIN as i64)).try_as_i32());
    assert_eq!(
        Err(ErrorKind::ConversionError),
        handle(ObjectValue::Integer(i32::MIN as i64 - 1)).try_as_i32()
    );
    let negative = handle(ObjectValue::Integer(-1));
    assert_eq!(Ok(-1), negative.try_as_i32());
    assert_eq!(Err(ErrorKind::ConversionError), negative.try_as_u32());
    assert_eq!(Err(ErrorKind::ConversionError), negative.try_as_u64());
    assert_eq!(Ok(u32::MAX), handle(ObjectValue::Integer(u32::MAX as i64)).try_as_u32());
    assert_eq!(
        Err(ErrorKind::ConversionError),
        handle(ObjectValue::Integer(u32::MAX as i64 + 1)).try_as_u32()
    );
    assert_eq!(Ok(i64::MAX as u64), handle(ObjectValue::Integer(i64::MAX)).try_as_u64());
}

#[test]
fn text_must_be_valid_utf8() {
    let bytes = handle(ObjectValue::String(vec![0xff, 0xfe]));
    assert_eq!(Err(ErrorKind::ConversionError), bytes.try_as_string());
    assert_eq!(Ok(vec![0xff, 0xfe]), bytes.try_as_bytes());
    assert_eq!(Ok("".to_string()), handle(ObjectValue::String(vec![])).try_as_string());
}

#[test]
fn type_tests() {
    let all = every_variant();
    let tests = [
        QPDFIsObjectType::Null,
        QPDFIsObjectType::Bool,
        QPDFIsObjectType::Integer,
        QPDFIsObjectType::Real,
        QPDFIsObjectType::Name,
        QPDFIsObjectType::String,
        QPDFIsObjectType::Array,
        QPDFIsObjectType::Dictionary,
        QPDFIsObjectType::Stream,
        QPDFIsObjectType::Operator,
    ];
    for (i, value) in all.into_iter().enumerate() {
        let h = handle(value);
        assert_eq!(i == 0, h.is(QPDFIsObjectType::Null));
        assert_eq!(i == 1, h.is(QPDFIsObjectType::Bool));
        assert_eq!(i == 2, h.is(QPDFIsObjectType::Integer));
        assert_eq!(i == 3, h.is(QPDFIsObjectType::Real));
        assert_eq!(i == 4, h.is(QPDFIsObjectType::Name));
        assert_eq!(i == 5, h.is(QPDFIsObjectType::String));
        assert_eq!(i == 6, h.is(QPDFIsObjectType::Array));
        assert_eq!(i == 7, h.is(QPDFIsObjectType::Dictionary));
        assert_eq!(i == 8, h.is(QPDFIsObjectType::Stream));
        assert_eq!(i == 9, h.is(QPDFIsObjectType::Operator));
        assert_eq!(i == 10, h.is(QPDFIsObjectType::Indirect));
        assert_eq!(!(6..=8).contains(&i), h.is(QPDFIsObjectType::Scalar));
        assert!(!h.is(QPDFIsObjectType::Initialized));
        assert!(!h.is(QPDFIsObjectType::InlineImage));
    }
    assert_eq!(10, tests.len());
}

#[test]
fn name_tests() {
    let n = handle(name("/Font"));
    assert!(n.is(QPDFIsObjectType::NameEquals("/Font".to_string())));
    assert!(!n.is(QPDFIsObjectType::NameEquals("/Fon".to_string())));
    assert!(!handle(ObjectValue::String(b"/Font".to_vec()))
        .is(QPDFIsObjectType::NameEquals("/Font".to_string())));
    assert!(n.is(QPDFIsObjectType::IsOrHasName("/Font".to_string())));
    let list = handle(ObjectValue::Array(vec![name("/A"), ObjectValue::Integer(1), name("/B")]));
    assert!(list.is(QPDFIsObjectType::IsOrHasName("/B".to_string())));
    assert!(!list.is(QPDFIsObjectType::IsOrHasName("/C".to_string())));
    assert!(!handle(ObjectValue::Integer(1)).is(QPDFIsObjectType::IsOrHasName("/A".to_string())));
}

#[test]
fn dictionary_of_type_tests() {
    let d = page_like();
    let of = |a: &str, b: &str| QPDFIsObjectType::DictionaryOfType(a.to_string(), b.to_string());
    assert!(d.is(of("/Page", "/Image")));
    assert!(d.is(of("/Page", "")));
    assert!(d.is(of("", "/Image")));
    assert!(d.is(of("", "")));
    assert!(!d.is(of("/Pages", "")));
    assert!(!d.is(of("/Page", "/Form")));
    assert!(!numbers().is(of("", "")));
    assert!(!handle(ObjectValue::Stream(vec![("/Type".to_string(), name("/Page"))], vec![]))
        .is(of("/Page", "")));
}

#[test]
fn array_reading_is_bounds_checked() {
    let a = numbers();
    assert_eq!(3, a.array_len());
    assert_eq!(Ok(10), a.array_get_at(&nothing(), 0).try_as_i64());
    assert_eq!(Ok(30), a.array_get_at(&nothing(), 2).try_as_i64());
    for at in [3, 4, i32::MAX, -1, i32::MIN] {
        let item = a.array_get_at(&nothing(), at);
        assert!(item.is(QPDFIsObjectType::Null));
        assert!(!item.is(QPDFIsObjectType::Indirect));
    }
    // what is no array has no items
    assert_eq!(0, page_like().array_len());
    assert!(page_like().array_get_at(&nothing(), 0).is(QPDFIsObjectType::Null));
}

fn as_numbers(a: &QPDFObjectHandler) -> Vec<i64> {
    (0..a.array_len()).map(|i| a.array_get_at(&nothing(), i).try_as_i64().unwrap()).collect()
}

#[test]
fn array_writing() {
    let mut a = numbers();
    a.array_set_at(1, handle(ObjectValue::Integer(21)));
    assert_eq!(vec![10, 21, 30], as_numbers(&a));
    a.array_insert_at(0, handle(ObjectValue::Integer(5)));
    assert_eq!(vec![5, 10, 21, 30], as_numbers(&a));
    a.array_insert_at(4, handle(ObjectValue::Integer(40)));
    assert_eq!(vec![5, 10, 21, 30, 40], as_numbers(&a));
    a.array_insert_at(2, handle(ObjectValue::Integer(15)));
    assert_eq!(vec![5, 10, 15, 21, 30, 40], as_numbers(&a));
    a.array_erase_at(0);
    assert_eq!(vec![10, 15, 21, 30, 40], as_numbers(&a));
    a.array_erase_at(4);
    assert_eq!(vec![10, 15, 21, 30], as_numbers(&a));
    a.array_append(handle(ObjectValue::Integer(50)));
    assert_eq!(vec![10, 15, 21, 30, 50], as_numbers(&a));
    // out of range: nothing changes
    a.array_set_at(5, handle(ObjectValue::Integer(0)));
    a.array_set_at(-1, handle(ObjectValue::Integer(0)));
    a.array_insert_at(6, handle(ObjectValue::Integer(0)));
    a.array_insert_at(-1, handle(ObjectValue::Integer(0)));
    a.array_erase_at(5);
    a.array_erase_at(-1);
    assert_eq!(vec![10, 15, 21, 30, 50], as_numbers(&a));
    // what is no array does not change
    let mut d = page_like();
    d.array_append(handle(ObjectValue::Integer(1)));
    d.array_insert_at(0, handle(ObjectValue::Integer(1)));
    assert!(d.is(QPDFIsObjectType::Dictionary));
    assert_eq!(Ok(90), d.dict_get_key(&nothing(), "/Rotate".to_string()).try_as_i64());
}

#[test]
fn an_indirect_object_is_held_as_a_reference() {
    let mut a = numbers();
    let reference = ObjectRef::new(7, 1);
    assert!(reference.is_valid());
    let indirect = QPDFObjectHandler::indirect(ObjectValue::Integer(99), reference);
    assert!(indirect.is(QPDFIsObjectType::Indirect));
    assert_eq!(7, indirect.object_id());
    assert_eq!(1, indirect.generation());
    a.array_append(indirect);
    let item = a.array_get_at(&nothing(), 3);
    assert!(item.is(QPDFIsObjectType::Indirect));
    assert!(!item.is(QPDFIsObjectType::Integer));
    assert_eq!(7, item.object_id());
    assert_eq!(1, item.generation());
    // a direct one is held by value
    assert_eq!(0, a.array_get_at(&nothing(), 0).object_id());
    assert_eq!(0, a.array_get_at(&nothing(), 0).generation());
}

#[test]
fn dictionary_reading() {
    let d = page_like();
    assert!(d.dict_has_key("/Type".to_string()));
    assert!(!d.dict_has_key("/Parent".to_string()));
    assert!(!d.dict_has_key("Type".to_string()));
    assert_eq!(Ok("/Page".to_string()), d.dict_get_key(&nothing(), "/Type".to_string()).name());
    // an absent key reads as null, not as an error
    assert!(d.dict_get_key(&nothing(), "/Parent".to_string()).is(QPDFIsObjectType::Null));
    // what is no dictionary holds no key
    assert!(!numbers().dict_has_key("/Type".to_string()));
    assert!(numbers().dict_get_key(&nothing(), "/Type".to_string()).is(QPDFIsObjectType::Null));
}

#[test]
fn dictionary_writing() {
    let mut d = page_like();
    d.dict_replace_key("/Rotate".to_string(), handle(ObjectValue::Integer(180)));
    assert_eq!(Ok(180), d.dict_get_key(&nothing(), "/Rotate".to_string()).try_as_i64());
    d.dict_replace_key("/New".to_string(), handle(ObjectValue::Bool(true)));
    assert_eq!(Ok(true), d.dict_get_key(&nothing(), "/New".to_string()).try_as_bool());
    assert_eq!(Ok("/Page".to_string()), d.dict_get_key(&nothing(), "/Type".to_string()).name());
    d.dict_remove_key("/Type".to_string());
    assert!(!d.dict_has_key("/Type".to_string()));
    assert!(d.dict_has_key("/Subtype".to_string()));
    // removing what is absent changes nothing
    d.dict_remove_key("/Type".to_string());
    assert!(d.dict_has_key("/New".to_string()));
    assert!(d.value().is_wf());
}

#[test]
fn a_null_value_removes_the_key() {
    let mut d = page_like();
    d.dict_replace_or_remove_key("/Rotate".to_string(), handle(ObjectValue::Null));
    assert!(!d.dict_has_key("/Rotate".to_string()));
    // absent before, absent after
    d.dict_replace_or_remove_key("/Missing".to_string(), handle(ObjectValue::Null));
    assert!(!d.dict_has_key("/Missing".to_string()));
    assert!(d.dict_has_key("/Type".to_string()));
    // any other value is put under the key
    d.dict_replace_or_remove_key("/Rotate".to_string(), handle(ObjectValue::Integer(0)));
    assert_eq!(Ok(0), d.dict_get_key(&nothing(), "/Rotate".to_string()).try_as_i64());
    // replace_key keeps an explicit null
    d.dict_replace_key("/Type".to_string(), handle(ObjectValue::Null));
    assert!(d.dict_has_key("/Type".to_string()));
}

#[test]
fn copies_are_deep_but_keep_references() {
    let first = ObjectValue::Array(vec![
        ObjectValue::Dictionary(vec![("/K".to_string(), ObjectValue::Integer(1))]),
        ObjectValue::Indirect(ObjectRef::new(4, 0)),
    ]);
    let copy = first.duplicate();
    let mut h = handle(copy);
    h.array_set_at(0, handle(ObjectValue::Integer(2)));
    let untouched = handle(first);
    assert!(untouched.array_get_at(&nothing(), 0).is(QPDFIsObjectType::Dictionary));
    assert!(h.array_get_at(&nothing(), 0).is(QPDFIsObjectType::Integer));
    assert!(h.array_get_at(&nothing(), 1).is(QPDFIsObjectType::Indirect));
    assert_eq!(4, untouched.array_get_at(&nothing(), 1).object_id());
}

#[test]
fn well_formed_values() {
    assert!(ObjectValue::Indirect(ObjectRef::new(1, 0)).is_wf());
    assert!(!ObjectValue::Indirect(ObjectRef::new(0, 0)).is_wf());
    assert!(!ObjectValue::Indirect(ObjectRef::new(1, -1)).is_wf());
    assert!(!ObjectValue::Dictionary(vec![
        ("/A".to_string(), ObjectValue::Null),
        ("/A".to_string(), ObjectValue::Null),
    ])
    .is_wf());
    assert!(!ObjectValue::Array(vec![ObjectValue::Indirect(ObjectRef::new(-3, 0))]).is_wf());
    assert!(!ObjectValue::Stream(
        vec![("/A".to_string(), ObjectValue::Indirect(ObjectRef::new(0, 0)))],
        vec![]
    )
    .is_wf());
}

#[test]
fn the_dictionary_of_a_stream() {
    let s = handle(ObjectValue::Stream(
        vec![("/Length".to_string(), ObjectValue::Integer(3))],
        vec![1, 2, 3],
    ));
    let d = s.dict();
    assert!(d.is(QPDFIsObjectType::Dictionary));
    assert_eq!(Ok(3), d.dict_get_key(&nothing(), "/Length".to_string()).try_as_i64());
    assert!(numbers().dict().is(QPDFIsObjectType::Null));
}

#[test]
fn store_operations() {
    let mut qpdf = QPDF::default();
    // nothing is held: the store refuses
    assert_eq!(None, qpdf.allocate());
    assert!(!qpdf.put(1, 0, ObjectValue::Null));
    assert!(!qpdf.remove(1, 0));
    qpdf.empty();
    // the blank document holds objects 1 and 2
    assert_eq!(Some(3), qpdf.allocate());
    assert_eq!(Some(4), qpdf.allocate());
    assert!(qpdf.get(3, 0).is_some());
    assert!(matches!(qpdf.get(3, 0), Some(ObjectValue::Null)));
    assert!(qpdf.put(3, 0, ObjectValue::Integer(5)));
    assert!(matches!(qpdf.get(3, 0), Some(ObjectValue::Integer(5))));
    // a lookup with another generation fails
    assert!(qpdf.get(3, 1).is_none());
    assert!(qpdf.get(9, 0).is_none());
    assert!(qpdf.get(0, 0).is_none());
    assert!(qpdf.get(-1, 0).is_none());
    // put overwrites, also with a new generation, and inserts beyond the end
    assert!(qpdf.put(3, 2, ObjectValue::Bool(true)));
    assert!(qpdf.get(3, 0).is_none());
    assert!(matches!(qpdf.get(3, 2), Some(ObjectValue::Bool(true))));
    assert!(qpdf.put(9, 0, ObjectValue::Integer(9)));
    assert!(qpdf.get(8, 0).is_none());
    assert!(matches!(qpdf.get(9, 0), Some(ObjectValue::Integer(9))));
    assert_eq!(Some(10), qpdf.allocate());
    // references that are not valid are refused
    assert!(!qpdf.put(0, 0, ObjectValue::Null));
    assert!(!qpdf.put(1, -1, ObjectValue::Null));
    assert!(!qpdf.put(8388608, 0, ObjectValue::Null));
    // remove: the number is not given out again, a reference to it dangles
    assert!(!qpdf.remove(9, 1));
    assert!(qpdf.remove(9, 0));
    assert!(!qpdf.remove(9, 0));
    assert!(qpdf.get(9, 0).is_none());
    assert!(matches!(qpdf.resolve(ObjectRef::new(9, 0)), ObjectValue::Null));
    assert!(qpdf.get_object_id(9, 0).is_none());
    assert_eq!(Some(11), qpdf.allocate());
}

#[test]
fn handles_and_the_store() {
    let mut qpdf = QPDF::default();
    let direct = page_like();
    // nothing is held: no object can be made
    assert!(direct.make_indirect(&mut qpdf).is_none());
    assert!(qpdf.has_error());
    qpdf.empty();
    let made = direct.make_indirect(&mut qpdf).unwrap();
    assert_eq!(3, made.object_id());
    assert_eq!(0, made.generation());
    assert!(made.is(QPDFIsObjectType::Indirect));
    assert!(made.is(QPDFIsObjectType::Dictionary));
    assert!(!direct.is(QPDFIsObjectType::Indirect));
    let found = qpdf.get_object_id(3, 0).unwrap();
    assert_eq!(Ok(90), found.dict_get_key(&qpdf, "/Rotate".to_string()).try_as_i64());

    // a handle is a copy: the store changes with replace
    let mut copy = found;
    copy.dict_replace_key("/Rotate".to_string(), handle(ObjectValue::Integer(270)));
    let unchanged = qpdf.get_object_id(3, 0).unwrap();
    assert_eq!(Ok(90), unchanged.dict_get_key(&qpdf, "/Rotate".to_string()).try_as_i64());
    copy.replace(&mut qpdf, 3, 0);
    let changed = qpdf.get_object_id(3, 0).unwrap();
    assert_eq!(Ok(270), changed.dict_get_key(&qpdf, "/Rotate".to_string()).try_as_i64());

    // a reference is resolved through the store
    let mut list = numbers();
    list.array_append(changed);
    let mut item = list.array_get_at(&qpdf, 3);
    assert!(item.is(QPDFIsObjectType::Indirect));
    assert!(item.is(QPDFIsObjectType::Dictionary));
    assert_eq!(3, item.object_id());
    assert_eq!(Ok(270), item.dict_get_key(&qpdf, "/Rotate".to_string()).try_as_i64());
    // read through a document that does not hold the object, it is null
    assert!(list.array_get_at(&nothing(), 3).is(QPDFIsObjectType::Null));
    assert!(list.array_get_at(&nothing(), 3).is(QPDFIsObjectType::Indirect));
    item.make_direct(&qpdf);
    assert!(!item.is(QPDFIsObjectType::Indirect));
    assert!(item.is(QPDFIsObjectType::Dictionary));
    assert_eq!(0, item.object_id());
    assert_eq!(Ok(270), item.dict_get_key(&qpdf, "/Rotate".to_string()).try_as_i64());

    // a dangling reference resolves to null
    let mut dangling = handle(ObjectValue::Indirect(ObjectRef::new(77, 0)));
    assert_eq!(77, dangling.object_id());
    dangling.make_direct(&qpdf);
    assert!(dangling.is(QPDFIsObjectType::Null));

    // replace with a reference that is not valid records an error
    assert_eq!(QPDFInternalErrorCode::Success, qpdf.check_pdf());
    numbers().replace(&mut qpdf, 0, 0);
    assert!(qpdf.has_error());
    assert_eq!(Ok(ErrorKind::NotFound), qpdf.get_error().kind(&qpdf));
}

#[test]
fn the_trailer_can_be_replaced() {
    let mut qpdf = QPDF::default();
    qpdf.empty();
    let mut trailer = qpdf.get_object_trailer().unwrap();
    assert!(trailer.dict_has_key("/Root".to_string()));
    trailer.dict_replace_key("/Note".to_string(), handle(ObjectValue::Integer(1)));
    assert_eq!(QPDFInternalErrorCode::Success, qpdf.replace_trailer(&trailer));
    assert!(qpdf.get_object_trailer().unwrap().dict_has_key("/Note".to_string()));
    assert_eq!(QPDFInternalErrorCode::Errors, qpdf.replace_trailer(&numbers()));
}

#[test]
fn permissions_follow_the_flags() {
    let mut qpdf = QPDF::default();
    qpdf.empty();
    let encrypt = handle(ObjectValue::Dictionary(vec![(
        "/P".to_string(),
        ObjectValue::Integer(-3904),
    )]))
    .make_indirect(&mut qpdf)
    .unwrap();
    let mut trailer = qpdf.get_object_trailer().unwrap();
    trailer.dict_replace_key("/Encrypt".to_string(), encrypt);
    qpdf.replace_trailer(&trailer);
    assert!(qpdf.pdf_is_encrypted());
    // -3904 is ...0000 1100 0000 in two's complement: flags 7 and 8 only
    assert!(!qpdf.pdf_allow_print_low_res());
    assert!(!qpdf.pdf_allow_print_high_res());
    assert!(!qpdf.pdf_allow_modify_other());
    assert!(!qpdf.pdf_allow_extract_all());
    assert!(!qpdf.pdf_allow_modify_annotation());
    assert!(!qpdf.pdf_allow_modify_form());
    assert!(!qpdf.pdf_allow_accessibility());
    assert!(!qpdf.pdf_allow_modify_assembly());
    assert!(!qpdf.pdf_allow_modify_all());

    // -44 is ...1101 0100: printing and extraction, nothing modified but forms
    let mut flags = qpdf.get_object_id(3, 0).unwrap();
    flags.dict_replace_key("/P".to_string(), handle(ObjectValue::Integer(-44)));
    flags.replace(&mut qpdf, 3, 0);
    assert!(qpdf.pdf_allow_print_low_res());
    assert!(qpdf.pdf_allow_print_high_res());
    assert!(!qpdf.pdf_allow_modify_other());
    assert!(qpdf.pdf_allow_extract_all());
    assert!(!qpdf.pdf_allow_modify_annotation());
    assert!(qpdf.pdf_allow_modify_form());
    assert!(qpdf.pdf_allow_accessibility());
    assert!(qpdf.pdf_allow_modify_assembly());
    assert!(!qpdf.pdf_allow_modify_all());

    // 2052 is 1000 0000 0100: both print flags
    flags.dict_replace_key("/P".to_string(), handle(ObjectValue::Integer(2052)));
    flags.replace(&mut qpdf, 3, 0);
    assert!(qpdf.pdf_allow_print_low_res());
    assert!(qpdf.pdf_allow_print_high_res());
    assert!(!qpdf.pdf_allow_extract_all());
    // 4: printing, but not in high resolution
    flags.dict_replace_key("/P".to_string(), handle(ObjectValue::Integer(4)));
    flags.replace(&mut qpdf, 3, 0);
    assert!(qpdf.pdf_allow_print_low_res());
    assert!(!qpdf.pdf_allow_print_high_res());
}

#[test]
fn references_are_counted() {
    let mut qpdf = QPDF::default();
    qpdf.empty();
    // the trailer names the root once, the root the page tree once
    assert_eq!(1, qpdf.reference_count(1, 0));
    assert_eq!(1, qpdf.reference_count(2, 0));
    assert_eq!(0, qpdf.reference_count(2, 1));
    assert_eq!(0, qpdf.reference_count(3, 0));
    let list = ObjectValue::Array(vec![
        ObjectValue::Indirect(ObjectRef::new(2, 0)),
        ObjectValue::Dictionary(vec![(
            "/Again".to_string(),
            ObjectValue::Indirect(ObjectRef::new(2, 0)),
        )]),
        ObjectValue::Indirect(ObjectRef::new(9, 0)),
    ]);
    assert!(qpdf.put(3, 0, list));
    assert_eq!(3, qpdf.reference_count(2, 0));
    // a reference to an object that is not held counts, too
    assert_eq!(1, qpdf.reference_count(9, 0));
}

#[test]
fn live_is_what_the_trailer_reaches() {
    let mut qpdf = QPDF::default();
    assert!(!qpdf.is_live(1, 0));
    qpdf.empty();
    assert!(qpdf.is_live(1, 0));
    assert!(qpdf.is_live(2, 0));
    assert!(!qpdf.is_live(2, 1));
    assert!(qpdf.put(3, 0, ObjectValue::Integer(1)));
    assert!(!qpdf.is_live(3, 0));
    let mut root = qpdf.get_object_id(1, 0).unwrap();
    root.dict_replace_key("/Extra".to_string(), qpdf.get_object_id(3, 0).unwrap());
    root.replace(&mut qpdf, 1, 0);
    assert!(qpdf.is_live(3, 0));
    // what is removed is live no longer, though a reference to it stays
    assert!(qpdf.remove(3, 0));
    assert!(!qpdf.is_live(3, 0));
    assert_eq!(1, qpdf.reference_count(3, 0));
}

#[test]
fn numbers_are_given_out_again_after_compaction_only() {
    let mut qpdf = QPDF::default();
    qpdf.empty();
    assert_eq!(Some(3), qpdf.allocate());
    assert_eq!(Some(4), qpdf.allocate());
    assert_eq!(Some(5), qpdf.allocate());
    assert!(qpdf.remove(5, 0));
    assert!(qpdf.remove(3, 0));
    assert_eq!(Some(6), qpdf.allocate());
    assert!(qpdf.remove(6, 0));
    qpdf.compact();
    // 5 and 6 were at the end; 3 is not, and stays out of use
    assert_eq!(Some(5), qpdf.allocate());
    assert!(qpdf.get(3, 0).is_none());
    assert!(qpdf.get(4, 0).is_some());
    qpdf.compact();
    assert_eq!(Some(6), qpdf.allocate());
}

#[test]
fn members_that_are_references_are_read_through_the_document() {
    let mut qpdf = QPDF::default();
    assert_eq!(QPDFInternalErrorCode::Success, qpdf.empty());
    let root = qpdf.get_object_root().unwrap();
    let pages = root.dict_get_key(&qpdf, "/Pages".to_string());
    assert!(pages.is(QPDFIsObjectType::Indirect));
    assert!(pages.is(QPDFIsObjectType::Dictionary));
    assert_eq!(2, pages.object_id());
    assert!(pages.dict_has_key("/Count".to_string()));
    let count = pages.dict_get_key(&qpdf, "/Count".to_string());
    assert_eq!(Ok(0), count.try_as_i64());
    assert!(!count.is(QPDFIsObjectType::Indirect));
    let kids = pages.dict_get_key(&qpdf, "/Kids".to_string());
    assert!(kids.is(QPDFIsObjectType::Array));
    assert_eq!(0, kids.array_len());
    assert!(kids.array_get_at(&qpdf, 0).is(QPDFIsObjectType::Null));
    // the same object answers the same, however it was reached
    let direct = qpdf.get_object_id(2, 0).unwrap();
    assert_eq!(Ok(0), direct.dict_get_key(&qpdf, "/Count".to_string()).try_as_i64());
    // put back into a dictionary, the object is held as a reference again
    let mut holder = handle(ObjectValue::Dictionary(vec![]));
    holder.dict_replace_key("/P".to_string(), pages);
    assert!(matches!(
        holder.value(),
        ObjectValue::Dictionary(entries)
            if matches!(&entries[0].1, ObjectValue::Indirect(r) if r.id == 2 && r.generation == 0)
    ));
}
