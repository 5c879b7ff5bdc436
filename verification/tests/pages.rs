use qpdf::qpdf::error::{ErrorKind, QPDFInternalErrorCode};
use qpdf::qpdf::object::types::{ObjectRef, QPDFIsObjectType};
use qpdf::qpdf::object::value::ObjectValue;
use qpdf::qpdf::object::QPDFObjectHandler;
use qpdf::qpdf::read::QPDFReadParams;
use qpdf::qpdf::write::QPDFWriteParams;
use qpdf::qpdf::QPDF;

fn file_of(objects: &[(i32, &str)], trailer: &str) -> Vec<u8> {
    let mut text = String::from("%PDF-1.4\n");
    let mut offsets: Vec<(i32, usize)> = Vec::new();
    for (id, body) in objects {
        offsets.push((*id, text.len()));
        text.push_str(&format!("{} 0 obj\n{}\nendobj\n", id, body));
    }
    let table = text.len();
    text.push_str("xref\n0 1\n0000000000 65535 f \n");
    for (id, offset) in &offsets {
        text.push_str(&format!("{} 1\n{:010} 00000 n \n", id, offset));
    }
    text.push_str(&format!("trailer\n{}\nstartxref\n{}\n%%EOF\n", trailer, table));
    text.into_bytes()
}

/// A document whose page tree is nested: pages 4, 5, 7, 8 in this order.
fn nested() -> QPDF {
    let bytes = file_of(
        &[
            (1, "<< /Type /Catalog /Pages 2 0 R >>"),
            (2, "<< /Type /Pages /Kids [3 0 R 6 0 R 8 0 R] /Count 4 >>"),
            (3, "<< /Type /Pages /Parent 2 0 R /Kids [4 0 R 5 0 R] /Count 2 >>"),
            (4, "<< /Type /Page /Parent 3 0 R /Label (a) >>"),
            (5, "<< /Type /Page /Parent 3 0 R /Label (b) >>"),
            (6, "<< /Type /Pages /Parent 2 0 R /Kids [7 0 R] /Count 1 >>"),
            (7, "<< /Type /Page /Parent 6 0 R /Label (c) >>"),
            (8, "<< /Type /Page /Parent 2 0 R /Label (d) >>"),
            (9, "<< /Type /Page /Label (e) >>"),
        ],
        "<< /Size 10 /Root 1 0 R >>",
    );
    let mut qpdf = QPDF::default();
    assert_eq!(
        QPDFInternalErrorCode::Success,
        qpdf.process_file("nested.pdf".to_string(), bytes, QPDFReadParams::default(), None)
    );
    qpdf
}

fn page_numbers(qpdf: &QPDF) -> Vec<i32> {
    (0..qpdf.len_pages() as usize).map(|i| qpdf.get_page(i).unwrap().object_id()).collect()
}

fn kids_of(qpdf: &QPDF, id: i32) -> Vec<i32> {
    let kids = qpdf.get_object_id(id, 0).unwrap().dict_get_key(qpdf, "/Kids".to_string());
    (0..kids.array_len()).map(|i| kids.array_get_at(qpdf, i).object_id()).collect()
}

#[test]
fn pages_come_in_the_order_of_the_tree() {
    let qpdf = nested();
    assert_eq!(4, qpdf.len_pages());
    assert_eq!(vec![4, 5, 7, 8], page_numbers(&qpdf));
    let first = qpdf.get_page(0).unwrap();
    assert_eq!(Ok(b"a".to_vec()), first.dict_get_key(&qpdf, "/Label".to_string()).try_as_bytes());
}

#[test]
fn reading_a_page_is_bounds_checked() {
    let qpdf = nested();
    assert!(qpdf.get_page(3).is_some());
    for at in [4usize, 5, usize::MAX] {
        assert!(qpdf.get_page(at).is_none());
    }
    let blank = QPDF::default();
    for at in [0usize, 1, usize::MAX] {
        assert!(blank.get_page(at).is_none());
    }
}

#[test]
fn updating_the_page_list_twice_changes_nothing() {
    let mut qpdf = nested();
    assert_eq!(QPDFInternalErrorCode::Success, qpdf.update_page_cache());
    let once = page_numbers(&qpdf);
    assert_eq!(QPDFInternalErrorCode::Success, qpdf.update_page_cache());
    assert_eq!(once, page_numbers(&qpdf));
    assert_eq!(vec![4, 5, 7, 8], once);
}

#[test]
fn the_page_list_is_stale_until_it_is_updated() {
    let mut qpdf = nested();
    // take the second subtree out of the root by hand
    let mut root = qpdf.get_object_id(2, 0).unwrap();
    let mut kids = root.dict_get_key(&qpdf, "/Kids".to_string());
    kids.array_erase_at(1);
    root.dict_replace_key("/Kids".to_string(), kids);
    root.replace(&mut qpdf, 2, 0);
    assert_eq!(vec![4, 5, 7, 8], page_numbers(&qpdf));
    qpdf.update_page_cache();
    assert_eq!(vec![4, 5, 8], page_numbers(&qpdf));
}

#[test]
fn finding_pages() {
    let qpdf = nested();
    assert_eq!(0, qpdf.find_page_by_id(4, 0));
    assert_eq!(2, qpdf.find_page_by_id(7, 0));
    assert_eq!(3, qpdf.find_page_by_id(8, 0));
    assert_eq!(-1, qpdf.find_page_by_id(8, 1));
    assert_eq!(-1, qpdf.find_page_by_id(3, 0));
    assert_eq!(-1, qpdf.find_page_by_id(9, 0));
    assert_eq!(1, qpdf.find_page_by_handler(qpdf.get_object_id(5, 0).unwrap()));
    assert_eq!(-1, qpdf.find_page_by_handler(qpdf.get_object_id(2, 0).unwrap()));
    assert_eq!(-1, qpdf.find_page_by_handler(QPDFObjectHandler::new(ObjectValue::Null)));
}

#[test]
fn adding_pages() {
    let mut qpdf = nested();
    let extra = qpdf.get_object_id(9, 0).unwrap();
    assert_eq!(QPDFInternalErrorCode::Success, qpdf.add_page(extra, true));
    assert_eq!(vec![9, 4, 5, 7, 8], page_numbers(&qpdf));
    // the tree is flat now and agrees with the list
    assert_eq!(vec![9, 4, 5, 7, 8], kids_of(&qpdf, 2));
    let root = qpdf.get_object_id(2, 0).unwrap();
    assert_eq!(Ok(5), root.dict_get_key(&qpdf, "/Count".to_string()).try_as_i64());
    for id in [9, 4, 5, 7, 8] {
        let page = qpdf.get_object_id(id, 0).unwrap();
        assert_eq!(2, page.dict_get_key(&qpdf, "/Parent".to_string()).object_id());
    }
    qpdf.update_page_cache();
    assert_eq!(vec![9, 4, 5, 7, 8], page_numbers(&qpdf));

    // a page that is in the list cannot be added again
    let again = qpdf.get_object_id(9, 0).unwrap();
    assert_eq!(QPDFInternalErrorCode::Errors, qpdf.add_page(again, false));
    assert_eq!(Ok(ErrorKind::NotFound), qpdf.get_error().kind(&qpdf));
    assert_eq!(vec![9, 4, 5, 7, 8], page_numbers(&qpdf));

    // a new object as the last page
    let made = QPDFObjectHandler::new(ObjectValue::Dictionary(vec![(
        "/Type".to_string(),
        ObjectValue::Name("/Page".to_string()),
    )]))
    .make_indirect(&mut qpdf)
    .unwrap();
    assert_eq!(10, made.object_id());
    assert_eq!(QPDFInternalErrorCode::Success, qpdf.add_page(made, false));
    assert_eq!(vec![9, 4, 5, 7, 8, 10], page_numbers(&qpdf));
}

#[test]
fn adding_a_page_beside_another() {
    let mut qpdf = nested();
    let extra = qpdf.get_object_id(9, 0).unwrap();
    let beside = qpdf.get_object_id(7, 0).unwrap();
    assert_eq!(QPDFInternalErrorCode::Success, qpdf.add_page_at(extra, beside, true));
    assert_eq!(vec![4, 5, 9, 7, 8], page_numbers(&qpdf));

    let mut other = nested();
    let extra = other.get_object_id(9, 0).unwrap();
    let beside = other.get_object_id(7, 0).unwrap();
    assert_eq!(QPDFInternalErrorCode::Success, other.add_page_at(extra, beside, false));
    assert_eq!(vec![4, 5, 7, 9, 8], page_numbers(&other));
    let extra = other.get_object_id(9, 0).unwrap();
    assert_eq!(3, other.find_page_by_handler(extra));

    // beside what is no page of the list
    let mut third = nested();
    let extra = third.get_object_id(9, 0).unwrap();
    let beside = third.get_object_id(3, 0).unwrap();
    assert_eq!(QPDFInternalErrorCode::Errors, third.add_page_at(extra, beside, true));
    assert_eq!(vec![4, 5, 7, 8], page_numbers(&third));
}

#[test]
fn what_cannot_become_a_page() {
    let mut qpdf = nested();
    // a direct object
    let direct = QPDFObjectHandler::new(ObjectValue::Dictionary(vec![]));
    assert_eq!(QPDFInternalErrorCode::Errors, qpdf.add_page(direct, true));
    // a node of the tree
    let node = qpdf.get_object_id(3, 0).unwrap();
    assert_eq!(QPDFInternalErrorCode::Errors, qpdf.add_page(node, true));
    // the root of the tree
    let root = qpdf.get_object_id(2, 0).unwrap();
    assert_eq!(QPDFInternalErrorCode::Errors, qpdf.add_page(root, true));
    // an object that the store does not hold
    let missing =
        QPDFObjectHandler::indirect(ObjectValue::Dictionary(vec![]), ObjectRef::new(50, 0));
    assert_eq!(QPDFInternalErrorCode::Errors, qpdf.add_page(missing, true));
    assert_eq!(vec![4, 5, 7, 8], page_numbers(&qpdf));
    // nothing is held
    let mut blank = QPDF::default();
    let page = qpdf.get_object_id(9, 0).unwrap();
    assert_eq!(QPDFInternalErrorCode::Errors, blank.add_page(page, true));
    assert_eq!(Ok(ErrorKind::InvalidState), blank.get_error().kind(&blank));
}

#[test]
fn removing_pages() {
    let mut qpdf = nested();
    let page = qpdf.get_object_id(5, 0).unwrap();
    assert_eq!(QPDFInternalErrorCode::Success, qpdf.remove_page(page));
    assert_eq!(vec![4, 7, 8], page_numbers(&qpdf));
    assert_eq!(vec![4, 7, 8], kids_of(&qpdf, 2));
    assert_eq!(
        Ok(3),
        qpdf.get_object_id(2, 0).unwrap().dict_get_key(&qpdf, "/Count".to_string()).try_as_i64()
    );
    // the object itself stays in the store
    assert!(qpdf.get_object_id(5, 0).is_some());
    // removing it again fails
    let page = qpdf.get_object_id(5, 0).unwrap();
    assert_eq!(QPDFInternalErrorCode::Errors, qpdf.remove_page(page));
    qpdf.update_page_cache();
    assert_eq!(vec![4, 7, 8], page_numbers(&qpdf));
}

#[test]
fn a_tree_with_a_loop_is_walked_once() {
    let bytes = file_of(
        &[
            (1, "<< /Type /Catalog /Pages 2 0 R >>"),
            (2, "<< /Type /Pages /Kids [3 0 R 2 0 R 4 0 R 3 0 R] /Count 2 >>"),
            (3, "<< /Type /Page /Parent 2 0 R >>"),
            (4, "<< /Type /Pages /Kids [2 0 R 5 0 R 9 0 R (x)] >>"),
            (5, "<< /Type /Page >>"),
        ],
        "<< /Size 6 /Root 1 0 R >>",
    );
    let mut qpdf = QPDF::default();
    qpdf.process_file("loop.pdf".to_string(), bytes, QPDFReadParams::default(), None);
    assert_eq!(vec![3, 5], page_numbers(&qpdf));
}

#[test]
fn only_what_the_trailer_reaches_is_written() {
    let mut qpdf = nested();
    qpdf.write_init("a.pdf".to_string(), QPDFWriteParams::default());
    assert_eq!(QPDFInternalErrorCode::Success, qpdf.write());
    let mut again = QPDF::default();
    again.process_file("a.pdf".to_string(), qpdf.output().clone(), QPDFReadParams::default(), None);
    assert_eq!(4, again.len_pages());
    // eight objects are reached; the page that nothing refers to is left out
    assert!(again.get_object_id(8, 0).is_some());
    assert!(again.get_object_id(9, 0).is_none());
    // objects are numbered as they are met: root 1, page tree 2, its first node 3
    assert_eq!(vec![3, 6, 8], kids_of(&again, 2));
    assert_eq!(vec![4, 5], kids_of(&again, 3));
    assert_eq!(vec![3, 4, 6, 7], page_numbers(&again).iter().map(|n| n - 1).collect::<Vec<i32>>());

    // with unreferenced objects kept, the ninth is written after the others
    let mut keep = nested();
    keep.write_init(
        "b.pdf".to_string(),
        QPDFWriteParams::default().with_preserve_unreferenced_objects(),
    );
    assert_eq!(QPDFInternalErrorCode::Success, keep.write());
    let mut kept = QPDF::default();
    kept.process_file("b.pdf".to_string(), keep.output().clone(), QPDFReadParams::default(), None);
    let last = kept.get_object_id(9, 0).unwrap();
    assert_eq!(Ok(b"e".to_vec()), last.dict_get_key(&kept, "/Label".to_string()).try_as_bytes());
}

#[test]
fn a_dangling_reference_is_written_as_null() {
    let mut qpdf = nested();
    assert!(qpdf.remove(8, 0));
    qpdf.write_init("a.pdf".to_string(), QPDFWriteParams::default());
    assert_eq!(QPDFInternalErrorCode::Success, qpdf.write());
    let mut again = QPDF::default();
    again.process_file("a.pdf".to_string(), qpdf.output().clone(), QPDFReadParams::default(), None);
    let kids = again.get_object_id(2, 0).unwrap().dict_get_key(&again, "/Kids".to_string());
    assert_eq!(3, kids.array_len());
    assert!(kids.array_get_at(&again, 2).is(QPDFIsObjectType::Null));
    assert_eq!(3, again.len_pages());
}

#[test]
fn what_cannot_be_written_is_an_error() {
    let mut qpdf = nested();
    // a name without its slash
    assert!(qpdf.put(4, 0, ObjectValue::Name("Page".to_string())));
    assert_eq!(QPDFInternalErrorCode::Errors, qpdf.check_pdf());
    assert_eq!(Ok(ErrorKind::ParseError), qpdf.get_error().kind(&qpdf));
    qpdf.write_init("a.pdf".to_string(), QPDFWriteParams::default());
    assert_eq!(QPDFInternalErrorCode::Errors, qpdf.write());
    // a real number that is no number
    assert!(qpdf.put(4, 0, ObjectValue::Real("1e5".to_string())));
    assert_eq!(QPDFInternalErrorCode::Errors, qpdf.check_pdf());
    assert!(qpdf.put(4, 0, ObjectValue::Real("-.5".to_string())));
    assert_eq!(QPDFInternalErrorCode::Success, qpdf.check_pdf());
    // an operator, and a stream inside an array
    assert!(qpdf.put(4, 0, ObjectValue::Operator("Tj".to_string())));
    assert_eq!(QPDFInternalErrorCode::Errors, qpdf.check_pdf());
    assert!(qpdf.put(4, 0, ObjectValue::Array(vec![ObjectValue::Stream(vec![], vec![])])));
    assert_eq!(QPDFInternalErrorCode::Errors, qpdf.check_pdf());
    // what the trailer does not reach is not looked at
    assert!(qpdf.put(4, 0, ObjectValue::Null));
    assert!(qpdf.put(9, 0, ObjectValue::Operator("Tj".to_string())));
    assert_eq!(QPDFInternalErrorCode::Success, qpdf.check_pdf());
}

fn read(bytes: Vec<u8>) -> QPDF {
    let mut qpdf = QPDF::default();
    assert_eq!(
        QPDFInternalErrorCode::Success,
        qpdf.process_file("in.pdf".to_string(), bytes, QPDFReadParams::default(), None)
    );
    qpdf
}

#[test]
fn no_page_is_added_where_there_is_no_tree() {
    // the catalog names a page tree that the file does not hold
    let mut qpdf = read(file_of(
        &[(1, "<< /Type /Catalog /Pages 2 0 R >>"), (3, "<< /Type /Page >>")],
        "<< /Size 4 /Root 1 0 R >>",
    ));
    assert_eq!(0, qpdf.len_pages());
    let page = qpdf.get_object_id(3, 0).unwrap();
    assert_eq!(QPDFInternalErrorCode::Errors, qpdf.add_page(page, true));
    assert_eq!(Ok(ErrorKind::NotFound), qpdf.get_error().kind(&qpdf));
    assert_eq!(0, qpdf.len_pages());
    assert!(qpdf.get_object_id(2, 0).is_none());

    // the root of the tree is itself a page
    let mut qpdf = read(file_of(
        &[
            (1, "<< /Type /Catalog /Pages 2 0 R >>"),
            (2, "<< /Type /Page >>"),
            (3, "<< /Type /Page >>"),
        ],
        "<< /Size 4 /Root 1 0 R >>",
    ));
    assert_eq!(vec![2], page_numbers(&qpdf));
    let page = qpdf.get_object_id(3, 0).unwrap();
    assert_eq!(QPDFInternalErrorCode::Errors, qpdf.add_page(page, false));
    let page = qpdf.get_object_id(3, 0).unwrap();
    let root = qpdf.get_object_id(2, 0).unwrap();
    assert_eq!(QPDFInternalErrorCode::Errors, qpdf.add_page_at(page, root, true));
    let root = qpdf.get_object_id(2, 0).unwrap();
    assert_eq!(QPDFInternalErrorCode::Errors, qpdf.remove_page(root));
    assert_eq!(vec![2], page_numbers(&qpdf));
    assert!(!qpdf.get_object_id(2, 0).unwrap().dict_has_key("/Kids".to_string()));
}

#[test]
fn a_stale_list_takes_no_page() {
    let mut qpdf = nested();
    // a page of the list leaves the store
    assert!(qpdf.remove(5, 0));
    let extra = qpdf.get_object_id(9, 0).unwrap();
    assert_eq!(QPDFInternalErrorCode::Errors, qpdf.add_page(extra, false));
    assert_eq!(Ok(ErrorKind::NotFound), qpdf.get_error().kind(&qpdf));
    let gone = QPDFObjectHandler::indirect(ObjectValue::Null, ObjectRef::new(5, 0));
    assert_eq!(QPDFInternalErrorCode::Errors, qpdf.remove_page(gone));
    assert_eq!(vec![4, 5, 7, 8], page_numbers(&qpdf));
    // computed anew, the list takes the page
    assert_eq!(QPDFInternalErrorCode::Success, qpdf.update_page_cache());
    assert_eq!(vec![4, 7, 8], page_numbers(&qpdf));
    let extra = qpdf.get_object_id(9, 0).unwrap();
    assert_eq!(QPDFInternalErrorCode::Success, qpdf.add_page(extra, false));
    assert_eq!(vec![4, 7, 8, 9], page_numbers(&qpdf));
    assert_eq!(vec![4, 7, 8, 9], kids_of(&qpdf, 2));
    assert_eq!(QPDFInternalErrorCode::Success, qpdf.update_page_cache());
    assert_eq!(vec![4, 7, 8, 9], page_numbers(&qpdf));
}

#[test]
fn a_page_keeps_what_it_took_over_from_the_nodes_above() {
    let mut qpdf = read(file_of(
        &[
            (1, "<< /Type /Catalog /Pages 2 0 R >>"),
            (2, "<< /Type /Pages /Kids [3 0 R] /Count 2 /Rotate 90 >>"),
            (3, "<< /Type /Pages /Parent 2 0 R /Kids [4 0 R 5 0 R] /Count 2 /MediaBox [0 0 10 20] >>"),
            (4, "<< /Type /Page /Parent 3 0 R >>"),
            (5, "<< /Type /Page /Parent 3 0 R /MediaBox [0 0 1 2] >>"),
            (6, "<< /Type /Page >>"),
        ],
        "<< /Size 7 /Root 1 0 R >>",
    ));
    assert_eq!(vec![4, 5], page_numbers(&qpdf));
    let extra = qpdf.get_object_id(6, 0).unwrap();
    assert_eq!(QPDFInternalErrorCode::Success, qpdf.add_page(extra, false));
    assert_eq!(vec![4, 5, 6], page_numbers(&qpdf));
    assert_eq!(vec![4, 5, 6], kids_of(&qpdf, 2));
    // the node between is gone from the tree; what it gave, the page holds itself
    let first = qpdf.get_page(0).unwrap();
    let media = first.dict_get_key(&qpdf, "/MediaBox".to_string());
    assert_eq!(4, media.array_len());
    assert_eq!(Ok(20), media.array_get_at(&qpdf, 3).try_as_i64());
    assert_eq!(Ok(90), first.dict_get_key(&qpdf, "/Rotate".to_string()).try_as_i64());
    assert_eq!(2, first.dict_get_key(&qpdf, "/Parent".to_string()).object_id());
    assert!(!first.dict_has_key("/Resources".to_string()));
    // what a page holds itself stays
    let second = qpdf.get_page(1).unwrap();
    let media = second.dict_get_key(&qpdf, "/MediaBox".to_string());
    assert_eq!(Ok(2), media.array_get_at(&qpdf, 3).try_as_i64());
    assert_eq!(Ok(90), second.dict_get_key(&qpdf, "/Rotate".to_string()).try_as_i64());
    // a page that stood under no node took nothing over
    let third = qpdf.get_page(2).unwrap();
    assert!(!third.dict_has_key("/MediaBox".to_string()));
    assert!(!third.dict_has_key("/Rotate".to_string()));
}
