//! What a document says about itself: the information dictionary, the
//! permissions of an encrypted document, and whether it is linearized.

use crate::qpdf::keys::{
    adbe_key, adbe_key_string, encrypt_key, encrypt_key_string, extension_level_key,
    extension_level_key_string, extensions_key, extensions_key_string, info_key,
    info_key_string, linearized_key, linearized_key_string, permissions_key,
    permissions_key_string, root_key, root_key_string,
};
use crate::qpdf::layout::{check_name_text, is_name_text};
use crate::qpdf::object::types::ObjectRef;
use crate::qpdf::object::value::{
    duplicate_entries, entries_view, entries_wf, has_key, keys_unique, lemma_view_members,
    value_at_key, Entry, EntryModel, ObjectValue, Value,
};
use crate::qpdf::object::{
    entries_with_key, find_key, lemma_entries_with_key, lossy_text, replace_entry,
    string_from_utf8_lossy,
};
use crate::qpdf::reader::text_of;
use crate::qpdf::store::{
    holds, resolve, with_object, ObjectStore, StoreModel, StoredModel, MAX_OBJECT_ID,
};
use vstd::prelude::*;
use vstd::string::StrSliceExecFns;
use vstd::utf8::{decode_utf8, encode_utf8, valid_utf8};

verus! {

/// The dictionary under `key` of the trailer: held there itself, or in
/// the object that the trailer refers to.
pub open spec fn trailer_dictionary(
    objects: StoreModel,
    trailer: Seq<EntryModel>,
    key: Seq<char>,
) -> Option<Seq<EntryModel>> {
    match value_at_key(trailer, key) {
        Value::Indirect(r) => match resolve(objects, r) {
            Value::Dictionary(entries) => Some(entries),
            _ => None,
        },
        Value::Dictionary(entries) => Some(entries),
        _ => None,
    }
}

/// The text that the bytes of a string stand for: the text that they
/// encode where they are valid UTF-8; otherwise the text that a lossy
/// reading makes of them.
pub open spec fn text_in(b: Seq<u8>) -> Seq<char> {
    if valid_utf8(b) {
        decode_utf8(b)
    } else {
        lossy_text(b)
    }
}

/// The text under `key` of the information dictionary: there where the
/// key holds a string.
pub open spec fn info_value(objects: StoreModel, trailer: Seq<EntryModel>, key: Seq<char>)
    -> Option<Seq<char>> {
    match trailer_dictionary(objects, trailer, info_key()) {
        Some(entries) => match value_at_key(entries, key) {
            Value::String(b) => Some(text_in(b)),
            _ => None,
        },
        None => None,
    }
}

/// The text that the bytes of a string stand for.
pub fn read_text(b: &Vec<u8>) -> (r: String)
    ensures
        r@ == text_in(b@),
{
    match text_of(b.clone()) {
        Some(text) => text,
        None => string_from_utf8_lossy(b),
    }
}

/// Finds the dictionary under `key` of the trailer.
pub fn find_trailer_dictionary<'a>(
    store: &'a ObjectStore,
    trailer: &'a Vec<Entry>,
    key: &String,
) -> (r: Option<&'a Vec<Entry>>)
    ensures
        r matches Some(entries) ==> trailer_dictionary(
            store@,
            entries_view(trailer@),
            key@,
        ) == Some(entries_view(entries@)),
        r is None ==> trailer_dictionary(store@, entries_view(trailer@), key@) is None,
{
    let at: usize = find_key(trailer, key);
    if at >= trailer.len() {
        return None;
    }
    proof {
        lemma_view_members(trailer@[at as int].1);
    }
    match &trailer[at].1 {
        ObjectValue::Indirect(r) => {
            match store.peek(*r) {
                Some(v) => {
                    proof {
                        lemma_view_members(*v);
                    }
                    match v {
                        ObjectValue::Dictionary(entries) => Some(entries),
                        _ => None,
                    }
                },
                None => None,
            }
        },
        ObjectValue::Dictionary(entries) => Some(entries),
        _ => None,
    }
}

/// The text under `key` of the information dictionary.
pub fn get_info(store: &ObjectStore, trailer: &Vec<Entry>, key: &String) -> (r: Option<String>)
    ensures
        r matches Some(text) ==> info_value(store@, entries_view(trailer@), key@) == Some(
            text@,
        ),
        r is None ==> info_value(store@, entries_view(trailer@), key@) is None,
{
    match find_trailer_dictionary(store, trailer, &info_key_string()) {
        Some(entries) => {
            let at: usize = find_key(entries, key);
            if at >= entries.len() {
                return None;
            }
            match &entries[at].1 {
                ObjectValue::String(b) => Some(read_text(b)),
                _ => None,
            }
        },
        None => None,
    }
}

/// The store and the trailer with the text `text` under `key` of the
/// information dictionary. A key without a leading slash changes
/// nothing. Where the trailer names no information dictionary, a new
/// object holds one, unless the store is full.
pub open spec fn with_info(
    objects: StoreModel,
    trailer: Seq<EntryModel>,
    key: Seq<char>,
    text: Seq<char>,
) -> (StoreModel, Seq<EntryModel>) {
    let value = Value::String(encode_utf8(text));
    if !is_name_text(key) {
        (objects, trailer)
    } else {
        match value_at_key(trailer, info_key()) {
            Value::Dictionary(entries) => (
                objects,
                entries_with_key(
                    trailer,
                    info_key(),
                    Value::Dictionary(entries_with_key(entries, key, value)),
                ),
            ),
            other => if other matches Value::Indirect(r) && holds(objects, r) && r.id
                <= MAX_OBJECT_ID && resolve(objects, r) is Dictionary {
                (
                    with_object(
                        objects,
                        other->Indirect_0,
                        Value::Dictionary(
                            entries_with_key(
                                resolve(objects, other->Indirect_0)->Dictionary_0,
                                key,
                                value,
                            ),
                        ),
                    ),
                    trailer,
                )
            } else if objects.len() < MAX_OBJECT_ID {
                (
                    objects.push(
                        Some(
                            StoredModel {
                                generation: 0,
                                value: Value::Dictionary(seq![(key, value)]),
                            },
                        ),
                    ),
                    entries_with_key(
                        trailer,
                        info_key(),
                        Value::Indirect(
                            ObjectRef { id: (objects.len() + 1) as i32, generation: 0 },
                        ),
                    ),
                )
            } else {
                (objects, trailer)
            },
        }
    }
}

/// Puts the text `text` under `key` of the information dictionary.
pub fn set_info(store: &mut ObjectStore, trailer: &mut Vec<Entry>, key: String, text: String)
    requires
        old(store).wf(),
        entries_wf(entries_view(old(trailer)@)),
    ensures
        final(store).wf(),
        entries_wf(entries_view(final(trailer)@)),
        (final(store)@, entries_view(final(trailer)@)) == with_info(
            old(store)@,
            entries_view(old(trailer)@),
            key@,
            text@,
        ),
{
    if !check_name_text(&key) {
        return;
    }
    let value = ObjectValue::String(text.as_str().as_bytes_vec());
    let at: usize = find_key(trailer, &info_key_string());
    let ghost trailer_model = entries_view(trailer@);
    proof {
        crate::qpdf::object::value::lemma_key_index(trailer_model, info_key());
        if at < trailer.len() {
            lemma_view_members(trailer@[at as int].1);
            assert(trailer_model[at as int].1 == trailer@[at as int].1@);
        }
    }
    if at < trailer.len() {
        match &trailer[at].1 {
            ObjectValue::Dictionary(entries) => {
                let mut updated: Vec<Entry> = duplicate_entries(entries);
                proof {
                    assert(trailer@[at as int].1@->Dictionary_0 == entries_view(entries@));
                    assert(trailer_model[at as int].1.wf());
                    lemma_entries_with_key(entries_view(updated@), key@, value@);
                }
                replace_entry(&mut updated, key, value);
                let whole = ObjectValue::Dictionary(updated);
                proof {
                    lemma_view_members(whole);
                    assert(whole@->Dictionary_0 == entries_view(updated@));
                    lemma_entries_with_key(trailer_model, info_key(), whole@);
                }
                replace_entry(trailer, info_key_string(), whole);
                return;
            },
            ObjectValue::Indirect(r) => {
                let r: ObjectRef = *r;
                if r.id > 0 && r.id <= MAX_OBJECT_ID && r.generation >= 0 {
                    let found: Option<ObjectValue> = store.get(r.id, r.generation);
                    match found {
                        Some(v) => {
                            proof {
                                lemma_view_members(v);
                            }
                            match v {
                                ObjectValue::Dictionary(entries) => {
                                    let mut entries = entries;
                                    proof {
                                        assert(v@->Dictionary_0 == entries_view(entries@));
                                        lemma_entries_with_key(
                                            entries_view(entries@),
                                            key@,
                                            value@,
                                        );
                                    }
                                    replace_entry(&mut entries, key, value);
                                    let whole = ObjectValue::Dictionary(entries);
                                    proof {
                                        lemma_view_members(whole);
                                        assert(whole@->Dictionary_0 == entries_view(entries@));
                                    }
                                    let _ = store.put(r, whole);
                                    return;
                                },
                                _ => {},
                            }
                        },
                        None => {},
                    }
                }
            },
            _ => {},
        }
    }
    let ghost before = store@;
    match store.allocate() {
        Some(id) => {
            let mut entries: Vec<Entry> = Vec::new();
            let ghost key_model = key@;
            entries.push((key, value));
            let whole = ObjectValue::Dictionary(entries);
            let fresh = ObjectRef { id, generation: 0 };
            proof {
                lemma_view_members(whole);
                assert(entries_view(entries@) =~= seq![(key_model, value@)]);
                assert(whole@->Dictionary_0 == entries_view(entries@));
                assert(keys_unique(whole@->Dictionary_0));
                assert forall|i: int| 0 <= i < whole@->Dictionary_0.len() implies (
                #[trigger] whole@->Dictionary_0[i]).1.wf() by {
                    assert(whole@->Dictionary_0[i].1 == value@);
                }
                lemma_entries_with_key(trailer_model, info_key(), Value::Indirect(fresh));
            }
            let _ = store.put(fresh, whole);
            assert(store@ =~= before.push(
                Some(StoredModel { generation: 0, value: whole@ }),
            ));
            replace_entry(trailer, info_key_string(), ObjectValue::Indirect(fresh));
        },
        None => {},
    }
}

/// Whether the trailer names an encryption dictionary.
pub open spec fn is_encrypted(trailer: Seq<EntryModel>) -> bool {
    has_key(trailer, encrypt_key())
}

pub fn check_encrypted(trailer: &Vec<Entry>) -> (r: bool)
    ensures
        r == is_encrypted(entries_view(trailer@)),
{
    find_key(trailer, &encrypt_key_string()) < trailer.len()
}

/// The permission flags of an encrypted document: the integer under `/P`
/// of its encryption dictionary.
pub open spec fn permission_flags(objects: StoreModel, trailer: Seq<EntryModel>) -> Option<int> {
    match trailer_dictionary(objects, trailer, encrypt_key()) {
        Some(entries) => match value_at_key(entries, permissions_key()) {
            Value::Integer(p) => Some(p),
            _ => None,
        },
        None => None,
    }
}

/// Whether the flag of the weight `weight`, a power of two, is set in
/// `p`, read as a number in two's complement.
pub open spec fn flag_set(p: int, weight: int) -> bool {
    (p / weight) % 2 == 1
}

/// Whether the document allows what the flag of the weight `weight`
/// stands for: every document without permission flags does.
pub open spec fn allows(objects: StoreModel, trailer: Seq<EntryModel>, weight: int) -> bool {
    match permission_flags(objects, trailer) {
        Some(p) => flag_set(p, weight),
        None => true,
    }
}

/// The weights of the permission flags.
pub const PRINT_LOW_RES: i64 = 4;

pub const MODIFY_OTHER: i64 = 8;

pub const EXTRACT: i64 = 16;

pub const MODIFY_ANNOTATION: i64 = 32;

pub const MODIFY_FORM: i64 = 256;

pub const ACCESSIBILITY: i64 = 512;

pub const MODIFY_ASSEMBLY: i64 = 1024;

pub const PRINT_HIGH_RES: i64 = 2048;

/// Whether the flag of the weight `weight` is set in `p`.
pub fn check_flag(p: i64, weight: i64) -> (r: bool)
    requires
        0 < weight <= 2048,
    ensures
        r == flag_set(p as int, weight as int),
{
    let q: i64 = if p >= 0 {
        p / weight
    } else {
        -((-(p + 1)) / weight) - 1
    };
    assert(q as int == (p as int) / (weight as int)) by (nonlinear_arith)
        requires
            0 < weight <= 2048,
            p >= 0 ==> q == (p as int) / (weight as int),
            p < 0 ==> q == -((-(p + 1)) / (weight as int)) - 1,
    ;
    let bit: i64 = q % 2;
    bit == 1 || bit == -1
}

/// Whether the document allows what the flag of the weight `weight`
/// stands for.
pub fn check_allows(store: &ObjectStore, trailer: &Vec<Entry>, weight: i64) -> (r: bool)
    requires
        0 < weight <= 2048,
    ensures
        r == allows(store@, entries_view(trailer@), weight as int),
{
    match find_trailer_dictionary(store, trailer, &encrypt_key_string()) {
        Some(entries) => {
            let at: usize = find_key(entries, &permissions_key_string());
            if at >= entries.len() {
                return true;
            }
            match &entries[at].1 {
                ObjectValue::Integer(p) => check_flag(*p, weight),
                _ => true,
            }
        },
        None => true,
    }
}

/// Whether one of the objects under the first `n` numbers is a dictionary
/// that holds `/Linearized`.
pub open spec fn is_linearized(objects: StoreModel, n: nat) -> bool
    decreases n,
{
    if n == 0 || n > objects.len() {
        false
    } else {
        is_linearized(objects, (n - 1) as nat) || (objects[n - 1] matches Some(o) && o.value
            matches Value::Dictionary(entries) && has_key(entries, linearized_key()))
    }
}

/// The extension level that the root of the document declares: the
/// integer under `/ExtensionLevel` of `/ADBE` of `/Extensions`, where it
/// fits 32 bits; 0 otherwise.
pub open spec fn extension_of(objects: StoreModel, trailer: Seq<EntryModel>) -> int {
    match trailer_dictionary(objects, trailer, root_key()) {
        Some(root) => match trailer_dictionary(objects, root, extensions_key()) {
            Some(extensions) => match trailer_dictionary(objects, extensions, adbe_key()) {
                Some(adbe) => match value_at_key(adbe, extension_level_key()) {
                    Value::Integer(n) => if i32::MIN <= n <= i32::MAX {
                        n
                    } else {
                        0
                    },
                    _ => 0,
                },
                None => 0,
            },
            None => 0,
        },
        None => 0,
    }
}

/// Finds the extension level that the root of the document declares.
pub fn find_extension(store: &ObjectStore, trailer: &Vec<Entry>) -> (r: i32)
    ensures
        r as int == extension_of(store@, entries_view(trailer@)),
{
    let root: &Vec<Entry> = match find_trailer_dictionary(store, trailer, &root_key_string()) {
        Some(found) => found,
        None => {
            return 0;
        },
    };
    let extensions: &Vec<Entry> = match find_trailer_dictionary(
        store,
        root,
        &extensions_key_string(),
    ) {
        Some(found) => found,
        None => {
            return 0;
        },
    };
    let adbe: &Vec<Entry> = match find_trailer_dictionary(store, extensions, &adbe_key_string()) {
        Some(found) => found,
        None => {
            return 0;
        },
    };
    let at: usize = find_key(adbe, &extension_level_key_string());
    if at >= adbe.len() {
        return 0;
    }
    match &adbe[at].1 {
        ObjectValue::Integer(n) => {
            if -2147483648 <= *n && *n <= 2147483647 {
                *n as i32
            } else {
                0
            }
        },
        _ => 0,
    }
}

/// Whether the document is linearized.
pub fn check_linearized(store: &ObjectStore) -> (r: bool)
    ensures
        r == is_linearized(store@, store@.len()),
{
    let key: String = linearized_key_string();
    let n: usize = store.len();
    let mut i: usize = 0;
    let mut found: bool = false;
    while i < n
        invariant
            i <= n == store@.len(),
            key@ == linearized_key(),
            found == is_linearized(store@, i as nat),
        decreases n - i,
    {
        match store.value_at(i) {
            Some(v) => {
                proof {
                    lemma_view_members(*v);
                }
                match v {
                    ObjectValue::Dictionary(entries) => {
                        if find_key(entries, &key) < entries.len() {
                            found = true;
                        }
                    },
                    _ => {},
                }
            },
            None => {},
        }
        i += 1;
    }
    found
}

} // verus!
