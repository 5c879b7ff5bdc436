//! Version texts and the version that a written file declares.

use crate::qpdf::keys::{
    adbe_key, adbe_key_string, base_version_key, base_version_key_string, extension_level_key,
    extension_level_key_string, extensions_key, extensions_key_string, root_key,
    root_key_string,
};
use crate::qpdf::object::types::ObjectRef;
use crate::qpdf::object::value::{
    duplicate_entries, entries_view, entries_wf, keys_unique, lemma_view_members,
    value_at_key, Entry, EntryModel, ObjectValue, Value,
};
use crate::qpdf::object::{
    entries_with_key, entries_without_key, find_key, lemma_entries_with_key,
    lemma_entries_without_key, remove_entry, replace_entry,
};
use crate::qpdf::store::{
    holds, resolve, store_wf, with_object, ObjectStore, StoreModel, MAX_OBJECT_ID,
};
use crate::qpdf::syntax::{bounded_digits, digits_end, find_digits_end, read_digits};
use vstd::string::StringExecFns;
use crate::qpdf::write::QPDFWriteVersion;
use vstd::prelude::*;
use vstd::string::StrSliceExecFns;
use vstd::utf8::encode_utf8;

verus! {

/// The major and minor number of a version text: digits, a point and
/// digits, each number at most 255.
pub open spec fn version_number(text: Seq<char>) -> Option<(nat, nat)> {
    let b = encode_utf8(text);
    let d1 = digits_end(b, 0, b.len() as int);
    if 0 < d1 < b.len() && b[d1] == 46 && d1 + 1 < b.len() && bounded_digits(b, 0, d1, 255)
        is Some && bounded_digits(b, d1 + 1, b.len() as int, 255) is Some {
        Some((bounded_digits(b, 0, d1, 255)->0, bounded_digits(b, d1 + 1, b.len() as int, 255)->0))
    } else {
        None
    }
}

/// Whether the version `a` with the extension level `a_level` is later
/// than `b` with `b_level`. A text that is no version counts as 0.0.
pub open spec fn later(a: Seq<char>, a_level: int, b: Seq<char>, b_level: int) -> bool {
    let x = match version_number(a) {
        Some(n) => n,
        None => (0nat, 0nat),
    };
    let y = match version_number(b) {
        Some(n) => n,
        None => (0nat, 0nat),
    };
    x.0 > y.0 || (x.0 == y.0 && (x.1 > y.1 || (x.1 == y.1 && a_level > b_level)))
}

/// The version and extension level that a written file declares: those
/// of the document; the wanted ones where they are forced, or are a
/// minimum and later than the document's. A wanted text that is no
/// version is left aside.
pub open spec fn effective_version(current: Seq<char>, level: int, wanted: QPDFWriteVersion) -> (
    Seq<char>,
    int,
) {
    match wanted {
        QPDFWriteVersion::Unset => (current, level),
        QPDFWriteVersion::MinVersion(v) => if version_number(v@) is Some && later(
            v@,
            0,
            current,
            level,
        ) {
            (v@, 0)
        } else {
            (current, level)
        },
        QPDFWriteVersion::MinVersionAndExtension(v, e) => if version_number(v@) is Some && later(
            v@,
            e as int,
            current,
            level,
        ) {
            (v@, e as int)
        } else {
            (current, level)
        },
        QPDFWriteVersion::ForceVersion(v) => if version_number(v@) is Some {
            (v@, 0)
        } else {
            (current, level)
        },
        QPDFWriteVersion::ForceVersionAndExtension(v, e) => if version_number(v@) is Some {
            (v@, e as int)
        } else {
            (current, level)
        },
    }
}

/// The first version whose files may hold object streams.
pub open spec fn stream_version() -> Seq<char> {
    seq!['1', '.', '5']
}

/// The version and extension level that a written file declares where
/// the options of writing may ask for object streams: where they do, and
/// force no version, at least the first version whose files may hold
/// such streams.
pub open spec fn declared_version(
    current: Seq<char>,
    level: int,
    wanted: QPDFWriteVersion,
    streams: bool,
) -> (Seq<char>, int) {
    let chosen = effective_version(current, level, wanted);
    if streams && !(wanted is ForceVersion || wanted is ForceVersionAndExtension) && later(
        stream_version(),
        0,
        chosen.0,
        chosen.1,
    ) {
        (stream_version(), 0)
    } else {
        chosen
    }
}

/// Chooses the version that a written file declares.
pub fn declare_version(current: &String, level: i32, wanted: &QPDFWriteVersion, streams: bool)
    -> (r: (String, i32))
    ensures
        (r.0@, r.1 as int) == declared_version(current@, level as int, *wanted, streams),
{
    let chosen: (String, i32) = choose_version(current, level, wanted);
    let forced: bool = matches!(wanted, QPDFWriteVersion::ForceVersion(_)) || matches!(
        wanted,
        QPDFWriteVersion::ForceVersionAndExtension(_, _)
    );
    proof {
        reveal_strlit("1.5");
    }
    let first: String = String::from_str("1.5");
    assert(first@ =~= stream_version());
    if streams && !forced && is_later(&first, 0, &chosen.0, chosen.1) {
        (first, 0)
    } else {
        chosen
    }
}

pub fn read_version_number(text: &String) -> (r: Option<(u64, u64)>)
    ensures
        r matches Some((major, minor)) ==> version_number(text@) == Some(
            (major as nat, minor as nat),
        ),
        r is None ==> version_number(text@) is None,
{
    let b: Vec<u8> = text.as_str().as_bytes_vec();
    let d1: usize = find_digits_end(&b, 0, b.len());
    if !(0 < d1 && d1 < b.len() && b[d1] == 46 && d1 + 1 < b.len()) {
        return None;
    }
    let major: u64 = match read_digits(&b, 0, d1, 255) {
        Some(n) => n,
        None => {
            return None;
        },
    };
    match read_digits(&b, d1 + 1, b.len(), 255) {
        Some(minor) => Some((major, minor)),
        None => None,
    }
}

pub fn is_later(a: &String, a_level: i32, b: &String, b_level: i32) -> (r: bool)
    ensures
        r == later(a@, a_level as int, b@, b_level as int),
{
    let x: (u64, u64) = match read_version_number(a) {
        Some(n) => n,
        None => (0, 0),
    };
    let y: (u64, u64) = match read_version_number(b) {
        Some(n) => n,
        None => (0, 0),
    };
    x.0 > y.0 || (x.0 == y.0 && (x.1 > y.1 || (x.1 == y.1 && a_level > b_level)))
}

/// Chooses the version that a written file declares.
pub fn choose_version(current: &String, level: i32, wanted: &QPDFWriteVersion) -> (r: (
    String,
    i32,
))
    ensures
        (r.0@, r.1 as int) == effective_version(current@, level as int, *wanted),
{
    match wanted {
        QPDFWriteVersion::Unset => (current.clone(), level),
        QPDFWriteVersion::MinVersion(v) => {
            if read_version_number(v).is_some() && is_later(v, 0, current, level) {
                (v.clone(), 0)
            } else {
                (current.clone(), level)
            }
        },
        QPDFWriteVersion::MinVersionAndExtension(v, e) => {
            if read_version_number(v).is_some() && is_later(v, *e, current, level) {
                (v.clone(), *e)
            } else {
                (current.clone(), level)
            }
        },
        QPDFWriteVersion::ForceVersion(v) => {
            if read_version_number(v).is_some() {
                (v.clone(), 0)
            } else {
                (current.clone(), level)
            }
        },
        QPDFWriteVersion::ForceVersionAndExtension(v, e) => {
            if read_version_number(v).is_some() {
                (v.clone(), *e)
            } else {
                (current.clone(), level)
            }
        },
    }
}

/// What declares the extension level `level` of the version `version`:
/// the base version as a name and the level.
pub open spec fn declaration(version: Seq<char>, level: int) -> Seq<EntryModel> {
    seq![
        (base_version_key(), Value::Name(seq!['/'] + version)),
        (extension_level_key(), Value::Integer(level)),
    ]
}

/// The entries of a root that declares the extension level `level` of
/// the version `version`: under `/ADBE` of the dictionary under
/// `/Extensions`, which is made where the root holds none itself. A
/// level that is not positive is declared by taking `/ADBE` out of the
/// dictionary that the root holds under `/Extensions`, and `/Extensions`
/// with it where nothing else is left in it.
pub open spec fn declaring(root: Seq<EntryModel>, version: Seq<char>, level: int) -> Seq<
    EntryModel,
> {
    let held = match value_at_key(root, extensions_key()) {
        Value::Dictionary(e) => e,
        _ => Seq::empty(),
    };
    let extensions = if level > 0 {
        entries_with_key(held, adbe_key(), Value::Dictionary(declaration(version, level)))
    } else {
        entries_without_key(held, adbe_key())
    };
    if level <= 0 && !(value_at_key(root, extensions_key()) is Dictionary) {
        root
    } else if extensions.len() == 0 {
        entries_without_key(root, extensions_key())
    } else {
        entries_with_key(root, extensions_key(), Value::Dictionary(extensions))
    }
}

/// The store in which the root that the trailer names declares the
/// extension level `level` of the version `version`. The store itself
/// where the trailer names no root that is held as a dictionary.
pub open spec fn with_declaration(
    objects: StoreModel,
    trailer: Seq<EntryModel>,
    version: Seq<char>,
    level: int,
) -> StoreModel {
    match value_at_key(trailer, root_key()) {
        Value::Indirect(r) => match resolve(objects, r) {
            Value::Dictionary(root) => if holds(objects, r) && r.id <= MAX_OBJECT_ID {
                with_object(objects, r, Value::Dictionary(declaring(root, version, level)))
            } else {
                objects
            },
            _ => objects,
        },
        _ => objects,
    }
}

/// The keys of a declaration differ.
pub proof fn lemma_declaration_keys()
    ensures
        base_version_key() != extension_level_key(),
{
    assert(base_version_key()[1] != extension_level_key()[1]);
}

/// A root that is well formed stays so when it declares an extension
/// level.
pub proof fn lemma_declaring_wf(root: Seq<EntryModel>, version: Seq<char>, level: int)
    requires
        entries_wf(root),
    ensures
        entries_wf(declaring(root, version, level)),
{
    let under = value_at_key(root, extensions_key());
    let held = match under {
        Value::Dictionary(e) => e,
        _ => Seq::empty(),
    };
    crate::qpdf::object::value::lemma_key_index(root, extensions_key());
    assert(entries_wf(held)) by {
        if under is Dictionary {
            assert(root[crate::qpdf::object::value::key_index(root, extensions_key())].1.wf());
            assert(under->Dictionary_0 == held);
        }
    }
    let inner = Value::Dictionary(declaration(version, level));
    assert(inner.wf()) by {
        lemma_declaration_keys();
        assert(inner->Dictionary_0 == declaration(version, level));
        assert(keys_unique(inner->Dictionary_0));
        assert forall|i: int| 0 <= i < inner->Dictionary_0.len() implies (
        #[trigger] inner->Dictionary_0[i]).1.wf() by {
            if i == 0 {
            } else {
                assert(i == 1);
            }
        }
    }
    lemma_entries_with_key(held, adbe_key(), inner);
    lemma_entries_without_key(held, adbe_key());
    let extensions = if level > 0 {
        entries_with_key(held, adbe_key(), inner)
    } else {
        entries_without_key(held, adbe_key())
    };
    let whole = Value::Dictionary(extensions);
    assert(whole.wf()) by {
        assert(whole->Dictionary_0 == extensions);
    }
    lemma_entries_without_key(root, extensions_key());
    lemma_entries_with_key(root, extensions_key(), whole);
}

/// A store that is well formed stays so when its root declares an
/// extension level.
pub proof fn lemma_with_declaration_wf(
    objects: StoreModel,
    trailer: Seq<EntryModel>,
    version: Seq<char>,
    level: int,
)
    requires
        store_wf(objects),
    ensures
        store_wf(with_declaration(objects, trailer, version, level)),
{
    if let Value::Indirect(r) = value_at_key(trailer, root_key()) {
        if let Value::Dictionary(root) = resolve(objects, r) {
            if holds(objects, r) && r.id <= MAX_OBJECT_ID {
                let v = resolve(objects, r);
                assert(objects[r.id - 1] is Some);
                assert(v.wf());
                assert(v->Dictionary_0 == root);
                lemma_declaring_wf(root, version, level);
                let whole = Value::Dictionary(declaring(root, version, level));
                assert(whole->Dictionary_0 == declaring(root, version, level));
                assert(whole.wf());
            }
        }
    }
}

/// Makes the entries of a root declare the extension level.
pub fn declare_in(root: &mut Vec<Entry>, version: &String, level: i32)
    requires
        entries_wf(entries_view(old(root)@)),
    ensures
        entries_view(final(root)@) == declaring(entries_view(old(root)@), version@, level as int),
        entries_wf(entries_view(final(root)@)),
{
    let ghost model = entries_view(root@);
    let key: String = extensions_key_string();
    let at: usize = find_key(root, &key);
    proof {
        crate::qpdf::object::value::lemma_key_index(model, extensions_key());
        if at < root.len() {
            lemma_view_members(root@[at as int].1);
            assert(model[at as int].1 == root@[at as int].1@);
            assert(model[at as int].1.wf());
        }
    }
    let direct: bool = at < root.len() && matches!(root[at].1, ObjectValue::Dictionary(_));
    if level <= 0 && !direct {
        return;
    }
    let mut extensions: Vec<Entry> = if at < root.len() {
        match &root[at].1 {
            ObjectValue::Dictionary(e) => {
                assert(root@[at as int].1@->Dictionary_0 == entries_view(e@));
                duplicate_entries(e)
            },
            _ => Vec::new(),
        }
    } else {
        Vec::new()
    };
    assert(model == entries_view(root@));
    let ghost held = entries_view(extensions@);
    assert(held =~= match value_at_key(model, extensions_key()) {
        Value::Dictionary(e) => e,
        _ => Seq::empty(),
    });
    assert(entries_wf(held));
    if level > 0 {
        let mut inner: Vec<Entry> = Vec::new();
        let slash: String = String::from_str("/");
        proof {
            reveal_strlit("/");
            assert(slash@ =~= seq!['/']);
        }
        let base: String = slash.concat(version.as_str());
        inner.push((base_version_key_string(), ObjectValue::Name(base)));
        inner.push((extension_level_key_string(), ObjectValue::Integer(level as i64)));
        assert(entries_view(inner@) =~= declaration(version@, level as int));
        let whole = ObjectValue::Dictionary(inner);
        proof {
            lemma_view_members(whole);
            lemma_declaration_keys();
            assert(whole@->Dictionary_0 == declaration(version@, level as int));
            assert(keys_unique(whole@->Dictionary_0));
            assert forall|i: int| 0 <= i < whole@->Dictionary_0.len() implies (
            #[trigger] whole@->Dictionary_0[i]).1.wf() by {
                if i == 0 {
                } else {
                    assert(i == 1);
                }
            }
            lemma_entries_with_key(held, adbe_key(), whole@);
        }
        replace_entry(&mut extensions, adbe_key_string(), whole);
    } else {
        proof {
            lemma_entries_without_key(held, adbe_key());
        }
        remove_entry(&mut extensions, &adbe_key_string());
    }
    if extensions.len() == 0 {
        proof {
            lemma_entries_without_key(model, extensions_key());
        }
        remove_entry(root, &key);
    } else {
        let whole = ObjectValue::Dictionary(extensions);
        proof {
            lemma_view_members(whole);
            assert(whole@->Dictionary_0 == entries_view(extensions@));
            lemma_entries_with_key(model, extensions_key(), whole@);
        }
        replace_entry(root, key, whole);
    }
}

/// Makes the root that the trailer names declare the extension level.
pub fn declare(store: &mut ObjectStore, trailer: &Vec<Entry>, version: &String, level: i32)
    requires
        old(store).wf(),
    ensures
        final(store).wf(),
        final(store)@ == with_declaration(
            old(store)@,
            entries_view(trailer@),
            version@,
            level as int,
        ),
{
    let at: usize = find_key(trailer, &root_key_string());
    if at >= trailer.len() {
        return;
    }
    match &trailer[at].1 {
        ObjectValue::Indirect(r) => {
            let r: ObjectRef = *r;
            if !(r.id > 0 && r.id <= MAX_OBJECT_ID && r.generation >= 0) {
                return;
            }
            let found: Option<ObjectValue> = store.get(r.id, r.generation);
            match found {
                Some(v) => {
                    proof {
                        lemma_view_members(v);
                    }
                    match v {
                        ObjectValue::Dictionary(root) => {
                            let mut root = root;
                            assert(v@->Dictionary_0 == entries_view(root@));
                            declare_in(&mut root, version, level);
                            let whole = ObjectValue::Dictionary(root);
                            proof {
                                lemma_view_members(whole);
                                assert(whole@->Dictionary_0 == entries_view(root@));
                            }
                            let _ = store.put(r, whole);
                        },
                        _ => {},
                    }
                },
                None => {},
            }
        },
        _ => {},
    }
}

} // verus!
