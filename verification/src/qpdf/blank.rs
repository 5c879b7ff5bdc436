//! The document without pages.

use crate::qpdf::keys::{
    catalog_key, catalog_key_string, count_key, count_key_string, kids_key, kids_key_string,
    pages_key, pages_key_string, root_key, root_key_string, type_key, type_key_string,
};
use crate::qpdf::object::types::ObjectRef;
use crate::qpdf::object::value::{
    entries_view, entries_wf, keys_unique, lemma_view_members, Entry, EntryModel, ObjectValue,
    Value,
};
use crate::qpdf::store::{ObjectStore, StoreModel, StoredModel};
use vstd::prelude::*;
use vstd::string::StringExecFns;

verus! {

/// The version of a document made without a file.
pub open spec fn blank_version() -> Seq<char> {
    seq!['1', '.', '3']
}

/// The entries of the root of a document without pages: a catalog whose
/// pages are the object 2.
pub open spec fn blank_catalog() -> Seq<EntryModel> {
    seq![
        (type_key(), Value::Name(catalog_key())),
        (pages_key(), Value::Indirect(ObjectRef { id: 2, generation: 0 })),
    ]
}

/// The entries of the root of a page tree without pages.
pub open spec fn blank_pages() -> Seq<EntryModel> {
    seq![
        (type_key(), Value::Name(pages_key())),
        (kids_key(), Value::Array(Seq::empty())),
        (count_key(), Value::Integer(0)),
    ]
}

/// The objects of a document without pages: the catalog as object 1, the
/// root of the page tree as object 2.
pub open spec fn blank_objects() -> StoreModel {
    seq![
        Some(StoredModel { generation: 0, value: Value::Dictionary(blank_catalog()) }),
        Some(StoredModel { generation: 0, value: Value::Dictionary(blank_pages()) }),
    ]
}

/// The trailer of a document without pages: its root is the object 1.
pub open spec fn blank_trailer() -> Seq<EntryModel> {
    seq![(root_key(), Value::Indirect(ObjectRef { id: 1, generation: 0 }))]
}

pub fn blank_version_string() -> (r: String)
    ensures
        r@ == blank_version(),
{
    proof {
        reveal_strlit("1.3");
    }
    let r: String = String::from_str("1.3");
    assert(r@ =~= blank_version());
    r
}

/// Makes the objects and the trailer of a document without pages.
pub fn make_blank() -> (r: (ObjectStore, Vec<Entry>))
    ensures
        r.0@ == blank_objects(),
        entries_view(r.1@) == blank_trailer(),
        r.0.wf(),
        entries_wf(entries_view(r.1@)),
{
    let mut catalog: Vec<Entry> = Vec::new();
    catalog.push((type_key_string(), ObjectValue::Name(catalog_key_string())));
    catalog.push(
        (pages_key_string(), ObjectValue::Indirect(ObjectRef { id: 2, generation: 0 })),
    );
    assert(entries_view(catalog@) =~= blank_catalog());
    let mut pages: Vec<Entry> = Vec::new();
    let kids = ObjectValue::Array(Vec::new());
    proof {
        lemma_view_members(kids);
        assert(kids@->Array_0 =~= Seq::<Value>::empty());
    }
    pages.push((type_key_string(), ObjectValue::Name(pages_key_string())));
    pages.push((kids_key_string(), kids));
    pages.push((count_key_string(), ObjectValue::Integer(0)));
    assert(entries_view(pages@) =~= blank_pages());
    let first = ObjectValue::Dictionary(catalog);
    let second = ObjectValue::Dictionary(pages);
    proof {
        lemma_view_members(first);
        lemma_view_members(second);
        lemma_distinct_keys();
        assert(first@->Dictionary_0 == blank_catalog());
        assert(second@->Dictionary_0 == blank_pages());
        assert(keys_unique(first@->Dictionary_0));
        assert(keys_unique(second@->Dictionary_0));
        assert forall|i: int| 0 <= i < first@->Dictionary_0.len() implies (
        #[trigger] first@->Dictionary_0[i]).1.wf() by {
            if i == 0 {
            } else {
                assert(i == 1);
            }
        }
        assert(first@.wf());
        assert forall|i: int| 0 <= i < second@->Dictionary_0.len() implies (
        #[trigger] second@->Dictionary_0[i]).1.wf() by {
            if i == 0 {
            } else if i == 1 {
                assert(second@->Dictionary_0[1].1->Array_0.len() == 0);
            } else {
                assert(i == 2);
            }
        }
        assert(second@.wf());
    }
    let mut store: ObjectStore = ObjectStore::new();
    let _ = store.put(ObjectRef { id: 1, generation: 0 }, first);
    let _ = store.put(ObjectRef { id: 2, generation: 0 }, second);
    assert(store@ =~= blank_objects());
    let mut trailer: Vec<Entry> = Vec::new();
    trailer.push((root_key_string(), ObjectValue::Indirect(ObjectRef { id: 1, generation: 0 })));
    assert(entries_view(trailer@) =~= blank_trailer());
    (store, trailer)
}

/// The keys of the blank document differ from one another.
pub proof fn lemma_distinct_keys()
    ensures
        type_key() != pages_key(),
        type_key() != kids_key(),
        type_key() != count_key(),
        kids_key() != count_key(),
{
    assert(type_key()[1] != pages_key()[1]);
    assert(type_key()[1] != kids_key()[1]);
    assert(type_key()[1] != count_key()[1]);
    assert(kids_key()[1] != count_key()[1]);
}

} // verus!
