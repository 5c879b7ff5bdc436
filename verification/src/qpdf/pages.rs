//! The page tree: the list of pages that a document reaches, and the tree
//! rebuilt flat from a list.

use crate::qpdf::graph::{find_reached, reached, WalkKind};
use crate::qpdf::keys::{
    count_key, count_key_string, crop_box_key, crop_box_key_string, kids_key, kids_key_string,
    media_box_key, media_box_key_string, pages_key, pages_key_string, parent_key,
    parent_key_string, resources_key, resources_key_string, root_key, root_key_string,
    rotate_key, rotate_key_string,
};
use crate::qpdf::object::types::ObjectRef;
use crate::qpdf::object::value::{
    entries_view, entries_wf, has_key, key_index, lemma_key_index, lemma_view_members,
    value_at_key, values_view, Entry, EntryModel, ObjectValue, Value,
};
use crate::qpdf::object::{entries_with_key, find_key, lemma_entries_with_key, replace_entry};
use crate::qpdf::store::{
    holds, resolve, store_wf, with_object, ObjectStore, StoreModel, MAX_OBJECT_ID,
};
use vstd::prelude::*;

verus! {

/// The root of the page tree: what `/Pages` of the root dictionary refers
/// to, where the trailer names a root that the store holds as a
/// dictionary.
pub open spec fn pages_root(objects: StoreModel, trailer: Seq<EntryModel>) -> Option<ObjectRef> {
    match value_at_key(trailer, root_key()) {
        Value::Indirect(root) => match resolve(objects, root) {
            Value::Dictionary(entries) => match value_at_key(entries, pages_key()) {
                Value::Indirect(pages) => Some(pages),
                _ => None,
            },
            _ => None,
        },
        _ => None,
    }
}

/// A page is a dictionary without an array under `/Kids`.
pub open spec fn is_page(v: Value) -> bool {
    v matches Value::Dictionary(entries) && !(value_at_key(entries, kids_key()) is Array)
}

/// The pages among the first `n` of `refs`, in their order.
pub open spec fn pages_among(objects: StoreModel, refs: Seq<ObjectRef>, n: nat) -> Seq<
    ObjectRef,
>
    decreases n,
{
    if n == 0 || n > refs.len() {
        Seq::empty()
    } else if is_page(resolve(objects, refs[n - 1])) {
        pages_among(objects, refs, (n - 1) as nat).push(refs[n - 1])
    } else {
        pages_among(objects, refs, (n - 1) as nat)
    }
}

/// The pages of a document, in the order of the page tree: the pages
/// among the nodes that a walk from the root of the tree along `/Kids`
/// meets. A node that is met a second time is passed over.
pub open spec fn page_list(objects: StoreModel, trailer: Seq<EntryModel>) -> Seq<ObjectRef> {
    match pages_root(objects, trailer) {
        Some(root) => {
            let nodes = reached(objects, WalkKind::Kids, seq![root]);
            pages_among(objects, nodes, nodes.len())
        },
        None => Seq::empty(),
    }
}

/// Every page of the list is held by the store, and so is a valid
/// reference.
pub proof fn lemma_page_list_held(objects: StoreModel, trailer: Seq<EntryModel>)
    requires
        store_wf(objects),
    ensures
        forall|i: int|
            0 <= i < page_list(objects, trailer).len() ==> holds(
                objects,
                #[trigger] page_list(objects, trailer)[i],
            ),
        all_valid(page_list(objects, trailer)),
{
    match pages_root(objects, trailer) {
        Some(root) => {
            let nodes = reached(objects, WalkKind::Kids, seq![root]);
            crate::qpdf::graph::lemma_walk_held(
                objects,
                WalkKind::Kids,
                seq![root].reverse(),
                Set::empty(),
                Seq::empty(),
                crate::qpdf::graph::walk_limit(),
            );
            lemma_pages_among_held(objects, nodes, nodes.len());
        },
        None => {},
    }
    let list = page_list(objects, trailer);
    assert forall|i: int| 0 <= i < list.len() implies (#[trigger] list[i]).valid() by {
        assert(holds(objects, list[i]));
        assert(objects[list[i].id - 1] is Some);
    }
}

proof fn lemma_pages_among_held(objects: StoreModel, refs: Seq<ObjectRef>, n: nat)
    requires
        forall|i: int| 0 <= i < refs.len() ==> holds(objects, #[trigger] refs[i]),
    ensures
        forall|i: int|
            0 <= i < pages_among(objects, refs, n).len() ==> holds(
                objects,
                #[trigger] pages_among(objects, refs, n)[i],
            ),
    decreases n,
{
    if n == 0 || n > refs.len() {
    } else {
        lemma_pages_among_held(objects, refs, (n - 1) as nat);
        let before = pages_among(objects, refs, (n - 1) as nat);
        let after = pages_among(objects, refs, n);
        assert forall|i: int| 0 <= i < after.len() implies holds(objects, #[trigger] after[i]) by {
            if i < before.len() {
                assert(after[i] == before[i]);
            } else {
                assert(after[i] == refs[n - 1]);
            }
        }
    }
}

/// The root of the page tree of a well-formed store is a valid
/// reference.
pub proof fn lemma_pages_root_valid(objects: StoreModel, trailer: Seq<EntryModel>)
    requires
        store_wf(objects),
    ensures
        pages_root(objects, trailer) matches Some(p) ==> p.valid(),
{
    if let Some(p) = pages_root(objects, trailer) {
        let root = value_at_key(trailer, root_key())->Indirect_0;
        let v = resolve(objects, root);
        assert(holds(objects, root));
        assert(objects[root.id - 1] is Some);
        assert(v.wf());
        let entries = v->Dictionary_0;
        crate::qpdf::object::value::lemma_key_index(entries, pages_key());
        let at = crate::qpdf::object::value::key_index(entries, pages_key());
        assert(entries[at].1.wf());
    }
}

/// Finds the root of the page tree.
pub fn find_pages_root(store: &ObjectStore, trailer: &Vec<Entry>) -> (r: Option<ObjectRef>)
    ensures
        r == pages_root(store@, entries_view(trailer@)),
{
    let at: usize = find_key(trailer, &root_key_string());
    if at >= trailer.len() {
        return None;
    }
    match &trailer[at].1 {
        ObjectValue::Indirect(root) => {
            match store.peek(*root) {
                Some(v) => {
                    proof {
                        lemma_view_members(*v);
                    }
                    match v {
                        ObjectValue::Dictionary(entries) => {
                            let p: usize = find_key(entries, &pages_key_string());
                            if p >= entries.len() {
                                return None;
                            }
                            match &entries[p].1 {
                                ObjectValue::Indirect(pages) => Some(*pages),
                                _ => None,
                            }
                        },
                        _ => None,
                    }
                },
                None => None,
            }
        },
        _ => None,
    }
}

/// Whether `v` is a page.
pub fn check_is_page(v: &ObjectValue) -> (r: bool)
    ensures
        r == is_page(v@),
{
    proof {
        lemma_view_members(*v);
    }
    match v {
        ObjectValue::Dictionary(entries) => {
            let at: usize = find_key(entries, &kids_key_string());
            if at < entries.len() {
                !matches!(entries[at].1, ObjectValue::Array(_))
            } else {
                true
            }
        },
        _ => false,
    }
}

/// Computes the pages of a document.
pub fn find_page_list(store: &ObjectStore, trailer: &Vec<Entry>) -> (r: Vec<ObjectRef>)
    ensures
        r@ == page_list(store@, entries_view(trailer@)),
{
    let root: ObjectRef = match find_pages_root(store, trailer) {
        Some(root) => root,
        None => {
            return Vec::new();
        },
    };
    let mut roots: Vec<ObjectRef> = Vec::new();
    roots.push(root);
    assert(roots@ =~= seq![root]);
    let nodes: Vec<ObjectRef> = find_reached(store, WalkKind::Kids, &roots);
    let mut out: Vec<ObjectRef> = Vec::new();
    let mut i: usize = 0;
    while i < nodes.len()
        invariant
            i <= nodes.len(),
            out@ == pages_among(store@, nodes@, i as nat),
        decreases nodes.len() - i,
    {
        let page: bool = match store.peek(nodes[i]) {
            Some(v) => check_is_page(v),
            None => false,
        };
        if page {
            out.push(nodes[i]);
        }
        i += 1;
    }
    out
}

/// The position of `r` in `list`, or the length of `list`.
pub open spec fn index_of(list: Seq<ObjectRef>, r: ObjectRef) -> int
    decreases list.len(),
{
    if list.len() == 0 {
        0
    } else if list[0] == r {
        0
    } else {
        1 + index_of(list.drop_first(), r)
    }
}

pub proof fn lemma_index_of(list: Seq<ObjectRef>, r: ObjectRef)
    ensures
        0 <= index_of(list, r) <= list.len(),
        index_of(list, r) < list.len() ==> list[index_of(list, r)] == r,
        forall|i: int| 0 <= i < index_of(list, r) ==> list[i] != r,
    decreases list.len(),
{
    if list.len() > 0 && list[0] != r {
        let rest = list.drop_first();
        lemma_index_of(rest, r);
        assert forall|i: int| 0 <= i < index_of(list, r) implies list[i] != r by {
            if i > 0 {
                assert(list[i] == rest[i - 1]);
            }
        }
        if index_of(rest, r) < rest.len() {
            assert(list[1 + index_of(rest, r)] == rest[index_of(rest, r)]);
        }
    }
}

pub fn find_index(list: &Vec<ObjectRef>, r: ObjectRef) -> (at: usize)
    ensures
        at as int == index_of(list@, r),
        at <= list.len(),
{
    let mut i: usize = 0;
    assert(list@.skip(0) =~= list@);
    while i < list.len()
        invariant
            i <= list.len(),
            index_of(list@, r) == i + index_of(list@.skip(i as int), r),
        decreases list.len() - i,
    {
        proof {
            let rest = list@.skip(i as int);
            assert(rest[0] == list@[i as int]);
            assert(rest.drop_first() =~= list@.skip(i + 1));
        }
        if list[i].id == r.id && list[i].generation == r.generation {
            return i;
        }
        i += 1;
    }
    assert(list@.skip(i as int).len() == 0);
    i
}

/// The first `n` of `list` as the items of an array: one reference each.
pub open spec fn as_items(list: Seq<ObjectRef>, n: nat) -> Seq<Value>
    decreases n,
{
    if n == 0 || n > list.len() {
        Seq::empty()
    } else {
        as_items(list, (n - 1) as nat).push(Value::Indirect(list[n - 1]))
    }
}

/// How many nodes above a page are asked for what the page takes over
/// from them.
pub const INHERIT_DEPTH: usize = 64;

/// What the nodes of the page tree from `node` upwards hold under `key`:
/// the value of the first of them that holds the key, along `/Parent`;
/// null where none of at most `fuel` nodes holds it.
pub open spec fn inherited_value(objects: StoreModel, node: Value, key: Seq<char>, fuel: nat)
    -> Value
    decreases fuel,
{
    if fuel == 0 {
        Value::Null
    } else {
        match node {
            Value::Indirect(r) => match resolve(objects, r) {
                Value::Dictionary(entries) => if has_key(entries, key) {
                    value_at_key(entries, key)
                } else {
                    inherited_value(
                        objects,
                        value_at_key(entries, parent_key()),
                        key,
                        (fuel - 1) as nat,
                    )
                },
                _ => Value::Null,
            },
            _ => Value::Null,
        }
    }
}

/// The entries of a page with what the nodes above it hold under `key`,
/// where the page holds nothing under the key itself and the nodes hold
/// something.
pub open spec fn with_inherited(objects: StoreModel, entries: Seq<EntryModel>, key: Seq<char>)
    -> Seq<EntryModel> {
    let v = inherited_value(
        objects,
        value_at_key(entries, parent_key()),
        key,
        INHERIT_DEPTH as nat,
    );
    if has_key(entries, key) || v is Null {
        entries
    } else {
        entries_with_key(entries, key, v)
    }
}

/// The entries of a page that stands by itself: with what it took over
/// from the nodes above it, its resources, its two boxes and its
/// rotation, held by the page itself.
pub open spec fn settled(objects: StoreModel, entries: Seq<EntryModel>) -> Seq<EntryModel> {
    with_inherited(
        objects,
        with_inherited(
            objects,
            with_inherited(
                objects,
                with_inherited(objects, entries, resources_key()),
                media_box_key(),
            ),
            crop_box_key(),
        ),
        rotate_key(),
    )
}

/// What a page is once it stands by itself and names `root` as its
/// parent.
pub open spec fn parented(objects: StoreModel, v: Value, root: ObjectRef) -> Value {
    Value::Dictionary(
        entries_with_key(
            settled(objects, v->Dictionary_0),
            parent_key(),
            Value::Indirect(root),
        ),
    )
}

/// What the nodes above hold is well formed in a well-formed store.
pub proof fn lemma_inherited_wf(objects: StoreModel, node: Value, key: Seq<char>, fuel: nat)
    requires
        store_wf(objects),
    ensures
        inherited_value(objects, node, key, fuel).wf(),
    decreases fuel,
{
    if fuel > 0 {
        if let Value::Indirect(r) = node {
            if let Value::Dictionary(entries) = resolve(objects, r) {
                let held = resolve(objects, r);
                assert(objects[r.id - 1] is Some);
                assert(held.wf());
                assert(held->Dictionary_0 == entries);
                lemma_key_index(entries, key);
                lemma_key_index(entries, parent_key());
                if has_key(entries, key) {
                    assert(entries[key_index(entries, key)].1.wf());
                } else {
                    lemma_inherited_wf(
                        objects,
                        value_at_key(entries, parent_key()),
                        key,
                        (fuel - 1) as nat,
                    );
                }
            }
        }
    }
}

/// Entries that take over a key stay well formed, and hold under every
/// other key what they held.
pub proof fn lemma_with_inherited(objects: StoreModel, entries: Seq<EntryModel>, key: Seq<char>)
    requires
        store_wf(objects),
        entries_wf(entries),
    ensures
        entries_wf(with_inherited(objects, entries, key)),
        forall|other: Seq<char>|
            other != key ==> {
                &&& has_key(with_inherited(objects, entries, key), other) == has_key(
                    entries,
                    other,
                )
                &&& #[trigger] value_at_key(with_inherited(objects, entries, key), other)
                    == value_at_key(entries, other)
            },
{
    let v = inherited_value(
        objects,
        value_at_key(entries, parent_key()),
        key,
        INHERIT_DEPTH as nat,
    );
    lemma_inherited_wf(objects, value_at_key(entries, parent_key()), key, INHERIT_DEPTH as nat);
    lemma_entries_with_key(entries, key, v);
}

/// The keys that a page takes over are no keys of the page tree itself.
pub proof fn lemma_inherited_keys()
    ensures
        resources_key() != kids_key(),
        resources_key() != pages_key(),
        resources_key() != parent_key(),
        media_box_key() != kids_key(),
        media_box_key() != pages_key(),
        media_box_key() != parent_key(),
        crop_box_key() != kids_key(),
        crop_box_key() != pages_key(),
        crop_box_key() != parent_key(),
        rotate_key() != kids_key(),
        rotate_key() != pages_key(),
        rotate_key() != parent_key(),
{
    assert(resources_key()[1] == 'R' && media_box_key()[1] == 'M' && crop_box_key()[1] == 'C'
        && rotate_key()[1] == 'R');
    assert(kids_key()[1] == 'K' && pages_key()[1] == 'P' && parent_key()[1] == 'P');
}

/// A page that stands by itself is well formed, and holds under the keys
/// of the page tree what it held.
pub proof fn lemma_settled(objects: StoreModel, entries: Seq<EntryModel>)
    requires
        store_wf(objects),
        entries_wf(entries),
    ensures
        entries_wf(settled(objects, entries)),
        value_at_key(settled(objects, entries), kids_key()) == value_at_key(entries, kids_key()),
        value_at_key(settled(objects, entries), pages_key()) == value_at_key(
            entries,
            pages_key(),
        ),
{
    lemma_inherited_keys();
    let e1 = with_inherited(objects, entries, resources_key());
    lemma_with_inherited(objects, entries, resources_key());
    let e2 = with_inherited(objects, e1, media_box_key());
    lemma_with_inherited(objects, e1, media_box_key());
    let e3 = with_inherited(objects, e2, crop_box_key());
    lemma_with_inherited(objects, e2, crop_box_key());
    lemma_with_inherited(objects, e3, rotate_key());
    assert(value_at_key(e1, kids_key()) == value_at_key(entries, kids_key()));
    assert(value_at_key(e2, kids_key()) == value_at_key(e1, kids_key()));
    assert(value_at_key(e3, kids_key()) == value_at_key(e2, kids_key()));
    assert(value_at_key(e1, pages_key()) == value_at_key(entries, pages_key()));
    assert(value_at_key(e2, pages_key()) == value_at_key(e1, pages_key()));
    assert(value_at_key(e3, pages_key()) == value_at_key(e2, pages_key()));
}

/// What a page holds under `key` in effect: what it holds itself, or
/// what it takes over from the nodes above it.
pub open spec fn effective_value(objects: StoreModel, entries: Seq<EntryModel>, key: Seq<char>)
    -> Value {
    if has_key(entries, key) {
        value_at_key(entries, key)
    } else {
        inherited_value(objects, value_at_key(entries, parent_key()), key, INHERIT_DEPTH as nat)
    }
}

/// Whether a page takes over `key` from the nodes above it.
pub open spec fn is_inheritable(key: Seq<char>) -> bool {
    key == resources_key() || key == media_box_key() || key == crop_box_key() || key
        == rotate_key()
}

/// Entries that take over a key hold under it what the page holds in
/// effect.
pub proof fn lemma_with_inherited_value(
    objects: StoreModel,
    entries: Seq<EntryModel>,
    key: Seq<char>,
)
    requires
        store_wf(objects),
        entries_wf(entries),
    ensures
        value_at_key(with_inherited(objects, entries, key), key) == effective_value(
            objects,
            entries,
            key,
        ),
{
    let v = inherited_value(
        objects,
        value_at_key(entries, parent_key()),
        key,
        INHERIT_DEPTH as nat,
    );
    lemma_inherited_wf(objects, value_at_key(entries, parent_key()), key, INHERIT_DEPTH as nat);
    lemma_entries_with_key(entries, key, v);
}

/// A page that stands by itself holds what it held in effect: under each
/// key that a page takes over, the page that stands by itself holds what
/// the page held itself or took over from the nodes above it. So the
/// nodes between can fall out of the tree.
pub proof fn law_settled_page_holds_what_it_took_over(
    objects: StoreModel,
    entries: Seq<EntryModel>,
    key: Seq<char>,
)
    requires
        store_wf(objects),
        entries_wf(entries),
        is_inheritable(key),
    ensures
        value_at_key(settled(objects, entries), key) == effective_value(objects, entries, key),
{
    lemma_inherited_keys();
    assert(resources_key()[2] != rotate_key()[2]);
    assert(media_box_key()[1] != crop_box_key()[1]);
    let e1 = with_inherited(objects, entries, resources_key());
    lemma_with_inherited(objects, entries, resources_key());
    lemma_with_inherited_value(objects, entries, resources_key());
    let e2 = with_inherited(objects, e1, media_box_key());
    lemma_with_inherited(objects, e1, media_box_key());
    lemma_with_inherited_value(objects, e1, media_box_key());
    let e3 = with_inherited(objects, e2, crop_box_key());
    lemma_with_inherited(objects, e2, crop_box_key());
    lemma_with_inherited_value(objects, e2, crop_box_key());
    let e4 = with_inherited(objects, e3, rotate_key());
    lemma_with_inherited(objects, e3, rotate_key());
    lemma_with_inherited_value(objects, e3, rotate_key());
    assert(value_at_key(e1, parent_key()) == value_at_key(entries, parent_key()));
    assert(value_at_key(e2, parent_key()) == value_at_key(e1, parent_key()));
    assert(value_at_key(e3, parent_key()) == value_at_key(e2, parent_key()));
    if key == resources_key() {
        assert(value_at_key(e2, key) == value_at_key(e1, key));
        assert(value_at_key(e3, key) == value_at_key(e2, key));
        assert(value_at_key(e4, key) == value_at_key(e3, key));
    } else if key == media_box_key() {
        assert(has_key(e1, key) == has_key(entries, key));
        assert(value_at_key(e1, key) == value_at_key(entries, key));
        assert(value_at_key(e3, key) == value_at_key(e2, key));
        assert(value_at_key(e4, key) == value_at_key(e3, key));
    } else if key == crop_box_key() {
        assert(has_key(e1, key) == has_key(entries, key));
        assert(value_at_key(e1, key) == value_at_key(entries, key));
        assert(has_key(e2, key) == has_key(e1, key));
        assert(value_at_key(e2, key) == value_at_key(e1, key));
        assert(value_at_key(e4, key) == value_at_key(e3, key));
    } else {
        assert(has_key(e1, key) == has_key(entries, key));
        assert(value_at_key(e1, key) == value_at_key(entries, key));
        assert(has_key(e2, key) == has_key(e1, key));
        assert(value_at_key(e2, key) == value_at_key(e1, key));
        assert(has_key(e3, key) == has_key(e2, key));
        assert(value_at_key(e3, key) == value_at_key(e2, key));
    }
}

/// Finds what the nodes from `node` upwards hold under `key`.
pub fn find_inherited(store: &ObjectStore, node: &ObjectValue, key: &String) -> (r: ObjectValue)
    ensures
        r@ == inherited_value(store@, node@, key@, INHERIT_DEPTH as nat),
{
    let mut cur: ObjectValue = node.duplicate();
    let mut left: usize = INHERIT_DEPTH;
    while left > 0
        invariant
            inherited_value(store@, node@, key@, INHERIT_DEPTH as nat) == inherited_value(
                store@,
                cur@,
                key@,
                left as nat,
            ),
        decreases left,
    {
        let reference: ObjectRef = match &cur {
            ObjectValue::Indirect(r) => *r,
            _ => {
                return ObjectValue::Null;
            },
        };
        let next: ObjectValue = match store.peek(reference) {
            Some(v) => {
                proof {
                    lemma_view_members(*v);
                }
                match v {
                    ObjectValue::Dictionary(entries) => {
                        assert(v@->Dictionary_0 == entries_view(entries@));
                        let at: usize = find_key(entries, key);
                        if at < entries.len() {
                            return entries[at].1.duplicate();
                        }
                        let up: usize = find_key(entries, &parent_key_string());
                        if up < entries.len() {
                            entries[up].1.duplicate()
                        } else {
                            ObjectValue::Null
                        }
                    },
                    _ => {
                        return ObjectValue::Null;
                    },
                }
            },
            None => {
                return ObjectValue::Null;
            },
        };
        cur = next;
        left -= 1;
    }
    ObjectValue::Null
}

/// Makes the entries of a page take over `key` from the nodes above.
pub fn inherit_key(store: &ObjectStore, entries: &mut Vec<Entry>, key: String)
    ensures
        entries_view(final(entries)@) == with_inherited(
            store@,
            entries_view(old(entries)@),
            key@,
        ),
{
    if find_key(entries, &key) < entries.len() {
        return;
    }
    let up: usize = find_key(entries, &parent_key_string());
    let node: ObjectValue = if up < entries.len() {
        entries[up].1.duplicate()
    } else {
        ObjectValue::Null
    };
    let v: ObjectValue = find_inherited(store, &node, &key);
    proof {
        lemma_view_members(v);
    }
    if matches!(v, ObjectValue::Null) {
        return;
    }
    replace_entry(entries, key, v);
}

/// Makes the entries of a page stand by themselves.
pub fn settle(store: &ObjectStore, entries: &mut Vec<Entry>)
    ensures
        entries_view(final(entries)@) == settled(store@, entries_view(old(entries)@)),
{
    inherit_key(store, entries, resources_key_string());
    inherit_key(store, entries, media_box_key_string());
    inherit_key(store, entries, crop_box_key_string());
    inherit_key(store, entries, rotate_key_string());
}

/// The store in which each of the first `n` of `list` that `objects`
/// holds as a dictionary stands by itself and names `root` under
/// `/Parent`: what it took over from the nodes above it in `objects`, it
/// holds itself.
pub open spec fn with_parents(objects: StoreModel, root: ObjectRef, list: Seq<ObjectRef>, n: nat)
    -> StoreModel
    decreases n,
{
    if n == 0 || n > list.len() {
        objects
    } else {
        let before = with_parents(objects, root, list, (n - 1) as nat);
        if resolve(objects, list[n - 1]) is Dictionary && holds(objects, list[n - 1]) && list[n
            - 1].id <= MAX_OBJECT_ID {
            with_object(before, list[n - 1], parented(objects, resolve(objects, list[n - 1]), root))
        } else {
            before
        }
    }
}

/// The store in which the page tree is flat: every page of `list`
/// stands by itself and names `root` as its parent, and `root`, where it
/// is held as a dictionary, holds the pages of `list` under `/Kids` and
/// their number under `/Count`. The nodes between fall out of the tree;
/// what a page took over from them, the page holds itself.
pub open spec fn with_pages(objects: StoreModel, root: ObjectRef, list: Seq<ObjectRef>)
    -> StoreModel {
    let parented = with_parents(objects, root, list, list.len());
    match resolve(parented, root) {
        Value::Dictionary(entries) => if holds(parented, root) && root.id <= MAX_OBJECT_ID {
            with_object(
                parented,
                root,
                Value::Dictionary(
                    entries_with_key(
                        entries_with_key(
                            entries,
                            kids_key(),
                            Value::Array(as_items(list, list.len())),
                        ),
                        count_key(),
                        Value::Integer(count_of(list.len())),
                    ),
                ),
            )
        } else {
            parented
        },
        _ => parented,
    }
}

/// The number of pages as `/Count` gives it: at most `i64::MAX`.
pub open spec fn count_of(n: nat) -> int {
    if n <= i64::MAX {
        n as int
    } else {
        i64::MAX as int
    }
}

/// Every reference of the list is valid.
pub open spec fn all_valid(list: Seq<ObjectRef>) -> bool {
    forall|i: int| 0 <= i < list.len() ==> (#[trigger] list[i]).valid()
}

/// Rebuilds the page tree flat from `list`.
pub fn set_pages(store: &mut ObjectStore, root: ObjectRef, list: &Vec<ObjectRef>)
    requires
        old(store).wf(),
        root.valid(),
        all_valid(list@),
    ensures
        final(store).wf(),
        final(store)@ == with_pages(old(store)@, root, list@),
{
    let base: ObjectStore = store.duplicate();
    let mut i: usize = 0;
    let mut items: Vec<ObjectValue> = Vec::new();
    assert(values_view(items@) =~= as_items(list@, 0));
    while i < list.len()
        invariant
            i <= list.len(),
            store.wf(),
            base.wf(),
            base@ == old(store)@,
            root.valid(),
            all_valid(list@),
            store@ == with_parents(base@, root, list@, i as nat),
            values_view(items@) == as_items(list@, i as nat),
            forall|j: int| 0 <= j < items@.len() ==> (#[trigger] items@[j])@.wf(),
        decreases list.len() - i,
    {
        let page: ObjectRef = list[i];
        assert(list@[i as int].valid());
        let ghost before_items = items@;
        items.push(ObjectValue::Indirect(page));
        assert(values_view(items@) =~= values_view(before_items).push(Value::Indirect(page)));
        if page.id <= MAX_OBJECT_ID {
            let found: Option<ObjectValue> = base.get(page.id, page.generation);
            match found {
                Some(v) => {
                    proof {
                        lemma_view_members(v);
                    }
                    match v {
                        ObjectValue::Dictionary(entries) => {
                            let mut entries = entries;
                            proof {
                                assert(v@->Dictionary_0 == entries_view(entries@));
                                lemma_settled(base@, entries_view(entries@));
                                lemma_entries_with_key(
                                    settled(base@, entries_view(entries@)),
                                    parent_key(),
                                    Value::Indirect(root),
                                );
                            }
                            settle(&base, &mut entries);
                            replace_entry(
                                &mut entries,
                                parent_key_string(),
                                ObjectValue::Indirect(root),
                            );
                            let updated = ObjectValue::Dictionary(entries);
                            proof {
                                lemma_view_members(updated);
                                assert(updated@->Dictionary_0 == entries_view(entries@));
                            }
                            let _ = store.put(page, updated);
                        },
                        _ => {},
                    }
                },
                None => {},
            }
        }
        i += 1;
    }
    if root.id > MAX_OBJECT_ID {
        return;
    }
    let found: Option<ObjectValue> = store.get(root.id, root.generation);
    match found {
        Some(v) => {
            proof {
                lemma_view_members(v);
            }
            match v {
                ObjectValue::Dictionary(entries) => {
                    let mut entries = entries;
                    let count: i64 = if list.len() as u64 <= 9223372036854775807 {
                        list.len() as i64
                    } else {
                        9223372036854775807
                    };
                    let kids = ObjectValue::Array(items);
                    proof {
                        lemma_view_members(kids);
                        assert(v@->Dictionary_0 == entries_view(entries@));
                        assert(kids@->Array_0 == values_view(items@));
                        assert forall|j: int| 0 <= j < kids@->Array_0.len() implies (
                        #[trigger] kids@->Array_0[j]).wf() by {
                            assert(items@[j]@.wf());
                        }
                        lemma_entries_with_key(entries_view(entries@), kids_key(), kids@);
                        lemma_entries_with_key(
                            entries_with_key(entries_view(entries@), kids_key(), kids@),
                            count_key(),
                            Value::Integer(count as int),
                        );
                    }
                    replace_entry(&mut entries, kids_key_string(), kids);
                    replace_entry(&mut entries, count_key_string(), ObjectValue::Integer(count));
                    let updated = ObjectValue::Dictionary(entries);
                    proof {
                        lemma_view_members(updated);
                        assert(updated@->Dictionary_0 == entries_view(entries@));
                    }
                    let _ = store.put(root, updated);
                },
                _ => {},
            }
        },
        None => {},
    }
}

} // verus!
