//! The page tree that is rebuilt flat from a list of pages lists those
//! pages again.

use crate::qpdf::graph::{
    direct_refs, kids_of, reached, successors, walk, walk_limit, WalkKind,
};
use crate::qpdf::keys::{count_key, kids_key, pages_key, parent_key, root_key};
use crate::qpdf::object::entries_with_key;
use crate::qpdf::object::lemma_entries_with_key;
use crate::qpdf::object::types::ObjectRef;
use crate::qpdf::object::value::{value_at_key, EntryModel, Value};
use crate::qpdf::pages::{
    as_items, check_is_page, count_of, index_of, is_page, lemma_index_of, lemma_settled,
    page_list, pages_among, pages_root, parented, settled, with_pages, with_parents,
};
use crate::qpdf::store::{holds, resolve, store_wf, with_object, ObjectStore, StoreModel};
use vstd::prelude::*;

verus! {

/// A list of pages that a flat tree can be built from: every reference
/// is held as a page, none is the root of the tree, and none occurs
/// twice.
pub open spec fn is_page_listing(objects: StoreModel, root: ObjectRef, list: Seq<ObjectRef>)
    -> bool {
    &&& forall|i: int| 0 <= i < list.len() ==> is_page(resolve(objects, #[trigger] list[i]))
    &&& forall|i: int| 0 <= i < list.len() ==> (#[trigger] list[i]).id != root.id
    &&& forall|i: int, j: int|
        0 <= i < j < list.len() ==> (#[trigger] list[i]).id != (#[trigger] list[j]).id
}

/// Whether `list` is a list of pages that a flat tree can be built from.
pub fn check_page_listing(store: &ObjectStore, root: ObjectRef, list: &Vec<ObjectRef>) -> (r:
    bool)
    ensures
        r == is_page_listing(store@, root, list@),
{
    let mut i: usize = 0;
    while i < list.len()
        invariant
            i <= list.len(),
            forall|a: int| 0 <= a < i ==> is_page(resolve(store@, #[trigger] list@[a])),
            forall|a: int| 0 <= a < i ==> (#[trigger] list@[a]).id != root.id,
            forall|a: int, b: int|
                0 <= a < b < i ==> (#[trigger] list@[a]).id != (#[trigger] list@[b]).id,
        decreases list.len() - i,
    {
        let page: ObjectRef = list[i];
        let held: bool = match store.peek(page) {
            Some(v) => check_is_page(v),
            None => false,
        };
        if !held || page.id == root.id {
            assert(list@[i as int] == page);
            return false;
        }
        let mut j: usize = 0;
        while j < i
            invariant
                j <= i < list.len(),
                page == list@[i as int],
                forall|a: int| 0 <= a < j ==> (#[trigger] list@[a]).id != page.id,
            decreases i - j,
        {
            if list[j].id == page.id {
                assert(list@[j as int].id == list@[i as int].id);
                return false;
            }
            j += 1;
        }
        i += 1;
    }
    true
}

/// A list of pages that a flat tree can be built from stays one with a
/// page put into it that is held as a page, is not the root of the tree,
/// and is not in the list; and stays one with a page taken out.
pub proof fn lemma_listing_changed(
    objects: StoreModel,
    root: ObjectRef,
    list: Seq<ObjectRef>,
    page: ObjectRef,
    at: int,
)
    requires
        is_page_listing(objects, root, list),
        holds(objects, root),
    ensures
        0 <= at <= list.len() && is_page(resolve(objects, page)) && page != root && index_of(
            list,
            page,
        ) >= list.len() ==> is_page_listing(objects, root, list.insert(at, page)),
        0 <= at < list.len() ==> is_page_listing(objects, root, list.remove(at)),
{
    lemma_index_of(list, page);
    if 0 <= at <= list.len() && is_page(resolve(objects, page)) && page != root && index_of(
        list,
        page,
    ) >= list.len() {
        let more = list.insert(at, page);
        assert(holds(objects, page));
        assert forall|i: int| 0 <= i < list.len() implies (#[trigger] list[i]).id != page.id by {
            assert(is_page(resolve(objects, list[i])));
            assert(holds(objects, list[i]));
            assert(list[i] != page);
        }
        assert forall|i: int| 0 <= i < more.len() implies is_page(
            resolve(objects, #[trigger] more[i]),
        ) && more[i].id != root.id by {
            if i < at {
                assert(more[i] == list[i]);
            } else if i > at {
                assert(more[i] == list[i - 1]);
            }
        }
        assert forall|i: int, j: int| 0 <= i < j < more.len() implies (#[trigger] more[i]).id != (
        #[trigger] more[j]).id by {
            let a = if i < at { i } else { i - 1 };
            let b = if j < at { j } else { j - 1 };
            if i != at {
                assert(more[i] == list[a]);
            }
            if j != at {
                assert(more[j] == list[b]);
            }
        }
    }
    if 0 <= at < list.len() {
        let less = list.remove(at);
        assert forall|i: int| 0 <= i < less.len() implies is_page(
            resolve(objects, #[trigger] less[i]),
        ) && less[i].id != root.id by {
            if i < at {
                assert(less[i] == list[i]);
            } else {
                assert(less[i] == list[i + 1]);
            }
        }
        assert forall|i: int, j: int| 0 <= i < j < less.len() implies (#[trigger] less[i]).id != (
        #[trigger] less[j]).id by {
            let a = if i < at { i } else { i + 1 };
            let b = if j < at { j } else { j + 1 };
            assert(less[i] == list[a]);
            assert(less[j] == list[b]);
        }
    }
}

/// The keys of the page tree differ from one another.
pub proof fn lemma_tree_keys()
    ensures
        parent_key() != kids_key(),
        parent_key() != pages_key(),
        kids_key() != count_key(),
        kids_key() != pages_key(),
        count_key() != pages_key(),
{
    assert(parent_key()[2] != kids_key()[2]);
    assert(parent_key()[5] != pages_key()[5]);
    assert(kids_key()[1] != count_key()[1]);
    assert(kids_key()[1] != pages_key()[1]);
    assert(count_key()[1] != pages_key()[1]);
}

/// A page that stands by itself and names its parent is a page still,
/// and what it holds under `/Pages` is what it held.
pub proof fn lemma_parented(objects: StoreModel, v: Value, root: ObjectRef)
    requires
        store_wf(objects),
        v is Dictionary,
        v.wf(),
        root.valid(),
    ensures
        parented(objects, v, root) is Dictionary,
        parented(objects, v, root).wf(),
        is_page(v) ==> is_page(parented(objects, v, root)),
        value_at_key(parented(objects, v, root)->Dictionary_0, pages_key()) == value_at_key(
            v->Dictionary_0,
            pages_key(),
        ),
        value_at_key(parented(objects, v, root)->Dictionary_0, kids_key()) == value_at_key(
            v->Dictionary_0,
            kids_key(),
        ),
{
    lemma_tree_keys();
    lemma_settled(objects, v->Dictionary_0);
    let own = settled(objects, v->Dictionary_0);
    lemma_entries_with_key(own, parent_key(), Value::Indirect(root));
    assert(parented(objects, v, root)->Dictionary_0 == entries_with_key(
        own,
        parent_key(),
        Value::Indirect(root),
    ));
}

/// Once the first `n` pages of a listing stand by themselves and name
/// their parent, the store holds what it held; each of those pages is
/// what it was, standing by itself and naming its parent; and every
/// other object is what it was.
pub proof fn lemma_with_parents(
    objects: StoreModel,
    root: ObjectRef,
    list: Seq<ObjectRef>,
    n: nat,
)
    requires
        store_wf(objects),
        root.valid(),
        is_page_listing(objects, root, list),
        n <= list.len(),
    ensures
        with_parents(objects, root, list, n).len() == objects.len(),
        store_wf(with_parents(objects, root, list, n)),
        forall|r: ObjectRef|
            holds(with_parents(objects, root, list, n), r) == #[trigger] holds(objects, r),
        forall|i: int|
            0 <= i < n ==> resolve(with_parents(objects, root, list, n), #[trigger] list[i])
                == parented(objects, resolve(objects, list[i]), root),
        forall|r: ObjectRef|
            (forall|i: int| 0 <= i < n ==> (#[trigger] list[i]).id != r.id) ==> resolve(
                with_parents(objects, root, list, n),
                r,
            ) == #[trigger] resolve(objects, r),
    decreases n,
{
    if n > 0 {
        lemma_with_parents(objects, root, list, (n - 1) as nat);
        let before = with_parents(objects, root, list, (n - 1) as nat);
        let after = with_parents(objects, root, list, n);
        let page = list[n - 1];
        assert(is_page(resolve(objects, page)));
        assert(holds(objects, page));
        assert(forall|i: int| 0 <= i < n - 1 ==> (#[trigger] list[i]).id != page.id);
        assert(resolve(before, page) == resolve(objects, page));
        let v = resolve(objects, page);
        assert(objects[page.id - 1] is Some);
        assert(v.wf());
        lemma_parented(objects, v, root);
        assert(after == with_object(before, page, parented(objects, v, root)));
        assert(after =~= before.update(
            page.id - 1,
            Some(
                crate::qpdf::store::StoredModel {
                    generation: page.generation as int,
                    value: parented(objects, v, root),
                },
            ),
        ));
        assert(before[page.id - 1] is Some);
        assert forall|r: ObjectRef| holds(after, r) == #[trigger] holds(objects, r) by {
            assert(holds(before, r) == holds(objects, r));
        }
        assert forall|i: int| 0 <= i < n implies resolve(after, #[trigger] list[i]) == parented(
            objects,
            resolve(objects, list[i]),
            root,
        ) by {
            if i < n - 1 {
                assert(list[i].id != page.id);
                assert(resolve(before, list[i]) == parented(objects, resolve(objects, list[i]), root));
            }
        }
        assert forall|r: ObjectRef|
            (forall|i: int| 0 <= i < n ==> (#[trigger] list[i]).id != r.id) implies resolve(
            after,
            r,
        ) == #[trigger] resolve(objects, r) by {
            assert(list[n - 1].id != r.id);
            assert(forall|i: int| 0 <= i < n - 1 ==> (#[trigger] list[i]).id != r.id);
            assert(resolve(before, r) == resolve(objects, r));
        }
        assert(store_wf(after)) by {
            assert forall|i: int| 0 <= i < after.len() implies (#[trigger] after[i] matches Some(
                o,
            ) ==> o.generation >= 0 && o.value.wf()) by {
                if i == page.id - 1 {
                    assert(parented(objects, v, root).wf());
                } else {
                    assert(after[i] == before[i]);
                }
            }
        }
    }
}

/// The references among items that are all references are the
/// references.
pub proof fn lemma_direct_refs(list: Seq<ObjectRef>, n: nat)
    requires
        n <= list.len(),
    ensures
        as_items(list, n).len() == n,
        forall|i: int| 0 <= i < n ==> #[trigger] as_items(list, n)[i] == Value::Indirect(list[i]),
        direct_refs(as_items(list, list.len()), n) == list.subrange(0, n as int),
    decreases n,
{
    lemma_as_items(list, list.len());
    if n > 0 {
        lemma_direct_refs(list, (n - 1) as nat);
        lemma_as_items(list, n);
        assert(direct_refs(as_items(list, list.len()), n) =~= list.subrange(0, n as int));
    } else {
        assert(direct_refs(as_items(list, list.len()), n) =~= list.subrange(0, n as int));
    }
}

/// The items made of a list are as many as the list, one reference
/// each.
pub proof fn lemma_as_items(list: Seq<ObjectRef>, n: nat)
    requires
        n <= list.len(),
    ensures
        as_items(list, n).len() == n,
        forall|i: int| 0 <= i < n ==> #[trigger] as_items(list, n)[i] == Value::Indirect(list[i]),
    decreases n,
{
    if n > 0 {
        lemma_as_items(list, (n - 1) as nat);
    }
}

/// The pages of the stack from the `k`-th page of a listing on, the
/// `k`-th on top.
pub open spec fn rest_stack(list: Seq<ObjectRef>, k: int) -> Seq<ObjectRef> {
    list.subrange(k, list.len() as int).reverse()
}

/// The numbers of the root and of the first `k` pages of a listing.
pub open spec fn met_after(root: ObjectRef, list: Seq<ObjectRef>, k: int) -> Set<int> {
    Set::new(|id: int| id == root.id || exists|i: int| 0 <= i < k && (#[trigger] list[i]).id == id)
}

/// A walk over the pages of a flat tree from the `k`-th page on adds the
/// pages to what it found before.
pub proof fn lemma_walk_pages(
    objects: StoreModel,
    root: ObjectRef,
    list: Seq<ObjectRef>,
    k: nat,
    acc: Seq<ObjectRef>,
    fuel: nat,
)
    requires
        k <= list.len(),
        fuel >= list.len() - k,
        forall|i: int| 0 <= i < list.len() ==> is_page(resolve(objects, #[trigger] list[i])),
        forall|i: int| 0 <= i < list.len() ==> (#[trigger] list[i]).id != root.id,
        forall|i: int, j: int|
            0 <= i < j < list.len() ==> (#[trigger] list[i]).id != (#[trigger] list[j]).id,
    ensures
        walk(
            objects,
            WalkKind::Kids,
            rest_stack(list, k as int),
            met_after(root, list, k as int),
            acc,
            fuel,
        ) == acc + list.subrange(k as int, list.len() as int),
    decreases list.len() - k,
{
    let stack = rest_stack(list, k as int);
    let met = met_after(root, list, k as int);
    if k == list.len() {
        assert(stack =~= Seq::<ObjectRef>::empty());
        assert(acc + list.subrange(k as int, list.len() as int) =~= acc);
    } else {
        let page = list[k as int];
        assert(stack.len() == list.len() - k);
        assert(stack.last() == page);
        assert(is_page(resolve(objects, page)));
        assert(holds(objects, page));
        assert(!met.contains(page.id as int)) by {
            if met.contains(page.id as int) {
                let i = choose|i: int| 0 <= i < k && (#[trigger] list[i]).id == page.id;
                assert(list[i].id != list[k as int].id);
            }
        }
        assert(kids_of(resolve(objects, page)) =~= Seq::<ObjectRef>::empty());
        assert(stack.drop_last() + successors(
            WalkKind::Kids,
            resolve(objects, page),
        ).reverse() =~= rest_stack(list, k as int + 1));
        assert(met.insert(page.id as int) =~= met_after(root, list, k as int + 1)) by {
            assert forall|id: int| met.insert(page.id as int).contains(id) == met_after(
                root,
                list,
                k as int + 1,
            ).contains(id) by {
                if met_after(root, list, k as int + 1).contains(id) && id != root.id {
                    let i = choose|i: int| 0 <= i < k + 1 && (#[trigger] list[i]).id == id;
                    if i < k {
                        assert(met.contains(id));
                    }
                }
                if met.insert(page.id as int).contains(id) && id != root.id {
                    if id == page.id {
                        assert(list[k as int].id == id);
                    } else {
                        let i = choose|i: int| 0 <= i < k && (#[trigger] list[i]).id == id;
                        assert(0 <= i < k + 1 && list[i].id == id);
                    }
                }
            }
        }
        lemma_walk_pages(objects, root, list, k + 1, acc.push(page), (fuel - 1) as nat);
        assert(acc.push(page) + list.subrange(k as int + 1, list.len() as int) =~= acc + list.subrange(
            k as int,
            list.len() as int,
        ));
    }
}

/// The pages among the root of a flat tree and its pages are the pages.
pub proof fn lemma_pages_among(
    objects: StoreModel,
    root: ObjectRef,
    list: Seq<ObjectRef>,
    n: nat,
)
    requires
        n <= list.len(),
        !is_page(resolve(objects, root)),
        forall|i: int| 0 <= i < list.len() ==> is_page(resolve(objects, #[trigger] list[i])),
    ensures
        pages_among(objects, seq![root] + list, n + 1) == list.subrange(0, n as int),
    decreases n,
{
    let nodes = seq![root] + list;
    if n == 0 {
        assert(nodes[0] == root);
        assert(pages_among(objects, nodes, 0) =~= Seq::<ObjectRef>::empty());
        assert(pages_among(objects, nodes, 1) =~= list.subrange(0, 0));
    } else {
        lemma_pages_among(objects, root, list, (n - 1) as nat);
        assert(nodes[n as int] == list[n - 1]);
        assert(pages_among(objects, nodes, n + 1) =~= list.subrange(0, n as int));
    }
}

/// The tree that is rebuilt flat from a list of pages lists those pages
/// again: the list of pages of the rebuilt tree is the list it was built
/// from. This holds of a store whose page tree has a root that is held
/// as a dictionary, and of a listing that is shorter than a walk is
/// long.
pub proof fn law_flat_tree_lists_its_pages(
    objects: StoreModel,
    trailer: Seq<EntryModel>,
    list: Seq<ObjectRef>,
)
    requires
        store_wf(objects),
        pages_root(objects, trailer) is Some,
        resolve(objects, pages_root(objects, trailer)->0) is Dictionary,
        is_page_listing(objects, pages_root(objects, trailer)->0, list),
        list.len() < walk_limit(),
    ensures
        page_list(with_pages(objects, pages_root(objects, trailer)->0, list), trailer) == list,
{
    let root = pages_root(objects, trailer)->0;
    let n = list.len();
    lemma_tree_keys();
    crate::qpdf::pages::lemma_pages_root_valid(objects, trailer);
    lemma_with_parents(objects, root, list, n);
    let parented_store = with_parents(objects, root, list, n);
    let after = with_pages(objects, root, list);
    // the root of the tree holds the pages as its kids
    assert(holds(objects, root));
    assert(objects[root.id - 1] is Some);
    assert(forall|i: int| 0 <= i < n ==> (#[trigger] list[i]).id != root.id);
    assert(resolve(parented_store, root) == resolve(objects, root));
    let entries = resolve(objects, root)->Dictionary_0;
    assert(resolve(objects, root).wf());
    let kids = Value::Array(as_items(list, n));
    let with_kids = entries_with_key(entries, kids_key(), kids);
    lemma_as_items(list, n);
    assert(kids->Array_0 == as_items(list, n));
    assert(kids.wf()) by {
        assert forall|i: int| 0 <= i < kids->Array_0.len() implies (
        #[trigger] kids->Array_0[i]).wf() by {
            assert(kids->Array_0[i] == Value::Indirect(list[i]));
            assert(is_page(resolve(objects, list[i])));
            assert(holds(objects, list[i]));
            assert(objects[list[i].id - 1] is Some);
        }
    }
    lemma_entries_with_key(entries, kids_key(), kids);
    let count = Value::Integer(count_of(n));
    let flat = entries_with_key(with_kids, count_key(), count);
    lemma_entries_with_key(with_kids, count_key(), count);
    let node = Value::Dictionary(flat);
    assert(after == with_object(parented_store, root, node));
    assert(after =~= parented_store.update(
        root.id - 1,
        Some(crate::qpdf::store::StoredModel { generation: root.generation as int, value: node }),
    ));
    assert(resolve(after, root) == node);
    assert(value_at_key(flat, kids_key()) == kids);
    lemma_direct_refs(list, n);
    assert(list.subrange(0, n as int) =~= list);
    assert(kids_of(node) == list);
    assert(!is_page(node));
    // the pages are pages still
    assert forall|i: int| 0 <= i < n implies is_page(resolve(after, #[trigger] list[i])) by {
        assert(list[i].id != root.id);
        assert(resolve(after, list[i]) == resolve(parented_store, list[i]));
        assert(is_page(resolve(objects, list[i])));
        assert(holds(objects, list[i]));
        assert(objects[list[i].id - 1] is Some);
        lemma_parented(objects, resolve(objects, list[i]), root);
    }
    // the trailer names the same tree
    assert(pages_root(after, trailer) == Some(root)) by {
        let catalog = value_at_key(trailer, root_key())->Indirect_0;
        assert(holds(objects, catalog));
        assert(objects[catalog.id - 1] is Some);
        let before = resolve(objects, catalog);
        assert(before.wf());
        if catalog.id == root.id {
            assert(holds(after, catalog) <==> catalog.generation == root.generation);
            assert(catalog == root);
            assert(value_at_key(flat, pages_key()) == value_at_key(entries, pages_key()));
        } else {
            assert(resolve(after, catalog) == resolve(parented_store, catalog));
            if exists|i: int| 0 <= i < n && (#[trigger] list[i]).id == catalog.id {
                let i = choose|i: int| 0 <= i < n && (#[trigger] list[i]).id == catalog.id;
                assert(holds(objects, list[i]));
                assert(list[i] == catalog);
                lemma_parented(objects, before, root);
            } else {
                assert(forall|i: int| 0 <= i < n ==> (#[trigger] list[i]).id != catalog.id);
            }
        }
    }
    // the walk
    let stack = seq![root].reverse();
    assert(stack =~= seq![root]);
    assert(stack.last() == root);
    assert(holds(after, root));
    assert(stack.drop_last() + successors(WalkKind::Kids, resolve(after, root)).reverse()
        =~= rest_stack(list, 0));
    assert(Set::<int>::empty().insert(root.id as int) =~= met_after(root, list, 0));
    lemma_walk_pages(
        after,
        root,
        list,
        0,
        Seq::<ObjectRef>::empty().push(root),
        (walk_limit() - 1) as nat,
    );
    assert(Seq::<ObjectRef>::empty().push(root) + list.subrange(0, n as int) =~= seq![root]
        + list);
    assert(reached(after, WalkKind::Kids, seq![root]) == seq![root] + list);
    lemma_pages_among(after, root, list, n);
}

} // verus!
