//! The object graph: the references that a value holds, and the walk that
//! finds what a document reaches.

use crate::qpdf::keys::{kids_key, kids_key_string};
use crate::qpdf::object::find_key;
use crate::qpdf::object::types::ObjectRef;
use crate::qpdf::object::value::{
    entries_view, lemma_view_members, value_at_key, values_view, Entry, EntryModel, ObjectValue,
    Value,
};
use crate::qpdf::store::{holds, resolve, ObjectStore, StoreModel};
use vstd::prelude::*;

verus! {

/// The references that a value holds, in the order in which it is
/// written.
pub open spec fn refs_of(v: Value) -> Seq<ObjectRef>
    decreases v, 0nat,
{
    match v {
        Value::Array(items) => refs_of_items(items, items.len()),
        Value::Dictionary(entries) => refs_of_entries(entries, entries.len()),
        Value::Stream(entries, _) => refs_of_entries(entries, entries.len()),
        Value::Indirect(r) => seq![r],
        _ => Seq::empty(),
    }
}

/// The references that the first `n` items hold.
pub open spec fn refs_of_items(items: Seq<Value>, n: nat) -> Seq<ObjectRef>
    decreases items, n,
{
    if n == 0 || n > items.len() {
        Seq::empty()
    } else {
        refs_of_items(items, (n - 1) as nat) + refs_of(items[n - 1])
    }
}

/// The references that the values of the first `n` entries hold.
pub open spec fn refs_of_entries(entries: Seq<EntryModel>, n: nat) -> Seq<ObjectRef>
    decreases entries, n,
{
    if n == 0 || n > entries.len() {
        Seq::empty()
    } else {
        refs_of_entries(entries, (n - 1) as nat) + refs_of(entries[n - 1].1)
    }
}

/// The references among the first `n` items themselves; an item that is
/// no reference gives none.
pub open spec fn direct_refs(items: Seq<Value>, n: nat) -> Seq<ObjectRef>
    decreases n,
{
    if n == 0 || n > items.len() {
        Seq::empty()
    } else {
        match items[n - 1] {
            Value::Indirect(r) => direct_refs(items, (n - 1) as nat).push(r),
            _ => direct_refs(items, (n - 1) as nat),
        }
    }
}

/// The children of a node of the page tree: the references in the array
/// under `/Kids` of a dictionary; none for any other value.
pub open spec fn kids_of(v: Value) -> Seq<ObjectRef> {
    match v {
        Value::Dictionary(entries) => match value_at_key(entries, kids_key()) {
            Value::Array(items) => direct_refs(items, items.len()),
            _ => Seq::empty(),
        },
        _ => Seq::empty(),
    }
}

/// What a walk follows.
#[derive(Debug, Clone, Copy, PartialEq, Eq, Structural)]
pub enum WalkKind {
    /// Every reference that a value holds.
    References,
    /// The references under `/Kids` only.
    Kids,
}

/// The objects that a walk goes on to from a value.
pub open spec fn successors(kind: WalkKind, v: Value) -> Seq<ObjectRef> {
    match kind {
        WalkKind::References => refs_of(v),
        WalkKind::Kids => kids_of(v),
    }
}

/// The objects found by a walk, in the order in which they are first
/// met. The top of `stack` is its last element. A reference that the store
/// does not hold, or whose number was met before, is passed over; any
/// other is added to `acc`, and what it goes on to is put on the stack,
/// the first on top. The walk ends when the stack is empty or after
/// `fuel` steps.
pub open spec fn walk(
    objects: StoreModel,
    kind: WalkKind,
    stack: Seq<ObjectRef>,
    met: Set<int>,
    acc: Seq<ObjectRef>,
    fuel: nat,
) -> Seq<ObjectRef>
    decreases fuel,
{
    if fuel == 0 || stack.len() == 0 {
        acc
    } else {
        let r = stack.last();
        let rest = stack.drop_last();
        if !holds(objects, r) || met.contains(r.id as int) {
            walk(objects, kind, rest, met, acc, (fuel - 1) as nat)
        } else {
            walk(
                objects,
                kind,
                rest + successors(kind, resolve(objects, r)).reverse(),
                met.insert(r.id as int),
                acc.push(r),
                (fuel - 1) as nat,
            )
        }
    }
}

/// The number of steps after which a walk ends.
pub open spec fn walk_limit() -> nat {
    u64::MAX as nat
}

/// The objects reached from `roots`, the first root first.
pub open spec fn reached(objects: StoreModel, kind: WalkKind, roots: Seq<ObjectRef>) -> Seq<
    ObjectRef,
> {
    walk(objects, kind, roots.reverse(), Set::empty(), Seq::empty(), walk_limit())
}

/// Every object that a walk finds is held by the store.
pub proof fn lemma_walk_held(
    objects: StoreModel,
    kind: WalkKind,
    stack: Seq<ObjectRef>,
    met: Set<int>,
    acc: Seq<ObjectRef>,
    fuel: nat,
)
    requires
        forall|i: int| 0 <= i < acc.len() ==> holds(objects, #[trigger] acc[i]),
    ensures
        forall|i: int|
            0 <= i < walk(objects, kind, stack, met, acc, fuel).len() ==> holds(
                objects,
                #[trigger] walk(objects, kind, stack, met, acc, fuel)[i],
            ),
    decreases fuel,
{
    let result = walk(objects, kind, stack, met, acc, fuel);
    if fuel == 0 || stack.len() == 0 {
        assert(result == acc);
    } else {
        let r = stack.last();
        let rest = stack.drop_last();
        if !holds(objects, r) || met.contains(r.id as int) {
            lemma_walk_held(objects, kind, rest, met, acc, (fuel - 1) as nat);
            assert(result == walk(objects, kind, rest, met, acc, (fuel - 1) as nat));
        } else {
            let next = acc.push(r);
            assert forall|i: int| 0 <= i < next.len() implies holds(objects, #[trigger] next[i]) by {
                if i < acc.len() {
                    assert(next[i] == acc[i]);
                }
            }
            lemma_walk_held(
                objects,
                kind,
                rest + successors(kind, resolve(objects, r)).reverse(),
                met.insert(r.id as int),
                next,
                (fuel - 1) as nat,
            );
            assert(result == walk(
                objects,
                kind,
                rest + successors(kind, resolve(objects, r)).reverse(),
                met.insert(r.id as int),
                next,
                (fuel - 1) as nat,
            ));
        }
    }
}

/// How often `r` occurs among the first `n` of `refs`.
pub open spec fn occurrences(refs: Seq<ObjectRef>, r: ObjectRef, n: nat) -> nat
    decreases n,
{
    if n == 0 || n > refs.len() {
        0
    } else if refs[n - 1] == r {
        occurrences(refs, r, (n - 1) as nat) + 1
    } else {
        occurrences(refs, r, (n - 1) as nat)
    }
}

/// The references that the values of the objects under the first `n`
/// numbers hold, object by object.
pub open spec fn stored_refs(objects: StoreModel, n: nat) -> Seq<ObjectRef>
    decreases n,
{
    if n == 0 || n > objects.len() {
        Seq::empty()
    } else {
        match objects[n - 1] {
            Some(o) => stored_refs(objects, (n - 1) as nat) + refs_of(o.value),
            None => stored_refs(objects, (n - 1) as nat),
        }
    }
}

/// Every reference that the trailer and the objects of a document hold.
pub open spec fn all_refs(objects: StoreModel, trailer: Seq<EntryModel>) -> Seq<ObjectRef> {
    refs_of(Value::Dictionary(trailer)) + stored_refs(objects, objects.len())
}

/// How many references to `r` the trailer and the objects of a document
/// hold; of more than `usize::MAX`, that number.
pub open spec fn reference_count(objects: StoreModel, trailer: Seq<EntryModel>, r: ObjectRef)
    -> nat {
    let n = occurrences(all_refs(objects, trailer), r, all_refs(objects, trailer).len());
    if n <= usize::MAX {
        n
    } else {
        usize::MAX as nat
    }
}

/// Counts the references to `r` in a document.
pub fn count_references(store: &ObjectStore, trailer: &Vec<Entry>, r: ObjectRef) -> (count: usize)
    ensures
        count as nat == reference_count(store@, entries_view(trailer@), r),
{
    let mut refs: Vec<ObjectRef> = Vec::new();
    collect_entry_refs(trailer, &mut refs);
    assert(refs@ =~= refs_of(Value::Dictionary(entries_view(trailer@))));
    let n: usize = store.len();
    let mut i: usize = 0;
    assert(refs@ =~= refs_of(Value::Dictionary(entries_view(trailer@))) + stored_refs(
        store@,
        0,
    ));
    while i < n
        invariant
            i <= n == store@.len(),
            refs@ == refs_of(Value::Dictionary(entries_view(trailer@))) + stored_refs(
                store@,
                i as nat,
            ),
        decreases n - i,
    {
        let ghost before = refs@;
        match store.value_at(i) {
            Some(v) => {
                collect_refs(v, &mut refs);
                assert(refs@ =~= refs_of(Value::Dictionary(entries_view(trailer@)))
                    + stored_refs(store@, (i + 1) as nat));
            },
            None => {},
        }
        i += 1;
    }
    let mut count: usize = 0;
    let mut k: usize = 0;
    while k < refs.len()
        invariant
            k <= refs.len(),
            count as nat == if occurrences(refs@, r, k as nat) <= usize::MAX {
                occurrences(refs@, r, k as nat)
            } else {
                usize::MAX as nat
            },
        decreases refs.len() - k,
    {
        if refs[k].id == r.id && refs[k].generation == r.generation {
            if count < usize::MAX {
                count += 1;
            }
        }
        k += 1;
    }
    count
}

/// Adds the references that the entries hold to `out`.
pub fn collect_entry_refs(entries: &Vec<Entry>, out: &mut Vec<ObjectRef>)
    ensures
        final(out)@ == old(out)@ + refs_of_entries(
            entries_view(entries@),
            entries_view(entries@).len(),
        ),
    decreases entries,
{
    let ghost model = entries_view(entries@);
    let mut i: usize = 0;
    assert(out@ =~= old(out)@ + refs_of_entries(model, 0));
    while i < entries.len()
        invariant
            i <= entries.len(),
            model == entries_view(entries@),
            out@ == old(out)@ + refs_of_entries(model, i as nat),
        decreases entries.len() - i,
    {
        let ghost before = out@;
        collect_refs(&entries[i].1, out);
        assert(out@ =~= old(out)@ + refs_of_entries(model, (i + 1) as nat)) by {
            assert(model[i as int].1 == entries@[i as int].1@);
        }
        i += 1;
    }
}

/// Adds the references that `v` holds to `out`.
#[verifier::loop_isolation(false)]
pub fn collect_refs(v: &ObjectValue, out: &mut Vec<ObjectRef>)
    ensures
        final(out)@ == old(out)@ + refs_of(v@),
    decreases v,
{
    proof {
        lemma_view_members(*v);
    }
    match v {
        ObjectValue::Array(items) => {
            let ghost model = values_view(items@);
            let mut i: usize = 0;
            assert(out@ =~= old(out)@ + refs_of_items(model, 0));
            while i < items.len()
                invariant
                    i <= items.len(),
                    out@ == old(out)@ + refs_of_items(model, i as nat),
                decreases items.len() - i,
            {
                collect_refs(&items[i], out);
                assert(out@ =~= old(out)@ + refs_of_items(model, (i + 1) as nat)) by {
                    assert(model[i as int] == items@[i as int]@);
                }
                i += 1;
            }
        },
        ObjectValue::Dictionary(entries) => {
            collect_entry_refs(entries, out);
        },
        ObjectValue::Stream(entries, _) => {
            collect_entry_refs(entries, out);
        },
        ObjectValue::Indirect(r) => {
            out.push(*r);
            assert(out@ =~= old(out)@ + seq![*r]);
        },
        _ => {
            assert(out@ =~= old(out)@ + Seq::<ObjectRef>::empty());
        },
    }
}

/// Adds the children of the page tree node `v` to `out`.
pub fn collect_kids(v: &ObjectValue, out: &mut Vec<ObjectRef>)
    ensures
        final(out)@ == old(out)@ + kids_of(v@),
{
    proof {
        lemma_view_members(*v);
    }
    assert(out@ =~= old(out)@ + Seq::<ObjectRef>::empty());
    match v {
        ObjectValue::Dictionary(entries) => {
            let at: usize = find_key(entries, &kids_key_string());
            if at < entries.len() {
                proof {
                    lemma_view_members(entries@[at as int].1);
                }
                match &entries[at].1 {
                    ObjectValue::Array(items) => {
                        let ghost model = values_view(items@);
                        let mut i: usize = 0;
                        assert(out@ =~= old(out)@ + direct_refs(model, 0));
                        while i < items.len()
                            invariant
                                i <= items.len(),
                                model == values_view(items@),
                                out@ == old(out)@ + direct_refs(model, i as nat),
                            decreases items.len() - i,
                        {
                            assert(model[i as int] == items@[i as int]@);
                            match &items[i] {
                                ObjectValue::Indirect(r) => {
                                    out.push(*r);
                                },
                                _ => {},
                            }
                            assert(out@ =~= old(out)@ + direct_refs(model, (i + 1) as nat));
                            i += 1;
                        }
                    },
                    _ => {},
                }
            }
        },
        _ => {},
    }
}

/// Puts `items` on `stack`, the first on top.
fn push_reversed(stack: &mut Vec<ObjectRef>, items: &Vec<ObjectRef>)
    ensures
        final(stack)@ == old(stack)@ + items@.reverse(),
{
    let mut i: usize = items.len();
    assert(stack@ =~= old(stack)@ + items@.reverse().subrange(0, 0));
    while i > 0
        invariant
            i <= items.len(),
            stack@ == old(stack)@ + items@.reverse().subrange(0, items.len() - i),
        decreases i,
    {
        i -= 1;
        stack.push(items[i]);
        assert(stack@ =~= old(stack)@ + items@.reverse().subrange(0, items.len() - i)) by {
            assert(items@.reverse()[items.len() - i - 1] == items@[i as int]);
        }
    }
    assert(items@.reverse().subrange(0, items.len() as int) =~= items@.reverse());
}

/// The objects reached from `roots`.
pub fn find_reached(store: &ObjectStore, kind: WalkKind, roots: &Vec<ObjectRef>) -> (r: Vec<
    ObjectRef,
>)
    ensures
        r@ == reached(store@, kind, roots@),
{
    let mut stack: Vec<ObjectRef> = Vec::new();
    push_reversed(&mut stack, roots);
    let mut met: Vec<bool> = Vec::new();
    let mut k: usize = 0;
    let n: usize = store.len();
    while k < n
        invariant
            k <= n,
            met@.len() == k,
            forall|i: int| 0 <= i < k ==> !met@[i],
        decreases n - k,
    {
        met.push(false);
        k += 1;
    }
    let mut acc: Vec<ObjectRef> = Vec::new();
    let mut fuel: u64 = u64::MAX;
    let ghost mut met_ids: Set<int> = Set::empty();
    assert(stack@ =~= roots@.reverse());
    while fuel > 0 && stack.len() > 0
        invariant
            met@.len() == store@.len(),
            forall|i: int| 0 <= i < met@.len() ==> met@[i] == met_ids.contains(i + 1),
            reached(store@, kind, roots@) == walk(
                store@,
                kind,
                stack@,
                met_ids,
                acc@,
                fuel as nat,
            ),
        decreases fuel,
    {
        let r: ObjectRef = stack.pop().unwrap();
        fuel -= 1;
        match store.peek(r) {
            Some(v) => {
                let slot: usize = (r.id - 1) as usize;
                if !met[slot] {
                    let mut next: Vec<ObjectRef> = Vec::new();
                    match kind {
                        WalkKind::References => collect_refs(v, &mut next),
                        WalkKind::Kids => collect_kids(v, &mut next),
                    }
                    assert(next@ =~= successors(kind, v@));
                    push_reversed(&mut stack, &next);
                    met.set(slot, true);
                    acc.push(r);
                    proof {
                        met_ids = met_ids.insert(r.id as int);
                    }
                }
            },
            None => {},
        }
    }
    acc
}

} // verus!
