//! What is written can be written again: the document that is read back
//! from a written file is sound.

use crate::qpdf::document::root_ok;
use crate::qpdf::graph::{
    lemma_walk_held, reached, refs_of, refs_of_entries, walk_limit, WalkKind,
};
use crate::qpdf::inverse::file::{lemma_resolve_wf, lemma_root, written_objects};
use crate::qpdf::inverse::numbering::lemma_prepared;
use crate::qpdf::inverse::trailer::{entries_in_order, lemma_trailer_out};
use crate::qpdf::keys::root_key;
use crate::qpdf::layout::{
    can_write, first_with_id, is_name_text, lemma_first_with_id, number_in, plan_writable,
    trailer_out, writable, writable_object, write_plan,
};
use crate::qpdf::object::types::ObjectRef;
use crate::qpdf::object::value::{
    entries_wf, has_key, key_index, lemma_key_index, value_at_key, EntryModel, Value,
};
use crate::qpdf::reach::{
    law_every_held_root_is_reached, law_no_more_is_reached_than_is_held, walk_need,
};
use crate::qpdf::reader::MAX_DEPTH;
use crate::qpdf::store::{holds, resolve, store_wf, StoreModel, MAX_OBJECT_ID};
use vstd::prelude::*;

verus! {

/// The references that entries hold include the reference that stands
/// under a key.
pub proof fn lemma_refs_hold(entries: Seq<EntryModel>, key: Seq<char>, r: ObjectRef, n: nat)
    requires
        key_index(entries, key) < n <= entries.len(),
        value_at_key(entries, key) == Value::Indirect(r),
    ensures
        refs_of_entries(entries, n).contains(r),
    decreases n,
{
    let before = refs_of_entries(entries, (n - 1) as nat);
    let last = refs_of(entries[n - 1].1);
    lemma_key_index(entries, key);
    if key_index(entries, key) == n - 1 {
        assert(last == seq![r]);
        assert((before + last)[before.len() as int] == r);
    } else {
        lemma_refs_hold(entries, key, r, (n - 1) as nat);
        let i = choose|i: int| 0 <= i < before.len() && before[i] == r;
        assert((before + last)[i] == r);
    }
}

/// A reference that a plan of held objects holds, and that the store
/// holds, has a number in the plan.
pub proof fn lemma_numbered(objects: StoreModel, plan: Seq<ObjectRef>, r: ObjectRef)
    requires
        forall|i: int| 0 <= i < plan.len() ==> holds(objects, #[trigger] plan[i]),
        holds(objects, r),
        plan.contains(r),
    ensures
        number_in(plan, r) > 0,
{
    lemma_first_with_id(plan, r.id as int);
    let i = choose|i: int| 0 <= i < plan.len() && plan[i] == r;
    let k = first_with_id(plan, r.id as int);
    if k > i {
        assert(plan[i].id != r.id);
    }
    assert(holds(objects, plan[k]));
}

/// A document is sound whose store spans no more numbers than there
/// are, whose trailer can be written and names a root that is held as a
/// dictionary, and whose every object can be written, where a walk from
/// its trailer needs no more steps than a walk is long.
pub proof fn lemma_sound_document(objects: StoreModel, trailer: Seq<EntryModel>)
    requires
        objects.len() <= MAX_OBJECT_ID,
        writable(Value::Dictionary(trailer), MAX_DEPTH as nat),
        forall|r: ObjectRef| writable_object(#[trigger] resolve(objects, r)),
        root_ok(objects, trailer),
        walk_need(objects, WalkKind::References, refs_of(Value::Dictionary(trailer)))
            <= walk_limit(),
    ensures
        can_write(objects, trailer, false),
{
    let roots = refs_of(Value::Dictionary(trailer));
    let plan = write_plan(objects, trailer, false);
    assert(roots + Seq::<ObjectRef>::empty() =~= roots);
    assert(plan == reached(objects, WalkKind::References, roots));
    law_no_more_is_reached_than_is_held(objects, WalkKind::References, roots);
    let root = value_at_key(trailer, root_key())->Indirect_0;
    assert(holds(objects, root));
    assert(has_key(trailer, root_key()));
    lemma_refs_hold(trailer, root_key(), root, trailer.len());
    assert(roots == refs_of_entries(trailer, trailer.len()));
    law_every_held_root_is_reached(objects, WalkKind::References, roots, root);
    lemma_walk_held(
        objects,
        WalkKind::References,
        roots.reverse(),
        Set::empty(),
        Seq::empty(),
        walk_limit(),
    );
    lemma_numbered(objects, plan, root);
}

/// What is written can be written again: the document that a written
/// file holds, the objects under their new numbers and the trailer as
/// it is written, is sound. This holds of every document that can be
/// written, where a walk over what is written needs no more steps than
/// a walk is long.
pub proof fn law_what_is_written_is_sound(
    objects: StoreModel,
    trailer: Seq<EntryModel>,
    preserve: bool,
    fixed_id: bool,
)
    requires
        store_wf(objects),
        entries_wf(trailer),
        can_write(objects, trailer, preserve),
        walk_need(
            written_objects(objects, write_plan(objects, trailer, preserve)),
            WalkKind::References,
            refs_of(
                Value::Dictionary(
                    trailer_out(trailer, write_plan(objects, trailer, preserve), fixed_id),
                ),
            ),
        ) <= walk_limit(),
    ensures
        can_write(
            written_objects(objects, write_plan(objects, trailer, preserve)),
            trailer_out(trailer, write_plan(objects, trailer, preserve), fixed_id),
            false,
        ),
{
    let plan = write_plan(objects, trailer, preserve);
    let all = written_objects(objects, plan);
    let written = trailer_out(trailer, plan, fixed_id);
    lemma_trailer_out(trailer, plan, fixed_id);
    lemma_dictionary_writable(written);
    lemma_written_objects_writable(objects, plan);
    lemma_root(objects, trailer, plan, fixed_id);
    lemma_sound_document(all, written);
}

/// Entries in order make a dictionary that can be written.
pub proof fn lemma_dictionary_writable(entries: Seq<EntryModel>)
    requires
        entries_in_order(entries, (MAX_DEPTH - 1) as nat),
    ensures
        writable(Value::Dictionary(entries), MAX_DEPTH as nat),
{
    let whole = Value::Dictionary(entries);
    assert(whole->Dictionary_0 == entries);
    assert forall|i: int| 0 <= i < whole->Dictionary_0.len() implies is_name_text(
        (#[trigger] whole->Dictionary_0[i]).0,
    ) && writable(whole->Dictionary_0[i].1, (MAX_DEPTH - 1) as nat) by {
        assert(whole->Dictionary_0[i] == entries[i]);
    }
}

/// Every object that is written, and what any other reference resolves
/// to among them, can be written.
pub proof fn lemma_written_objects_writable(objects: StoreModel, plan: Seq<ObjectRef>)
    requires
        store_wf(objects),
        plan.len() <= MAX_OBJECT_ID,
        plan_writable(objects, plan, plan.len()),
    ensures
        forall|r: ObjectRef|
            writable_object(#[trigger] resolve(written_objects(objects, plan), r)),
        forall|r: ObjectRef|
            holds(written_objects(objects, plan), r) ==> (#[trigger] resolve(
                written_objects(objects, plan),
                r,
            )).wf(),
{
    let all = written_objects(objects, plan);
    assert forall|r: ObjectRef| writable_object(#[trigger] resolve(all, r)) && (holds(all, r)
        ==> resolve(all, r).wf()) by {
        if holds(all, r) {
            let first = plan[r.id - 1];
            lemma_resolve_wf(objects, first);
            assert(writable_object(resolve(objects, first)));
            lemma_prepared(resolve(objects, first), plan);
        }
    }
}

} // verus!
