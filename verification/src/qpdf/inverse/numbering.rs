//! What is written stays writable: a value with new numbers can be
//! written and read where the value could.

use crate::qpdf::keys::length_key;
use crate::qpdf::inverse::objects::length_in_order;
use crate::qpdf::layout::{
    is_name_text, length_of, number_in, prepared, renumbered, renumbered_entries,
    renumbered_items, lemma_first_with_id, writable, writable_object,
};
use crate::qpdf::object::types::ObjectRef;
use crate::qpdf::object::value::{entries_wf, EntryModel, Value};
use crate::qpdf::object::{entries_with_key, lemma_entries_with_key};
use crate::qpdf::reader::MAX_DEPTH;
use crate::qpdf::store::MAX_OBJECT_ID;
use vstd::prelude::*;
use vstd::utf8::encode_utf8;

verus! {

/// The items with new numbers are as many as the items, each the item
/// with new numbers.
pub proof fn lemma_renumbered_items(items: Seq<Value>, plan: Seq<ObjectRef>, n: nat)
    requires
        n <= items.len(),
    ensures
        renumbered_items(items, plan, n).len() == n,
        forall|j: int|
            0 <= j < n ==> #[trigger] renumbered_items(items, plan, n)[j] == renumbered(
                items[j],
                plan,
            ),
    decreases n,
{
    if n > 0 {
        lemma_renumbered_items(items, plan, (n - 1) as nat);
    }
}

/// The entries with new numbers are as many as the entries, each the key
/// with the value with new numbers.
pub proof fn lemma_renumbered_entries(entries: Seq<EntryModel>, plan: Seq<ObjectRef>, n: nat)
    requires
        n <= entries.len(),
    ensures
        renumbered_entries(entries, plan, n).len() == n,
        forall|j: int|
            0 <= j < n ==> #[trigger] renumbered_entries(entries, plan, n)[j] == (
                entries[j].0,
                renumbered(entries[j].1, plan),
            ),
    decreases n,
{
    if n > 0 {
        lemma_renumbered_entries(entries, plan, (n - 1) as nat);
    }
}

/// The number that a plan gives is a place of the plan.
pub proof fn lemma_number_in(plan: Seq<ObjectRef>, r: ObjectRef)
    ensures
        0 <= number_in(plan, r) <= plan.len(),
        number_in(plan, r) > 0 ==> plan[number_in(plan, r) - 1] == r,
{
    lemma_first_with_id(plan, r.id as int);
}

/// A member with new numbers is well formed and can be written where the
/// member could.
pub proof fn lemma_renumbered_member(v: Value, plan: Seq<ObjectRef>, depth: nat)
    requires
        v.wf(),
        writable(v, depth),
        plan.len() <= MAX_OBJECT_ID,
    ensures
        renumbered(v, plan).wf(),
        writable(renumbered(v, plan), depth),
    decreases v,
{
    match v {
        Value::Array(items) => {
            assert(v->Array_0 == items);
            let after = renumbered_items(items, plan, items.len());
            lemma_renumbered_items(items, plan, items.len());
            assert(renumbered(v, plan)->Array_0 == after);
            assert forall|j: int| 0 <= j < after.len() implies (#[trigger] after[j]).wf()
                && writable(after[j], (depth - 1) as nat) by {
                assert(v->Array_0[j] == items[j]);
                lemma_renumbered_member(items[j], plan, (depth - 1) as nat);
            }
        },
        Value::Dictionary(entries) => {
            assert(v->Dictionary_0 == entries);
            lemma_renumbered_dictionary(entries, plan, (depth - 1) as nat);
            assert(renumbered(v, plan)->Dictionary_0 == renumbered_entries(
                entries,
                plan,
                entries.len(),
            ));
        },
        Value::Indirect(r) => {
            lemma_number_in(plan, r);
        },
        _ => {},
    }
}

/// The entries of a dictionary with new numbers are well formed and can
/// be written where the entries could.
pub proof fn lemma_renumbered_dictionary(entries: Seq<EntryModel>, plan: Seq<ObjectRef>, depth: nat)
    requires
        entries_wf(entries),
        forall|j: int|
            0 <= j < entries.len() ==> is_name_text((#[trigger] entries[j]).0) && writable(
                entries[j].1,
                depth,
            ),
        plan.len() <= MAX_OBJECT_ID,
    ensures
        entries_wf(renumbered_entries(entries, plan, entries.len())),
        forall|j: int|
            0 <= j < entries.len() ==> is_name_text(
                (#[trigger] renumbered_entries(entries, plan, entries.len())[j]).0,
            ) && writable(renumbered_entries(entries, plan, entries.len())[j].1, depth),
        renumbered_entries(entries, plan, entries.len()).len() == entries.len(),
    decreases entries,
{
    let after = renumbered_entries(entries, plan, entries.len());
    lemma_renumbered_entries(entries, plan, entries.len());
    assert forall|i: int, j: int| 0 <= i < j < after.len() implies (#[trigger] after[i]).0 != (
    #[trigger] after[j]).0 by {
        assert(after[i].0 == entries[i].0);
        assert(after[j].0 == entries[j].0);
    }
    assert forall|j: int| 0 <= j < after.len() implies (#[trigger] after[j]).1.wf() && writable(
        after[j].1,
        depth,
    ) && is_name_text(after[j].0) by {
        assert(after[j] == (entries[j].0, renumbered(entries[j].1, plan)));
        assert(entries[j].1.wf());
        lemma_renumbered_member(entries[j].1, plan, depth);
    }
}

/// The key `/Length` can be written as a name.
pub proof fn lemma_length_key_is_name()
    ensures
        is_name_text(length_key()),
{
    lemma_ascii_name(length_key());
}

/// A key of ASCII characters that starts with a slash can be written as
/// a name.
pub proof fn lemma_ascii_name(key: Seq<char>)
    requires
        key.len() >= 1,
        key[0] == '/',
        vstd::utf8::is_ascii_chars(key),
    ensures
        is_name_text(key),
{
    vstd::utf8::is_ascii_chars_encode_utf8(key);
    assert(encode_utf8(key)[0] == key[0] as u8);
}

/// An object as it is written is well formed, can be written, and names
/// the length of its data where it is a stream.
pub proof fn lemma_prepared(v: Value, plan: Seq<ObjectRef>)
    requires
        v.wf(),
        writable_object(v),
        plan.len() <= MAX_OBJECT_ID,
    ensures
        prepared(v, plan).wf(),
        writable_object(prepared(v, plan)),
        length_in_order(prepared(v, plan)),
        v is Dictionary ==> prepared(v, plan) is Dictionary,
{
    match v {
        Value::Stream(entries, data) => {
            assert(v->Stream_0 == entries);
            let whole = Value::Dictionary(entries);
            assert(whole->Dictionary_0 == entries);
            assert forall|j: int| 0 <= j < entries.len() implies is_name_text(
                (#[trigger] entries[j]).0,
            ) && writable(entries[j].1, (MAX_DEPTH - 1) as nat) by {
                assert(whole->Dictionary_0[j] == entries[j]);
            }
            lemma_renumbered_dictionary(entries, plan, (MAX_DEPTH - 1) as nat);
            let re = renumbered_entries(entries, plan, entries.len());
            let length = Value::Integer(length_of(data));
            lemma_entries_with_key(re, length_key(), length);
            lemma_length_key_is_name();
            let done = entries_with_key(re, length_key(), length);
            let result = prepared(v, plan);
            assert(result == Value::Stream(done, data));
            assert(result->Stream_0 == done);
            crate::qpdf::object::value::lemma_key_index(re, length_key());
            assert forall|j: int| 0 <= j < done.len() implies is_name_text(
                (#[trigger] done[j]).0,
            ) && writable(done[j].1, (MAX_DEPTH - 1) as nat) by {
                let at = crate::qpdf::object::value::key_index(re, length_key());
                if j == at {
                } else {
                    assert(done[j] == re[j]);
                }
            }
            assert(Value::Dictionary(done)->Dictionary_0 == done);
        },
        _ => {
            lemma_renumbered_member(v, plan, MAX_DEPTH as nat);
        },
    }
}

} // verus!
