//! The trailer as it is written can be read back, names neither an
//! earlier table nor an encryption dictionary, and names the root under
//! its new number.

use crate::qpdf::inverse::numbering::{
    lemma_ascii_name, lemma_renumbered_dictionary, lemma_renumbered_entries,
};
use crate::qpdf::inverse::values::entries_writable;
use crate::qpdf::keys::{encrypt_key, id_key, prev_key, root_key, size_key, xref_stream_key};
use crate::qpdf::layout::{
    is_name_text, renumbered, renumbered_entries, static_id, trailer_out, writable,
};
use crate::qpdf::object::types::ObjectRef;
use crate::qpdf::object::value::{
    entries_wf, has_key, key_index, lemma_key_index, value_at_key, EntryModel, Value,
};
use crate::qpdf::object::{
    entries_with_key, entries_without_key, lemma_entries_with_key, lemma_entries_without_key,
};
use crate::qpdf::reader::MAX_DEPTH;
use crate::qpdf::store::MAX_OBJECT_ID;
use vstd::prelude::*;

verus! {

/// The entries are well formed and can be written as those of a
/// dictionary whose members may be nested `depth` deep.
pub open spec fn entries_in_order(entries: Seq<EntryModel>, depth: nat) -> bool {
    entries_wf(entries) && entries_writable(entries, 0, depth)
}

/// Entries in order stay in order without a key.
pub proof fn lemma_without_in_order(entries: Seq<EntryModel>, key: Seq<char>, depth: nat)
    requires
        entries_in_order(entries, depth),
    ensures
        entries_in_order(entries_without_key(entries, key), depth),
{
    lemma_entries_without_key(entries, key);
    lemma_key_index(entries, key);
    let after = entries_without_key(entries, key);
    let at = key_index(entries, key);
    assert forall|j: int| 0 <= j < after.len() implies is_name_text((#[trigger] after[j]).0)
        && writable(after[j].1, depth) && after[j].1.wf() by {
        if has_key(entries, key) {
            if j < at {
                assert(after[j] == entries[j]);
            } else {
                assert(after[j] == entries[j + 1]);
            }
        }
    }
}

/// Entries in order stay in order with a value that can be written under
/// a key that can be written.
pub proof fn lemma_with_in_order(entries: Seq<EntryModel>, key: Seq<char>, v: Value, depth: nat)
    requires
        entries_in_order(entries, depth),
        is_name_text(key),
        writable(v, depth),
        v.wf(),
    ensures
        entries_in_order(entries_with_key(entries, key, v), depth),
{
    lemma_entries_with_key(entries, key, v);
    lemma_key_index(entries, key);
    let after = entries_with_key(entries, key, v);
    let at = key_index(entries, key);
    assert forall|j: int| 0 <= j < after.len() implies is_name_text((#[trigger] after[j]).0)
        && writable(after[j].1, depth) && after[j].1.wf() by {
        if j != at {
            assert(after[j] == entries[j]);
        }
    }
}

/// The keys that the writer itself handles differ from one another.
pub proof fn lemma_trailer_keys()
    ensures
        prev_key() != xref_stream_key(),
        prev_key() != encrypt_key(),
        prev_key() != size_key(),
        prev_key() != id_key(),
        encrypt_key() != xref_stream_key(),
        xref_stream_key() != size_key(),
        xref_stream_key() != id_key(),
        encrypt_key() != size_key(),
        encrypt_key() != id_key(),
        root_key() != prev_key(),
        root_key() != xref_stream_key(),
        root_key() != encrypt_key(),
        root_key() != size_key(),
        root_key() != id_key(),
        size_key() != id_key(),
        is_name_text(size_key()),
        is_name_text(id_key()),
{
    assert(prev_key()[1] != xref_stream_key()[1]);
    assert(prev_key()[1] != encrypt_key()[1]);
    assert(prev_key()[1] != size_key()[1]);
    assert(prev_key()[1] != id_key()[1]);
    assert(encrypt_key()[1] != xref_stream_key()[1]);
    assert(xref_stream_key()[1] != size_key()[1]);
    assert(xref_stream_key()[1] != id_key()[1]);
    assert(encrypt_key()[1] != size_key()[1]);
    assert(encrypt_key()[1] != id_key()[1]);
    assert(root_key()[1] != prev_key()[1]);
    assert(root_key()[1] != xref_stream_key()[1]);
    assert(root_key()[1] != encrypt_key()[1]);
    assert(root_key()[1] != size_key()[1]);
    assert(root_key()[1] != id_key()[1]);
    assert(size_key()[1] != id_key()[1]);
    lemma_ascii_name(size_key());
    lemma_ascii_name(id_key());
}

/// Entries with new numbers hold the keys that the entries hold, each
/// with the value with new numbers.
pub proof fn lemma_renumbered_lookup(entries: Seq<EntryModel>, plan: Seq<ObjectRef>, key: Seq<char>)
    ensures
        has_key(renumbered_entries(entries, plan, entries.len()), key) == has_key(entries, key),
        has_key(entries, key) ==> value_at_key(
            renumbered_entries(entries, plan, entries.len()),
            key,
        ) == renumbered(value_at_key(entries, key), plan),
{
    let after = renumbered_entries(entries, plan, entries.len());
    lemma_renumbered_entries(entries, plan, entries.len());
    lemma_key_index(entries, key);
    lemma_key_index(after, key);
    let a = key_index(entries, key);
    let b = key_index(after, key);
    if a < entries.len() {
        assert(after[a].0 == key);
        if b < a {
            assert(after[b].0 == entries[b].0);
        }
    }
    if b < after.len() {
        assert(entries[b].0 == key);
        if a < b {
            assert(after[a].0 == entries[a].0);
        }
    }
}

/// The trailer as it is written is in order, names neither an earlier
/// table nor an encryption dictionary, and names the root that the
/// trailer names, with its new number.
pub proof fn lemma_trailer_out(trailer: Seq<EntryModel>, plan: Seq<ObjectRef>, fixed_id: bool)
    requires
        entries_wf(trailer),
        writable(Value::Dictionary(trailer), MAX_DEPTH as nat),
        plan.len() <= MAX_OBJECT_ID,
    ensures
        entries_in_order(trailer_out(trailer, plan, fixed_id), (MAX_DEPTH - 1) as nat),
        !has_key(trailer_out(trailer, plan, fixed_id), prev_key()),
        !has_key(trailer_out(trailer, plan, fixed_id), xref_stream_key()),
        !has_key(trailer_out(trailer, plan, fixed_id), encrypt_key()),
        has_key(trailer, root_key()) ==> value_at_key(
            trailer_out(trailer, plan, fixed_id),
            root_key(),
        ) == renumbered(value_at_key(trailer, root_key()), plan),
{
    let depth = (MAX_DEPTH - 1) as nat;
    let whole = Value::Dictionary(trailer);
    assert(whole->Dictionary_0 == trailer);
    assert forall|j: int| 0 <= j < trailer.len() implies is_name_text((#[trigger] trailer[j]).0)
        && writable(trailer[j].1, depth) by {
        assert(whole->Dictionary_0[j] == trailer[j]);
    }
    lemma_renumbered_dictionary(trailer, plan, depth);
    lemma_trailer_keys();
    let t0 = renumbered_entries(trailer, plan, trailer.len());
    assert(entries_in_order(t0, depth)) by {
        assert forall|j: int| 0 <= j < t0.len() implies is_name_text((#[trigger] t0[j]).0)
            && writable(t0[j].1, depth) && t0[j].1.wf() by {}
    }
    lemma_renumbered_lookup(trailer, plan, root_key());
    let t1 = entries_without_key(t0, prev_key());
    lemma_without_in_order(t0, prev_key(), depth);
    lemma_entries_without_key(t0, prev_key());
    let t2 = entries_without_key(t1, xref_stream_key());
    lemma_without_in_order(t1, xref_stream_key(), depth);
    lemma_entries_without_key(t1, xref_stream_key());
    let t3 = entries_without_key(t2, encrypt_key());
    lemma_without_in_order(t2, encrypt_key(), depth);
    lemma_entries_without_key(t2, encrypt_key());
    let size = Value::Integer(plan.len() as int + 1);
    let t4 = entries_with_key(t3, size_key(), size);
    lemma_with_in_order(t3, size_key(), size, depth);
    lemma_entries_with_key(t3, size_key(), size);
    if fixed_id {
        let pair = seq![Value::String(static_id()), Value::String(static_id())];
        let id = Value::Array(pair);
        assert(id->Array_0 == pair);
        assert(id.wf()) by {
            assert forall|j: int| 0 <= j < id->Array_0.len() implies (
            #[trigger] id->Array_0[j]).wf() by {
                assert(id->Array_0[j] == Value::String(static_id()));
            }
        }
        assert(writable(id, depth)) by {
            assert forall|j: int| 0 <= j < id->Array_0.len() implies writable(
                #[trigger] id->Array_0[j],
                (depth - 1) as nat,
            ) by {
                assert(id->Array_0[j] == Value::String(static_id()));
            }
        }
        lemma_with_in_order(t4, id_key(), id, depth);
        lemma_entries_with_key(t4, id_key(), id);
    }
}

} // verus!
