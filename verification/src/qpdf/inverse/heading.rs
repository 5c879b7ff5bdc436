//! The dictionary of the cross-reference stream of a packed file is in
//! order, and the trailer that it stands for names what the trailer as
//! it is written names.

use crate::qpdf::inverse::numbering::lemma_ascii_name;
use crate::qpdf::inverse::trailer::{
    entries_in_order, lemma_trailer_out, lemma_with_in_order, lemma_without_in_order,
};
use crate::qpdf::keys::{
    decode_parms_key, encrypt_key, filter_key, index_key, length_key, prev_key, root_key,
    size_key, type_key, widths_key, xref_name_key,
};
use crate::qpdf::layout::{is_name_text, trailer_out, writable};
use crate::qpdf::object::types::ObjectRef;
use crate::qpdf::object::value::{entries_wf, has_key, value_at_key, EntryModel, Value};
use crate::qpdf::object::{
    entries_with_key, entries_without_key, lemma_entries_with_key, lemma_entries_without_key,
};
use crate::qpdf::packed::{bare_trailer, stream_trailer};
use crate::qpdf::reader::MAX_DEPTH;
use crate::qpdf::store::MAX_OBJECT_ID;
use crate::qpdf::streams::trailer_of_stream;
use vstd::prelude::*;

verus! {

/// The widths of the fields as the dictionary names them.
pub open spec fn widths_value() -> Value {
    Value::Array(seq![Value::Integer(1), Value::Integer(5), Value::Integer(3)])
}

/// The keys that a cross-reference stream is written and read by, and
/// those that a trailer is asked for, differ in their second character;
/// those that are written can be written as names.
pub proof fn lemma_stream_keys()
    ensures
        filter_key()[1] == 'F',
        decode_parms_key()[1] == 'D',
        index_key()[1] == 'I',
        size_key()[1] == 'S',
        type_key()[1] == 'T',
        widths_key()[1] == 'W',
        length_key()[1] == 'L',
        root_key()[1] == 'R',
        prev_key()[1] == 'P',
        encrypt_key()[1] == 'E',
        is_name_text(size_key()),
        is_name_text(type_key()),
        is_name_text(widths_key()),
        is_name_text(length_key()),
        is_name_text(xref_name_key()),
{
    lemma_ascii_name(size_key());
    lemma_ascii_name(type_key());
    lemma_ascii_name(widths_key());
    lemma_ascii_name(length_key());
    lemma_ascii_name(xref_name_key());
}

/// The widths are well formed and can be written.
pub proof fn lemma_widths_value(depth: nat)
    requires
        depth >= 2,
    ensures
        widths_value().wf(),
        writable(widths_value(), depth),
{
    let w = widths_value();
    let items = seq![Value::Integer(1), Value::Integer(5), Value::Integer(3)];
    assert(w->Array_0 == items);
    assert forall|j: int| 0 <= j < w->Array_0.len() implies (#[trigger] w->Array_0[j]).wf()
        && writable(w->Array_0[j], (depth - 1) as nat) by {
        assert(w->Array_0[j] == items[j]);
    }
}

/// The bare trailer is in order and names what the trailer as it is
/// written names under the keys that are not taken out.
pub proof fn lemma_bare_trailer(trailer: Seq<EntryModel>, plan: Seq<ObjectRef>, fixed_id: bool)
    requires
        entries_wf(trailer),
        writable(Value::Dictionary(trailer), MAX_DEPTH as nat),
        plan.len() <= MAX_OBJECT_ID,
    ensures
        entries_in_order(bare_trailer(trailer, plan, fixed_id), (MAX_DEPTH - 1) as nat),
        !has_key(bare_trailer(trailer, plan, fixed_id), filter_key()),
        !has_key(bare_trailer(trailer, plan, fixed_id), decode_parms_key()),
        !has_key(bare_trailer(trailer, plan, fixed_id), index_key()),
        !has_key(bare_trailer(trailer, plan, fixed_id), prev_key()),
        !has_key(bare_trailer(trailer, plan, fixed_id), encrypt_key()),
        value_at_key(bare_trailer(trailer, plan, fixed_id), root_key()) == value_at_key(
            trailer_out(trailer, plan, fixed_id),
            root_key(),
        ),
{
    let depth = (MAX_DEPTH - 1) as nat;
    lemma_stream_keys();
    lemma_trailer_out(trailer, plan, fixed_id);
    let b0 = trailer_out(trailer, plan, fixed_id);
    let b1 = entries_without_key(b0, filter_key());
    lemma_without_in_order(b0, filter_key(), depth);
    lemma_entries_without_key(b0, filter_key());
    let b2 = entries_without_key(b1, decode_parms_key());
    lemma_without_in_order(b1, decode_parms_key(), depth);
    lemma_entries_without_key(b1, decode_parms_key());
    lemma_without_in_order(b2, index_key(), depth);
    lemma_entries_without_key(b2, index_key());
}

/// The dictionary of the cross-reference stream is in order; it names
/// the type, the widths, the size and the length, and neither a filter
/// nor an index.
pub proof fn lemma_stream_trailer(trailer: Seq<EntryModel>, plan: Seq<ObjectRef>, fixed_id: bool)
    requires
        entries_wf(trailer),
        writable(Value::Dictionary(trailer), MAX_DEPTH as nat),
        plan.len() + 2 <= MAX_OBJECT_ID,
    ensures
        entries_in_order(stream_trailer(trailer, plan, fixed_id), (MAX_DEPTH - 1) as nat),
        value_at_key(stream_trailer(trailer, plan, fixed_id), type_key()) == Value::Name(
            xref_name_key(),
        ),
        value_at_key(stream_trailer(trailer, plan, fixed_id), widths_key()) == widths_value(),
        value_at_key(stream_trailer(trailer, plan, fixed_id), size_key()) == Value::Integer(
            plan.len() as int + 3,
        ),
        value_at_key(stream_trailer(trailer, plan, fixed_id), length_key()) == Value::Integer(
            9 * (plan.len() as int + 3),
        ),
        value_at_key(stream_trailer(trailer, plan, fixed_id), filter_key()) == Value::Null,
        value_at_key(stream_trailer(trailer, plan, fixed_id), index_key()) == Value::Null,
        !has_key(stream_trailer(trailer, plan, fixed_id), prev_key()),
        !has_key(stream_trailer(trailer, plan, fixed_id), encrypt_key()),
        value_at_key(stream_trailer(trailer, plan, fixed_id), root_key()) == value_at_key(
            trailer_out(trailer, plan, fixed_id),
            root_key(),
        ),
{
    let depth = (MAX_DEPTH - 1) as nat;
    lemma_stream_keys();
    lemma_bare_trailer(trailer, plan, fixed_id);
    lemma_widths_value(depth);
    let s0 = bare_trailer(trailer, plan, fixed_id);
    let size = Value::Integer(plan.len() as int + 3);
    let s1 = entries_with_key(s0, size_key(), size);
    lemma_with_in_order(s0, size_key(), size, depth);
    lemma_entries_with_key(s0, size_key(), size);
    let kind = Value::Name(xref_name_key());
    let s2 = entries_with_key(s1, type_key(), kind);
    lemma_with_in_order(s1, type_key(), kind, depth);
    lemma_entries_with_key(s1, type_key(), kind);
    let s3 = entries_with_key(s2, widths_key(), widths_value());
    lemma_with_in_order(s2, widths_key(), widths_value(), depth);
    lemma_entries_with_key(s2, widths_key(), widths_value());
    let length = Value::Integer(9 * (plan.len() as int + 3));
    lemma_with_in_order(s3, length_key(), length, depth);
    lemma_entries_with_key(s3, length_key(), length);
}

/// The trailer that the dictionary of the cross-reference stream stands
/// for names neither an earlier table nor an encryption dictionary, and
/// names the root that the trailer as it is written names.
pub proof fn lemma_trailer_of_stream(entries: Seq<EntryModel>)
    requires
        entries_wf(entries),
    ensures
        has_key(trailer_of_stream(entries), prev_key()) == has_key(entries, prev_key()),
        has_key(trailer_of_stream(entries), encrypt_key()) == has_key(entries, encrypt_key()),
        value_at_key(trailer_of_stream(entries), root_key()) == value_at_key(
            entries,
            root_key(),
        ),
{
    lemma_stream_keys();
    let r1 = entries_without_key(entries, type_key());
    lemma_entries_without_key(entries, type_key());
    let r2 = entries_without_key(r1, widths_key());
    lemma_entries_without_key(r1, widths_key());
    let r3 = entries_without_key(r2, index_key());
    lemma_entries_without_key(r2, index_key());
    let r4 = entries_without_key(r3, length_key());
    lemma_entries_without_key(r3, length_key());
    let r5 = entries_without_key(r4, filter_key());
    lemma_entries_without_key(r4, filter_key());
    lemma_entries_without_key(r5, decode_parms_key());
}

} // verus!
