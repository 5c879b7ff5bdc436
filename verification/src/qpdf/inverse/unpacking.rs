//! A packed file is read back as it was written.

use crate::qpdf::document::{
    last_index_of, load, load_by_table, load_objects, parse_indirect_object, parse_section,
    read_sections, root_ok, startxref_word, LoadedModel, XrefEntry,
};
use crate::qpdf::error::ErrorKind;
use crate::qpdf::inverse::file::{
    lemma_header, lemma_load_result, lemma_resolve_wf, lemma_root, lemma_startxref,
    written_objects,
};
use crate::qpdf::graph::{refs_of, walk_limit, WalkKind};
use crate::qpdf::inverse::heading::{lemma_stream_trailer, lemma_trailer_of_stream};
use crate::qpdf::inverse::sound::{
    lemma_dictionary_writable, lemma_sound_document, lemma_written_objects_writable,
};
use crate::qpdf::inverse::trailer::{entries_in_order, lemma_without_in_order};
use crate::qpdf::reach::walk_need;
use crate::qpdf::inverse::lexical::lemma_has_at_split;
use crate::qpdf::inverse::members::{
    container_data, container_entries, lemma_container_entries, lemma_object_in_stream,
    members_writable,
};
use crate::qpdf::inverse::numbering::lemma_prepared;
use crate::qpdf::inverse::objects::lemma_parse_object;
use crate::qpdf::inverse::packing::{
    lemma_parse_xref_stream, lemma_row_at, lemma_stream_in_order, packed_line, packed_lines,
    places_in_order, rows_data, Places,
};
use crate::qpdf::inverse::standing::{
    holds_standing, holds_waiting, lemma_load_standing, lemma_standing_stand, lemma_waiting,
    standing_objects, standing_slot, standing_stand, stored, waiting_slot, with_two,
};
use crate::qpdf::keys::{
    decode_parms_key, encrypt_key, filter_key, index_key, length_key, root_key, type_key,
    widths_key,
};
use crate::qpdf::layout::{
    can_write, eof_text, header_text, is_version_text, object_text, plan_writable,
    root_written, startxref_text, trailer_out, writable, writable_object, write_plan,
};
use crate::qpdf::object::types::ObjectRef;
use crate::qpdf::object::entries_without_key;
use crate::qpdf::object::value::{entries_wf, has_key, value_at_key, EntryModel, Value};
use crate::qpdf::packed::{
    container_value, member_count, packable, packed_file_text, standing_text, stream_trailer,
    written_value,
};
use crate::qpdf::reader::MAX_DEPTH;
use crate::qpdf::store::{
    holds, resolve, store_wf, with_object, StoreModel, StoredModel, MAX_OBJECT_ID,
};
use crate::qpdf::streams::{load_waiting, object_in_stream, trailer_of_stream, waiting_of, Waiting};
use crate::qpdf::syntax::{bounded_digits, has_at, int_text, skip_space, token_end};
use vstd::prelude::*;

verus! {

/// The pieces of a packed file.
pub struct Pieces {
    pub head: Seq<u8>,
    pub standing: Seq<u8>,
    pub container: Seq<u8>,
    pub table: Seq<u8>,
    pub offset: Seq<u8>,
}

impl Pieces {
    /// Where the standing objects, the object stream and the
    /// cross-reference stream start.
    pub open spec fn places(self) -> Places {
        Places {
            start: self.head.len() as int,
            container_at: (self.head.len() + self.standing.len()) as int,
            table_at: (self.head.len() + self.standing.len() + self.container.len()) as int,
        }
    }

    /// Where the line feed before `startxref` stands.
    pub open spec fn closing_at(self) -> int {
        self.places().table_at + self.table.len()
    }

    /// The whole file.
    pub open spec fn whole(self) -> Seq<u8> {
        self.head + self.standing + self.container + self.table + startxref_text() + self.offset
            + eof_text()
    }
}

/// Each piece of a packed file stands at its place.
pub proof fn lemma_pieces(p: Pieces)
    ensures
        has_at(p.whole(), 0, p.head),
        has_at(p.whole(), p.places().start, p.standing),
        has_at(p.whole(), p.places().container_at, p.container),
        has_at(p.whole(), p.places().table_at, p.table),
        has_at(p.whole(), p.closing_at(), startxref_text() + p.offset + eof_text()),
        p.whole().len() == p.closing_at() + 11 + p.offset.len() + 7,
{
    let b = p.whole();
    let r4 = startxref_text() + p.offset + eof_text();
    let r3 = p.table + r4;
    let r2 = p.container + r3;
    let r1 = p.standing + r2;
    assert(b =~= p.head + r1);
    assert(b.subrange(0, b.len() as int) =~= b);
    lemma_has_at_split(b, 0, p.head, r1);
    lemma_has_at_split(b, p.places().start, p.standing, r2);
    lemma_has_at_split(b, p.places().container_at, p.container, r3);
    lemma_has_at_split(b, p.places().table_at, p.table, r4);
}

/// The cross-reference stream of a packed file whose pieces stand at
/// `at`.
pub open spec fn table_value(
    at: Places,
    objects: StoreModel,
    trailer: Seq<EntryModel>,
    plan: Seq<ObjectRef>,
    fixed_id: bool,
) -> Value {
    Value::Stream(stream_trailer(trailer, plan, fixed_id), rows_data(at, objects, plan))
}

/// The pieces of the packed file that is written for a document.
pub open spec fn pieces_of(
    version: Seq<char>,
    objects: StoreModel,
    trailer: Seq<EntryModel>,
    preserve: bool,
    fixed_id: bool,
) -> Pieces {
    let plan = write_plan(objects, trailer, preserve);
    let n = plan.len();
    let head = header_text(version);
    let standing = standing_text(objects, plan, n);
    let container = object_text(n as int + 1, container_value(objects, plan));
    let at = Places {
        start: head.len() as int,
        container_at: (head.len() + standing.len()) as int,
        table_at: (head.len() + standing.len() + container.len()) as int,
    };
    Pieces {
        head,
        standing,
        container,
        table: object_text(n as int + 2, table_value(at, objects, trailer, plan, fixed_id)),
        offset: int_text(at.table_at),
    }
}

/// The packed file that is written for a document is made of its
/// pieces, which are in order; the document can be written; and the data
/// of the object stream is within the lengths that can be named.
pub proof fn lemma_file_pieces(
    version: Seq<char>,
    objects: StoreModel,
    trailer: Seq<EntryModel>,
    preserve: bool,
    fixed_id: bool,
)
    requires
        packed_file_text(version, objects, trailer, preserve, fixed_id) is Some,
    ensures
        packed_file_text(version, objects, trailer, preserve, fixed_id) == Some(
            pieces_of(version, objects, trailer, preserve, fixed_id).whole(),
        ),
        places_in_order(
            pieces_of(version, objects, trailer, preserve, fixed_id).places(),
            objects,
            write_plan(objects, trailer, preserve),
        ),
        container_data(objects, write_plan(objects, trailer, preserve)).len() <= i64::MAX,
        writable(Value::Dictionary(trailer), MAX_DEPTH as nat),
        plan_writable(
            objects,
            write_plan(objects, trailer, preserve),
            write_plan(objects, trailer, preserve).len(),
        ),
        root_written(objects, trailer, write_plan(objects, trailer, preserve)),
        is_version_text(version),
{
    let plan = write_plan(objects, trailer, preserve);
    let p = pieces_of(version, objects, trailer, preserve, fixed_id);
    assert(packed_file_text(version, objects, trailer, preserve, fixed_id)->0 =~= p.whole());
}

/// What the store holds for the number `i + 1` once the members among
/// the first `k` objects are taken from the object stream.
pub open spec fn filled_slot(objects: StoreModel, plan: Seq<ObjectRef>, k: nat, i: int) -> Option<
    StoredModel,
> {
    if i < k {
        stored(written_value(objects, plan, i + 1))
    } else {
        standing_slot(objects, plan, i)
    }
}

/// The store once the members among the first `k` objects are taken
/// from the object stream.
pub open spec fn filled(
    objects: StoreModel,
    plan: Seq<ObjectRef>,
    c: Value,
    x: Value,
    k: nat,
) -> StoreModel {
    with_two(Seq::new(plan.len(), |i: int| filled_slot(objects, plan, k, i)), c, x)
}

/// The object stream holds every object that was packed into it.
pub open spec fn members_held(objects: StoreModel, plan: Seq<ObjectRef>) -> bool {
    forall|j: int|
        1 <= j <= plan.len() && packable(#[trigger] written_value(objects, plan, j))
            ==> object_in_stream(
            container_value(objects, plan),
            member_count(objects, plan, (j - 1) as nat),
            j,
        ) == Some(written_value(objects, plan, j))
}

/// Taking the `k + 1`-th object from the object stream, where the
/// object stream holds it, fills its place in the store.
pub proof fn lemma_filled_step(
    objects: StoreModel,
    plan: Seq<ObjectRef>,
    c: Value,
    x: Value,
    k: nat,
)
    requires
        plan.len() + 2 <= MAX_OBJECT_ID,
        k < plan.len(),
    ensures
        packable(written_value(objects, plan, k as int + 1)) ==> with_object(
            filled(objects, plan, c, x, k),
            ObjectRef { id: (k + 1) as i32, generation: 0 },
            written_value(objects, plan, k as int + 1),
        ) == filled(objects, plan, c, x, k + 1),
        !packable(written_value(objects, plan, k as int + 1)) ==> filled(objects, plan, c, x, k)
            == filled(objects, plan, c, x, k + 1),
{
    let store = filled(objects, plan, c, x, k);
    let next = filled(objects, plan, c, x, k + 1);
    if packable(written_value(objects, plan, k as int + 1)) {
        let v = written_value(objects, plan, k as int + 1);
        let reference = ObjectRef { id: (k + 1) as i32, generation: 0 };
        assert(with_object(store, reference, v) =~= next);
    } else {
        assert(store =~= next);
    }
}

/// Once every member is taken from the object stream, the store holds
/// every object that was written.
pub proof fn lemma_filled_end(
    objects: StoreModel,
    plan: Seq<ObjectRef>,
    c: Value,
    x: Value,
    k: nat,
)
    requires
        k <= plan.len(),
        forall|j: int| k < j <= plan.len() ==> !packable(#[trigger] written_value(objects, plan, j)),
    ensures
        filled(objects, plan, c, x, k) == with_two(written_objects(objects, plan), c, x),
{
    let n = plan.len();
    let store = filled(objects, plan, c, x, k);
    let all = with_two(written_objects(objects, plan), c, x);
    assert forall|i: int| 0 <= i < all.len() implies store[i] == all[i] by {
        if k <= i < n {
            assert(!packable(written_value(objects, plan, i + 1)));
        }
    }
    assert(store =~= all);
}

/// Where the object stream holds every object that was packed into it,
/// the objects that the list names from the `k`-th on are taken from
/// it, which gives every object that was written.
pub proof fn lemma_load_waiting(
    base: StoreModel,
    w: Waiting,
    objects: StoreModel,
    plan: Seq<ObjectRef>,
    c: Value,
    x: Value,
    k: nat,
)
    requires
        plan.len() + 2 <= MAX_OBJECT_ID,
        holds_waiting(w, objects, plan, plan.len()),
        resolve(base, ObjectRef { id: (plan.len() + 1) as i32, generation: 0 })
            == container_value(objects, plan),
        members_held(objects, plan),
        k <= w.len(),
    ensures
        load_waiting(base, w, k, filled(objects, plan, c, x, k)) == Some(
            with_two(written_objects(objects, plan), c, x),
        ),
    decreases w.len() - k,
{
    let n = plan.len();
    let store = filled(objects, plan, c, x, k);
    if k >= w.len() {
        lemma_filled_end(objects, plan, c, x, k);
    } else {
        let next = filled(objects, plan, c, x, k + 1);
        lemma_filled_step(objects, plan, c, x, k);
        lemma_load_waiting(base, w, objects, plan, c, x, k + 1);
        assert(w[k as int] == waiting_slot(
            objects,
            plan,
            k as int,
        ));
        let v = written_value(objects, plan, k as int + 1);
        if packable(v) {
            let held = object_in_stream(
                container_value(objects, plan),
                member_count(objects, plan, k),
                k as int + 1,
            );
            assert(held == Some(v));
            assert(w[k as int] == Some(((n + 1) as int, member_count(objects, plan, k) as int)));
            assert(load_waiting(base, w, k, store) == load_waiting(base, w, k + 1, next));
        } else {
            assert(w[k as int] is None);
            assert(load_waiting(base, w, k, store) == load_waiting(base, w, k + 1, next));
        }
    }
}

/// Where the cross-reference stream of a packed file stands, it is read
/// as an object and as the one section of the file, whose trailer names
/// no encryption dictionary and the root that the trailer as it is
/// written names.
pub proof fn lemma_read_table(
    b: Seq<u8>,
    at: Places,
    objects: StoreModel,
    trailer: Seq<EntryModel>,
    plan: Seq<ObjectRef>,
    fixed_id: bool,
)
    requires
        entries_wf(trailer),
        writable(Value::Dictionary(trailer), MAX_DEPTH as nat),
        places_in_order(at, objects, plan),
        has_at(
            b,
            at.table_at,
            object_text(plan.len() as int + 2, table_value(at, objects, trailer, plan, fixed_id)),
        ),
    ensures
        parse_indirect_object(b, at.table_at) matches Some(found) && found.0 == (ObjectRef {
            id: (plan.len() + 2) as i32,
            generation: 0,
        }) && found.1 == table_value(at, objects, trailer, plan, fixed_id),
        parse_section(b, at.table_at, false) == Some(
            (
                packed_lines(at, objects, plan),
                trailer_of_stream(stream_trailer(trailer, plan, fixed_id)),
            ),
        ),
        read_sections(b, at.table_at, false, b.len() + 1, Seq::empty()) == Some(
            packed_lines(at, objects, plan),
        ),
        !has_key(trailer_of_stream(stream_trailer(trailer, plan, fixed_id)), encrypt_key()),
        value_at_key(trailer_of_stream(stream_trailer(trailer, plan, fixed_id)), root_key())
            == value_at_key(trailer_out(trailer, plan, fixed_id), root_key()),
{
    let entries = stream_trailer(trailer, plan, fixed_id);
    let lines = packed_lines(at, objects, plan);
    lemma_stream_trailer(trailer, plan, fixed_id);
    lemma_parse_xref_stream(b, at, objects, plan, entries);
    lemma_trailer_of_stream(entries);
    assert(parse_section(b, at.table_at, false) == Some((lines, trailer_of_stream(entries))))
        by {
        reveal(parse_section);
    }
    assert(lines + Seq::<XrefEntry>::empty() =~= lines);
}

/// Where the object stream of a packed file stands, it is read as the
/// object after the last of the plan.
pub proof fn lemma_read_container(
    b: Seq<u8>,
    at: Places,
    objects: StoreModel,
    plan: Seq<ObjectRef>,
)
    requires
        container_data(objects, plan).len() <= i64::MAX,
        plan.len() + 2 <= MAX_OBJECT_ID,
        has_at(b, at.container_at, object_text(plan.len() as int + 1, container_value(objects, plan))),
    ensures
        parse_indirect_object(b, at.container_at) matches Some(found) && found.0 == (ObjectRef {
            id: (plan.len() + 1) as i32,
            generation: 0,
        }) && found.1 == container_value(objects, plan),
{
    lemma_container_entries(objects, plan);
    lemma_stream_in_order(container_entries(objects, plan), container_data(objects, plan));
    lemma_parse_object(b, at.container_at, plan.len() as int + 1, container_value(objects, plan));
}

/// Every object of a plan that can be written, where the object stream
/// holds it, can be written as a member, and the object stream holds it
/// at its place.
pub proof fn lemma_members(objects: StoreModel, plan: Seq<ObjectRef>)
    requires
        store_wf(objects),
        plan.len() <= MAX_OBJECT_ID,
        plan_writable(objects, plan, plan.len()),
        container_data(objects, plan).len() <= i64::MAX,
    ensures
        members_writable(objects, plan),
        members_held(objects, plan),
{
    assert forall|j: int|
        1 <= j <= plan.len() && packable(#[trigger] written_value(objects, plan, j)) implies writable(
        written_value(objects, plan, j),
        MAX_DEPTH as nat,
    ) && written_value(objects, plan, j).wf() by {
        lemma_resolve_wf(objects, plan[j - 1]);
        lemma_prepared(resolve(objects, plan[j - 1]), plan);
    }
    assert forall|j: int|
        1 <= j <= plan.len() && packable(
            #[trigger] written_value(objects, plan, j),
        ) implies object_in_stream(
        container_value(objects, plan),
        member_count(objects, plan, (j - 1) as nat),
        j,
    ) == Some(written_value(objects, plan, j)) by {
        lemma_object_in_stream(objects, plan, j as nat);
    }
}

/// Where the standing objects, the object stream and the
/// cross-reference stream `x` of a packed file are read at their
/// offsets, the lines of the file load the standing objects and the two
/// streams, and then, from the object stream, every other object.
pub proof fn lemma_load_pieces(
    b: Seq<u8>,
    at: Places,
    objects: StoreModel,
    plan: Seq<ObjectRef>,
    x: Value,
)
    requires
        places_in_order(at, objects, plan),
        standing_stand(b, at, objects, plan),
        parse_indirect_object(b, at.container_at) matches Some(found) && found.0 == (ObjectRef {
            id: (plan.len() + 1) as i32,
            generation: 0,
        }) && found.1 == container_value(objects, plan),
        parse_indirect_object(b, at.table_at) matches Some(found) && found.0 == (ObjectRef {
            id: (plan.len() + 2) as i32,
            generation: 0,
        }) && found.1 == x,
        members_held(objects, plan),
    ensures
        load_objects(b, packed_lines(at, objects, plan), 0, Seq::empty()) == Some(
            with_two(standing_objects(objects, plan), container_value(objects, plan), x),
        ),
        load_waiting(
            with_two(standing_objects(objects, plan), container_value(objects, plan), x),
            waiting_of(packed_lines(at, objects, plan), packed_lines(at, objects, plan).len()),
            0,
            with_two(standing_objects(objects, plan), container_value(objects, plan), x),
        ) == Some(with_two(written_objects(objects, plan), container_value(objects, plan), x)),
{
    let n = plan.len();
    let c = container_value(objects, plan);
    let lines = packed_lines(at, objects, plan);
    let standing = with_two(standing_objects(objects, plan), c, x);
    let none = Seq::<Option<StoredModel>>::empty();
    assert(holds_standing(none, objects, plan, 0));
    lemma_load_standing(b, at, objects, plan, c, x, 1, none);
    assert(lines[0] == packed_line(at, objects, plan, 0));
    assert(load_objects(b, lines, 0, none) == load_objects(b, lines, 1, none));
    lemma_waiting(at, objects, plan, n + 3);
    let w = waiting_of(lines, lines.len());
    assert(standing =~= filled(objects, plan, c, x, 0));
    let reference = ObjectRef { id: (n + 1) as i32, generation: 0 };
    assert(standing[n as int] == stored(c));
    assert(holds(standing, reference));
    lemma_load_waiting(standing, w, objects, plan, c, x, 0);
}

/// The root that the trailer of a packed file names is read back as a
/// dictionary.
pub proof fn lemma_packed_root(
    objects: StoreModel,
    trailer: Seq<EntryModel>,
    plan: Seq<ObjectRef>,
    fixed_id: bool,
    c: Value,
    x: Value,
    read: Seq<EntryModel>,
)
    requires
        store_wf(objects),
        entries_wf(trailer),
        writable(Value::Dictionary(trailer), MAX_DEPTH as nat),
        plan.len() <= MAX_OBJECT_ID,
        plan_writable(objects, plan, plan.len()),
        root_written(objects, trailer, plan),
        value_at_key(read, root_key()) == value_at_key(
            trailer_out(trailer, plan, fixed_id),
            root_key(),
        ),
    ensures
        root_ok(with_two(written_objects(objects, plan), c, x), read),
{
    lemma_root(objects, trailer, plan, fixed_id);
    let r = value_at_key(read, root_key())->Indirect_0;
    let all = written_objects(objects, plan);
    let more = with_two(all, c, x);
    assert(holds(all, r));
    assert(more[r.id - 1] == all[r.id - 1]);
}

/// Where the last `startxref` names a cross-reference stream that is
/// the one section of the file, whose lines load objects with a root,
/// the cross-reference data gives those objects and the trailer of the
/// stream.
pub proof fn lemma_load_by_stream(
    b: Seq<u8>,
    closing: int,
    table_at: int,
    lines: Seq<XrefEntry>,
    trailer: Seq<EntryModel>,
    standing: StoreModel,
    objects: StoreModel,
)
    requires
        last_index_of(b, startxref_word(), b.len() as int) == closing + 1,
        closing >= 0,
        0 <= table_at,
        bounded_digits(
            b,
            skip_space(b, closing + 10),
            token_end(b, skip_space(b, closing + 10)),
            b.len(),
        ) == Some(table_at as nat),
        parse_section(b, table_at, false) == Some((lines, trailer)),
        read_sections(b, table_at, false, b.len() + 1, Seq::empty()) == Some(lines),
        load_objects(b, lines, 0, Seq::empty()) == Some(standing),
        load_waiting(standing, waiting_of(lines, lines.len()), 0, standing) == Some(objects),
        root_ok(objects, trailer),
    ensures
        load_by_table(b, false) == Some((objects, trailer)),
{
}

/// The objects that a packed file holds: the objects of the plan as
/// they are written, then the object stream and the cross-reference
/// stream.
pub open spec fn packed_objects(
    version: Seq<char>,
    objects: StoreModel,
    trailer: Seq<EntryModel>,
    preserve: bool,
    fixed_id: bool,
) -> StoreModel {
    let plan = write_plan(objects, trailer, preserve);
    with_two(
        written_objects(objects, plan),
        container_value(objects, plan),
        table_value(
            pieces_of(version, objects, trailer, preserve, fixed_id).places(),
            objects,
            trailer,
            plan,
            fixed_id,
        ),
    )
}

/// Reading inverts packing: the packed file that is written for a
/// document is read, without any recovery and with its cross-reference
/// stream heeded, as the objects that the plan holds, under their new
/// numbers, with generation 0 and their values as they are written;
/// after them the object stream and the cross-reference stream of the
/// file; and as trailer the one that the dictionary of the
/// cross-reference stream stands for. This holds of every document for
/// which a packed file is written.
pub proof fn law_reading_inverts_packing(
    version: Seq<char>,
    objects: StoreModel,
    trailer: Seq<EntryModel>,
    preserve: bool,
    fixed_id: bool,
    attempt_recovery: bool,
)
    requires
        store_wf(objects),
        entries_wf(trailer),
        packed_file_text(version, objects, trailer, preserve, fixed_id) is Some,
    ensures
        load(
            packed_file_text(version, objects, trailer, preserve, fixed_id)->0,
            attempt_recovery,
            false,
        ) == Ok::<LoadedModel, ErrorKind>(
            LoadedModel {
                version,
                objects: packed_objects(version, objects, trailer, preserve, fixed_id),
                trailer: trailer_of_stream(
                    stream_trailer(trailer, write_plan(objects, trailer, preserve), fixed_id),
                ),
                recovered: false,
            },
        ),
{
    let plan = write_plan(objects, trailer, preserve);
    let p = pieces_of(version, objects, trailer, preserve, fixed_id);
    let at = p.places();
    let b = p.whole();
    let c = container_value(objects, plan);
    let x = table_value(at, objects, trailer, plan, fixed_id);
    let read = trailer_of_stream(stream_trailer(trailer, plan, fixed_id));
    let lines = packed_lines(at, objects, plan);
    let standing = with_two(standing_objects(objects, plan), c, x);
    let all = with_two(written_objects(objects, plan), c, x);
    lemma_file_pieces(version, objects, trailer, preserve, fixed_id);
    lemma_pieces(p);
    lemma_header(b, version);
    lemma_startxref(b, p.closing_at(), at.table_at);
    lemma_read_table(b, at, objects, trailer, plan, fixed_id);
    lemma_read_container(b, at, objects, plan);
    lemma_standing_stand(b, at, objects, plan);
    lemma_members(objects, plan);
    lemma_load_pieces(b, at, objects, plan, x);
    lemma_packed_root(objects, trailer, plan, fixed_id, c, x, read);
    lemma_load_by_stream(b, p.closing_at(), at.table_at, lines, read, standing, all);
    lemma_load_result(b, attempt_recovery, false, version, all, read);
}

/// The trailer that a dictionary in order stands for as the dictionary
/// of a cross-reference stream is in order.
pub proof fn lemma_trailer_of_stream_in_order(entries: Seq<EntryModel>)
    requires
        entries_in_order(entries, (MAX_DEPTH - 1) as nat),
    ensures
        entries_in_order(trailer_of_stream(entries), (MAX_DEPTH - 1) as nat),
{
    let depth = (MAX_DEPTH - 1) as nat;
    let r1 = entries_without_key(entries, type_key());
    lemma_without_in_order(entries, type_key(), depth);
    let r2 = entries_without_key(r1, widths_key());
    lemma_without_in_order(r1, widths_key(), depth);
    let r3 = entries_without_key(r2, index_key());
    lemma_without_in_order(r2, index_key(), depth);
    let r4 = entries_without_key(r3, length_key());
    lemma_without_in_order(r3, length_key(), depth);
    let r5 = entries_without_key(r4, filter_key());
    lemma_without_in_order(r4, filter_key(), depth);
    lemma_without_in_order(r5, decode_parms_key(), depth);
}

/// What is packed can be written again: the document that a packed file
/// holds, the objects under their new numbers, the two streams of the
/// file after them, and the trailer that the cross-reference stream
/// stands for, is sound. This holds of every document for which a
/// packed file is written, where a walk over what is written needs no
/// more steps than a walk is long.
pub proof fn law_what_is_packed_is_sound(
    version: Seq<char>,
    objects: StoreModel,
    trailer: Seq<EntryModel>,
    preserve: bool,
    fixed_id: bool,
)
    requires
        store_wf(objects),
        entries_wf(trailer),
        packed_file_text(version, objects, trailer, preserve, fixed_id) is Some,
        walk_need(
            packed_objects(version, objects, trailer, preserve, fixed_id),
            WalkKind::References,
            refs_of(
                Value::Dictionary(
                    trailer_of_stream(
                        stream_trailer(trailer, write_plan(objects, trailer, preserve), fixed_id),
                    ),
                ),
            ),
        ) <= walk_limit(),
    ensures
        can_write(
            packed_objects(version, objects, trailer, preserve, fixed_id),
            trailer_of_stream(
                stream_trailer(trailer, write_plan(objects, trailer, preserve), fixed_id),
            ),
            false,
        ),
{
    let plan = write_plan(objects, trailer, preserve);
    let n = plan.len();
    let p = pieces_of(version, objects, trailer, preserve, fixed_id);
    let at = p.places();
    let c = container_value(objects, plan);
    let x = table_value(at, objects, trailer, plan, fixed_id);
    let heading = stream_trailer(trailer, plan, fixed_id);
    let read = trailer_of_stream(heading);
    let all = written_objects(objects, plan);
    let packed = with_two(all, c, x);
    lemma_file_pieces(version, objects, trailer, preserve, fixed_id);
    lemma_stream_trailer(trailer, plan, fixed_id);
    lemma_trailer_of_stream(heading);
    lemma_trailer_of_stream_in_order(heading);
    lemma_dictionary_writable(read);
    lemma_container_entries(objects, plan);
    lemma_stream_in_order(container_entries(objects, plan), container_data(objects, plan));
    lemma_row_at(at, objects, plan, 0);
    lemma_stream_in_order(heading, rows_data(at, objects, plan));
    lemma_written_objects_writable(objects, plan);
    assert forall|r: ObjectRef| writable_object(#[trigger] resolve(packed, r)) by {
        if holds(packed, r) {
            if r.id <= n {
                assert(packed[r.id - 1] == all[r.id - 1]);
                assert(holds(all, r));
                assert(resolve(packed, r) == resolve(all, r));
            } else if r.id == n + 1 {
                assert(packed[r.id - 1] == stored(c));
            } else {
                assert(packed[r.id - 1] == stored(x));
            }
        }
    }
    lemma_packed_root(objects, trailer, plan, fixed_id, c, x, read);
    lemma_sound_document(packed, read);
}

} // verus!
