//! The layout of a file whose objects are packed into an object stream
//! and whose cross-reference data is a stream.

use crate::qpdf::document::header_bytes;
use crate::qpdf::keys::{
    decode_parms_key, decode_parms_key_string, filter_key, filter_key_string, index_key,
    index_key_string, first_key, first_key_string, length_key, length_key_string, number_key, number_key_string,
    object_stream_name_key, object_stream_name_key_string, size_key, size_key_string, type_key,
    type_key_string, widths_key, widths_key_string, xref_name_key, xref_name_key_string,
};
use crate::qpdf::layout::{
    can_write, check_can_write, check_version_text, eof_bytes, eof_text, header_text,
    is_version_text, length_of, make_plan, make_trailer_out, number_table, object_close_bytes,
    object_open_bytes, object_text, prepare, prepared, startxref_line_bytes, startxref_text,
    table_matches, trailer_out, write_plan,
};
use crate::qpdf::object::types::ObjectRef;
use crate::qpdf::object::value::{
    entries_view, lemma_view_members, values_view, Entry, EntryModel, ObjectValue, Value,
};
use crate::qpdf::object::{entries_with_key, entries_without_key, remove_entry, replace_entry};
use crate::qpdf::store::{resolve, ObjectStore, StoreModel, MAX_OBJECT_ID};
use crate::qpdf::syntax::{int_text, push_int};
use crate::qpdf::writer::{push_all, push_value};
use vstd::prelude::*;

verus! {

/// An object that an object stream can hold: every value but a stream.
pub open spec fn packable(v: Value) -> bool {
    !(v is Stream)
}

/// The `k`-th object of the plan, counted from 1, as it is written.
pub open spec fn written_value(objects: StoreModel, plan: Seq<ObjectRef>, k: int) -> Value {
    prepared(resolve(objects, plan[k - 1]), plan)
}

/// How many of the first `k` objects an object stream can hold.
pub open spec fn member_count(objects: StoreModel, plan: Seq<ObjectRef>, k: nat) -> nat
    decreases k,
{
    if k == 0 || k > plan.len() {
        0
    } else if packable(written_value(objects, plan, k as int)) {
        member_count(objects, plan, (k - 1) as nat) + 1
    } else {
        member_count(objects, plan, (k - 1) as nat)
    }
}

/// The texts of those of the first `k` objects that an object stream can
/// hold, a line feed after each.
pub open spec fn members_text(objects: StoreModel, plan: Seq<ObjectRef>, k: nat) -> Seq<u8>
    decreases k,
{
    if k == 0 || k > plan.len() {
        Seq::empty()
    } else if packable(written_value(objects, plan, k as int)) {
        members_text(objects, plan, (k - 1) as nat) + written_value(objects, plan, k as int).text()
            + seq![10u8]
    } else {
        members_text(objects, plan, (k - 1) as nat)
    }
}

/// For those of the first `k` objects that an object stream can hold:
/// the number of each and the place of its text among the texts, a space
/// after each.
pub open spec fn pairs_text(objects: StoreModel, plan: Seq<ObjectRef>, k: nat) -> Seq<u8>
    decreases k,
{
    if k == 0 || k > plan.len() {
        Seq::empty()
    } else if packable(written_value(objects, plan, k as int)) {
        pairs_text(objects, plan, (k - 1) as nat) + int_text(k as int) + seq![32u8] + int_text(
            members_text(objects, plan, (k - 1) as nat).len() as int,
        ) + seq![32u8]
    } else {
        pairs_text(objects, plan, (k - 1) as nat)
    }
}

/// The texts of those of the first `k` objects that stand in the file
/// themselves: the streams.
pub open spec fn standing_text(objects: StoreModel, plan: Seq<ObjectRef>, k: nat) -> Seq<u8>
    decreases k,
{
    if k == 0 || k > plan.len() {
        Seq::empty()
    } else if packable(written_value(objects, plan, k as int)) {
        standing_text(objects, plan, (k - 1) as nat)
    } else {
        standing_text(objects, plan, (k - 1) as nat) + object_text(
            k as int,
            written_value(objects, plan, k as int),
        )
    }
}

/// The number `n` in `width` bytes, the first byte counting most; of a
/// larger number the last `width` bytes.
pub open spec fn field_bytes(n: nat, width: nat) -> Seq<u8>
    decreases width,
{
    if width == 0 {
        Seq::empty()
    } else {
        field_bytes(n / 256, (width - 1) as nat).push((n % 256) as u8)
    }
}

/// A row of the cross-reference stream: the kind in one byte, then five
/// bytes and three bytes.
pub open spec fn row_text(kind: u8, second: nat, third: nat) -> Seq<u8> {
    seq![kind] + field_bytes(second, 5) + field_bytes(third, 3)
}

/// The rows for the first `k` objects: the row of an object that the
/// object stream holds starts with 2, then names the number of the
/// stream and the object's place among the members; the row of a stream
/// starts with 1, then names its offset in the file, whose first
/// standing object starts at `start`.
pub open spec fn rows_text(start: int, objects: StoreModel, plan: Seq<ObjectRef>, k: nat) -> Seq<
    u8,
>
    decreases k,
{
    if k == 0 || k > plan.len() {
        Seq::empty()
    } else if packable(written_value(objects, plan, k as int)) {
        rows_text(start, objects, plan, (k - 1) as nat) + row_text(
            2,
            plan.len() + 1,
            member_count(objects, plan, (k - 1) as nat),
        )
    } else {
        rows_text(start, objects, plan, (k - 1) as nat) + row_text(
            1,
            (start + standing_text(objects, plan, (k - 1) as nat).len()) as nat,
            0,
        )
    }
}

/// The object stream that holds the members of the plan.
pub open spec fn container_value(objects: StoreModel, plan: Seq<ObjectRef>) -> Value {
    let data = pairs_text(objects, plan, plan.len()) + members_text(objects, plan, plan.len());
    Value::Stream(
        seq![
            (type_key(), Value::Name(object_stream_name_key())),
            (number_key(), Value::Integer(member_count(objects, plan, plan.len()) as int)),
            (first_key(), Value::Integer(pairs_text(objects, plan, plan.len()).len() as int)),
            (length_key(), Value::Integer(length_of(data))),
        ],
        data,
    )
}

/// The trailer as it is written, without what would describe the data
/// of a stream: a filter, its parameters, and an index.
pub open spec fn bare_trailer(
    trailer: Seq<EntryModel>,
    plan: Seq<ObjectRef>,
    fixed_id: bool,
) -> Seq<EntryModel> {
    entries_without_key(
        entries_without_key(
            entries_without_key(trailer_out(trailer, plan, fixed_id), filter_key()),
            decode_parms_key(),
        ),
        index_key(),
    )
}

/// The dictionary of the cross-reference stream: the bare trailer, with
/// the size for the object stream and the cross-reference stream too,
/// the type, the widths of the fields and the length of the data.
pub open spec fn stream_trailer(
    trailer: Seq<EntryModel>,
    plan: Seq<ObjectRef>,
    fixed_id: bool,
) -> Seq<EntryModel> {
    entries_with_key(
        entries_with_key(
            entries_with_key(
                entries_with_key(
                    bare_trailer(trailer, plan, fixed_id),
                    size_key(),
                    Value::Integer(plan.len() as int + 3),
                ),
                type_key(),
                Value::Name(xref_name_key()),
            ),
            widths_key(),
            Value::Array(seq![Value::Integer(1), Value::Integer(5), Value::Integer(3)]),
        ),
        length_key(),
        Value::Integer(9 * (plan.len() as int + 3)),
    )
}

/// The bytes of the packed file: the header; the streams of the plan;
/// the object stream, with the number after the last of the plan; the
/// cross-reference stream, with the number after that; the offset of the
/// cross-reference stream and the end mark. `None` where the version is
/// not the text of one, the document cannot be written, the numbers or
/// the offsets do not suffice, or the object stream is too long.
pub open spec fn packed_file_text(
    version: Seq<char>,
    objects: StoreModel,
    trailer: Seq<EntryModel>,
    preserve: bool,
    fixed_id: bool,
) -> Option<Seq<u8>> {
    let plan = write_plan(objects, trailer, preserve);
    let n = plan.len();
    let head = header_text(version);
    let standing = standing_text(objects, plan, n);
    let container = object_text(n as int + 1, container_value(objects, plan));
    let table_at = head.len() + standing.len() + container.len();
    if !is_version_text(version) || !can_write(objects, trailer, preserve) || n + 2
        > MAX_OBJECT_ID || table_at > 9999999999 || pairs_text(objects, plan, n).len()
        + members_text(objects, plan, n).len() > i64::MAX {
        None
    } else {
        let data = row_text(0, 0, 0) + rows_text(head.len() as int, objects, plan, n) + row_text(
            1,
            head.len() + standing.len(),
            0,
        ) + row_text(1, table_at, 0);
        Some(
            head + standing + container + object_text(
                n as int + 2,
                Value::Stream(stream_trailer(trailer, plan, fixed_id), data),
            ) + startxref_text() + int_text(table_at as int) + eof_text(),
        )
    }
}

/// Adds the number `n` in `width` bytes to `out`.
pub fn push_field(out: &mut Vec<u8>, n: u64, width: usize)
    ensures
        final(out)@ == old(out)@ + field_bytes(n as nat, width as nat),
    decreases width,
{
    if width > 0 {
        push_field(out, n / 256, width - 1);
        out.push((n % 256) as u8);
    }
    assert(out@ =~= old(out)@ + field_bytes(n as nat, width as nat));
}

/// Adds a row to `out`.
pub fn push_row(out: &mut Vec<u8>, kind: u8, second: u64, third: u64)
    ensures
        final(out)@ == old(out)@ + row_text(kind, second as nat, third as nat),
{
    out.push(kind);
    push_field(out, second, 5);
    push_field(out, third, 3);
    assert(out@ =~= old(out)@ + row_text(kind, second as nat, third as nat));
}

/// How an object of the plan is written: held in the object stream at a
/// place among the members, or standing in the file at an offset.
pub struct Placing {
    pub packed: bool,
    pub place: usize,
}

/// Whether the first `k` placings are those of the first `k` objects of
/// the plan, for a file whose first standing object starts at `start`.
pub open spec fn placings_match(
    placings: Seq<Placing>,
    start: int,
    objects: StoreModel,
    plan: Seq<ObjectRef>,
    k: nat,
) -> bool {
    &&& placings.len() >= k
    &&& forall|j: int|
        0 <= j < k ==> (#[trigger] placings[j]).packed == packable(
            written_value(objects, plan, j + 1),
        ) && placings[j].place == if placings[j].packed {
            member_count(objects, plan, j as nat) as int
        } else {
            start + standing_text(objects, plan, j as nat).len()
        }
}

/// Adds the object with the number `number` to `out`.
pub fn push_object(out: &mut Vec<u8>, number: usize, v: &ObjectValue)
    requires
        number <= MAX_OBJECT_ID,
    ensures
        final(out)@ == old(out)@ + object_text(number as int, v@),
{
    push_int(out, number as i64);
    push_all(out, object_open_bytes().as_slice());
    push_value(out, v);
    push_all(out, object_close_bytes().as_slice());
    assert(out@ =~= old(out)@ + object_text(number as int, v@));
}

/// Adds a member with the number `number` to the pairs and the texts of
/// an object stream.
pub fn push_member(pairs: &mut Vec<u8>, members: &mut Vec<u8>, number: usize, v: &ObjectValue)
    requires
        number <= MAX_OBJECT_ID,
        old(members)@.len() <= i64::MAX,
    ensures
        final(pairs)@ == old(pairs)@ + int_text(number as int) + seq![32u8] + int_text(
            old(members)@.len() as int,
        ) + seq![32u8],
        final(members)@ == old(members)@ + v@.text() + seq![10u8],
{
    push_int(pairs, number as i64);
    pairs.push(32);
    push_int(pairs, members.len() as i64);
    pairs.push(32);
    assert(pairs@ =~= old(pairs)@ + int_text(number as int) + seq![32u8] + int_text(
        old(members)@.len() as int,
    ) + seq![32u8]);
    push_value(members, v);
    members.push(10);
    assert(members@ =~= old(members)@ + v@.text() + seq![10u8]);
}

/// What placing the objects of a plan gives.
pub struct Placed {
    pub pairs: Vec<u8>,
    pub members: Vec<u8>,
    pub placings: Vec<Placing>,
    pub count: usize,
}

/// Places the objects of the plan: the streams into `out`, the others
/// into an object stream. `None` where the texts of the members are too
/// long.
pub fn place_objects(
    store: &ObjectStore,
    plan: &Vec<ObjectRef>,
    table: &Vec<usize>,
    out: &mut Vec<u8>,
) -> (r: Option<Placed>)
    requires
        store.wf(),
        plan.len() + 2 <= MAX_OBJECT_ID,
        table_matches(table@, plan@),
    ensures
        r matches Some(p) ==> {
            &&& final(out)@ == old(out)@ + standing_text(store@, plan@, plan@.len())
            &&& p.pairs@ == pairs_text(store@, plan@, plan@.len())
            &&& p.members@ == members_text(store@, plan@, plan@.len())
            &&& p.count == member_count(store@, plan@, plan@.len())
            &&& p.placings@.len() == plan@.len()
            &&& placings_match(p.placings@, old(out)@.len() as int, store@, plan@, plan@.len())
            &&& p.members@.len() <= i64::MAX
        },
        r is None ==> members_text(store@, plan@, plan@.len()).len() > i64::MAX,
{
    let n: usize = plan.len();
    let ghost start = out@.len() as int;
    let ghost head = out@;
    let mut pairs: Vec<u8> = Vec::new();
    let mut members: Vec<u8> = Vec::new();
    let mut placings: Vec<Placing> = Vec::new();
    let mut count: usize = 0;
    let mut k: usize = 0;
    assert(out@ =~= head + standing_text(store@, plan@, 0));
    while k < n
        invariant
            k <= n == plan.len(),
            n + 2 <= MAX_OBJECT_ID,
            store.wf(),
            table_matches(table@, plan@),
            start == head.len(),
            out@ == head + standing_text(store@, plan@, k as nat),
            pairs@ == pairs_text(store@, plan@, k as nat),
            members@ == members_text(store@, plan@, k as nat),
            count == member_count(store@, plan@, k as nat),
            count <= k,
            placings@.len() == k,
            placings_match(placings@, start, store@, plan@, k as nat),
        decreases n - k,
    {
        let held: ObjectValue = store.resolved(plan[k]);
        let v: ObjectValue = prepare(&held, plan, table);
        assert(v@ == written_value(store@, plan@, k + 1));
        let ghost before = placings@;
        if matches!(v, ObjectValue::Stream(_, _)) {
            placings.push(Placing { packed: false, place: out.len() });
            push_object(out, k + 1, &v);
        } else {
            if members.len() as u64 > 9223372036854775807 {
                proof {
                    lemma_members_grow(store@, plan@, k as nat, n as nat);
                }
                return None;
            }
            placings.push(Placing { packed: true, place: count });
            push_member(&mut pairs, &mut members, k + 1, &v);
            count += 1;
        }
        proof {
            assert forall|j: int| 0 <= j < k + 1 implies (#[trigger] placings@[j]).packed
                == packable(written_value(store@, plan@, j + 1)) && placings@[j].place == if placings@[j].packed {
                member_count(store@, plan@, j as nat) as int
            } else {
                start + standing_text(store@, plan@, j as nat).len()
            } by {
                if j < k {
                    assert(placings@[j] == before[j]);
                }
            }
        }
        k += 1;
    }
    if members.len() as u64 > 9223372036854775807 {
        return None;
    }
    Some(Placed { pairs, members, placings, count })
}

/// The rows of the cross-reference stream.
pub(crate) fn make_rows(
    placings: &Vec<Placing>,
    container_at: usize,
    table_at: usize,
    Ghost(start): Ghost<int>,
    Ghost(objects): Ghost<StoreModel>,
    Ghost(plan): Ghost<Seq<ObjectRef>>,
) -> (rows: Vec<u8>)
    requires
        placings@.len() == plan.len(),
        plan.len() + 2 <= MAX_OBJECT_ID,
        placings_match(placings@, start, objects, plan, plan.len()),
    ensures
        rows@ == row_text(0, 0, 0) + rows_text(start, objects, plan, plan.len()) + row_text(
            1,
            container_at as nat,
            0,
        ) + row_text(1, table_at as nat, 0),
{
    let n: usize = placings.len();
    let mut rows: Vec<u8> = Vec::new();
    push_row(&mut rows, 0, 0, 0);
    let mut j: usize = 0;
    assert(rows@ =~= row_text(0, 0, 0) + rows_text(start, objects, plan, 0));
    while j < n
        invariant
            j <= n == plan.len(),
            n + 2 <= MAX_OBJECT_ID,
            placings@.len() == n,
            placings_match(placings@, start, objects, plan, n as nat),
            rows@ == row_text(0, 0, 0) + rows_text(start, objects, plan, j as nat),
        decreases n - j,
    {
        assert(placings@[j as int].packed == packable(written_value(objects, plan, j + 1)));
        if placings[j].packed {
            push_row(&mut rows, 2, (n + 1) as u64, placings[j].place as u64);
        } else {
            push_row(&mut rows, 1, placings[j].place as u64, 0);
        }
        assert(rows@ =~= row_text(0, 0, 0) + rows_text(start, objects, plan, (j + 1) as nat));
        j += 1;
    }
    push_row(&mut rows, 1, container_at as u64, 0);
    push_row(&mut rows, 1, table_at as u64, 0);
    rows
}

/// The object stream for the pairs and the texts of its members.
pub fn make_container(pairs: Vec<u8>, members: Vec<u8>, count: usize) -> (r: ObjectValue)
    requires
        pairs@.len() + members@.len() <= i64::MAX,
        count <= MAX_OBJECT_ID,
    ensures
        r@ == Value::Stream(
            seq![
                (type_key(), Value::Name(object_stream_name_key())),
                (number_key(), Value::Integer(count as int)),
                (first_key(), Value::Integer(pairs@.len() as int)),
                (length_key(), Value::Integer(length_of(pairs@ + members@))),
            ],
            pairs@ + members@,
        ),
{
    let first: usize = pairs.len();
    let mut data: Vec<u8> = pairs;
    let mut members = members;
    let ghost a = data@;
    let ghost b = members@;
    data.append(&mut members);
    assert(data@ =~= a + b);
    let mut entries: Vec<Entry> = Vec::new();
    entries.push((type_key_string(), ObjectValue::Name(object_stream_name_key_string())));
    entries.push((number_key_string(), ObjectValue::Integer(count as i64)));
    entries.push((first_key_string(), ObjectValue::Integer(first as i64)));
    entries.push((length_key_string(), ObjectValue::Integer(data.len() as i64)));
    let container = ObjectValue::Stream(entries, data);
    proof {
        lemma_view_members(container);
        assert(entries_view(entries@) =~= seq![
            (type_key(), Value::Name(object_stream_name_key())),
            (number_key(), Value::Integer(count as int)),
            (first_key(), Value::Integer(a.len() as int)),
            (length_key(), Value::Integer(length_of(a + b))),
        ]);
    }
    container
}

/// The cross-reference stream for the rows.
pub fn make_stream_trailer(
    trailer: &Vec<Entry>,
    plan: &Vec<ObjectRef>,
    table: &Vec<usize>,
    fixed_id: bool,
    rows: Vec<u8>,
) -> (r: ObjectValue)
    requires
        table_matches(table@, plan@),
        plan.len() + 2 <= MAX_OBJECT_ID,
    ensures
        r@ == Value::Stream(stream_trailer(entries_view(trailer@), plan@, fixed_id), rows@),
{
    let n: usize = plan.len();
    let mut dictionary: Vec<Entry> = make_trailer_out(trailer, plan, table, fixed_id);
    remove_entry(&mut dictionary, &filter_key_string());
    remove_entry(&mut dictionary, &decode_parms_key_string());
    remove_entry(&mut dictionary, &index_key_string());
    replace_entry(&mut dictionary, size_key_string(), ObjectValue::Integer((n + 3) as i64));
    replace_entry(&mut dictionary, type_key_string(), ObjectValue::Name(xref_name_key_string()));
    let mut widths: Vec<ObjectValue> = Vec::new();
    widths.push(ObjectValue::Integer(1));
    widths.push(ObjectValue::Integer(5));
    widths.push(ObjectValue::Integer(3));
    let w = ObjectValue::Array(widths);
    proof {
        lemma_view_members(w);
        assert(values_view(widths@) =~= seq![
            Value::Integer(1),
            Value::Integer(5),
            Value::Integer(3),
        ]);
    }
    replace_entry(&mut dictionary, widths_key_string(), w);
    replace_entry(
        &mut dictionary,
        length_key_string(),
        ObjectValue::Integer((9 * (n + 3)) as i64),
    );
    let last = ObjectValue::Stream(dictionary, rows);
    proof {
        lemma_view_members(last);
    }
    last
}

/// The bytes of the packed file.
pub fn write_packed(
    version: &String,
    store: &ObjectStore,
    trailer: &Vec<Entry>,
    preserve: bool,
    fixed_id: bool,
) -> (r: Option<Vec<u8>>)
    requires
        store.wf(),
    ensures
        r matches Some(bytes) ==> packed_file_text(
            version@,
            store@,
            entries_view(trailer@),
            preserve,
            fixed_id,
        ) == Some(bytes@),
        r is None ==> packed_file_text(
            version@,
            store@,
            entries_view(trailer@),
            preserve,
            fixed_id,
        ) is None,
{
    if !check_version_text(version) {
        return None;
    }
    let plan: Vec<ObjectRef> = make_plan(store, trailer, preserve);
    if !check_can_write(store, trailer, &plan) {
        return None;
    }
    if plan.len() + 2 > MAX_OBJECT_ID as usize {
        return None;
    }
    let n: usize = plan.len();
    let table: Vec<usize> = number_table(&plan, store.len());
    let mut out: Vec<u8> = Vec::new();
    push_all(&mut out, header_bytes().as_slice());
    push_all(&mut out, version.as_str().as_bytes());
    out.push(10);
    let ghost head = header_text(version@);
    assert(out@ =~= head);
    let start: usize = out.len();
    let placed: Placed = match place_objects(store, &plan, &table, &mut out) {
        Some(placed) => placed,
        None => {
            return None;
        },
    };
    let Placed { pairs, members, placings, count } = placed;
    if pairs.len() as u64 > 9223372036854775807 - members.len() as u64 {
        return None;
    }
    proof {
        lemma_member_count(store@, plan@, n as nat);
    }
    let container_at: usize = out.len();
    let container: ObjectValue = make_container(pairs, members, count);
    assert(container@ == container_value(store@, plan@));
    push_object(&mut out, n + 1, &container);
    let table_at: usize = out.len();
    if table_at as u64 > 9999999999 {
        return None;
    }
    let rows: Vec<u8> = make_rows(
        &placings,
        container_at,
        table_at,
        Ghost(start as int),
        Ghost(store@),
        Ghost(plan@),
    );
    let last: ObjectValue = make_stream_trailer(trailer, &plan, &table, fixed_id, rows);
    push_object(&mut out, n + 2, &last);
    push_all(&mut out, startxref_line_bytes().as_slice());
    push_int(&mut out, table_at as i64);
    push_all(&mut out, eof_bytes().as_slice());
    Some(out)
}

/// At most `k` of the first `k` objects are members.
pub proof fn lemma_member_count(objects: StoreModel, plan: Seq<ObjectRef>, k: nat)
    ensures
        member_count(objects, plan, k) <= k,
    decreases k,
{
    if k > 0 && k <= plan.len() {
        lemma_member_count(objects, plan, (k - 1) as nat);
    }
}

/// The texts of the members of the first `k` objects are no longer than
/// those of more.
pub proof fn lemma_members_grow(objects: StoreModel, plan: Seq<ObjectRef>, k: nat, n: nat)
    requires
        k <= n <= plan.len(),
    ensures
        members_text(objects, plan, k).len() <= members_text(objects, plan, n).len(),
    decreases n - k,
{
    if k < n {
        lemma_members_grow(objects, plan, k, (n - 1) as nat);
    }
}

} // verus!
