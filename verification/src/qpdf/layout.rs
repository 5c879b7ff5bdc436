//! The layout of a written file: the numbers that the objects get, the
//! values as they are written, and the bytes of the whole file.

use crate::qpdf::document::{header_bytes, header_word};
use crate::qpdf::keys::{
    encrypt_key, encrypt_key_string, id_key, id_key_string, length_key, length_key_string,
    prev_key, prev_key_string,
    root_key, root_key_string, size_key, size_key_string, xref_stream_key,
    xref_stream_key_string,
};
use crate::qpdf::object::value::value_at_key;
use crate::qpdf::reader::MAX_DEPTH;
use crate::qpdf::store::all_held;
use crate::qpdf::syntax::{digits_end, find_digits_end};
use vstd::string::StrSliceExecFns;
use vstd::utf8::encode_utf8;
use crate::qpdf::graph::{find_reached, reached, refs_of, WalkKind};
use crate::qpdf::object::types::ObjectRef;
use crate::qpdf::object::value::{
    entries_view, lemma_view_members, values_view, Entry, EntryModel, ObjectValue, Value,
};
use crate::qpdf::object::{entries_with_key, entries_without_key, remove_entry, replace_entry};
use crate::qpdf::store::{holds, resolve, ObjectStore, StoreModel, MAX_OBJECT_ID};
use crate::qpdf::syntax::{int_text, push_int};
use crate::qpdf::writer::{push_all, push_value};
use vstd::prelude::*;

verus! {

/// The first position in `plan` of a reference with the number `id`, or
/// the length of `plan` where there is none.
pub open spec fn first_with_id(plan: Seq<ObjectRef>, id: int) -> int
    decreases plan.len(),
{
    if plan.len() == 0 {
        0
    } else {
        let k = first_with_id(plan.drop_last(), id);
        if k < plan.len() - 1 {
            k
        } else if plan.last().id == id {
            plan.len() - 1
        } else {
            plan.len() as int
        }
    }
}

pub proof fn lemma_first_with_id(plan: Seq<ObjectRef>, id: int)
    ensures
        0 <= first_with_id(plan, id) <= plan.len(),
        first_with_id(plan, id) < plan.len() ==> plan[first_with_id(plan, id)].id == id,
        forall|i: int| 0 <= i < first_with_id(plan, id) ==> (#[trigger] plan[i]).id != id,
    decreases plan.len(),
{
    if plan.len() > 0 {
        lemma_first_with_id(plan.drop_last(), id);
        let k = first_with_id(plan.drop_last(), id);
        assert forall|i: int| 0 <= i < first_with_id(plan, id) implies (#[trigger] plan[i]).id
            != id by {
            if i < plan.len() - 1 {
                assert(plan[i] == plan.drop_last()[i]);
            }
        }
        if k < plan.len() - 1 {
            assert(plan[k] == plan.drop_last()[k]);
        }
    }
}

/// The number under which `r` is written: its place in `plan`, counted
/// from 1, where the first reference in `plan` with its number is `r`
/// itself; 0 where `plan` does not hold it.
pub open spec fn number_in(plan: Seq<ObjectRef>, r: ObjectRef) -> int {
    let k = first_with_id(plan, r.id as int);
    if k < plan.len() && plan[k] == r {
        k + 1
    } else {
        0
    }
}

/// The value with every reference given its new number and generation 0;
/// a reference that `plan` does not hold becomes null.
pub open spec fn renumbered(v: Value, plan: Seq<ObjectRef>) -> Value
    decreases v, 0nat,
{
    match v {
        Value::Array(items) => Value::Array(renumbered_items(items, plan, items.len())),
        Value::Dictionary(entries) => Value::Dictionary(
            renumbered_entries(entries, plan, entries.len()),
        ),
        Value::Stream(entries, data) => Value::Stream(
            renumbered_entries(entries, plan, entries.len()),
            data,
        ),
        Value::Indirect(r) => if number_in(plan, r) > 0 {
            Value::Indirect(ObjectRef { id: number_in(plan, r) as i32, generation: 0 })
        } else {
            Value::Null
        },
        _ => v,
    }
}

/// The first `n` items, renumbered.
pub open spec fn renumbered_items(items: Seq<Value>, plan: Seq<ObjectRef>, n: nat) -> Seq<Value>
    decreases items, n,
{
    if n == 0 || n > items.len() {
        Seq::empty()
    } else {
        renumbered_items(items, plan, (n - 1) as nat).push(renumbered(items[n - 1], plan))
    }
}

/// The first `n` entries, their values renumbered.
pub open spec fn renumbered_entries(entries: Seq<EntryModel>, plan: Seq<ObjectRef>, n: nat) -> Seq<
    EntryModel,
>
    decreases entries, n,
{
    if n == 0 || n > entries.len() {
        Seq::empty()
    } else {
        renumbered_entries(entries, plan, (n - 1) as nat).push(
            (entries[n - 1].0, renumbered(entries[n - 1].1, plan)),
        )
    }
}

/// The value as it is written: renumbered, and `/Length` of a stream set
/// to the length of its data.
pub open spec fn prepared(v: Value, plan: Seq<ObjectRef>) -> Value {
    match renumbered(v, plan) {
        Value::Stream(entries, data) => Value::Stream(
            entries_with_key(entries, length_key(), Value::Integer(length_of(data))),
            data,
        ),
        other => other,
    }
}

/// The length of the data of a stream as `/Length` gives it: the number
/// of its bytes, which is at most `i64::MAX`.
pub open spec fn length_of(data: Seq<u8>) -> int {
    if data.len() <= i64::MAX {
        data.len() as int
    } else {
        i64::MAX as int
    }
}

/// For each object number up to the length of the table, the place that
/// `plan` gives it, counted from 1, or 0.
pub open spec fn table_matches(table: Seq<usize>, plan: Seq<ObjectRef>) -> bool {
    forall|id: int|
        0 < id <= table.len() ==> (#[trigger] table[id - 1]) as int == if first_with_id(plan, id)
            < plan.len() {
            first_with_id(plan, id) + 1
        } else {
            0
        }
}

/// The table of new numbers for the object numbers up to `span`.
pub fn number_table(plan: &Vec<ObjectRef>, span: usize) -> (table: Vec<usize>)
    requires
        plan.len() < usize::MAX,
    ensures
        table@.len() == span,
        table_matches(table@, plan@),
{
    let mut table: Vec<usize> = Vec::new();
    let mut i: usize = 0;
    while i < span
        invariant
            i <= span,
            table@.len() == i,
            forall|j: int| 0 <= j < i ==> table@[j] == 0,
        decreases span - i,
    {
        table.push(0);
        i += 1;
    }
    let mut k: usize = 0;
    assert(plan@.subrange(0, 0) =~= Seq::<ObjectRef>::empty());
    while k < plan.len()
        invariant
            k <= plan.len() < usize::MAX,
            table@.len() == span,
            table_matches(table@, plan@.subrange(0, k as int)),
        decreases plan.len() - k,
    {
        let id: i32 = plan[k].id;
        let ghost before = plan@.subrange(0, k as int);
        let ghost after = plan@.subrange(0, k + 1);
        proof {
            assert(after.drop_last() =~= before);
            assert(after.last() == plan@[k as int]);
            assert forall|other: int| 0 < other <= span implies first_with_id(after, other) == (
            if first_with_id(before, other) < k {
                first_with_id(before, other)
            } else if other == id {
                k as int
            } else {
                k + 1
            }) by {
                lemma_first_with_id(before, other);
            }
        }
        if id > 0 && (id as usize) <= span {
            if table[(id - 1) as usize] == 0 {
                proof {
                    lemma_first_with_id(before, id as int);
                }
                table.set((id - 1) as usize, k + 1);
            }
        }
        k += 1;
    }
    assert(plan@.subrange(0, k as int) =~= plan@);
    table
}

/// The number under which `r` is written.
pub fn new_number(plan: &Vec<ObjectRef>, table: &Vec<usize>, r: ObjectRef) -> (n: usize)
    requires
        table_matches(table@, plan@),
    ensures
        n as int == number_in(plan@, r),
        n <= plan.len(),
{
    proof {
        lemma_first_with_id(plan@, r.id as int);
    }
    if r.id > 0 && (r.id as usize) <= table.len() {
        let k: usize = table[(r.id - 1) as usize];
        if k > 0 && k <= plan.len() && plan[k - 1].generation == r.generation {
            k
        } else {
            0
        }
    } else {
        let mut i: usize = 0;
        while i < plan.len()
            invariant
                i <= plan.len(),
                forall|j: int| 0 <= j < i ==> (#[trigger] plan@[j]).id != r.id,
            decreases plan.len() - i,
        {
            if plan[i].id == r.id {
                proof {
                    lemma_first_with_id(plan@, r.id as int);
                }
                if plan[i].generation == r.generation {
                    return i + 1;
                }
                return 0;
            }
            i += 1;
        }
        proof {
            lemma_first_with_id(plan@, r.id as int);
        }
        0
    }
}

/// The entries with their values renumbered.
pub fn renumber_entries(entries: &Vec<Entry>, plan: &Vec<ObjectRef>, table: &Vec<usize>) -> (out:
    Vec<Entry>)
    requires
        table_matches(table@, plan@),
        plan.len() <= MAX_OBJECT_ID,
    ensures
        entries_view(out@) == renumbered_entries(
            entries_view(entries@),
            plan@,
            entries_view(entries@).len(),
        ),
    decreases entries,
{
    let ghost model = entries_view(entries@);
    let mut out: Vec<Entry> = Vec::new();
    let mut i: usize = 0;
    assert(entries_view(out@) =~= renumbered_entries(model, plan@, 0));
    while i < entries.len()
        invariant
            i <= entries.len(),
            model == entries_view(entries@),
            table_matches(table@, plan@),
            plan.len() <= MAX_OBJECT_ID,
            entries_view(out@) == renumbered_entries(model, plan@, i as nat),
        decreases entries.len() - i,
    {
        let ghost before = out@;
        let e: &Entry = &entries[i];
        let v: ObjectValue = renumber(&e.1, plan, table);
        out.push((e.0.clone(), v));
        assert(entries_view(out@) =~= renumbered_entries(model, plan@, (i + 1) as nat)) by {
            assert(model[i as int] == (e.0@, e.1@));
            assert(entries_view(out@) =~= entries_view(before).push((e.0@, v@)));
        }
        i += 1;
    }
    out
}

/// The value with its references renumbered.
#[verifier::loop_isolation(false)]
pub fn renumber(v: &ObjectValue, plan: &Vec<ObjectRef>, table: &Vec<usize>) -> (r: ObjectValue)
    requires
        table_matches(table@, plan@),
        plan.len() <= MAX_OBJECT_ID,
    ensures
        r@ == renumbered(v@, plan@),
    decreases v,
{
    proof {
        lemma_view_members(*v);
    }
    let r = match v {
        ObjectValue::Array(items) => {
            let ghost model = values_view(items@);
            let mut out: Vec<ObjectValue> = Vec::new();
            let mut i: usize = 0;
            assert(values_view(out@) =~= renumbered_items(model, plan@, 0));
            while i < items.len()
                invariant
                    i <= items.len(),
                    values_view(out@) == renumbered_items(model, plan@, i as nat),
                decreases items.len() - i,
            {
                let ghost before = out@;
                let item: ObjectValue = renumber(&items[i], plan, table);
                out.push(item);
                assert(values_view(out@) =~= renumbered_items(model, plan@, (i + 1) as nat)) by {
                    assert(model[i as int] == items@[i as int]@);
                    assert(values_view(out@) =~= values_view(before).push(item@));
                }
                i += 1;
            }
            ObjectValue::Array(out)
        },
        ObjectValue::Dictionary(entries) => ObjectValue::Dictionary(
            renumber_entries(entries, plan, table),
        ),
        ObjectValue::Stream(entries, data) => ObjectValue::Stream(
            renumber_entries(entries, plan, table),
            data.clone(),
        ),
        ObjectValue::Indirect(reference) => {
            let n: usize = new_number(plan, table, *reference);
            if n > 0 {
                ObjectValue::Indirect(ObjectRef { id: n as i32, generation: 0 })
            } else {
                ObjectValue::Null
            }
        },
        other => other.duplicate(),
    };
    proof {
        lemma_view_members(r);
    }
    r
}

/// The value as it is written.
pub fn prepare(v: &ObjectValue, plan: &Vec<ObjectRef>, table: &Vec<usize>) -> (r: ObjectValue)
    requires
        table_matches(table@, plan@),
        plan.len() <= MAX_OBJECT_ID,
    ensures
        r@ == prepared(v@, plan@),
{
    let renumbered: ObjectValue = renumber(v, plan, table);
    proof {
        lemma_view_members(renumbered);
    }
    match renumbered {
        ObjectValue::Stream(entries, data) => {
            let mut entries = entries;
            let n: usize = data.len();
            let length: i64 = if n as u64 <= 9223372036854775807 {
                n as i64
            } else {
                9223372036854775807
            };
            replace_entry(&mut entries, length_key_string(), ObjectValue::Integer(length));
            let r = ObjectValue::Stream(entries, data);
            proof {
                lemma_view_members(r);
            }
            r
        },
        other => other,
    }
}

/// Whether `b` is the text of a real number: an optional sign, then
/// digits with one point among them, at least one digit in all.
pub open spec fn is_real_text(b: Seq<u8>) -> bool {
    let start: int = if b.len() > 0 && (b[0] == 43 || b[0] == 45) {
        1
    } else {
        0
    };
    let d1 = digits_end(b, start, b.len() as int);
    &&& start <= d1 < b.len()
    &&& b[d1] == 46
    &&& digits_end(b, d1 + 1, b.len() as int) == b.len()
    &&& (d1 > start || b.len() > d1 + 1)
}

/// Whether `name` can be written as a name: it starts with a slash.
pub open spec fn is_name_text(name: Seq<char>) -> bool {
    encode_utf8(name).len() >= 1 && encode_utf8(name)[0] == 47
}

/// Whether `r` can be written as a reference and read back: its number
/// is one that an object can have, its generation at most 65535.
pub open spec fn is_reference_text(r: ObjectRef) -> bool {
    0 < r.id <= MAX_OBJECT_ID && 0 <= r.generation <= 65535
}

/// Whether `v` can be written as a member and read back nested at most
/// `depth` deep: every name starts with a slash, every real number is
/// the text of one, every integer fits 64 bits, every reference can be
/// written, and it holds neither a stream nor an operator.
pub open spec fn writable(v: Value, depth: nat) -> bool
    decreases v,
{
    match v {
        Value::Real(s) => depth > 0 && is_real_text(encode_utf8(s)),
        Value::Name(n) => depth > 0 && is_name_text(n),
        Value::Array(items) => depth > 0 && (forall|i: int|
            #![trigger items[i]]
            0 <= i < items.len() ==> writable(items[i], (depth - 1) as nat)),
        Value::Dictionary(entries) => depth > 0 && forall|i: int|
            0 <= i < entries.len() ==> is_name_text((#[trigger] entries[i]).0) && writable(
                entries[i].1,
                (depth - 1) as nat,
            ),
        Value::Stream(_, _) => false,
        Value::Operator(_) => false,
        Value::Integer(i) => depth > 0 && i64::MIN <= i <= i64::MAX,
        Value::Indirect(r) => depth > 0 && is_reference_text(r),
        _ => depth > 0,
    }
}

/// Whether `v` can be written as an indirect object: a stream whose
/// dictionary can be written and whose length fits 64 bits, or any value
/// that can be written as a member.
pub open spec fn writable_object(v: Value) -> bool {
    match v {
        Value::Stream(entries, data) => data.len() <= i64::MAX && writable(
            Value::Dictionary(entries),
            MAX_DEPTH as nat,
        ),
        _ => writable(v, MAX_DEPTH as nat),
    }
}

/// Whether the first `k` objects of `plan` can be written.
pub open spec fn plan_writable(objects: StoreModel, plan: Seq<ObjectRef>, k: nat) -> bool {
    forall|i: int| 0 <= i < k && i < plan.len() ==> writable_object(resolve(objects, #[trigger] plan[i]))
}

pub fn check_real_text(b: &Vec<u8>) -> (r: bool)
    ensures
        r == is_real_text(b@),
{
    let start: usize = if b.len() > 0 && (b[0] == 43 || b[0] == 45) {
        1
    } else {
        0
    };
    let d1: usize = find_digits_end(b, start, b.len());
    if !(d1 < b.len() && b[d1] == 46) {
        return false;
    }
    let d2: usize = find_digits_end(b, d1 + 1, b.len());
    d2 == b.len() && (d1 > start || b.len() > d1 + 1)
}

pub fn check_name_text(name: &String) -> (r: bool)
    ensures
        r == is_name_text(name@),
{
    let bytes: &[u8] = name.as_str().as_bytes();
    bytes.len() >= 1 && bytes[0] == 47
}

/// Whether the entries can be written as those of a dictionary whose
/// members may be nested `depth` deep.
pub fn check_entries_writable(entries: &Vec<Entry>, depth: usize) -> (r: bool)
    ensures
        r == (forall|i: int|
            0 <= i < entries_view(entries@).len() ==> is_name_text(
                (#[trigger] entries_view(entries@)[i]).0,
            ) && writable(entries_view(entries@)[i].1, depth as nat)),
    decreases entries,
{
    let ghost model = entries_view(entries@);
    let mut i: usize = 0;
    while i < entries.len()
        invariant
            i <= entries.len(),
            model == entries_view(entries@),
            forall|j: int|
                0 <= j < i ==> is_name_text((#[trigger] model[j]).0) && writable(
                    model[j].1,
                    depth as nat,
                ),
        decreases entries.len() - i,
    {
        let e: &Entry = &entries[i];
        assert(model[i as int] == (e.0@, e.1@));
        if !(check_name_text(&e.0) && check_writable(&e.1, depth)) {
            return false;
        }
        i += 1;
    }
    true
}

/// Whether `v` can be written as a member.
#[verifier::loop_isolation(false)]
pub fn check_writable(v: &ObjectValue, depth: usize) -> (r: bool)
    ensures
        r == writable(v@, depth as nat),
    decreases v,
{
    proof {
        lemma_view_members(*v);
    }
    if depth == 0 {
        return false;
    }
    match v {
        ObjectValue::Real(s) => {
            let bytes: Vec<u8> = s.as_str().as_bytes_vec();
            check_real_text(&bytes)
        },
        ObjectValue::Name(n) => check_name_text(n),
        ObjectValue::Array(items) => {
            let ghost model = values_view(items@);
            let mut i: usize = 0;
            while i < items.len()
                invariant
                    i <= items.len(),
                    forall|j: int|
                        0 <= j < i ==> writable(#[trigger] model[j], (depth - 1) as nat),
                decreases items.len() - i,
            {
                assert(model[i as int] == items@[i as int]@);
                if !check_writable(&items[i], depth - 1) {
                    assert(v@->Array_0[i as int] == model[i as int]);
                    return false;
                }
                i += 1;
            }
            assert(v@->Array_0 == model);
            true
        },
        ObjectValue::Dictionary(entries) => {
            let r = check_entries_writable(entries, depth - 1);
            proof {
                let model = entries_view(entries@);
                if !r {
                    let i = choose|i: int|
                        0 <= i < model.len() && !(is_name_text((#[trigger] model[i]).0)
                            && writable(model[i].1, (depth - 1) as nat));
                    assert(v@->Dictionary_0[i] == model[i]);
                } else {
                    assert(v@->Dictionary_0 == model);
                }
            }
            r
        },
        ObjectValue::Stream(_, _) => false,
        ObjectValue::Operator(_) => false,
        ObjectValue::Indirect(r) => 0 < r.id && r.id <= MAX_OBJECT_ID && 0 <= r.generation
            && r.generation <= 65535,
        _ => true,
    }
}

/// Whether `v` can be written as an indirect object.
pub fn check_writable_object(v: &ObjectValue) -> (r: bool)
    ensures
        r == writable_object(v@),
{
    proof {
        lemma_view_members(*v);
    }
    match v {
        ObjectValue::Stream(entries, data) => {
            if data.len() as u64 > 9223372036854775807 {
                return false;
            }
            let r = check_entries_writable(entries, MAX_DEPTH - 1);
            proof {
                let model = entries_view(entries@);
                if !r {
                    let i = choose|i: int|
                        0 <= i < model.len() && !(is_name_text((#[trigger] model[i]).0)
                            && writable(model[i].1, (MAX_DEPTH - 1) as nat));
                    assert(Value::Dictionary(model)->Dictionary_0[i] == model[i]);
                } else {
                    assert(Value::Dictionary(model)->Dictionary_0 == model);
                }
            }
            r
        },
        _ => check_writable(v, MAX_DEPTH),
    }
}

/// `n` in `width` decimal digits, with leading zeros; of a larger `n` the
/// last `width` digits.
pub open spec fn padded(n: nat, width: nat) -> Seq<u8>
    decreases width,
{
    if width == 0 {
        Seq::empty()
    } else {
        padded(n / 10, (width - 1) as nat).push((48 + n % 10) as u8)
    }
}

pub fn push_padded(out: &mut Vec<u8>, n: u64, width: usize)
    ensures
        final(out)@ == old(out)@ + padded(n as nat, width as nat),
    decreases width,
{
    if width > 0 {
        push_padded(out, n / 10, width - 1);
        out.push(48 + (n % 10) as u8);
    }
    assert(out@ =~= old(out)@ + padded(n as nat, width as nat));
}

/// A space, `0`, a space, `obj` and a line feed.
pub open spec fn object_open_text() -> Seq<u8> {
    seq![32u8, 48, 32, 111, 98, 106, 10]
}

/// A line feed, `endobj` and a line feed.
pub open spec fn object_close_text() -> Seq<u8> {
    seq![10u8, 101, 110, 100, 111, 98, 106, 10]
}

/// The text of the object with the number `number`.
pub open spec fn object_text(number: int, v: Value) -> Seq<u8> {
    int_text(number) + object_open_text() + v.text() + object_close_text()
}

/// The text of the first `k` objects of `plan`, each as it is written.
pub open spec fn body_text(objects: StoreModel, plan: Seq<ObjectRef>, k: nat) -> Seq<u8>
    decreases k,
{
    if k == 0 || k > plan.len() {
        Seq::empty()
    } else {
        body_text(objects, plan, (k - 1) as nat) + object_text(
            k as int,
            prepared(resolve(objects, plan[k - 1]), plan),
        )
    }
}

/// The header: `%PDF-`, the version and a line feed.
pub open spec fn header_text(version: Seq<char>) -> Seq<u8> {
    header_word() + encode_utf8(version) + seq![10u8]
}

/// The end of a line of the cross-reference table for an object in use:
/// generation 0 and `n`.
pub open spec fn xref_line_end() -> Seq<u8> {
    seq![32u8, 48, 48, 48, 48, 48, 32, 110, 32, 10]
}

/// The lines of the cross-reference table for the first `k` objects; the
/// first object starts at `start`.
pub open spec fn xref_lines(start: int, objects: StoreModel, plan: Seq<ObjectRef>, k: nat) -> Seq<
    u8,
>
    decreases k,
{
    if k == 0 || k > plan.len() {
        Seq::empty()
    } else {
        xref_lines(start, objects, plan, (k - 1) as nat) + padded(
            (start + body_text(objects, plan, (k - 1) as nat).len()) as nat,
            10,
        ) + xref_line_end()
    }
}

/// `xref`, a line feed, `0 `, the number of lines, a line feed, and the
/// line of the free number 0.
pub open spec fn xref_head(count: int) -> Seq<u8> {
    seq![120u8, 114, 101, 102, 10, 48, 32] + int_text(count + 1) + seq![
        10u8,
        48,
        48,
        48,
        48,
        48,
        48,
        48,
        48,
        48,
        48,
        32,
        54,
        53,
        53,
        51,
        53,
        32,
        102,
        32,
        10,
    ]
}

/// The sixteen bytes of the fixed file identifier.
pub open spec fn static_id() -> Seq<u8> {
    seq![
        0x31u8,
        0x41,
        0x59,
        0x26,
        0x53,
        0x58,
        0x97,
        0x93,
        0x23,
        0x84,
        0x62,
        0x64,
        0x33,
        0x83,
        0x27,
        0x95,
    ]
}

/// The trailer as it is written: renumbered; without `/Prev`, `/XRefStm`
/// and `/Encrypt`; with `/Size` one more than the number of objects; and,
/// where `fixed_id` is set, with the fixed identifier twice under `/ID`.
pub open spec fn trailer_out(
    trailer: Seq<EntryModel>,
    plan: Seq<ObjectRef>,
    fixed_id: bool,
) -> Seq<EntryModel> {
    let kept = entries_without_key(
        entries_without_key(
            entries_without_key(renumbered_entries(trailer, plan, trailer.len()), prev_key()),
            xref_stream_key(),
        ),
        encrypt_key(),
    );
    let sized = entries_with_key(kept, size_key(), Value::Integer(plan.len() as int + 1));
    if fixed_id {
        entries_with_key(
            sized,
            id_key(),
            Value::Array(seq![Value::String(static_id()), Value::String(static_id())]),
        )
    } else {
        sized
    }
}

/// `trailer` and a line feed.
pub open spec fn trailer_open_text() -> Seq<u8> {
    seq![116u8, 114, 97, 105, 108, 101, 114, 10]
}

/// A line feed, `startxref` and a line feed.
pub open spec fn startxref_text() -> Seq<u8> {
    seq![10u8, 115, 116, 97, 114, 116, 120, 114, 101, 102, 10]
}

/// A line feed, `%%EOF` and a line feed.
pub open spec fn eof_text() -> Seq<u8> {
    seq![10u8, 37, 37, 69, 79, 70, 10]
}

/// The objects that are written, in the order of their new numbers: what
/// the trailer reaches and, where `preserve` is set, every other object
/// held, in the order of their numbers.
pub open spec fn write_plan(objects: StoreModel, trailer: Seq<EntryModel>, preserve: bool) -> Seq<
    ObjectRef,
> {
    reached(
        objects,
        WalkKind::References,
        refs_of(Value::Dictionary(trailer)) + if preserve {
            all_held(objects, objects.len())
        } else {
            Seq::empty()
        },
    )
}

/// Whether the root that the trailer names is written, and is a
/// dictionary.
pub open spec fn root_written(
    objects: StoreModel,
    trailer: Seq<EntryModel>,
    plan: Seq<ObjectRef>,
) -> bool {
    value_at_key(trailer, root_key()) matches Value::Indirect(r) && number_in(plan, r) > 0
        && resolve(objects, r) is Dictionary
}

/// Whether `version` is the text of a version: digits, a point and
/// digits.
pub open spec fn is_version_text(version: Seq<char>) -> bool {
    let t = encode_utf8(version);
    let d1 = digits_end(t, 0, t.len() as int);
    0 < d1 < t.len() && t[d1] == 46 && d1 + 1 < t.len() && digits_end(
        t,
        d1 + 1,
        t.len() as int,
    ) == t.len()
}

/// Whether the document can be written: there are no more objects than
/// numbers; the trailer and every object that is written can be written;
/// and the root that the trailer names is written as a dictionary.
pub open spec fn can_write(objects: StoreModel, trailer: Seq<EntryModel>, preserve: bool) -> bool {
    let plan = write_plan(objects, trailer, preserve);
    &&& plan.len() <= MAX_OBJECT_ID
    &&& writable(Value::Dictionary(trailer), MAX_DEPTH as nat)
    &&& plan_writable(objects, plan, plan.len())
    &&& root_written(objects, trailer, plan)
}

/// The bytes of the file: header, objects, cross-reference table, trailer,
/// the offset of the table and the end mark. `None` where the version is
/// not the text of one, the document cannot be written, or the table
/// would start beyond the largest offset that a line of it can hold.
pub open spec fn file_text(
    version: Seq<char>,
    objects: StoreModel,
    trailer: Seq<EntryModel>,
    preserve: bool,
    fixed_id: bool,
) -> Option<Seq<u8>> {
    let plan = write_plan(objects, trailer, preserve);
    let head = header_text(version);
    let body = body_text(objects, plan, plan.len());
    if !is_version_text(version) || !can_write(objects, trailer, preserve) || head.len()
        + body.len() > 9999999999 {
        None
    } else {
        Some(
            head + body + xref_head(plan.len() as int) + xref_lines(
                head.len() as int,
                objects,
                plan,
                plan.len(),
            ) + trailer_open_text() + Value::Dictionary(trailer_out(trailer, plan, fixed_id)).text()
                + startxref_text() + int_text((head.len() + body.len()) as int) + eof_text(),
        )
    }
}

/// The bytes of the fixed file identifier.
pub fn static_id_bytes() -> (r: Vec<u8>)
    ensures
        r@ == static_id(),
{
    let r: Vec<u8> = vec![
        0x31,
        0x41,
        0x59,
        0x26,
        0x53,
        0x58,
        0x97,
        0x93,
        0x23,
        0x84,
        0x62,
        0x64,
        0x33,
        0x83,
        0x27,
        0x95,
    ];
    assert(r@ =~= static_id());
    r
}

/// The trailer as it is written.
pub fn make_trailer_out(
    trailer: &Vec<Entry>,
    plan: &Vec<ObjectRef>,
    table: &Vec<usize>,
    fixed_id: bool,
) -> (r: Vec<Entry>)
    requires
        table_matches(table@, plan@),
        plan.len() <= MAX_OBJECT_ID,
    ensures
        entries_view(r@) == trailer_out(entries_view(trailer@), plan@, fixed_id),
{
    let mut out: Vec<Entry> = renumber_entries(trailer, plan, table);
    remove_entry(&mut out, &prev_key_string());
    remove_entry(&mut out, &xref_stream_key_string());
    remove_entry(&mut out, &encrypt_key_string());
    replace_entry(&mut out, size_key_string(), ObjectValue::Integer((plan.len() + 1) as i64));
    if fixed_id {
        let mut pair: Vec<ObjectValue> = Vec::new();
        pair.push(ObjectValue::String(static_id_bytes()));
        pair.push(ObjectValue::String(static_id_bytes()));
        let id = ObjectValue::Array(pair);
        proof {
            lemma_view_members(id);
            assert(values_view(pair@) =~= seq![
                Value::String(static_id()),
                Value::String(static_id()),
            ]);
        }
        replace_entry(&mut out, id_key_string(), id);
    }
    out
}

/// The objects that are written, in the order of their new numbers.
pub fn make_plan(store: &ObjectStore, trailer: &Vec<Entry>, preserve: bool) -> (plan: Vec<
    ObjectRef,
>)
    requires
        store.wf(),
    ensures
        plan@ == write_plan(store@, entries_view(trailer@), preserve),
{
    let mut roots: Vec<ObjectRef> = Vec::new();
    crate::qpdf::graph::collect_entry_refs(trailer, &mut roots);
    assert(roots@ =~= refs_of(Value::Dictionary(entries_view(trailer@))));
    if preserve {
        let mut held: Vec<ObjectRef> = store.held_refs();
        let ghost before = roots@;
        roots.append(&mut held);
        assert(roots@ =~= before + all_held(store@, store@.len()));
    } else {
        assert(roots@ =~= refs_of(Value::Dictionary(entries_view(trailer@))) + Seq::<
            ObjectRef,
        >::empty());
    }
    find_reached(store, WalkKind::References, &roots)
}

/// Whether `version` is the text of a version.
pub fn check_version_text(version: &String) -> (r: bool)
    ensures
        r == is_version_text(version@),
{
    let t: Vec<u8> = version.as_str().as_bytes_vec();
    let d1: usize = find_digits_end(&t, 0, t.len());
    if !(0 < d1 && d1 < t.len() && t[d1] == 46 && d1 + 1 < t.len()) {
        return false;
    }
    find_digits_end(&t, d1 + 1, t.len()) == t.len()
}

/// Whether the root that the trailer names is written as a dictionary.
pub fn check_root_written(store: &ObjectStore, trailer: &Vec<Entry>, plan: &Vec<ObjectRef>) -> (r:
    bool)
    requires
        plan.len() < usize::MAX,
    ensures
        r == root_written(store@, entries_view(trailer@), plan@),
{
    let at: usize = crate::qpdf::object::find_key(trailer, &root_key_string());
    if at >= trailer.len() {
        return false;
    }
    match &trailer[at].1 {
        ObjectValue::Indirect(root) => {
            let table: Vec<usize> = number_table(plan, store.len());
            if new_number(plan, &table, *root) == 0 {
                return false;
            }
            match store.peek(*root) {
                Some(v) => matches!(v, ObjectValue::Dictionary(_)),
                None => false,
            }
        },
        _ => false,
    }
}

/// Whether the document with the plan `plan` can be written.
pub fn check_can_write(store: &ObjectStore, trailer: &Vec<Entry>, plan: &Vec<ObjectRef>) -> (r:
    bool)
    ensures
        r == {
            &&& plan@.len() <= MAX_OBJECT_ID
            &&& writable(Value::Dictionary(entries_view(trailer@)), MAX_DEPTH as nat)
            &&& plan_writable(store@, plan@, plan@.len())
            &&& root_written(store@, entries_view(trailer@), plan@)
        },
{
    if plan.len() > MAX_OBJECT_ID as usize {
        return false;
    }
    if !check_root_written(store, trailer, plan) {
        return false;
    }
    let ok: bool = check_entries_writable(trailer, MAX_DEPTH - 1);
    proof {
        let model = entries_view(trailer@);
        if !ok {
            let i = choose|i: int|
                0 <= i < model.len() && !(is_name_text((#[trigger] model[i]).0) && writable(
                    model[i].1,
                    (MAX_DEPTH - 1) as nat,
                ));
            assert(Value::Dictionary(model)->Dictionary_0[i] == model[i]);
        } else {
            assert(Value::Dictionary(model)->Dictionary_0 == model);
        }
    }
    if !ok {
        return false;
    }
    let mut k: usize = 0;
    while k < plan.len()
        invariant
            k <= plan.len(),
            plan_writable(store@, plan@, k as nat),
        decreases plan.len() - k,
    {
        match store.peek(plan[k]) {
            Some(v) => {
                if !check_writable_object(v) {
                    assert(!writable_object(resolve(store@, plan@[k as int])));
                    return false;
                }
            },
            None => {},
        }
        k += 1;
    }
    true
}

/// The bytes of the file.
pub fn write_file(
    version: &String,
    store: &ObjectStore,
    trailer: &Vec<Entry>,
    preserve: bool,
    fixed_id: bool,
) -> (r: Option<Vec<u8>>)
    requires
        store.wf(),
    ensures
        r matches Some(bytes) ==> file_text(
            version@,
            store@,
            entries_view(trailer@),
            preserve,
            fixed_id,
        ) == Some(bytes@),
        r is None ==> file_text(version@, store@, entries_view(trailer@), preserve, fixed_id)
            is None,
{
    if !check_version_text(version) {
        return None;
    }
    let plan: Vec<ObjectRef> = make_plan(store, trailer, preserve);
    if !check_can_write(store, trailer, &plan) {
        return None;
    }
    let table: Vec<usize> = number_table(&plan, store.len());
    let mut out: Vec<u8> = Vec::new();
    push_all(&mut out, header_bytes().as_slice());
    push_all(&mut out, version.as_str().as_bytes());
    out.push(10);
    assert(out@ =~= header_text(version@));
    let start: usize = out.len();
    let mut offsets: Vec<usize> = Vec::new();
    let mut k: usize = 0;
    assert(out@ =~= header_text(version@) + body_text(store@, plan@, 0));
    while k < plan.len()
        invariant
            k <= plan.len() <= MAX_OBJECT_ID,
            table_matches(table@, plan@),
            start == header_text(version@).len(),
            out@ == header_text(version@) + body_text(store@, plan@, k as nat),
            offsets@.len() == k,
            forall|j: int|
                0 <= j < k ==> (#[trigger] offsets@[j]) == start + body_text(
                    store@,
                    plan@,
                    j as nat,
                ).len(),
        decreases plan.len() - k,
    {
        offsets.push(out.len());
        let ghost before = out@;
        let held: ObjectValue = store.resolved(plan[k]);
        let v: ObjectValue = prepare(&held, &plan, &table);
        push_int(&mut out, (k + 1) as i64);
        push_all(&mut out, object_open_bytes().as_slice());
        push_value(&mut out, &v);
        push_all(&mut out, object_close_bytes().as_slice());
        assert(out@ =~= before + object_text(k + 1, v@));
        k += 1;
    }
    let table_at: usize = out.len();
    if table_at as u64 > 9999999999 {
        return None;
    }
    let ghost body = body_text(store@, plan@, plan@.len());
    let ghost head = header_text(version@);
    push_all(&mut out, xref_head_open_bytes().as_slice());
    push_int(&mut out, (plan.len() + 1) as i64);
    push_all(&mut out, xref_head_close_bytes().as_slice());
    assert(out@ =~= head + body + xref_head(plan@.len() as int));
    let mut j: usize = 0;
    assert(out@ =~= head + body + xref_head(plan@.len() as int) + xref_lines(
        start as int,
        store@,
        plan@,
        0,
    ));
    while j < plan.len()
        invariant
            j <= plan.len(),
            offsets@.len() == plan.len(),
            forall|i: int|
                0 <= i < plan.len() ==> (#[trigger] offsets@[i]) == start + body_text(
                    store@,
                    plan@,
                    i as nat,
                ).len(),
            out@ == head + body + xref_head(plan@.len() as int) + xref_lines(
                start as int,
                store@,
                plan@,
                j as nat,
            ),
        decreases plan.len() - j,
    {
        let ghost before = out@;
        push_padded(&mut out, offsets[j] as u64, 10);
        push_all(&mut out, xref_line_end_bytes().as_slice());
        assert(out@ =~= head + body + xref_head(plan@.len() as int) + xref_lines(
            start as int,
            store@,
            plan@,
            (j + 1) as nat,
        ));
        j += 1;
    }
    let last = ObjectValue::Dictionary(make_trailer_out(trailer, &plan, &table, fixed_id));
    proof {
        lemma_view_members(last);
    }
    push_all(&mut out, trailer_open_bytes().as_slice());
    push_value(&mut out, &last);
    push_all(&mut out, startxref_line_bytes().as_slice());
    push_int(&mut out, table_at as i64);
    push_all(&mut out, eof_bytes().as_slice());
    assert(out@ =~= head + body + xref_head(plan@.len() as int) + xref_lines(
        start as int,
        store@,
        plan@,
        plan@.len(),
    ) + trailer_open_text() + last@.text() + startxref_text() + int_text(table_at as int)
        + eof_text());
    Some(out)
}

pub fn object_open_bytes() -> (r: Vec<u8>)
    ensures
        r@ == object_open_text(),
{
    let r: Vec<u8> = vec![32, 48, 32, 111, 98, 106, 10];
    assert(r@ =~= object_open_text());
    r
}

pub fn object_close_bytes() -> (r: Vec<u8>)
    ensures
        r@ == object_close_text(),
{
    let r: Vec<u8> = vec![10, 101, 110, 100, 111, 98, 106, 10];
    assert(r@ =~= object_close_text());
    r
}

pub fn xref_line_end_bytes() -> (r: Vec<u8>)
    ensures
        r@ == xref_line_end(),
{
    let r: Vec<u8> = vec![32, 48, 48, 48, 48, 48, 32, 110, 32, 10];
    assert(r@ =~= xref_line_end());
    r
}

pub fn xref_head_open_bytes() -> (r: Vec<u8>)
    ensures
        r@ == seq![120u8, 114, 101, 102, 10, 48, 32],
{
    let r: Vec<u8> = vec![120, 114, 101, 102, 10, 48, 32];
    assert(r@ =~= seq![120u8, 114, 101, 102, 10, 48, 32]);
    r
}

pub fn xref_head_close_bytes() -> (r: Vec<u8>)
    ensures
        r@ == seq![
            10u8,
            48,
            48,
            48,
            48,
            48,
            48,
            48,
            48,
            48,
            48,
            32,
            54,
            53,
            53,
            51,
            53,
            32,
            102,
            32,
            10,
        ],
{
    let r: Vec<u8> = vec![
        10,
        48,
        48,
        48,
        48,
        48,
        48,
        48,
        48,
        48,
        48,
        32,
        54,
        53,
        53,
        51,
        53,
        32,
        102,
        32,
        10,
    ];
    assert(r@ =~= seq![
        10u8,
        48,
        48,
        48,
        48,
        48,
        48,
        48,
        48,
        48,
        48,
        32,
        54,
        53,
        53,
        51,
        53,
        32,
        102,
        32,
        10,
    ]);
    r
}

pub fn trailer_open_bytes() -> (r: Vec<u8>)
    ensures
        r@ == trailer_open_text(),
{
    let r: Vec<u8> = vec![116, 114, 97, 105, 108, 101, 114, 10];
    assert(r@ =~= trailer_open_text());
    r
}

pub fn startxref_line_bytes() -> (r: Vec<u8>)
    ensures
        r@ == startxref_text(),
{
    let r: Vec<u8> = vec![10, 115, 116, 97, 114, 116, 120, 114, 101, 102, 10];
    assert(r@ =~= startxref_text());
    r
}

pub fn eof_bytes() -> (r: Vec<u8>)
    ensures
        r@ == eof_text(),
{
    let r: Vec<u8> = vec![10, 37, 37, 69, 79, 70, 10];
    assert(r@ =~= eof_text());
    r
}

} // verus!
