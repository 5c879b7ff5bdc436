//! Cross-reference streams and object streams: cross-reference data held
//! in a stream, and objects held in a stream.

use crate::qpdf::document::{parse_indirect_object, read_indirect_object, XrefEntry};
use crate::qpdf::filters::{hex_decoded, run_length_decode, run_length_decoded};
use crate::qpdf::keys::{
    decode_parms_key, decode_parms_key_string, length_key, length_key_string, filter_key, filter_key_string, first_key, first_key_string, hex_filter_key,
    hex_filter_key_string, index_key, index_key_string, number_key, number_key_string,
    object_stream_name_key, object_stream_name_key_string, run_length_filter_key,
    run_length_filter_key_string, size_key, size_key_string, type_key, type_key_string,
    widths_key, widths_key_string,
    xref_name_key, xref_name_key_string,
};
use crate::qpdf::object::types::ObjectRef;
use crate::qpdf::object::value::{
    entries_view, entries_wf, lemma_view_members, value_at_key, values_view, Entry, EntryModel,
    ObjectValue, Value,
};
use crate::qpdf::object::{
    entries_without_key, find_key, lemma_entries_without_key, remove_entry,
};
use crate::qpdf::reader::{parse_value, read_hex_string, read_value, MAX_DEPTH};
use crate::qpdf::store::{holds, resolve, with_object, ObjectStore, StoreModel, MAX_OBJECT_ID};
use crate::qpdf::syntax::{
    bounded_digits, find_token_end, read_digits, skip_space, skip_white, token_end,
};
use vstd::prelude::*;

verus! {

/// The data of a stream without its filter: the data itself where the
/// stream names none; what the data stands for where the one filter is
/// hexadecimal digits or run lengths. `None` for every other filter and
/// for data that cannot be decoded.
pub open spec fn plain_data(entries: Seq<EntryModel>, data: Seq<u8>) -> Option<Seq<u8>> {
    match value_at_key(entries, filter_key()) {
        Value::Null => Some(data),
        Value::Name(n) => if n == hex_filter_key() {
            hex_decoded(data)
        } else if n == run_length_filter_key() {
            run_length_decoded(data, 0, Seq::empty())
        } else {
            None
        },
        _ => None,
    }
}

/// The data of a stream without its filter.
pub fn read_plain_data(entries: &Vec<Entry>, data: &Vec<u8>) -> (r: Option<Vec<u8>>)
    ensures
        r matches Some(plain) ==> plain_data(entries_view(entries@), data@) == Some(plain@),
        r is None ==> plain_data(entries_view(entries@), data@) is None,
{
    let at: usize = find_key(entries, &filter_key_string());
    if at >= entries.len() {
        return Some(data.clone());
    }
    match &entries[at].1 {
        ObjectValue::Null => Some(data.clone()),
        ObjectValue::Name(n) => {
            if *n == hex_filter_key_string() {
                match read_hex_string(data, 0) {
                    Some((plain, _)) => Some(plain),
                    None => None,
                }
            } else if *n == run_length_filter_key_string() {
                run_length_decode(data)
            } else {
                None
            }
        },
        _ => None,
    }
}

/// The number that `width` bytes from `pos` on stand for, the first byte
/// counting most.
pub open spec fn field_value(data: Seq<u8>, pos: int, width: nat) -> nat
    decreases width,
{
    if width == 0 {
        0
    } else {
        field_value(data, pos, (width - 1) as nat) * 256 + data[pos + width - 1] as nat
    }
}

/// A bound on a number of `width` bytes.
pub open spec fn field_limit(width: nat) -> nat
    decreases width,
{
    if width == 0 {
        1
    } else {
        field_limit((width - 1) as nat) * 256
    }
}

pub proof fn lemma_field_exact(data: Seq<u8>, pos: int, width: nat)
    ensures
        field_value(data, pos, width) < field_limit(width),
        width <= 7 ==> field_limit(width) <= 0x100_0000_0000_0000,
    decreases width,
{
    if width > 0 {
        lemma_field_exact(data, pos, (width - 1) as nat);
    }
    if width <= 7 {
        reveal_with_fuel(field_limit, 8);
    }
}

/// Reads the number that `width` bytes from `pos` on stand for.
pub fn read_field(data: &Vec<u8>, pos: usize, width: usize) -> (r: u64)
    requires
        width <= 7,
        pos + width <= data.len(),
    ensures
        r as nat == field_value(data@, pos as int, width as nat),
{
    let mut r: u64 = 0;
    let mut i: usize = 0;
    while i < width
        invariant
            i <= width <= 7,
            pos + width <= data.len(),
            r as nat == field_value(data@, pos as int, i as nat),
        decreases width - i,
    {
        proof {
            lemma_field_exact(data@, pos as int, i as nat);
            lemma_field_exact(data@, pos as int, (i + 1) as nat);
        }
        r = r * 256 + data[pos + i] as u64;
        i += 1;
    }
    r
}

/// The widths of the three fields of a row.
pub struct Widths {
    pub kind: usize,
    pub second: usize,
    pub third: usize,
}

impl Widths {
    /// Each width is at most 7, and a row is not empty.
    pub open spec fn valid(self) -> bool {
        self.kind <= 7 && self.second <= 7 && self.third <= 7 && self.kind + self.second
            + self.third > 0
    }

    /// The bytes of a row.
    pub open spec fn row(self) -> int {
        self.kind + self.second + self.third
    }
}

/// The line that a row of a cross-reference stream stands for. A row
/// whose kind is 1 stands for an object at the offset `f1` with the
/// generation `f2`; one whose kind is 2 for the `f2`-th object held in
/// the object stream `f1`; every other row for a free number. `None`
/// where a field is beyond what a line can hold.
pub open spec fn row_line(id: int, kind: nat, f1: nat, f2: nat) -> Option<XrefEntry> {
    if kind == 1 {
        if f1 <= 9999999999 && f2 <= 65535 {
            Some(
                XrefEntry {
                    id: id as i32,
                    offset: f1 as u64,
                    generation: f2 as i32,
                    in_use: true,
                    container: 0,
                },
            )
        } else {
            None
        }
    } else if kind == 2 {
        if 0 < f1 <= MAX_OBJECT_ID && f2 <= MAX_OBJECT_ID {
            Some(
                XrefEntry {
                    id: id as i32,
                    offset: f2 as u64,
                    generation: 0,
                    in_use: true,
                    container: f1 as i32,
                },
            )
        } else {
            None
        }
    } else {
        Some(XrefEntry { id: id as i32, offset: 0, generation: 0, in_use: false, container: 0 })
    }
}

/// `remaining` rows from `pos` on, for the numbers from `id` on, added to
/// `acc`. A row without a field for its kind stands for an object at
/// an offset.
pub open spec fn stream_rows(
    data: Seq<u8>,
    pos: int,
    id: int,
    remaining: nat,
    w: Widths,
    acc: Seq<XrefEntry>,
) -> Option<(Seq<XrefEntry>, int)>
    decreases remaining,
{
    if remaining == 0 {
        Some((acc, pos))
    } else if pos < 0 || pos + w.row() > data.len() || id < 0 || id > MAX_OBJECT_ID {
        None
    } else {
        let kind: nat = if w.kind == 0 {
            1
        } else {
            field_value(data, pos, w.kind as nat)
        };
        match row_line(
            id,
            kind,
            field_value(data, pos + w.kind, w.second as nat),
            field_value(data, pos + w.kind + w.second, w.third as nat),
        ) {
            Some(line) => stream_rows(
                data,
                pos + w.row(),
                id + 1,
                (remaining - 1) as nat,
                w,
                acc.push(line),
            ),
            None => None,
        }
    }
}

/// Reads `count` rows.
pub fn read_stream_rows(
    data: &Vec<u8>,
    pos: usize,
    id: u64,
    count: u64,
    w: &Widths,
    acc: &mut Vec<XrefEntry>,
) -> (r: Option<usize>)
    requires
        w.valid(),
        pos <= data.len(),
        id <= MAX_OBJECT_ID + 1,
        count <= MAX_OBJECT_ID + 1,
    ensures
        r matches Some(next) ==> stream_rows(
            data@,
            pos as int,
            id as int,
            count as nat,
            *w,
            old(acc)@,
        ) == Some((final(acc)@, next as int)) && pos <= next <= data.len(),
        r is None ==> stream_rows(data@, pos as int, id as int, count as nat, *w, old(acc)@)
            is None,
{
    let row: usize = w.kind + w.second + w.third;
    let mut cur: usize = pos;
    let mut done: u64 = 0;
    while done < count
        invariant
            w.valid(),
            row == w.row(),
            pos <= cur <= data.len(),
            done <= count <= MAX_OBJECT_ID + 1,
            id <= MAX_OBJECT_ID + 1,
            stream_rows(data@, pos as int, id as int, count as nat, *w, old(acc)@)
                == stream_rows(data@, cur as int, id + done, (count - done) as nat, *w, acc@),
        decreases count - done,
    {
        if data.len() - cur < row || id + done > MAX_OBJECT_ID as u64 {
            return None;
        }
        let kind: u64 = if w.kind == 0 {
            1
        } else {
            read_field(data, cur, w.kind)
        };
        let f1: u64 = read_field(data, cur + w.kind, w.second);
        let f2: u64 = read_field(data, cur + w.kind + w.second, w.third);
        let number: i32 = (id + done) as i32;
        let line: XrefEntry = if kind == 1 {
            if f1 <= 9999999999 && f2 <= 65535 {
                XrefEntry {
                    id: number,
                    offset: f1,
                    generation: f2 as i32,
                    in_use: true,
                    container: 0,
                }
            } else {
                return None;
            }
        } else if kind == 2 {
            if 0 < f1 && f1 <= MAX_OBJECT_ID as u64 && f2 <= MAX_OBJECT_ID as u64 {
                XrefEntry {
                    id: number,
                    offset: f2,
                    generation: 0,
                    in_use: true,
                    container: f1 as i32,
                }
            } else {
                return None;
            }
        } else {
            XrefEntry { id: number, offset: 0, generation: 0, in_use: false, container: 0 }
        };
        acc.push(line);
        cur = cur + row;
        done += 1;
    }
    Some(cur)
}

/// A whole number at most `limit` that `v` holds.
pub open spec fn count_in(v: Value, limit: int) -> Option<nat> {
    match v {
        Value::Integer(i) => if 0 <= i <= limit {
            Some(i as nat)
        } else {
            None
        },
        _ => None,
    }
}

pub fn read_count(v: &ObjectValue, limit: u64) -> (r: Option<u64>)
    requires
        limit <= i64::MAX,
    ensures
        r matches Some(n) ==> count_in(v@, limit as int) == Some(n as nat),
        r is None ==> count_in(v@, limit as int) is None,
{
    match v {
        ObjectValue::Integer(i) => {
            if *i >= 0 && (*i as u64) <= limit {
                Some(*i as u64)
            } else {
                None
            }
        },
        _ => None,
    }
}

/// The sections of a cross-reference stream that the items of `/Index`
/// from the `k`-th on name: a first number and a count each.
pub open spec fn stream_sections(
    data: Seq<u8>,
    pos: int,
    index: Seq<Value>,
    k: nat,
    w: Widths,
    acc: Seq<XrefEntry>,
) -> Option<Seq<XrefEntry>>
    decreases index.len() - k,
{
    if k >= index.len() {
        Some(acc)
    } else if k + 1 >= index.len() {
        None
    } else {
        match (
            count_in(index[k as int], MAX_OBJECT_ID as int),
            count_in(index[k as int + 1], MAX_OBJECT_ID + 1),
        ) {
            (Some(first), Some(count)) => match stream_rows(
                data,
                pos,
                first as int,
                count,
                w,
                acc,
            ) {
                Some((lines, next)) => stream_sections(data, next, index, k + 2, w, lines),
                None => None,
            },
            _ => None,
        }
    }
}

pub fn read_stream_sections(data: &Vec<u8>, index: &Vec<ObjectValue>, w: &Widths) -> (r: Option<
    Vec<XrefEntry>,
>)
    requires
        w.valid(),
    ensures
        r matches Some(lines) ==> stream_sections(
            data@,
            0,
            values_view(index@),
            0,
            *w,
            Seq::empty(),
        ) == Some(lines@),
        r is None ==> stream_sections(data@, 0, values_view(index@), 0, *w, Seq::empty())
            is None,
{
    let ghost model = values_view(index@);
    let mut lines: Vec<XrefEntry> = Vec::new();
    let mut pos: usize = 0;
    let mut k: usize = 0;
    assert(lines@ =~= Seq::<XrefEntry>::empty());
    while k < index.len()
        invariant
            w.valid(),
            model == values_view(index@),
            pos <= data.len(),
            stream_sections(data@, 0, model, 0, *w, Seq::empty()) == stream_sections(
                data@,
                pos as int,
                model,
                k as nat,
                *w,
                lines@,
            ),
        decreases index.len() - k,
    {
        if index.len() - k < 2 {
            return None;
        }
        assert(model[k as int] == index@[k as int]@);
        assert(model[k + 1] == index@[k + 1]@);
        let first: u64 = match read_count(&index[k], MAX_OBJECT_ID as u64) {
            Some(n) => n,
            None => {
                return None;
            },
        };
        let count: u64 = match read_count(&index[k + 1], (MAX_OBJECT_ID + 1) as u64) {
            Some(n) => n,
            None => {
                return None;
            },
        };
        match read_stream_rows(data, pos, first, count, w, &mut lines) {
            Some(next) => {
                pos = next;
            },
            None => {
                return None;
            },
        }
        k += 2;
    }
    Some(lines)
}

/// The widths that the three items of `/W` give.
pub open spec fn widths_of(v: Value) -> Option<Widths> {
    match v {
        Value::Array(items) => if items.len() == 3 && count_in(items[0], 7) is Some && count_in(
            items[1],
            7,
        ) is Some && count_in(items[2], 7) is Some && count_in(items[0], 7)->0 + count_in(
            items[1],
            7,
        )->0 + count_in(items[2], 7)->0 > 0 {
            Some(
                Widths {
                    kind: count_in(items[0], 7)->0 as usize,
                    second: count_in(items[1], 7)->0 as usize,
                    third: count_in(items[2], 7)->0 as usize,
                },
            )
        } else {
            None
        },
        _ => None,
    }
}

pub fn read_widths(v: &ObjectValue) -> (r: Option<Widths>)
    ensures
        r matches Some(w) ==> widths_of(v@) == Some(w) && w.valid(),
        r is None ==> widths_of(v@) is None,
{
    proof {
        lemma_view_members(*v);
    }
    match v {
        ObjectValue::Array(items) => {
            if items.len() != 3 {
                return None;
            }
            assert(values_view(items@)[0] == items@[0]@);
            assert(values_view(items@)[1] == items@[1]@);
            assert(values_view(items@)[2] == items@[2]@);
            let a: u64 = match read_count(&items[0], 7) {
                Some(n) => n,
                None => {
                    return None;
                },
            };
            let b: u64 = match read_count(&items[1], 7) {
                Some(n) => n,
                None => {
                    return None;
                },
            };
            let c: u64 = match read_count(&items[2], 7) {
                Some(n) => n,
                None => {
                    return None;
                },
            };
            if a + b + c == 0 {
                return None;
            }
            Some(Widths { kind: a as usize, second: b as usize, third: c as usize })
        },
        _ => None,
    }
}

/// The lines that the cross-reference stream with the entries `entries`
/// and the data `data` holds: its type is `/XRef`; `/W` gives the widths
/// of the fields; `/Index` names the sections, and where it is missing
/// there is one section from 0 on with `/Size` rows.
pub open spec fn stream_lines(entries: Seq<EntryModel>, data: Seq<u8>) -> Option<Seq<XrefEntry>> {
    if value_at_key(entries, type_key()) == Value::Name(xref_name_key()) && plain_data(
        entries,
        data,
    ) is Some && widths_of(value_at_key(entries, widths_key())) is Some {
        let plain = plain_data(entries, data)->0;
        let w = widths_of(value_at_key(entries, widths_key()))->0;
        match value_at_key(entries, index_key()) {
            Value::Array(index) => stream_sections(plain, 0, index, 0, w, Seq::empty()),
            Value::Null => match count_in(value_at_key(entries, size_key()), MAX_OBJECT_ID + 1) {
                Some(size) => match stream_rows(plain, 0, 0, size, w, Seq::empty()) {
                    Some((lines, _)) => Some(lines),
                    None => None,
                },
                None => None,
            },
            _ => None,
        }
    } else {
        None
    }
}

/// The value under `key`: a reference to null where the key is absent.
pub fn lookup<'a>(entries: &'a Vec<Entry>, key: &String, absent: &'a ObjectValue) -> (r:
    &'a ObjectValue)
    requires
        absent@ == Value::Null,
    ensures
        r@ == value_at_key(entries_view(entries@), key@),
{
    let at: usize = find_key(entries, key);
    if at < entries.len() {
        &entries[at].1
    } else {
        absent
    }
}

pub fn read_stream_lines(entries: &Vec<Entry>, data: &Vec<u8>) -> (r: Option<Vec<XrefEntry>>)
    ensures
        r matches Some(lines) ==> stream_lines(entries_view(entries@), data@) == Some(lines@),
        r is None ==> stream_lines(entries_view(entries@), data@) is None,
{
    let absent = ObjectValue::Null;
    match lookup(entries, &type_key_string(), &absent) {
        ObjectValue::Name(n) => {
            if !(*n == xref_name_key_string()) {
                return None;
            }
        },
        _ => {
            return None;
        },
    }
    let plain: Vec<u8> = match read_plain_data(entries, data) {
        Some(plain) => plain,
        None => {
            return None;
        },
    };
    let w: Widths = match read_widths(lookup(entries, &widths_key_string(), &absent)) {
        Some(w) => w,
        None => {
            return None;
        },
    };
    let index: &ObjectValue = lookup(entries, &index_key_string(), &absent);
    proof {
        lemma_view_members(*index);
    }
    match index {
        ObjectValue::Array(items) => read_stream_sections(&plain, items, &w),
        ObjectValue::Null => {
            let size: u64 = match read_count(
                lookup(entries, &size_key_string(), &absent),
                (MAX_OBJECT_ID + 1) as u64,
            ) {
                Some(n) => n,
                None => {
                    return None;
                },
            };
            let mut lines: Vec<XrefEntry> = Vec::new();
            assert(lines@ =~= Seq::<XrefEntry>::empty());
            match read_stream_rows(&plain, 0, 0, size, &w, &mut lines) {
                Some(_) => Some(lines),
                None => None,
            }
        },
        _ => None,
    }
}

/// The trailer that the dictionary of a cross-reference stream stands
/// for: the dictionary without what describes the stream itself.
pub open spec fn trailer_of_stream(entries: Seq<EntryModel>) -> Seq<EntryModel> {
    entries_without_key(
        entries_without_key(
            entries_without_key(
                entries_without_key(
                    entries_without_key(entries_without_key(entries, type_key()), widths_key()),
                    index_key(),
                ),
                length_key(),
            ),
            filter_key(),
        ),
        decode_parms_key(),
    )
}

/// The cross-reference stream at `offset`: its lines, and the trailer
/// that its dictionary stands for.
pub open spec fn parse_xref_stream(b: Seq<u8>, offset: int) -> Option<
    (Seq<XrefEntry>, Seq<EntryModel>),
> {
    match parse_indirect_object(b, offset) {
        Some((_, Value::Stream(entries, data), _)) => match stream_lines(entries, data) {
            Some(lines) => Some((lines, trailer_of_stream(entries))),
            None => None,
        },
        _ => None,
    }
}

pub fn read_xref_stream(b: &Vec<u8>, offset: usize) -> (r: Option<(Vec<XrefEntry>, Vec<Entry>)>)
    ensures
        r matches Some((lines, trailer)) ==> parse_xref_stream(b@, offset as int) == Some(
            (lines@, entries_view(trailer@)),
        ) && entries_wf(entries_view(trailer@)),
        r is None ==> parse_xref_stream(b@, offset as int) is None,
{
    match read_indirect_object(b, offset) {
        Some((_, v, _)) => {
            proof {
                lemma_view_members(v);
            }
            match v {
                ObjectValue::Stream(entries, data) => {
                    assert(v@->Stream_0 == entries_view(entries@));
                    match read_stream_lines(&entries, &data) {
                        Some(lines) => {
                            let mut trailer = entries;
                            proof {
                                let e0 = entries_view(trailer@);
                                let e1 = entries_without_key(e0, type_key());
                                let e2 = entries_without_key(e1, widths_key());
                                let e3 = entries_without_key(e2, index_key());
                                let e4 = entries_without_key(e3, length_key());
                                let e5 = entries_without_key(e4, filter_key());
                                lemma_entries_without_key(e0, type_key());
                                lemma_entries_without_key(e1, widths_key());
                                lemma_entries_without_key(e2, index_key());
                                lemma_entries_without_key(e3, length_key());
                                lemma_entries_without_key(e4, filter_key());
                                lemma_entries_without_key(e5, decode_parms_key());
                            }
                            remove_entry(&mut trailer, &type_key_string());
                            remove_entry(&mut trailer, &widths_key_string());
                            remove_entry(&mut trailer, &index_key_string());
                            remove_entry(&mut trailer, &length_key_string());
                            remove_entry(&mut trailer, &filter_key_string());
                            remove_entry(&mut trailer, &decode_parms_key_string());
                            Some((lines, trailer))
                        },
                        None => None,
                    }
                },
                _ => None,
            }
        },
        None => None,
    }
}

/// The `k`-th pair of numbers from `pos` on, counted from 0: the number
/// of an object, at most the largest number, and where it stands, at most
/// the length of the data.
pub open spec fn nth_pair(plain: Seq<u8>, pos: int, k: nat) -> Option<(nat, nat)>
    decreases k,
{
    let s1 = skip_space(plain, pos);
    let e1 = token_end(plain, s1);
    let s2 = skip_space(plain, e1);
    let e2 = token_end(plain, s2);
    if 0 <= pos <= plain.len() && bounded_digits(plain, s1, e1, MAX_OBJECT_ID as nat) is Some
        && bounded_digits(plain, s2, e2, plain.len()) is Some {
        if k == 0 {
            Some(
                (
                    bounded_digits(plain, s1, e1, MAX_OBJECT_ID as nat)->0,
                    bounded_digits(plain, s2, e2, plain.len())->0,
                ),
            )
        } else {
            nth_pair(plain, e2, (k - 1) as nat)
        }
    } else {
        None
    }
}

pub fn read_nth_pair(plain: &Vec<u8>, k: u64) -> (r: Option<(u64, u64)>)
    ensures
        r matches Some(pair) ==> nth_pair(plain@, 0, k as nat) == Some(
            (pair.0 as nat, pair.1 as nat),
        ) && pair.0 <= MAX_OBJECT_ID && pair.1 <= plain.len(),
        r is None ==> nth_pair(plain@, 0, k as nat) is None,
{
    let mut pos: usize = 0;
    let mut left: u64 = k;
    loop
        invariant
            pos <= plain.len(),
            left <= k,
            nth_pair(plain@, 0, k as nat) == nth_pair(plain@, pos as int, left as nat),
        decreases left,
    {
        let s1: usize = skip_white(plain, pos);
        let e1: usize = find_token_end(plain, s1);
        let s2: usize = skip_white(plain, e1);
        let e2: usize = find_token_end(plain, s2);
        let id: u64 = match read_digits(plain, s1, e1, MAX_OBJECT_ID as u64) {
            Some(n) => n,
            None => {
                return None;
            },
        };
        let offset: u64 = match read_digits(plain, s2, e2, plain.len() as u64) {
            Some(n) => n,
            None => {
                return None;
            },
        };
        if left == 0 {
            return Some((id, offset));
        }
        left -= 1;
        pos = e2;
    }
}

/// The object with the number `id` that the object stream `container`
/// holds as its `index`-th: the stream's type is `/ObjStm`; its data
/// starts with `/N` pairs of a number and a place; the `index`-th pair
/// names `id`, and the object stands at its place after `/First`.
pub open spec fn object_in_stream(container: Value, index: nat, id: int) -> Option<Value> {
    match container {
        Value::Stream(entries, data) => if value_at_key(entries, type_key()) == Value::Name(
            object_stream_name_key(),
        ) && plain_data(entries, data) is Some && count_in(
            value_at_key(entries, number_key()),
            MAX_OBJECT_ID as int,
        ) is Some && index < count_in(value_at_key(entries, number_key()), MAX_OBJECT_ID as int)->0
            && count_in(
            value_at_key(entries, first_key()),
            plain_data(entries, data)->0.len() as int,
        ) is Some && nth_pair(plain_data(entries, data)->0, 0, index) is Some {
            let plain = plain_data(entries, data)->0;
            let first = count_in(value_at_key(entries, first_key()), plain.len() as int)->0;
            let pair = nth_pair(plain, 0, index)->0;
            if pair.0 == id {
                match parse_value(plain, (first + pair.1) as int, MAX_DEPTH as nat) {
                    Some((v, _)) => Some(v),
                    None => None,
                }
            } else {
                None
            }
        } else {
            None
        },
        _ => None,
    }
}

pub fn read_object_in_stream(container: &ObjectValue, index: u64, id: i32) -> (r: Option<
    ObjectValue,
>)
    ensures
        r matches Some(v) ==> object_in_stream(container@, index as nat, id as int) == Some(v@)
            && v@.wf(),
        r is None ==> object_in_stream(container@, index as nat, id as int) is None,
{
    proof {
        lemma_view_members(*container);
    }
    match container {
        ObjectValue::Stream(entries, data) => {
            let absent = ObjectValue::Null;
            match lookup(entries, &type_key_string(), &absent) {
                ObjectValue::Name(n) => {
                    if !(*n == object_stream_name_key_string()) {
                        return None;
                    }
                },
                _ => {
                    return None;
                },
            }
            let plain: Vec<u8> = match read_plain_data(entries, data) {
                Some(plain) => plain,
                None => {
                    return None;
                },
            };
            let n: u64 = match read_count(
                lookup(entries, &number_key_string(), &absent),
                MAX_OBJECT_ID as u64,
            ) {
                Some(n) => n,
                None => {
                    return None;
                },
            };
            if index >= n {
                return None;
            }
            let limit: u64 = if plain.len() as u64 > 9223372036854775807 {
                9223372036854775807
            } else {
                plain.len() as u64
            };
            let first: u64 = match read_count(
                lookup(entries, &first_key_string(), &absent),
                limit,
            ) {
                Some(n) => n,
                None => {
                    return None;
                },
            };
            let pair: (u64, u64) = match read_nth_pair(&plain, index) {
                Some(pair) => pair,
                None => {
                    return None;
                },
            };
            if id < 0 || pair.0 != id as u64 {
                return None;
            }
            if pair.1 > plain.len() as u64 - first {
                assert(parse_value(plain@, first + pair.1, MAX_DEPTH as nat) is None) by {
                    crate::qpdf::syntax::lemma_skip_space_beyond(plain@, first + pair.1);
                }
                return None;
            }
            match read_value(&plain, (first + pair.1) as usize, MAX_DEPTH) {
                Some((v, _)) => Some(v),
                None => None,
            }
        },
        _ => None,
    }
}

/// For each number, by the number less one, the object stream and the
/// place in it that hold the object; `None` for a number whose object is
/// held in no stream.
pub type Waiting = Seq<Option<(int, int)>>;

/// The list with `x` for the number `id`: in the place of the number
/// where the list spans it, and after the list, with the numbers in
/// between held in no stream, where `x` names a stream.
pub open spec fn waiting_with(w: Waiting, id: int, x: Option<(int, int)>) -> Waiting {
    if 0 < id <= w.len() {
        w.update(id - 1, x)
    } else if x is Some && id > 0 {
        Seq::new(
            id as nat,
            |i: int|
                if i < w.len() {
                    w[i]
                } else if i == id - 1 {
                    x
                } else {
                    None
                },
        )
    } else {
        w
    }
}

/// What a line says about the stream that holds its object.
pub open spec fn held_in(line: XrefEntry) -> Option<(int, int)> {
    if line.in_use && line.container != 0 {
        Some((line.container as int, line.offset as int))
    } else {
        None
    }
}

/// For each number, what the last of the first `n` lines for it says
/// about the stream that holds its object.
pub open spec fn waiting_of(lines: Seq<XrefEntry>, n: nat) -> Waiting
    decreases n,
{
    if n == 0 || n > lines.len() {
        Seq::empty()
    } else {
        waiting_with(
            waiting_of(lines, (n - 1) as nat),
            lines[n - 1].id as int,
            held_in(lines[n - 1]),
        )
    }
}

/// The store `objects` with the objects added that the list from the
/// `k`-th place on names as held in object streams, each taken from its
/// stream as `base` holds it. `None` where an object is not in its
/// stream.
pub open spec fn load_waiting(base: StoreModel, waiting: Waiting, k: nat, objects: StoreModel)
    -> Option<StoreModel>
    decreases waiting.len() - k,
{
    if k >= waiting.len() {
        Some(objects)
    } else {
        match waiting[k as int] {
            None => load_waiting(base, waiting, k + 1, objects),
            Some((container, index)) => match object_in_stream(
                resolve(base, ObjectRef { id: container as i32, generation: 0 }),
                index as nat,
                k as int + 1,
            ) {
                Some(v) => if k < MAX_OBJECT_ID {
                    load_waiting(
                        base,
                        waiting,
                        k + 1,
                        with_object(objects, ObjectRef { id: (k + 1) as i32, generation: 0 }, v),
                    )
                } else {
                    None
                },
                None => None,
            },
        }
    }
}

/// The model of a list of what waits.
pub open spec fn waiting_view(w: Seq<Option<(i32, u64)>>) -> Waiting {
    Seq::new(
        w.len(),
        |i: int|
            match w[i] {
                Some((container, index)) => Some((container as int, index as int)),
                None => None,
            },
    )
}

/// Makes the list of what waits for the lines.
pub fn find_waiting(lines: &Vec<XrefEntry>) -> (w: Vec<Option<(i32, u64)>>)
    ensures
        waiting_view(w@) == waiting_of(lines@, lines@.len()),
{
    let mut w: Vec<Option<(i32, u64)>> = Vec::new();
    let mut n: usize = 0;
    assert(waiting_view(w@) =~= waiting_of(lines@, 0));
    while n < lines.len()
        invariant
            n <= lines.len(),
            waiting_view(w@) == waiting_of(lines@, n as nat),
        decreases lines.len() - n,
    {
        let line: XrefEntry = lines[n];
        let x: Option<(i32, u64)> = if line.in_use && line.container != 0 {
            Some((line.container, line.offset))
        } else {
            None
        };
        let ghost before = w@;
        if line.id > 0 && (line.id as usize) <= w.len() {
            w.set((line.id - 1) as usize, x);
            assert(waiting_view(w@) =~= waiting_with(
                waiting_view(before),
                line.id as int,
                held_in(line),
            ));
        } else if x.is_some() && line.id > 0 {
            let at: usize = (line.id - 1) as usize;
            while w.len() < at
                invariant
                    at == line.id - 1,
                    before.len() <= w@.len() <= at,
                    forall|i: int| 0 <= i < before.len() ==> w@[i] == before[i],
                    forall|i: int| before.len() <= i < w@.len() ==> w@[i] is None,
                decreases at - w.len(),
            {
                w.push(None);
            }
            w.push(x);
            assert(waiting_view(w@) =~= waiting_with(
                waiting_view(before),
                line.id as int,
                held_in(line),
            ));
        }
        n += 1;
    }
    w
}

/// Adds the objects that wait in object streams to `store`.
pub fn read_waiting(base: &ObjectStore, waiting: &Vec<Option<(i32, u64)>>, store: &mut ObjectStore)
    -> (done: bool)
    requires
        old(store).wf(),
    ensures
        final(store).wf(),
        done ==> load_waiting(base@, waiting_view(waiting@), 0, old(store)@) == Some(
            final(store)@,
        ),
        !done ==> load_waiting(base@, waiting_view(waiting@), 0, old(store)@) is None,
{
    let ghost model = waiting_view(waiting@);
    let mut k: usize = 0;
    while k < waiting.len()
        invariant
            k <= waiting.len(),
            store.wf(),
            model == waiting_view(waiting@),
            load_waiting(base@, model, 0, old(store)@) == load_waiting(
                base@,
                model,
                k as nat,
                store@,
            ),
        decreases waiting.len() - k,
    {
        match waiting[k] {
            Some((container, index)) => {
                assert(model[k as int] == Some((container as int, index as int)));
                if k >= MAX_OBJECT_ID as usize {
                    return false;
                }
                let held: ObjectValue = base.resolved(ObjectRef { id: container, generation: 0 });
                match read_object_in_stream(&held, index, (k + 1) as i32) {
                    Some(v) => {
                        let _ = store.put(ObjectRef { id: (k + 1) as i32, generation: 0 }, v);
                    },
                    None => {
                        return false;
                    },
                }
            },
            None => {
                assert(model[k as int] is None);
            },
        }
        k += 1;
    }
    true
}

} // verus!
