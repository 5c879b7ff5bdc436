//! Reading a whole file: header, indirect objects and streams, the
//! cross-reference table, the trailer, and the scan that rebuilds a damaged
//! table.

use crate::qpdf::object::types::ObjectRef;
use crate::qpdf::object::value::{
    entries_view, entries_wf, has_key, lemma_view_members, value_at_key, Entry, EntryModel,
    ObjectValue, Value,
};
use crate::qpdf::object::{entries_with_key, find_key, lemma_entries_with_key, replace_entry};
use crate::qpdf::reader::{copy_range, parse_value, read_value, MAX_DEPTH};
use crate::qpdf::keys::{length_key, length_key_string, xref_stream_key, xref_stream_key_string};
use crate::qpdf::streams::{
    find_waiting, load_waiting, parse_xref_stream, read_waiting, read_xref_stream, waiting_of,
};
use crate::qpdf::store::{
    holds, resolve, with_object, without_number, ObjectStore, StoreModel, MAX_OBJECT_ID,
};
use crate::qpdf::syntax::{
    bounded_digits, find_token_end, has_at, read_digits, skip_space, skip_white, starts_at,
    token_end,
};
use crate::qpdf::error::ErrorKind;
use crate::qpdf::keys::{
    encrypt_key, encrypt_key_string, prev_key, prev_key_string, root_key, root_key_string,
};
use crate::qpdf::reader::text_of;
use crate::qpdf::syntax::{byte_is_digit, digits_end, find_digits_end, is_digit, is_eol};
use vstd::prelude::*;
use vstd::string::StringExecFns;
use vstd::utf8::{decode_utf8, valid_utf8};

verus! {

/// `obj`
pub open spec fn obj_word() -> Seq<u8> {
    seq![111u8, 98, 106]
}

/// `stream`
pub open spec fn stream_word() -> Seq<u8> {
    seq![115u8, 116, 114, 101, 97, 109]
}

/// `endstream`
pub open spec fn endstream_word() -> Seq<u8> {
    seq![101u8, 110, 100, 115, 116, 114, 101, 97, 109]
}

/// `xref`
pub open spec fn xref_word() -> Seq<u8> {
    seq![120u8, 114, 101, 102]
}

/// `trailer`
pub open spec fn trailer_word() -> Seq<u8> {
    seq![116u8, 114, 97, 105, 108, 101, 114]
}

/// `startxref`
pub open spec fn startxref_word() -> Seq<u8> {
    seq![115u8, 116, 97, 114, 116, 120, 114, 101, 102]
}

/// `%PDF-`
pub open spec fn header_word() -> Seq<u8> {
    seq![37u8, 80, 68, 70, 45]
}

pub fn obj_bytes() -> (r: Vec<u8>)
    ensures
        r@ == obj_word(),
{
    let r: Vec<u8> = vec![111, 98, 106];
    assert(r@ =~= obj_word());
    r
}

pub fn stream_bytes() -> (r: Vec<u8>)
    ensures
        r@ == stream_word(),
{
    let r: Vec<u8> = vec![115, 116, 114, 101, 97, 109];
    assert(r@ =~= stream_word());
    r
}

pub fn endstream_bytes() -> (r: Vec<u8>)
    ensures
        r@ == endstream_word(),
{
    let r: Vec<u8> = vec![101, 110, 100, 115, 116, 114, 101, 97, 109];
    assert(r@ =~= endstream_word());
    r
}

pub fn xref_bytes() -> (r: Vec<u8>)
    ensures
        r@ == xref_word(),
{
    let r: Vec<u8> = vec![120, 114, 101, 102];
    assert(r@ =~= xref_word());
    r
}

pub fn trailer_bytes() -> (r: Vec<u8>)
    ensures
        r@ == trailer_word(),
{
    let r: Vec<u8> = vec![116, 114, 97, 105, 108, 101, 114];
    assert(r@ =~= trailer_word());
    r
}

pub fn startxref_bytes() -> (r: Vec<u8>)
    ensures
        r@ == startxref_word(),
{
    let r: Vec<u8> = vec![115, 116, 97, 114, 116, 120, 114, 101, 102];
    assert(r@ =~= startxref_word());
    r
}

pub fn header_bytes() -> (r: Vec<u8>)
    ensures
        r@ == header_word(),
{
    let r: Vec<u8> = vec![37, 80, 68, 70, 45];
    assert(r@ =~= header_word());
    r
}

/// The first position from `from` on at which `pattern` stands, or the
/// length of `b` where it stands nowhere.
pub open spec fn first_index_of(b: Seq<u8>, pattern: Seq<u8>, from: int) -> int
    decreases b.len() - from,
{
    if from < 0 || from >= b.len() {
        b.len() as int
    } else if has_at(b, from, pattern) {
        from
    } else {
        first_index_of(b, pattern, from + 1)
    }
}

/// The last position before `before` at which `pattern` stands, or -1.
pub open spec fn last_index_of(b: Seq<u8>, pattern: Seq<u8>, before: int) -> int
    decreases before,
{
    if before <= 0 {
        -1
    } else if has_at(b, before - 1, pattern) {
        before - 1
    } else {
        last_index_of(b, pattern, before - 1)
    }
}

pub fn find_first(b: &Vec<u8>, pattern: &Vec<u8>, from: usize) -> (r: usize)
    ensures
        r as int == first_index_of(b@, pattern@, from as int),
        r <= b.len(),
        r < b.len() ==> from <= r && has_at(b@, r as int, pattern@),
{
    let mut i: usize = from;
    while i < b.len()
        invariant
            from <= i,
            first_index_of(b@, pattern@, from as int) == first_index_of(b@, pattern@, i as int),
        decreases b.len() - i,
    {
        if starts_at(b, i, pattern) {
            return i;
        }
        i += 1;
    }
    b.len()
}

pub fn find_last(b: &Vec<u8>, pattern: &Vec<u8>) -> (r: Option<usize>)
    ensures
        r matches Some(at) ==> at as int == last_index_of(b@, pattern@, b@.len() as int) && at
            < b.len() && has_at(b@, at as int, pattern@),
        r is None ==> last_index_of(b@, pattern@, b@.len() as int) == -1,
{
    let mut i: usize = b.len();
    while i > 0
        invariant
            i <= b.len(),
            last_index_of(b@, pattern@, b@.len() as int) == last_index_of(b@, pattern@, i as int),
        decreases i,
    {
        if starts_at(b, i - 1, pattern) {
            return Some(i - 1);
        }
        i -= 1;
    }
    None
}

/// The head of an indirect object at `pos`: its number, its generation and
/// `obj`, with white space between them; and the position after `obj`.
pub open spec fn parse_object_header(b: Seq<u8>, pos: int) -> Option<(ObjectRef, int)> {
    let e1 = token_end(b, pos);
    let s2 = skip_space(b, e1);
    let e2 = token_end(b, s2);
    let s3 = skip_space(b, e2);
    let e3 = token_end(b, s3);
    if 0 <= pos && bounded_digits(b, pos, e1, MAX_OBJECT_ID as nat) is Some && bounded_digits(
        b,
        pos,
        e1,
        MAX_OBJECT_ID as nat,
    )->0 > 0 && e1 < s2 && bounded_digits(b, s2, e2, 65535) is Some && e2 < s3 <= e3 <= b.len()
        && b.subrange(s3, e3) == obj_word() {
        Some(
            (
                ObjectRef {
                    id: bounded_digits(b, pos, e1, MAX_OBJECT_ID as nat)->0 as i32,
                    generation: bounded_digits(b, s2, e2, 65535)->0 as i32,
                },
                e3,
            ),
        )
    } else {
        None
    }
}

pub fn read_object_header(b: &Vec<u8>, pos: usize) -> (r: Option<(ObjectRef, usize)>)
    ensures
        r matches Some((reference, next)) ==> parse_object_header(b@, pos as int) == Some(
            (reference, next as int),
        ) && pos < next <= b.len() && reference.valid() && reference.id <= MAX_OBJECT_ID,
        r is None ==> parse_object_header(b@, pos as int) is None,
{
    if pos >= b.len() {
        proof {
            assert(bounded_digits(b@, pos as int, token_end(b@, pos as int), MAX_OBJECT_ID as nat)
                is None);
        }
        return None;
    }
    let e1: usize = find_token_end(b, pos);
    let s2: usize = skip_white(b, e1);
    let e2: usize = find_token_end(b, s2);
    let s3: usize = skip_white(b, e2);
    let e3: usize = find_token_end(b, s3);
    let id: u64 = match read_digits(b, pos, e1, MAX_OBJECT_ID as u64) {
        Some(n) => n,
        None => {
            return None;
        },
    };
    if id == 0 || s2 <= e1 {
        return None;
    }
    let generation: u64 = match read_digits(b, s2, e2, 65535) {
        Some(n) => n,
        None => {
            return None;
        },
    };
    if s3 <= e2 {
        return None;
    }
    if e3 - s3 != 3 {
        assert(b@.subrange(s3 as int, e3 as int).len() != obj_word().len());
        return None;
    }
    if !starts_at(b, s3, &obj_bytes()) {
        return None;
    }
    Some((ObjectRef { id: id as i32, generation: generation as i32 }, e3))
}

/// Where the data of a stream starts, for `pos` after the word `stream`:
/// after one end of line.
pub open spec fn stream_data_start(b: Seq<u8>, pos: int) -> Option<int> {
    if 0 <= pos < b.len() && b[pos] == 10 {
        Some(pos + 1)
    } else if 0 <= pos < b.len() && b[pos] == 13 {
        if pos + 1 < b.len() && b[pos + 1] == 10 {
            Some(pos + 2)
        } else {
            Some(pos + 1)
        }
    } else {
        None
    }
}

/// The position after one end of line at `pos`, or `pos` where none
/// stands there.
pub open spec fn after_eol(b: Seq<u8>, pos: int) -> int {
    if 0 <= pos < b.len() && b[pos] == 10 {
        pos + 1
    } else if 0 <= pos < b.len() && b[pos] == 13 {
        if pos + 1 < b.len() && b[pos + 1] == 10 {
            pos + 2
        } else {
            pos + 1
        }
    } else {
        pos
    }
}

/// The position before one end of line that ends at `pos`, not before
/// `start`.
pub open spec fn before_eol(b: Seq<u8>, start: int, pos: int) -> int {
    if start < pos <= b.len() && b[pos - 1] == 10 {
        if start < pos - 1 && b[pos - 2] == 13 {
            pos - 2
        } else {
            pos - 1
        }
    } else if start < pos <= b.len() && b[pos - 1] == 13 {
        pos - 1
    } else {
        pos
    }
}

/// Where the data that starts at `start` ends, and where `endstream` ends.
/// The data has the length that `/Length` gives where `endstream` follows
/// it; otherwise it runs up to the end of line before the first
/// `endstream`.
pub open spec fn stream_extent(b: Seq<u8>, start: int, entries: Seq<EntryModel>) -> Option<
    (int, int),
> {
    let declared = value_at_key(entries, length_key());
    if declared is Integer && 0 <= declared->Integer_0 && 0 <= start && start
        + declared->Integer_0 <= b.len() && has_at(
        b,
        after_eol(b, start + declared->Integer_0),
        endstream_word(),
    ) {
        Some(
            (start + declared->Integer_0, after_eol(b, start + declared->Integer_0) + 9),
        )
    } else {
        let at = first_index_of(b, endstream_word(), start);
        if 0 <= start <= at < b.len() {
            Some((before_eol(b, start, at), at + 9))
        } else {
            None
        }
    }
}

/// The indirect object at `pos`: its reference, its value and the position
/// after it. A dictionary followed by `stream` is a stream, whose
/// `/Length` is set to the length of the data found.
#[verifier::opaque]
pub open spec fn parse_indirect_object(b: Seq<u8>, pos: int) -> Option<(ObjectRef, Value, int)> {
    match parse_object_header(b, pos) {
        Some((reference, after)) => match parse_value(b, after, MAX_DEPTH as nat) {
            Some((v, next)) => {
                let q = skip_space(b, next);
                if v is Dictionary && has_at(b, q, stream_word()) {
                    match stream_data_start(b, q + 6) {
                        Some(start) => match stream_extent(b, start, v->Dictionary_0) {
                            Some((data_end, end)) => if data_end - start <= i64::MAX {
                                Some(
                                    (
                                        reference,
                                        Value::Stream(
                                            entries_with_key(
                                                v->Dictionary_0,
                                                length_key(),
                                                Value::Integer(data_end - start),
                                            ),
                                            b.subrange(start, data_end),
                                        ),
                                        end,
                                    ),
                                )
                            } else {
                                None
                            },
                            None => None,
                        },
                        None => None,
                    }
                } else {
                    Some((reference, v, next))
                }
            },
            None => None,
        },
        None => None,
    }
}

fn find_stream_data_start(b: &Vec<u8>, pos: usize) -> (r: Option<usize>)
    requires
        pos <= b.len(),
    ensures
        r matches Some(start) ==> stream_data_start(b@, pos as int) == Some(start as int) && pos
            < start <= b.len(),
        r is None ==> stream_data_start(b@, pos as int) is None,
{
    if pos < b.len() && b[pos] == 10 {
        Some(pos + 1)
    } else if pos < b.len() && b[pos] == 13 {
        if b.len() - pos > 1 && b[pos + 1] == 10 {
            Some(pos + 2)
        } else {
            Some(pos + 1)
        }
    } else {
        None
    }
}

fn skip_eol(b: &Vec<u8>, pos: usize) -> (r: usize)
    requires
        pos <= b.len(),
    ensures
        r as int == after_eol(b@, pos as int),
        pos <= r <= b.len(),
{
    if pos < b.len() && b[pos] == 10 {
        pos + 1
    } else if pos < b.len() && b[pos] == 13 {
        if b.len() - pos > 1 && b[pos + 1] == 10 {
            pos + 2
        } else {
            pos + 1
        }
    } else {
        pos
    }
}

fn back_over_eol(b: &Vec<u8>, start: usize, pos: usize) -> (r: usize)
    requires
        start <= pos <= b.len(),
    ensures
        r as int == before_eol(b@, start as int, pos as int),
        start <= r <= pos,
{
    if start < pos && b[pos - 1] == 10 {
        if start < pos - 1 && b[pos - 2] == 13 {
            pos - 2
        } else {
            pos - 1
        }
    } else if start < pos && b[pos - 1] == 13 {
        pos - 1
    } else {
        pos
    }
}

/// Finds the extent of the stream data that starts at `start`.
pub fn find_stream_extent(b: &Vec<u8>, start: usize, entries: &Vec<Entry>) -> (r: Option<
    (usize, usize),
>)
    requires
        start <= b.len(),
    ensures
        r matches Some((data_end, end)) ==> stream_extent(
            b@,
            start as int,
            entries_view(entries@),
        ) == Some((data_end as int, end as int)) && start <= data_end <= end <= b.len() && start
            < end,
        r is None ==> stream_extent(b@, start as int, entries_view(entries@)) is None,
{
    let key: String = length_key_string();
    let at: usize = find_key(entries, &key);
    let word: Vec<u8> = endstream_bytes();
    if at < entries.len() {
        match &entries[at].1 {
            ObjectValue::Integer(n) => {
                if *n >= 0 && (*n as u64) <= (b.len() - start) as u64 {
                    let data_end: usize = start + (*n as usize);
                    let q: usize = skip_eol(b, data_end);
                    if starts_at(b, q, &word) {
                        return Some((data_end, q + 9));
                    }
                }
            },
            _ => {},
        }
    }
    let found: usize = find_first(b, &word, start);
    if found < b.len() {
        let data_end: usize = back_over_eol(b, start, found);
        Some((data_end, found + 9))
    } else {
        None
    }
}

/// Reads the indirect object at `pos`.
pub fn read_indirect_object(b: &Vec<u8>, pos: usize) -> (r: Option<
    (ObjectRef, ObjectValue, usize),
>)
    ensures
        r matches Some((reference, v, next)) ==> parse_indirect_object(b@, pos as int) == Some(
            (reference, v@, next as int),
        ) && pos < next <= b.len() && reference.valid() && reference.id <= MAX_OBJECT_ID
            && v@.wf(),
        r is None ==> parse_indirect_object(b@, pos as int) is None,
{
    reveal(parse_indirect_object);
    let (reference, after) = match read_object_header(b, pos) {
        Some(found) => found,
        None => {
            return None;
        },
    };
    let (v, next) = match read_value(b, after, MAX_DEPTH) {
        Some(found) => found,
        None => {
            return None;
        },
    };
    let q: usize = skip_white(b, next);
    proof {
        lemma_view_members(v);
    }
    match v {
        ObjectValue::Dictionary(entries) => {
            if starts_at(b, q, &stream_bytes()) {
                let start: usize = match find_stream_data_start(b, q + 6) {
                    Some(start) => start,
                    None => {
                        return None;
                    },
                };
                match find_stream_extent(b, start, &entries) {
                    Some((data_end, end)) => {
                        if (data_end - start) as u64 > 9223372036854775807 {
                            return None;
                        }
                        let data: Vec<u8> = copy_range(b, start, data_end);
                        let mut entries = entries;
                        let length: ObjectValue = ObjectValue::Integer((data_end - start) as i64);
                        proof {
                            lemma_entries_with_key(
                                entries_view(entries@),
                                length_key(),
                                length@,
                            );
                        }
                        replace_entry(&mut entries, length_key_string(), length);
                        let stream = ObjectValue::Stream(entries, data);
                        proof {
                            lemma_view_members(stream);
                        }
                        Some((reference, stream, end))
                    },
                    None => None,
                }
            } else {
                let whole = ObjectValue::Dictionary(entries);
                proof {
                    lemma_view_members(whole);
                }
                Some((reference, whole, next))
            }
        },
        other => Some((reference, other, next)),
    }
}

/// One line of cross-reference data: where the object `id` of generation
/// `generation` starts; or that it is the `offset`-th object held in the
/// object stream with the number `container`; or that the number is
/// free.
#[derive(Debug, Clone, Copy, PartialEq, Eq, Structural)]
pub struct XrefEntry {
    pub id: i32,
    pub offset: u64,
    pub generation: i32,
    pub in_use: bool,
    /// The number of the object stream that holds the object; 0 for an
    /// object that stands in the file itself.
    pub container: i32,
}

/// `remaining` lines of a cross-reference table from `pos` on, for the
/// numbers from `id` on: an offset of at most ten digits, a generation of
/// at most 65535, and `n` for an object in use or `f` for a free number.
pub open spec fn parse_xref_lines(
    b: Seq<u8>,
    pos: int,
    id: int,
    remaining: nat,
    acc: Seq<XrefEntry>,
) -> Option<(Seq<XrefEntry>, int)>
    decreases remaining,
{
    if remaining == 0 {
        Some((acc, pos))
    } else {
        let s1 = skip_space(b, pos);
        let e1 = token_end(b, s1);
        let s2 = skip_space(b, e1);
        let e2 = token_end(b, s2);
        let s3 = skip_space(b, e2);
        if 0 <= pos <= b.len() && id <= MAX_OBJECT_ID && bounded_digits(b, s1, e1, 9999999999)
            is Some && bounded_digits(b, s2, e2, 65535) is Some && s3 < b.len() && (b[s3] == 110
            || b[s3] == 102) && token_end(b, s3) == s3 + 1 {
            parse_xref_lines(
                b,
                s3 + 1,
                id + 1,
                (remaining - 1) as nat,
                acc.push(
                    XrefEntry {
                        id: id as i32,
                        offset: bounded_digits(b, s1, e1, 9999999999)->0 as u64,
                        generation: bounded_digits(b, s2, e2, 65535)->0 as i32,
                        in_use: b[s3] == 110,
                        container: 0,
                    },
                ),
            )
        } else {
            None
        }
    }
}

/// The sections of a cross-reference table from `pos` up to the word
/// `trailer`: each a first number and a count, then that many lines. The
/// result holds the lines and the position of `trailer`.
pub open spec fn parse_xref_sections(b: Seq<u8>, pos: int, acc: Seq<XrefEntry>) -> Option<
    (Seq<XrefEntry>, int),
>
    decreases b.len() - pos,
{
    let p = skip_space(b, pos);
    let e1 = token_end(b, p);
    let s2 = skip_space(b, e1);
    let e2 = token_end(b, s2);
    if pos < 0 || pos > b.len() {
        None
    } else if has_at(b, p, trailer_word()) {
        Some((acc, p))
    } else if bounded_digits(b, p, e1, MAX_OBJECT_ID as nat) is Some && bounded_digits(
        b,
        s2,
        e2,
        (MAX_OBJECT_ID + 1) as nat,
    ) is Some {
        match parse_xref_lines(
            b,
            e2,
            bounded_digits(b, p, e1, MAX_OBJECT_ID as nat)->0 as int,
            bounded_digits(b, s2, e2, (MAX_OBJECT_ID + 1) as nat)->0,
            acc,
        ) {
            Some((lines, next)) => if pos < next <= b.len() {
                parse_xref_sections(b, next, lines)
            } else {
                None
            },
            None => None,
        }
    } else {
        None
    }
}

/// The cross-reference table at `pos` and the trailer dictionary after
/// it.
pub open spec fn parse_xref_table(b: Seq<u8>, pos: int) -> Option<
    (Seq<XrefEntry>, Seq<EntryModel>),
> {
    if has_at(b, pos, xref_word()) {
        match parse_xref_sections(b, pos + 4, Seq::empty()) {
            Some((lines, at)) => match parse_value(b, at + 7, MAX_DEPTH as nat) {
                Some((Value::Dictionary(trailer), _)) => Some((lines, trailer)),
                _ => None,
            },
            None => None,
        }
    } else {
        None
    }
}

pub fn read_xref_lines(b: &Vec<u8>, pos: usize, id: u64, count: u64, acc: &mut Vec<XrefEntry>) -> (r:
    Option<usize>)
    requires
        pos <= b.len(),
        id <= MAX_OBJECT_ID,
        count <= MAX_OBJECT_ID + 1,
    ensures
        r matches Some(next) ==> parse_xref_lines(
            b@,
            pos as int,
            id as int,
            count as nat,
            old(acc)@,
        ) == Some((final(acc)@, next as int)) && pos <= next <= b.len() && (count > 0 ==> pos
            < next),
        r is None ==> parse_xref_lines(b@, pos as int, id as int, count as nat, old(acc)@)
            is None,
{
    let mut cur: usize = pos;
    let mut done: u64 = 0;
    while done < count
        invariant
            pos <= cur <= b.len(),
            done <= count <= MAX_OBJECT_ID + 1,
            id <= MAX_OBJECT_ID,
            done > 0 ==> pos < cur,
            parse_xref_lines(b@, pos as int, id as int, count as nat, old(acc)@)
                == parse_xref_lines(
                b@,
                cur as int,
                id + done,
                (count - done) as nat,
                acc@,
            ),
        decreases count - done,
    {
        let s1: usize = skip_white(b, cur);
        let e1: usize = find_token_end(b, s1);
        let s2: usize = skip_white(b, e1);
        let e2: usize = find_token_end(b, s2);
        let s3: usize = skip_white(b, e2);
        if id + done > MAX_OBJECT_ID as u64 {
            return None;
        }
        let offset: u64 = match read_digits(b, s1, e1, 9999999999) {
            Some(n) => n,
            None => {
                return None;
            },
        };
        let generation: u64 = match read_digits(b, s2, e2, 65535) {
            Some(n) => n,
            None => {
                return None;
            },
        };
        if !(s3 < b.len() && (b[s3] == 110 || b[s3] == 102)) {
            return None;
        }
        if find_token_end(b, s3) != s3 + 1 {
            return None;
        }
        acc.push(
            XrefEntry {
                id: (id + done) as i32,
                offset,
                generation: generation as i32,
                in_use: b[s3] == 110,
                container: 0,
            },
        );
        cur = s3 + 1;
        done += 1;
    }
    Some(cur)
}

/// Reads the sections of a cross-reference table up to the word
/// `trailer`, whose position it returns.
pub fn read_xref_sections(b: &Vec<u8>, pos: usize, lines: &mut Vec<XrefEntry>) -> (r: Option<
    usize,
>)
    requires
        pos <= b.len(),
        old(lines)@.len() == 0,
    ensures
        r matches Some(at) ==> parse_xref_sections(b@, pos as int, Seq::empty()) == Some(
            (final(lines)@, at as int),
        ) && at + 7 <= b.len(),
        r is None ==> parse_xref_sections(b@, pos as int, Seq::empty()) is None,
{
    let mut cur: usize = pos;
    let word: Vec<u8> = trailer_bytes();
    assert(lines@ =~= Seq::<XrefEntry>::empty());
    loop
        invariant
            pos <= cur <= b.len(),
            word@ == trailer_word(),
            parse_xref_sections(b@, pos as int, Seq::empty()) == parse_xref_sections(
                b@,
                cur as int,
                lines@,
            ),
        decreases b.len() - cur,
    {
        let p: usize = skip_white(b, cur);
        if starts_at(b, p, &word) {
            return Some(p);
        }
        let e1: usize = find_token_end(b, p);
        let s2: usize = skip_white(b, e1);
        let e2: usize = find_token_end(b, s2);
        let first: u64 = match read_digits(b, p, e1, MAX_OBJECT_ID as u64) {
            Some(n) => n,
            None => {
                return None;
            },
        };
        let count: u64 = match read_digits(b, s2, e2, (MAX_OBJECT_ID + 1) as u64) {
            Some(n) => n,
            None => {
                return None;
            },
        };
        match read_xref_lines(b, e2, first, count, lines) {
            Some(next) => {
                if next <= cur {
                    return None;
                }
                cur = next;
            },
            None => {
                return None;
            },
        }
    }
}

pub fn read_xref_table(b: &Vec<u8>, pos: usize) -> (r: Option<(Vec<XrefEntry>, Vec<Entry>)>)
    ensures
        r matches Some((lines, trailer)) ==> parse_xref_table(b@, pos as int) == Some(
            (lines@, entries_view(trailer@)),
        ) && entries_wf(entries_view(trailer@)),
        r is None ==> parse_xref_table(b@, pos as int) is None,
{
    let word: Vec<u8> = xref_bytes();
    if !starts_at(b, pos, &word) {
        return None;
    }
    assert(word@.len() == 4);
    assert(pos + 4 <= b.len());
    let mut lines: Vec<XrefEntry> = Vec::new();
    let at: usize = match read_xref_sections(b, pos + 4, &mut lines) {
        Some(at) => at,
        None => {
            return None;
        },
    };
    match read_value(b, at + 7, MAX_DEPTH) {
        Some((v, _)) => {
            proof {
                lemma_view_members(v);
            }
            match v {
                ObjectValue::Dictionary(trailer) => Some((lines, trailer)),
                _ => None,
            }
        },
        None => None,
    }
}

/// The version that the header declares: `%PDF-` at the start of the
/// file, then digits, a point and digits.
pub open spec fn header_version(b: Seq<u8>) -> Option<Seq<char>> {
    let d1 = digits_end(b, 5, b.len() as int);
    let d2 = digits_end(b, d1 + 1, b.len() as int);
    if has_at(b, 0, header_word()) && 5 < d1 < b.len() && b[d1] == 46 && d1 + 1 < d2 <= b.len()
        && valid_utf8(b.subrange(5, d2)) {
        Some(decode_utf8(b.subrange(5, d2)))
    } else {
        None
    }
}

pub fn read_header_version(b: &Vec<u8>) -> (r: Option<String>)
    ensures
        r matches Some(version) ==> header_version(b@) == Some(version@),
        r is None ==> header_version(b@) is None,
{
    let word: Vec<u8> = header_bytes();
    if !starts_at(b, 0, &word) {
        return None;
    }
    assert(word@.len() == 5);
    let d1: usize = find_digits_end(b, 5, b.len());
    if !(5 < d1 && d1 < b.len() && b[d1] == 46) {
        return None;
    }
    let d2: usize = find_digits_end(b, d1 + 1, b.len());
    if d2 <= d1 + 1 {
        return None;
    }
    text_of(copy_range(b, 5, d2))
}

/// The store that holds the objects which the lines from `i` on name, each
/// read at its offset, added to `objects`; a line for a free number, or
/// for an object held in an object stream, takes the object with that
/// number out. `None` where a line names an offset at which its object
/// does not stand.
pub open spec fn load_objects(b: Seq<u8>, lines: Seq<XrefEntry>, i: nat, objects: StoreModel)
    -> Option<StoreModel>
    decreases lines.len() - i,
{
    if i >= lines.len() {
        Some(objects)
    } else if !lines[i as int].in_use || lines[i as int].container != 0 {
        load_objects(b, lines, i + 1, without_number(objects, lines[i as int].id as int))
    } else {
        match parse_indirect_object(b, lines[i as int].offset as int) {
            Some((reference, v, _)) => if reference.id == lines[i as int].id
                && reference.generation == lines[i as int].generation {
                load_objects(b, lines, i + 1, with_object(objects, reference, v))
            } else {
                None
            },
            None => None,
        }
    }
}

pub fn read_objects(b: &Vec<u8>, lines: &Vec<XrefEntry>) -> (r: Option<ObjectStore>)
    ensures
        r matches Some(store) ==> load_objects(b@, lines@, 0, Seq::empty()) == Some(store@)
            && store.wf(),
        r is None ==> load_objects(b@, lines@, 0, Seq::empty()) is None,
{
    let mut store: ObjectStore = ObjectStore::new();
    let mut i: usize = 0;
    assert(store@ =~= Seq::empty());
    while i < lines.len()
        invariant
            i <= lines.len(),
            store.wf(),
            load_objects(b@, lines@, 0, Seq::empty()) == load_objects(
                b@,
                lines@,
                i as nat,
                store@,
            ),
        decreases lines.len() - i,
    {
        let line: XrefEntry = lines[i];
        if line.in_use && line.container == 0 {
            if line.offset >= b.len() as u64 {
                assert(parse_indirect_object(b@, line.offset as int) is None) by {
                    reveal(parse_indirect_object);
                    assert(token_end(b@, line.offset as int) == line.offset);
                    assert(bounded_digits(
                        b@,
                        line.offset as int,
                        token_end(b@, line.offset as int),
                        MAX_OBJECT_ID as nat,
                    ) is None);
                }
                return None;
            }
            match read_indirect_object(b, line.offset as usize) {
                Some((reference, v, _)) => {
                    if reference.id == line.id && reference.generation == line.generation {
                        let _ = store.put(reference, v);
                    } else {
                        return None;
                    }
                },
                None => {
                    return None;
                },
            }
        } else {
            store.clear(line.id);
        }
        i += 1;
    }
    Some(store)
}

/// Whether an object may start at `pos`: at the start of the file or of a
/// line, with a digit.
pub open spec fn is_object_start(b: Seq<u8>, pos: int) -> bool {
    0 <= pos < b.len() && is_digit(b[pos]) && (pos == 0 || is_eol(b[pos - 1]))
}

/// The store that holds every object found from `pos` on, added to
/// `objects`. An object is looked for wherever a line starts with a digit;
/// what follows an object that was read is looked at after its end; of two
/// objects with one number the later one stays.
pub open spec fn scan_objects(b: Seq<u8>, pos: int, objects: StoreModel) -> StoreModel
    decreases b.len() - pos,
{
    if pos < 0 || pos >= b.len() {
        objects
    } else if is_object_start(b, pos) {
        match parse_indirect_object(b, pos) {
            Some((reference, v, next)) => if pos < next <= b.len() {
                scan_objects(b, next, with_object(objects, reference, v))
            } else {
                scan_objects(b, pos + 1, objects)
            },
            None => scan_objects(b, pos + 1, objects),
        }
    } else {
        scan_objects(b, pos + 1, objects)
    }
}

pub fn read_by_scan(b: &Vec<u8>) -> (store: ObjectStore)
    ensures
        store@ == scan_objects(b@, 0, Seq::empty()),
        store.wf(),
{
    let mut store: ObjectStore = ObjectStore::new();
    let mut pos: usize = 0;
    assert(store@ =~= Seq::empty());
    while pos < b.len()
        invariant
            store.wf(),
            scan_objects(b@, 0, Seq::empty()) == scan_objects(b@, pos as int, store@),
        decreases b.len() - pos,
    {
        if byte_is_digit(b[pos]) && (pos == 0 || b[pos - 1] == 10 || b[pos - 1] == 13) {
            match read_indirect_object(b, pos) {
                Some((reference, v, next)) => {
                    let _ = store.put(reference, v);
                    pos = next;
                },
                None => {
                    pos += 1;
                },
            }
        } else {
            pos += 1;
        }
    }
    store
}

/// Whether the trailer names a root that the store holds as a dictionary.
pub open spec fn root_ok(objects: StoreModel, trailer: Seq<EntryModel>) -> bool {
    value_at_key(trailer, root_key()) matches Value::Indirect(r) && resolve(objects, r)
        is Dictionary
}

pub fn check_root(store: &ObjectStore, trailer: &Vec<Entry>) -> (r: bool)
    ensures
        r == root_ok(store@, entries_view(trailer@)),
{
    let key: String = root_key_string();
    let at: usize = find_key(trailer, &key);
    if at >= trailer.len() {
        return false;
    }
    match &trailer[at].1 {
        ObjectValue::Indirect(reference) => {
            match store.peek(*reference) {
                Some(v) => matches!(v, ObjectValue::Dictionary(_)),
                None => false,
            }
        },
        _ => false,
    }
}

/// What reading a file gives.
pub struct LoadedModel {
    pub version: Seq<char>,
    pub objects: StoreModel,
    pub trailer: Seq<EntryModel>,
    /// Whether the cross-reference data was rebuilt by a scan.
    pub recovered: bool,
}

/// The cross-reference data at `offset`: its lines and its trailer. A
/// table gives its lines, and after them those of the cross-reference
/// stream that its trailer names under `/XRefStm`. A cross-reference
/// stream gives its lines, and its dictionary as the trailer. Where
/// cross-reference streams are left aside, a table gives its own lines
/// only and a stream gives nothing.
#[verifier::opaque]
pub open spec fn parse_section(b: Seq<u8>, offset: int, ignore_streams: bool) -> Option<
    (Seq<XrefEntry>, Seq<EntryModel>),
> {
    if has_at(b, offset, xref_word()) {
        match parse_xref_table(b, offset) {
            Some((lines, trailer)) => if ignore_streams || !has_key(trailer, xref_stream_key()) {
                Some((lines, trailer))
            } else {
                match value_at_key(trailer, xref_stream_key()) {
                    Value::Integer(at) => match parse_xref_stream(b, at) {
                        Some((more, _)) => Some((lines + more, trailer)),
                        None => None,
                    },
                    _ => None,
                }
            },
            None => None,
        }
    } else if ignore_streams {
        None
    } else {
        parse_xref_stream(b, offset)
    }
}

/// The lines of the cross-reference data at `offset` and of the earlier
/// data that its trailer and theirs name under `/Prev`, the earliest
/// first, before the lines `newer`. `None` where data cannot be read, or
/// more than `fuel` sections follow one another.
pub open spec fn read_sections(
    b: Seq<u8>,
    offset: int,
    ignore_streams: bool,
    fuel: nat,
    newer: Seq<XrefEntry>,
) -> Option<Seq<XrefEntry>>
    decreases fuel,
{
    if fuel == 0 {
        None
    } else {
        match parse_section(b, offset, ignore_streams) {
            Some((lines, trailer)) => if !has_key(trailer, prev_key()) {
                Some(lines + newer)
            } else {
                match value_at_key(trailer, prev_key()) {
                    Value::Integer(prev) => read_sections(
                        b,
                        prev,
                        ignore_streams,
                        (fuel - 1) as nat,
                        lines + newer,
                    ),
                    _ => None,
                }
            },
            None => None,
        }
    }
}

/// What the cross-reference data gives: the last `startxref` names the
/// offset of the latest data, whose trailer is the trailer of the file;
/// the lines of earlier data give way to those of later data; every
/// object in use stands at its offset or in its object stream; and the
/// root is a dictionary.
pub open spec fn load_by_table(b: Seq<u8>, ignore_streams: bool) -> Option<
    (StoreModel, Seq<EntryModel>),
> {
    let s = last_index_of(b, startxref_word(), b.len() as int);
    let p = skip_space(b, s + 9);
    let e = token_end(b, p);
    if s >= 0 && bounded_digits(b, p, e, b.len()) is Some {
        let offset = bounded_digits(b, p, e, b.len())->0 as int;
        match parse_section(b, offset, ignore_streams) {
            Some((_, trailer)) => match read_sections(
                b,
                offset,
                ignore_streams,
                b.len() + 1,
                Seq::empty(),
            ) {
                Some(lines) => match load_objects(b, lines, 0, Seq::empty()) {
                    Some(standing) => match load_waiting(
                        standing,
                        waiting_of(lines, lines.len()),
                        0,
                        standing,
                    ) {
                        Some(objects) => if root_ok(objects, trailer) {
                            Some((objects, trailer))
                        } else {
                            None
                        },
                        None => None,
                    },
                    None => None,
                },
                None => None,
            },
            None => None,
        }
    } else {
        None
    }
}

/// What a scan of the whole file gives: every object found, and as
/// trailer the dictionary after the last word `trailer`; the root must be
/// a dictionary.
pub open spec fn load_by_scan(b: Seq<u8>) -> Option<(StoreModel, Seq<EntryModel>)> {
    let t = last_index_of(b, trailer_word(), b.len() as int);
    let objects = scan_objects(b, 0, Seq::empty());
    if t >= 0 {
        match parse_value(b, t + 7, MAX_DEPTH as nat) {
            Some((Value::Dictionary(trailer), _)) => if root_ok(objects, trailer) {
                Some((objects, trailer))
            } else {
                None
            },
            _ => None,
        }
    } else {
        None
    }
}

/// What reading the file `b` gives. A file without a header is a parse
/// error. Where the cross-reference tables cannot be used, the file is
/// scanned if `attempt_recovery` is set, and is refused for its
/// cross-reference data if not; a scan that finds no trailer and root is a
/// parse error. An encrypted file is refused.
pub open spec fn load(b: Seq<u8>, attempt_recovery: bool, ignore_streams: bool) -> Result<
    LoadedModel,
    ErrorKind,
> {
    match header_version(b) {
        None => Err(ErrorKind::ParseError),
        Some(version) => match load_by_table(b, ignore_streams) {
            Some((objects, trailer)) => if has_key(trailer, encrypt_key()) {
                Err(ErrorKind::EncryptionError)
            } else {
                Ok(LoadedModel { version, objects, trailer, recovered: false })
            },
            None => if !attempt_recovery {
                Err(ErrorKind::XrefCorruption)
            } else {
                match load_by_scan(b) {
                    Some((objects, trailer)) => if has_key(trailer, encrypt_key()) {
                        Err(ErrorKind::EncryptionError)
                    } else {
                        Ok(LoadedModel { version, objects, trailer, recovered: true })
                    },
                    None => Err(ErrorKind::ParseError),
                }
            },
        },
    }
}

/// A file that was read.
pub struct Loaded {
    pub version: String,
    pub objects: ObjectStore,
    pub trailer: Vec<Entry>,
    pub recovered: bool,
}

impl View for Loaded {
    type V = LoadedModel;

    open spec fn view(&self) -> LoadedModel {
        LoadedModel {
            version: self.version@,
            objects: self.objects@,
            trailer: entries_view(self.trailer@),
            recovered: self.recovered,
        }
    }
}

/// Reads the cross-reference data at `offset`.
pub fn read_section(b: &Vec<u8>, offset: usize, ignore_streams: bool) -> (r: Option<
    (Vec<XrefEntry>, Vec<Entry>),
>)
    ensures
        r matches Some((lines, trailer)) ==> parse_section(b@, offset as int, ignore_streams)
            == Some((lines@, entries_view(trailer@))) && entries_wf(entries_view(trailer@)),
        r is None ==> parse_section(b@, offset as int, ignore_streams) is None,
{
    reveal(parse_section);
    let word: Vec<u8> = xref_bytes();
    if starts_at(b, offset, &word) {
        let (lines, trailer) = match read_xref_table(b, offset) {
            Some(found) => found,
            None => {
                return None;
            },
        };
        let at: usize = find_key(&trailer, &xref_stream_key_string());
        if ignore_streams || at >= trailer.len() {
            return Some((lines, trailer));
        }
        match &trailer[at].1 {
            ObjectValue::Integer(place) => {
                if *place < 0 || (*place as u64) > b.len() as u64 {
                    proof {
                        reveal(parse_indirect_object);
                        assert(token_end(b@, *place as int) == *place);
                        assert(bounded_digits(
                            b@,
                            *place as int,
                            token_end(b@, *place as int),
                            MAX_OBJECT_ID as nat,
                        ) is None);
                    }
                    return None;
                }
                match read_xref_stream(b, *place as usize) {
                    Some((mut more, _)) => {
                        let mut lines = lines;
                        let ghost first = lines@;
                        let ghost second = more@;
                        lines.append(&mut more);
                        assert(lines@ =~= first + second);
                        Some((lines, trailer))
                    },
                    None => None,
                }
            },
            _ => None,
        }
    } else if ignore_streams {
        None
    } else {
        read_xref_stream(b, offset)
    }
}

/// No cross-reference data stands before the start or after the end of
/// the bytes.
pub proof fn lemma_no_section_beyond(b: Seq<u8>, offset: int, ignore_streams: bool)
    requires
        offset < 0 || offset > b.len(),
    ensures
        parse_section(b, offset, ignore_streams) is None,
{
    reveal(parse_section);
    reveal(parse_indirect_object);
    assert(token_end(b, offset) == offset);
    assert(bounded_digits(b, offset, token_end(b, offset), MAX_OBJECT_ID as nat) is None);
}

/// Reads the lines of the cross-reference data at `offset` and of the
/// earlier data.
pub fn read_all_sections(b: &Vec<u8>, offset: usize, ignore_streams: bool) -> (r: Option<
    Vec<XrefEntry>,
>)
    ensures
        r matches Some(lines) ==> read_sections(
            b@,
            offset as int,
            ignore_streams,
            b@.len() + 1,
            Seq::empty(),
        ) == Some(lines@),
        r is None ==> read_sections(
            b@,
            offset as int,
            ignore_streams,
            b@.len() + 1,
            Seq::empty(),
        ) is None,
{
    let mut newer: Vec<XrefEntry> = Vec::new();
    let mut at: usize = offset;
    let mut fuel: usize = b.len();
    let prev_name: String = prev_key_string();
    loop
        invariant
            prev_name@ == prev_key(),
            fuel <= b.len(),
            read_sections(b@, offset as int, ignore_streams, b@.len() + 1, Seq::empty())
                == read_sections(b@, at as int, ignore_streams, (fuel + 1) as nat, newer@),
        decreases fuel,
    {
        let (lines, trailer) = match read_section(b, at, ignore_streams) {
            Some(found) => found,
            None => {
                return None;
            },
        };
        let mut lines = lines;
        let ghost before = newer@;
        let ghost these = lines@;
        lines.append(&mut newer);
        newer = lines;
        assert(newer@ =~= these + before);
        let p: usize = find_key(&trailer, &prev_name);
        if p >= trailer.len() {
            return Some(newer);
        }
        match &trailer[p].1 {
            ObjectValue::Integer(prev) => {
                if fuel == 0 {
                    return None;
                }
                if *prev < 0 || (*prev as u64) > b.len() as u64 {
                    proof {
                        lemma_no_section_beyond(b@, *prev as int, ignore_streams);
                        assert(read_sections(
                            b@,
                            *prev as int,
                            ignore_streams,
                            fuel as nat,
                            newer@,
                        ) is None);
                    }
                    return None;
                }
                at = *prev as usize;
                fuel = fuel - 1;
            },
            _ => {
                return None;
            },
        }
    }
}

fn read_by_table(b: &Vec<u8>, ignore_streams: bool) -> (r: Option<(ObjectStore, Vec<Entry>)>)
    ensures
        r matches Some((store, trailer)) ==> load_by_table(b@, ignore_streams) == Some(
            (store@, entries_view(trailer@)),
        ) && store.wf() && entries_wf(entries_view(trailer@)),
        r is None ==> load_by_table(b@, ignore_streams) is None,
{
    let word: Vec<u8> = startxref_bytes();
    let s: usize = match find_last(b, &word) {
        Some(s) => s,
        None => {
            return None;
        },
    };
    assert(word@.len() == 9);
    let p: usize = skip_white(b, s + 9);
    let e: usize = find_token_end(b, p);
    let offset: u64 = match read_digits(b, p, e, b.len() as u64) {
        Some(n) => n,
        None => {
            return None;
        },
    };
    let (_, trailer) = match read_section(b, offset as usize, ignore_streams) {
        Some(found) => found,
        None => {
            return None;
        },
    };
    let lines: Vec<XrefEntry> = match read_all_sections(b, offset as usize, ignore_streams) {
        Some(lines) => lines,
        None => {
            return None;
        },
    };
    let standing: ObjectStore = match read_objects(b, &lines) {
        Some(store) => store,
        None => {
            return None;
        },
    };
    let waiting: Vec<Option<(i32, u64)>> = find_waiting(&lines);
    if waiting.len() == 0 {
        // nothing is held in an object stream
        return if check_root(&standing, &trailer) {
            Some((standing, trailer))
        } else {
            None
        };
    }
    let mut store: ObjectStore = standing.duplicate();
    if !read_waiting(&standing, &waiting, &mut store) {
        return None;
    }
    if check_root(&store, &trailer) {
        Some((store, trailer))
    } else {
        None
    }
}

fn read_by_rescan(b: &Vec<u8>) -> (r: Option<(ObjectStore, Vec<Entry>)>)
    ensures
        r matches Some((store, trailer)) ==> load_by_scan(b@) == Some(
            (store@, entries_view(trailer@)),
        ) && store.wf() && entries_wf(entries_view(trailer@)),
        r is None ==> load_by_scan(b@) is None,
{
    let word: Vec<u8> = trailer_bytes();
    let t: usize = match find_last(b, &word) {
        Some(t) => t,
        None => {
            return None;
        },
    };
    assert(word@.len() == 7);
    let store: ObjectStore = read_by_scan(b);
    match read_value(b, t + 7, MAX_DEPTH) {
        Some((v, _)) => {
            proof {
                lemma_view_members(v);
            }
            match v {
                ObjectValue::Dictionary(trailer) => {
                    if check_root(&store, &trailer) {
                        Some((store, trailer))
                    } else {
                        None
                    }
                },
                _ => None,
            }
        },
        None => None,
    }
}

/// Reads the file `b`.
pub fn load_document(b: &Vec<u8>, attempt_recovery: bool, ignore_streams: bool) -> (r: Result<
    Loaded,
    ErrorKind,
>)
    ensures
        r matches Ok(loaded) ==> load(b@, attempt_recovery, ignore_streams) == Ok::<
            LoadedModel,
            ErrorKind,
        >(loaded@) && loaded.objects.wf() && entries_wf(loaded@.trailer),
        r matches Err(kind) ==> load(b@, attempt_recovery, ignore_streams) == Err::<
            LoadedModel,
            ErrorKind,
        >(kind),
{
    let version: String = match read_header_version(b) {
        Some(version) => version,
        None => {
            return Err(ErrorKind::ParseError);
        },
    };
    let (found, recovered) = match read_by_table(b, ignore_streams) {
        Some(found) => (found, false),
        None => {
            if !attempt_recovery {
                return Err(ErrorKind::XrefCorruption);
            }
            match read_by_rescan(b) {
                Some(found) => (found, true),
                None => {
                    return Err(ErrorKind::ParseError);
                },
            }
        },
    };
    let (objects, trailer) = found;
    if find_key(&trailer, &encrypt_key_string()) < trailer.len() {
        return Err(ErrorKind::EncryptionError);
    }
    Ok(Loaded { version, objects, trailer, recovered })
}

} // verus!
