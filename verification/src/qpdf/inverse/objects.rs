//! An indirect object is read back as it was written.

use crate::qpdf::document::{
    after_eol, endstream_word, obj_word, parse_indirect_object,
    parse_object_header, stream_data_start, stream_extent, stream_word,
};
use crate::qpdf::keys::length_key;
use crate::qpdf::inverse::lexical::{
    ends_token, lemma_digits_of, lemma_has_at, lemma_has_at_split, lemma_int_text,
    lemma_read_digits_of, lemma_skip_space_one, lemma_token_end_is,
};
use crate::qpdf::inverse::values::{
    entries_writable, lemma_parse_dictionary, lemma_parse_written, lemma_text_start,
};
use crate::qpdf::layout::{
    is_name_text, object_close_text, object_open_text, object_text, writable, writable_object,
};
use crate::qpdf::object::entries_with_key;
use crate::qpdf::object::types::ObjectRef;
use crate::qpdf::object::value::{lemma_key_index, value_at_key, Value};
use crate::qpdf::reader::{reference_follows, MAX_DEPTH};
use crate::qpdf::store::MAX_OBJECT_ID;
use crate::qpdf::syntax::{bounded_digits, digits_of, has_at, int_text, is_regular};
use crate::qpdf::writer::{stream_close_text, stream_open_text};
use vstd::prelude::*;

verus! {

/// A stream names the length of its data under `/Length`; every other
/// value is in order as it is.
pub open spec fn length_in_order(v: Value) -> bool {
    v matches Value::Stream(entries, data) ==> value_at_key(entries, length_key())
        == Value::Integer(data.len() as int)
}

/// Where the head of the object `number` stands, it is read as that
/// number with generation 0, up to the line feed after `obj`.
pub proof fn lemma_parse_header(b: Seq<u8>, at: int, number: int)
    requires
        0 < number <= MAX_OBJECT_ID,
        has_at(b, at, int_text(number) + object_open_text()),
    ensures
        parse_object_header(b, at) == Some(
            (
                ObjectRef { id: number as i32, generation: 0 },
                at + int_text(number).len() + 6,
            ),
        ),
        b[at + int_text(number).len() + 6] == 10,
        at + int_text(number).len() + 7 <= b.len(),
{
    let id = int_text(number);
    let open = object_open_text();
    lemma_int_text(number);
    lemma_digits_of(number as nat);
    lemma_has_at_split(b, at, id, open);
    lemma_has_at(b, at, id);
    let e1 = at + id.len();
    lemma_has_at(b, e1, open);
    assert(b[e1 + 0] == open[0]);
    assert(b[e1 + 1] == open[1]);
    assert(b[e1 + 2] == open[2]);
    assert(b[e1 + 3] == open[3]);
    assert(b[e1 + 4] == open[4]);
    assert(b[e1 + 5] == open[5]);
    assert(b[e1 + 6] == open[6]);
    assert forall|k: int| at <= k < e1 implies is_regular(#[trigger] b[k]) by {
        assert(b[at + (k - at)] == id[k - at]);
    }
    lemma_token_end_is(b, at, e1);
    lemma_skip_space_one(b, e1);
    lemma_token_end_is(b, e1 + 1, e1 + 2);
    lemma_skip_space_one(b, e1 + 2);
    lemma_token_end_is(b, e1 + 3, e1 + 6);
    lemma_read_digits_of(b, at, number as nat, MAX_OBJECT_ID as nat);
    assert(b.subrange(e1 + 1, e1 + 2) =~= digits_of(0));
    lemma_digits_of(0);
    assert(bounded_digits(b, e1 + 1, e1 + 2, 65535) == Some(0nat));
    assert(b.subrange(e1 + 3, e1 + 6) =~= obj_word());
}

/// Where the text of the object `number` stands, it is read as the
/// object with that number, generation 0 and the value that was
/// written, up to the `endobj` that closes it.
pub proof fn lemma_parse_object(b: Seq<u8>, at: int, number: int, v: Value)
    requires
        0 < number <= MAX_OBJECT_ID,
        v.wf(),
        writable_object(v),
        length_in_order(v),
        has_at(b, at, object_text(number, v)),
    ensures
        parse_indirect_object(b, at) matches Some(found) && found.0 == (ObjectRef {
            id: number as i32,
            generation: 0,
        }) && found.1 == v && found.2 == at + object_text(number, v).len() - 8,
{
    reveal(parse_indirect_object);
    let id = int_text(number);
    let open = object_open_text();
    let t = v.text();
    let close = object_close_text();
    assert(object_text(number, v) =~= (id + open) + (t + close));
    lemma_has_at_split(b, at, id + open, t + close);
    lemma_parse_header(b, at, number);
    let after = at + id.len() + 6;
    let start = after + 1;
    assert((id + open).len() == id.len() + 7);
    lemma_has_at_split(b, start, t, close);
    let e = start + t.len();
    lemma_has_at(b, e, close);
    assert(b[e + 0] == close[0]);
    assert(b[e + 1] == close[1]);
    match v {
        Value::Stream(entries, data) => {
            let dictionary = Value::Dictionary(entries);
            let d = dictionary.text();
            lemma_text_start(dictionary, MAX_DEPTH as nat);
            assert(t =~= d + (stream_open_text() + (data + stream_close_text())));
            lemma_has_at_split(b, start, d, stream_open_text() + (data + stream_close_text()));
            lemma_has_at(b, start, d);
            assert(b[start + 0] == d[0]);
            lemma_skip_space_one(b, after);
            assert(dictionary->Dictionary_0 == entries);
            assert(v->Stream_0 == entries);
            assert(entries_writable(entries, 0, (MAX_DEPTH - 1) as nat)) by {
                assert forall|j: int| 0 <= j < entries.len() implies is_name_text(
                    (#[trigger] entries[j]).0,
                ) && writable(entries[j].1, (MAX_DEPTH - 1) as nat) && entries[j].1.wf() by {
                    assert(dictionary->Dictionary_0[j] == entries[j]);
                    assert(v->Stream_0[j] == entries[j]);
                }
            }
            lemma_parse_dictionary(b, after, start, entries, MAX_DEPTH as nat);
            let next = start + d.len();
            let open_stream = stream_open_text();
            let close_stream = stream_close_text();
            lemma_has_at_split(b, next, open_stream, data + close_stream);
            lemma_has_at(b, next, open_stream);
            assert(b[next + 0] == open_stream[0]);
            assert(b[next + 1] == open_stream[1]);
            assert(b[next + 7] == open_stream[7]);
            lemma_skip_space_one(b, next);
            assert(b.subrange(next + 1, next + 7) =~= stream_word()) by {
                assert forall|k: int| 0 <= k < 6 implies b.subrange(next + 1, next + 7)[k]
                    == stream_word()[k] by {
                    assert(b[next + (k + 1)] == open_stream[k + 1]);
                }
            }
            let first = next + 8;
            lemma_has_at_split(b, first, data, close_stream);
            lemma_has_at(b, first, data);
            let last = first + data.len();
            lemma_has_at(b, last, close_stream);
            assert(b[last + 0] == close_stream[0]);
            assert(b.subrange(last + 1, last + 10) =~= endstream_word()) by {
                assert forall|k: int| 0 <= k < 9 implies b.subrange(last + 1, last + 10)[k]
                    == endstream_word()[k] by {
                    assert(b[last + (k + 1)] == close_stream[k + 1]);
                }
            }
            assert(after_eol(b, last) == last + 1);
            assert(has_at(b, last + 1, endstream_word()));
            assert(stream_data_start(b, next + 7) == Some(first));
            assert(stream_extent(b, first, entries) == Some((last, last + 10)));
            assert(b.subrange(first, last) == data);
            lemma_key_index(entries, length_key());
            assert(entries_with_key(entries, length_key(), Value::Integer(data.len() as int))
                =~= entries);
        },
        _ => {
            lemma_text_start(v, MAX_DEPTH as nat);
            lemma_has_at(b, start, t);
            assert(b[start + 0] == t[0]);
            lemma_skip_space_one(b, after);
            lemma_skip_space_one(b, e);
            assert(!reference_follows(b, e));
            assert(ends_token(b, e));
            lemma_parse_written(b, after, start, v, MAX_DEPTH as nat);
            assert(!has_at(b, e + 1, stream_word())) by {
                if has_at(b, e + 1, stream_word()) {
                    lemma_has_at(b, e + 1, stream_word());
                    assert(b[e + 1 + 0] == stream_word()[0]);
                }
            }
        },
    }
}

} // verus!
