//! The text of values: how each value is written.

use crate::qpdf::object::types::ObjectRef;
use crate::qpdf::object::value::{
    entries_view, lemma_view_members, values_view, Entry, EntryModel, ObjectValue, Value,
};
use crate::qpdf::syntax::{int_text, is_regular, push_int};
use vstd::prelude::*;
use vstd::utf8::encode_utf8;

verus! {

/// The hexadecimal digit of a number below 16, in upper case.
pub open spec fn hex_digit(n: u8) -> u8 {
    if n < 10 {
        (48 + n) as u8
    } else {
        (55 + n) as u8
    }
}

/// Two hexadecimal digits for each byte.
pub open spec fn hex_text(s: Seq<u8>) -> Seq<u8>
    decreases s.len(),
{
    if s.len() == 0 {
        Seq::empty()
    } else {
        hex_text(s.drop_last()) + seq![hex_digit(s.last() / 16), hex_digit(s.last() % 16)]
    }
}

/// A byte of a name is written as `#` and two hexadecimal digits where it
/// is not regular, is `#`, or is outside the printable range.
pub open spec fn needs_escape(b: u8) -> bool {
    !is_regular(b) || b == 35 || b < 33 || b > 126
}

/// The bytes of a name as they are written.
pub open spec fn escaped(s: Seq<u8>) -> Seq<u8>
    decreases s.len(),
{
    if s.len() == 0 {
        Seq::empty()
    } else if needs_escape(s.last()) {
        escaped(s.drop_last()) + seq![35u8, hex_digit(s.last() / 16), hex_digit(s.last() % 16)]
    } else {
        escaped(s.drop_last()).push(s.last())
    }
}

/// What follows the first element.
pub open spec fn tail<A>(s: Seq<A>) -> Seq<A> {
    if s.len() > 0 {
        s.subrange(1, s.len() as int)
    } else {
        s
    }
}

/// The text of a name: a slash, then the bytes after the name's own
/// leading slash, escaped.
pub open spec fn name_text(name: Seq<char>) -> Seq<u8> {
    seq![47u8] + escaped(tail(encode_utf8(name)))
}

/// The text of a reference: number, generation, `R`.
pub open spec fn reference_text(r: ObjectRef) -> Seq<u8> {
    int_text(r.id as int) + seq![32u8] + int_text(r.generation as int) + seq![32u8, 82u8]
}

/// `null`
pub open spec fn null_text() -> Seq<u8> {
    seq![110u8, 117, 108, 108]
}

/// `true`
pub open spec fn true_text() -> Seq<u8> {
    seq![116u8, 114, 117, 101]
}

/// `false`
pub open spec fn false_text() -> Seq<u8> {
    seq![102u8, 97, 108, 115, 101]
}

/// A line feed, `stream` and a line feed.
pub open spec fn stream_open_text() -> Seq<u8> {
    seq![10u8, 115, 116, 114, 101, 97, 109, 10]
}

/// A line feed and `endstream`.
pub open spec fn stream_close_text() -> Seq<u8> {
    seq![10u8, 101, 110, 100, 115, 116, 114, 101, 97, 109]
}

impl Value {
    /// The text of a value. An array is `[ `, each item followed by a
    /// space, and `]`; a dictionary is `<< `, each key and each value
    /// followed by a space, and `>>`; a stream is its dictionary, then its
    /// data between `stream` and `endstream`.
    pub open spec fn text(self) -> Seq<u8>
        decreases self, 0nat,
    {
        match self {
            Value::Null => null_text(),
            Value::Bool(b) => if b {
                true_text()
            } else {
                false_text()
            },
            Value::Integer(i) => int_text(i),
            Value::Real(s) => encode_utf8(s),
            Value::Name(n) => name_text(n),
            Value::String(b) => seq![60u8] + hex_text(b) + seq![62u8],
            Value::Array(items) => seq![91u8, 32] + items_text(items, items.len()) + seq![93u8],
            Value::Dictionary(entries) => seq![60u8, 60, 32] + entries_text(
                entries,
                entries.len(),
            ) + seq![62u8, 62],
            Value::Stream(entries, data) => seq![60u8, 60, 32] + entries_text(
                entries,
                entries.len(),
            ) + seq![62u8, 62] + stream_open_text() + data + stream_close_text(),
            Value::Operator(s) => encode_utf8(s),
            Value::Indirect(r) => reference_text(r),
        }
    }
}

/// The text of the first `n` items, each followed by a space.
pub open spec fn items_text(items: Seq<Value>, n: nat) -> Seq<u8>
    decreases items, n,
{
    if n == 0 || n > items.len() {
        Seq::empty()
    } else {
        items_text(items, (n - 1) as nat) + items[n - 1].text() + seq![32u8]
    }
}

/// The text of the first `n` entries: each key and each value followed by
/// a space.
pub open spec fn entries_text(entries: Seq<EntryModel>, n: nat) -> Seq<u8>
    decreases entries, n,
{
    if n == 0 || n > entries.len() {
        Seq::empty()
    } else {
        entries_text(entries, (n - 1) as nat) + name_text(entries[n - 1].0) + seq![32u8]
            + entries[n - 1].1.text() + seq![32u8]
    }
}

/// Adds `bytes` to `out`.
pub fn push_all(out: &mut Vec<u8>, bytes: &[u8])
    ensures
        final(out)@ == old(out)@ + bytes@,
{
    let mut i: usize = 0;
    while i < bytes.len()
        invariant
            i <= bytes.len(),
            out@ == old(out)@ + bytes@.subrange(0, i as int),
        decreases bytes.len() - i,
    {
        out.push(bytes[i]);
        assert(bytes@.subrange(0, i + 1) =~= bytes@.subrange(0, i as int).push(bytes@[i as int]));
        i += 1;
    }
    assert(bytes@.subrange(0, i as int) =~= bytes@);
}

/// The hexadecimal digit of `n`.
pub fn hex_digit_of(n: u8) -> (r: u8)
    requires
        n < 16,
    ensures
        r == hex_digit(n),
{
    if n < 10 {
        48 + n
    } else {
        55 + n
    }
}

/// Adds the hexadecimal text of `bytes` to `out`.
pub fn push_hex(out: &mut Vec<u8>, bytes: &[u8])
    ensures
        final(out)@ == old(out)@ + hex_text(bytes@),
{
    let mut i: usize = 0;
    assert(bytes@.subrange(0, 0) =~= Seq::<u8>::empty());
    while i < bytes.len()
        invariant
            i <= bytes.len(),
            out@ == old(out)@ + hex_text(bytes@.subrange(0, i as int)),
        decreases bytes.len() - i,
    {
        let c: u8 = bytes[i];
        out.push(hex_digit_of(c / 16));
        out.push(hex_digit_of(c % 16));
        proof {
            let t = bytes@.subrange(0, i + 1);
            assert(t.drop_last() =~= bytes@.subrange(0, i as int));
            assert(t.last() == c);
            assert(out@ =~= old(out)@ + hex_text(t));
        }
        i += 1;
    }
    assert(bytes@.subrange(0, i as int) =~= bytes@);
}

/// Adds the text of the name `name` to `out`.
pub fn push_name(out: &mut Vec<u8>, name: &String)
    ensures
        final(out)@ == old(out)@ + name_text(name@),
{
    let bytes: &[u8] = name.as_str().as_bytes();
    out.push(47);
    if bytes.len() == 0 {
        assert(escaped(tail(bytes@)) =~= Seq::<u8>::empty());
        assert(out@ =~= old(out)@ + name_text(name@));
        return;
    }
    let ghost rest = tail(bytes@);
    let mut i: usize = 1;
    assert(rest.subrange(0, 0) =~= Seq::<u8>::empty());
    while i < bytes.len()
        invariant
            1 <= i <= bytes.len(),
            rest == tail(bytes@),
            bytes@ == encode_utf8(name@),
            out@ == old(out)@ + seq![47u8] + escaped(rest.subrange(0, i - 1)),
        decreases bytes.len() - i,
    {
        let c: u8 = bytes[i];
        proof {
            let t = rest.subrange(0, i as int);
            assert(t.drop_last() =~= rest.subrange(0, i - 1));
            assert(t.last() == c);
        }
        if !crate::qpdf::syntax::byte_is_regular(c) || c == 35 || c < 33 || c > 126 {
            out.push(35);
            out.push(hex_digit_of(c / 16));
            out.push(hex_digit_of(c % 16));
        } else {
            out.push(c);
        }
        assert(out@ =~= old(out)@ + seq![47u8] + escaped(rest.subrange(0, i as int)));
        i += 1;
    }
    assert(rest.subrange(0, i - 1) =~= rest);
    assert(out@ =~= old(out)@ + name_text(name@));
}

/// Adds the text of the entries to `out`.
pub fn push_entries(out: &mut Vec<u8>, entries: &Vec<Entry>)
    ensures
        final(out)@ == old(out)@ + entries_text(
            entries_view(entries@),
            entries_view(entries@).len(),
        ),
    decreases entries,
{
    let ghost model = entries_view(entries@);
    let mut i: usize = 0;
    assert(out@ =~= old(out)@ + entries_text(model, 0));
    while i < entries.len()
        invariant
            i <= entries.len(),
            model == entries_view(entries@),
            out@ == old(out)@ + entries_text(model, i as nat),
        decreases entries.len() - i,
    {
        let ghost before = out@;
        let e: &Entry = &entries[i];
        push_name(out, &e.0);
        out.push(32);
        push_value(out, &e.1);
        out.push(32);
        assert(out@ =~= old(out)@ + entries_text(model, (i + 1) as nat)) by {
            assert(model[i as int] == (e.0@, e.1@));
            assert(out@ =~= before + name_text(e.0@) + seq![32u8] + e.1@.text() + seq![32u8]);
        }
        i += 1;
    }
}

/// Adds the text of `v` to `out`.
#[verifier::loop_isolation(false)]
pub fn push_value(out: &mut Vec<u8>, v: &ObjectValue)
    ensures
        final(out)@ == old(out)@ + v@.text(),
    decreases v,
{
    proof {
        lemma_view_members(*v);
    }
    match v {
        ObjectValue::Null => {
            out.push(110);
            out.push(117);
            out.push(108);
            out.push(108);
            assert(out@ =~= old(out)@ + null_text());
        },
        ObjectValue::Bool(b) => {
            if *b {
                out.push(116);
                out.push(114);
                out.push(117);
                out.push(101);
                assert(out@ =~= old(out)@ + true_text());
            } else {
                out.push(102);
                out.push(97);
                out.push(108);
                out.push(115);
                out.push(101);
                assert(out@ =~= old(out)@ + false_text());
            }
        },
        ObjectValue::Integer(i) => {
            push_int(out, *i);
        },
        ObjectValue::Real(s) => {
            push_all(out, s.as_str().as_bytes());
        },
        ObjectValue::Name(n) => {
            push_name(out, n);
        },
        ObjectValue::String(b) => {
            out.push(60);
            push_hex(out, b.as_slice());
            out.push(62);
            assert(out@ =~= old(out)@ + (seq![60u8] + hex_text(b@) + seq![62u8]));
        },
        ObjectValue::Array(items) => {
            out.push(91);
            out.push(32);
            let ghost model = values_view(items@);
            let mut i: usize = 0;
            assert(out@ =~= old(out)@ + seq![91u8, 32] + items_text(model, 0));
            while i < items.len()
                invariant
                    i <= items.len(),
                    model == values_view(items@),
                    out@ == old(out)@ + seq![91u8, 32] + items_text(model, i as nat),
                decreases items.len() - i,
            {
                let ghost before = out@;
                push_value(out, &items[i]);
                out.push(32);
                assert(out@ =~= old(out)@ + seq![91u8, 32] + items_text(model, (i + 1) as nat))
                    by {
                    assert(model[i as int] == items@[i as int]@);
                    assert(out@ =~= before + items@[i as int]@.text() + seq![32u8]);
                }
                i += 1;
            }
            out.push(93);
            assert(out@ =~= old(out)@ + (seq![91u8, 32] + items_text(model, model.len())
                + seq![93u8]));
        },
        ObjectValue::Dictionary(entries) => {
            out.push(60);
            out.push(60);
            out.push(32);
            push_entries(out, entries);
            out.push(62);
            out.push(62);
            let ghost model = entries_view(entries@);
            assert(out@ =~= old(out)@ + (seq![60u8, 60, 32] + entries_text(model, model.len())
                + seq![62u8, 62]));
        },
        ObjectValue::Stream(entries, data) => {
            out.push(60);
            out.push(60);
            out.push(32);
            push_entries(out, entries);
            out.push(62);
            out.push(62);
            let ghost model = entries_view(entries@);
            let ghost mid = out@;
            assert(mid =~= old(out)@ + (seq![60u8, 60, 32] + entries_text(model, model.len())
                + seq![62u8, 62]));
            push_all(out, open_keyword().as_slice());
            push_all(out, data.as_slice());
            push_all(out, close_keyword().as_slice());
            assert(out@ =~= old(out)@ + (seq![60u8, 60, 32] + entries_text(model, model.len())
                + seq![62u8, 62] + stream_open_text() + data@ + stream_close_text()));
        },
        ObjectValue::Operator(s) => {
            push_all(out, s.as_str().as_bytes());
        },
        ObjectValue::Indirect(r) => {
            push_int(out, r.id as i64);
            out.push(32);
            push_int(out, r.generation as i64);
            out.push(32);
            out.push(82);
            assert(out@ =~= old(out)@ + reference_text(*r));
        },
    }
}

/// The bytes that open the data of a stream.
pub fn open_keyword() -> (r: Vec<u8>)
    ensures
        r@ == stream_open_text(),
{
    let r: Vec<u8> = vec![10, 115, 116, 114, 101, 97, 109, 10];
    assert(r@ =~= stream_open_text());
    r
}

/// The bytes that close the data of a stream.
pub fn close_keyword() -> (r: Vec<u8>)
    ensures
        r@ == stream_close_text(),
{
    let r: Vec<u8> = vec![10, 101, 110, 100, 115, 116, 114, 101, 97, 109];
    assert(r@ =~= stream_close_text());
    r
}

} // verus!
