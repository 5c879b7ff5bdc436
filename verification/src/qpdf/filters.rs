//! The stream filters that the library undoes and applies itself: run
//! lengths, and hexadecimal digits.

use crate::qpdf::keys::{
    decode_parms_key, decode_parms_key_string, filter_key, filter_key_string, hex_filter_key,
    hex_filter_key_string, run_length_filter_key, run_length_filter_key_string,
};
use crate::qpdf::object::value::{
    entries_view, entries_wf, has_key, lemma_view_members, value_at_key, Entry, EntryModel,
    ObjectValue, Value,
};
use crate::qpdf::object::{
    entries_with_key, entries_without_key, find_key, lemma_entries_with_key,
    lemma_entries_without_key, remove_entry, replace_entry,
};
use crate::qpdf::reader::{read_hex_string, scan_hex};
use crate::qpdf::write::{QPDFWriteDecodeLevel, QPDFWriteParams, QPDFWriteStreamData};
use vstd::prelude::*;

verus! {

/// `n` times the byte `c`.
pub open spec fn repeated(c: u8, n: nat) -> Seq<u8> {
    Seq::new(n, |i: int| c)
}

/// What run-length data from `pos` on stands for, added to `acc`. A
/// length byte below 128 is followed by one more than that many bytes
/// to take as they are; one above 128 by a byte to take 257 minus that
/// many times; 128 ends the data, as does the end of the bytes. `None`
/// where the bytes end within a run.
pub open spec fn run_length_decoded(data: Seq<u8>, pos: int, acc: Seq<u8>) -> Option<Seq<u8>>
    decreases data.len() - pos,
{
    if pos < 0 || pos >= data.len() {
        Some(acc)
    } else {
        let l = data[pos];
        if l == 128 {
            Some(acc)
        } else if l < 128 {
            if pos + l + 2 <= data.len() {
                run_length_decoded(data, pos + l + 2, acc + data.subrange(pos + 1, pos + l + 2))
            } else {
                None
            }
        } else if pos + 1 < data.len() {
            run_length_decoded(data, pos + 2, acc + repeated(data[pos + 1], (257 - l) as nat))
        } else {
            None
        }
    }
}

/// Where the run of bytes equal to the byte at `pos` ends, looked for
/// from `i` on: at the end of the bytes, 128 bytes after `pos`, or at the
/// first other byte.
pub open spec fn run_end(data: Seq<u8>, pos: int, i: int) -> int
    decreases data.len() - i,
{
    if pos < 0 || i < pos || i >= data.len() || i - pos >= 128 || data[i] != data[pos] {
        i
    } else {
        run_end(data, pos, i + 1)
    }
}

/// Where the bytes to take as they are from `pos` on end, looked for from
/// `i` on: at the end of the bytes, 128 bytes after `pos`, or where two
/// equal bytes follow one another.
pub open spec fn literal_end(data: Seq<u8>, pos: int, i: int) -> int
    decreases data.len() - i,
{
    if pos < 0 || i < pos || i >= data.len() || i - pos >= 128 || (i + 1 < data.len() && data[i]
        == data[i + 1]) {
        i
    } else {
        literal_end(data, pos, i + 1)
    }
}

/// The run-length data for the bytes from `pos` on: two or more equal
/// bytes, up to 128, become a run; other bytes, up to 128, are taken as
/// they are; the data ends with 128.
pub open spec fn run_length_encoded(data: Seq<u8>, pos: int) -> Seq<u8>
    decreases data.len() - pos,
{
    if pos < 0 || pos >= data.len() {
        seq![128u8]
    } else {
        let r = run_end(data, pos, pos + 1);
        let e = literal_end(data, pos, pos + 1);
        if pos + 2 <= r <= data.len() {
            seq![(257 - (r - pos)) as u8, data[pos]] + run_length_encoded(data, r)
        } else if pos < e <= data.len() {
            seq![(e - pos - 1) as u8] + data.subrange(pos, e) + run_length_encoded(data, e)
        } else {
            seq![128u8]
        }
    }
}

pub proof fn lemma_run_end(data: Seq<u8>, pos: int, i: int)
    requires
        0 <= pos <= i <= data.len(),
        i - pos <= 128,
        forall|j: int| pos <= j < i ==> data[j] == data[pos],
    ensures
        i <= run_end(data, pos, i) <= data.len(),
        run_end(data, pos, i) - pos <= 128,
        forall|j: int| pos <= j < run_end(data, pos, i) ==> data[j] == data[pos],
    decreases data.len() - i,
{
    if !(i >= data.len() || i - pos >= 128 || data[i] != data[pos]) {
        lemma_run_end(data, pos, i + 1);
    }
}

pub proof fn lemma_literal_end(data: Seq<u8>, pos: int, i: int)
    requires
        0 <= pos <= i <= data.len(),
        i - pos <= 128,
    ensures
        i <= literal_end(data, pos, i) <= data.len(),
        literal_end(data, pos, i) - pos <= 128,
    decreases data.len() - i,
{
    if !(i >= data.len() || i - pos >= 128 || (i + 1 < data.len() && data[i] == data[i + 1])) {
        lemma_literal_end(data, pos, i + 1);
    }
}

/// Decoding goes over bytes that stand before the data as if they were
/// not there.
pub proof fn lemma_decode_shift(x: Seq<u8>, y: Seq<u8>, pos: int, acc: Seq<u8>)
    requires
        0 <= pos,
    ensures
        run_length_decoded(x + y, x.len() + pos, acc) == run_length_decoded(y, pos, acc),
    decreases y.len() - pos,
{
    let d = x + y;
    let q = x.len() + pos;
    if pos < y.len() {
        assert(d[q] == y[pos]);
        let l = y[pos];
        if l == 128 {
        } else if l < 128 {
            if pos + l + 2 <= y.len() {
                assert(d.subrange(q + 1, q + l + 2) =~= y.subrange(pos + 1, pos + l + 2));
                lemma_decode_shift(x, y, pos + l + 2, acc + y.subrange(pos + 1, pos + l + 2));
            }
        } else if pos + 1 < y.len() {
            assert(d[q + 1] == y[pos + 1]);
            lemma_decode_shift(x, y, pos + 2, acc + repeated(y[pos + 1], (257 - l) as nat));
        }
    }
}

/// Run-length data is decoded as the bytes it was made from.
pub proof fn lemma_run_length_inverse(data: Seq<u8>, pos: int, acc: Seq<u8>)
    requires
        0 <= pos <= data.len(),
    ensures
        run_length_decoded(run_length_encoded(data, pos), 0, acc) == Some(
            acc + data.subrange(pos, data.len() as int),
        ),
    decreases data.len() - pos,
{
    let code = run_length_encoded(data, pos);
    if pos >= data.len() {
        assert(acc + data.subrange(pos, data.len() as int) =~= acc);
    } else {
        let r = run_end(data, pos, pos + 1);
        let e = literal_end(data, pos, pos + 1);
        lemma_run_end(data, pos, pos + 1);
        lemma_literal_end(data, pos, pos + 1);
        if pos + 2 <= r {
            let head = seq![(257 - (r - pos)) as u8, data[pos]];
            let rest = run_length_encoded(data, r);
            assert(code == head + rest);
            assert(code[0] == head[0]);
            assert(code[1] == head[1]);
            let run = repeated(data[pos], (r - pos) as nat);
            assert(run =~= data.subrange(pos, r));
            lemma_decode_shift(head, rest, 0, acc + run);
            lemma_run_length_inverse(data, r, acc + run);
            assert(acc + run + data.subrange(r, data.len() as int) =~= acc + data.subrange(
                pos,
                data.len() as int,
            ));
        } else {
            let chunk = data.subrange(pos, e);
            let head = seq![(e - pos - 1) as u8] + chunk;
            let rest = run_length_encoded(data, e);
            assert(code == head + rest);
            assert(code[0] == head[0]);
            assert(code.subrange(1, e - pos + 1) =~= chunk);
            lemma_decode_shift(head, rest, 0, acc + chunk);
            lemma_run_length_inverse(data, e, acc + chunk);
            assert(acc + chunk + data.subrange(e, data.len() as int) =~= acc + data.subrange(
                pos,
                data.len() as int,
            ));
        }
    }
}

/// Decodes run-length data.
pub fn run_length_decode(data: &Vec<u8>) -> (r: Option<Vec<u8>>)
    ensures
        r matches Some(plain) ==> run_length_decoded(data@, 0, Seq::empty()) == Some(plain@),
        r is None ==> run_length_decoded(data@, 0, Seq::empty()) is None,
{
    let mut out: Vec<u8> = Vec::new();
    let mut pos: usize = 0;
    while pos < data.len()
        invariant
            run_length_decoded(data@, 0, Seq::empty()) == run_length_decoded(
                data@,
                pos as int,
                out@,
            ),
        decreases data.len() - pos,
    {
        let l: u8 = data[pos];
        if l == 128 {
            return Some(out);
        } else if l < 128 {
            let count: usize = l as usize + 1;
            if data.len() - pos < count + 1 {
                return None;
            }
            let ghost before = out@;
            let mut i: usize = 0;
            while i < count
                invariant
                    i <= count,
                    pos + count + 1 <= data.len(),
                    out@ == before + data@.subrange(pos + 1, pos + 1 + i),
                decreases count - i,
            {
                out.push(data[pos + 1 + i]);
                assert(out@ =~= before + data@.subrange(pos + 1, pos + 1 + i + 1));
                i += 1;
            }
            pos = pos + count + 1;
        } else {
            if data.len() - pos < 2 {
                return None;
            }
            let c: u8 = data[pos + 1];
            let count: usize = 257 - l as usize;
            let ghost before = out@;
            let mut i: usize = 0;
            while i < count
                invariant
                    i <= count,
                    out@ == before + repeated(c, i as nat),
                decreases count - i,
            {
                out.push(c);
                assert(out@ =~= before + repeated(c, (i + 1) as nat));
                i += 1;
            }
            pos = pos + 2;
        }
    }
    Some(out)
}

/// Encodes bytes as run-length data.
pub fn run_length_encode(data: &Vec<u8>) -> (r: Vec<u8>)
    ensures
        r@ == run_length_encoded(data@, 0),
{
    let mut out: Vec<u8> = Vec::new();
    let mut pos: usize = 0;
    while pos < data.len()
        invariant
            pos <= data.len(),
            out@ + run_length_encoded(data@, pos as int) == run_length_encoded(data@, 0),
        decreases data.len() - pos,
    {
        let ghost before = out@;
        let mut r: usize = pos + 1;
        while r < data.len() && r - pos < 128 && data[r] == data[pos]
            invariant
                pos < r <= data.len(),
                r - pos <= 128,
                run_end(data@, pos as int, pos + 1) == run_end(data@, pos as int, r as int),
            decreases data.len() - r,
        {
            r += 1;
        }
        if r - pos >= 2 {
            out.push((257 - (r - pos)) as u8);
            out.push(data[pos]);
            assert(out@ + run_length_encoded(data@, r as int) =~= before + run_length_encoded(
                data@,
                pos as int,
            ));
            pos = r;
        } else {
            let mut e: usize = pos + 1;
            while e < data.len() && e - pos < 128 && !(e + 1 < data.len() && data[e] == data[e
                + 1])
                invariant
                    pos < e <= data.len(),
                    e - pos <= 128,
                    literal_end(data@, pos as int, pos + 1) == literal_end(
                        data@,
                        pos as int,
                        e as int,
                    ),
                decreases data.len() - e,
            {
                e += 1;
            }
            out.push((e - pos - 1) as u8);
            let ghost mid = out@;
            let mut i: usize = pos;
            while i < e
                invariant
                    pos <= i <= e <= data.len(),
                    out@ == mid + data@.subrange(pos as int, i as int),
                decreases e - i,
            {
                out.push(data[i]);
                assert(out@ =~= mid + data@.subrange(pos as int, i + 1));
                i += 1;
            }
            assert(out@ + run_length_encoded(data@, e as int) =~= before + run_length_encoded(
                data@,
                pos as int,
            ));
            pos = e;
        }
    }
    out.push(128);
    assert(out@ =~= run_length_encoded(data@, 0)) by {
        assert(run_length_encoded(data@, pos as int) =~= seq![128u8]);
    }
    out
}

/// What becomes of the data of streams when a document is written.
#[derive(Debug, Clone, Copy, PartialEq, Eq, Structural)]
pub struct Recoding {
    /// Streams without a filter are encoded as run lengths.
    pub compress: bool,
    /// Filters are undone, as far as `level` allows.
    pub decode: bool,
    pub level: QPDFWriteDecodeLevel,
}

/// How far a level of decoding goes: 0 for none, 1 for the general
/// filters, 2 for the special ones too, 3 for all.
pub open spec fn level_rank(level: QPDFWriteDecodeLevel) -> int {
    match level {
        QPDFWriteDecodeLevel::Disabled => 0,
        QPDFWriteDecodeLevel::Generalized => 1,
        QPDFWriteDecodeLevel::Specialized => 2,
        QPDFWriteDecodeLevel::ALl => 3,
    }
}

/// What the options of writing ask for: to compress where they say so in
/// either way, to undo filters where they ask for data without
/// compression. The layout to be read by eye asks for data without
/// compression, decoded at the general level at least.
pub open spec fn recoding_of(params: QPDFWriteParams) -> Recoding {
    let compress = !params.qdf_mode && (params.compress_stream || params.stream_data
        == QPDFWriteStreamData::Compress);
    Recoding {
        compress,
        decode: !compress && (params.qdf_mode || params.stream_data
            == QPDFWriteStreamData::Uncompress),
        level: if params.qdf_mode && params.decode_level == QPDFWriteDecodeLevel::Disabled {
            QPDFWriteDecodeLevel::Generalized
        } else {
            params.decode_level
        },
    }
}

/// The entries of a stream without its filter.
pub open spec fn unfiltered(entries: Seq<EntryModel>) -> Seq<EntryModel> {
    entries_without_key(entries_without_key(entries, filter_key()), decode_parms_key())
}

/// What hexadecimal data stands for: the bytes up to the `>` that ends
/// the data.
pub open spec fn hex_decoded(data: Seq<u8>) -> Option<Seq<u8>> {
    match scan_hex(data, 0, Seq::empty(), None) {
        Some((plain, _)) => Some(plain),
        None => None,
    }
}

/// A value as it is written under `rc`. A stream whose one filter is
/// hexadecimal digits is decoded from the general level on, one whose one
/// filter is run lengths from the special level on, where filters are
/// undone and the data can be decoded. A stream without a filter is
/// encoded as run lengths where compression is asked for and the code
/// fits. Every other value stays as it is.
pub open spec fn recoded(v: Value, rc: Recoding) -> Value {
    match v {
        Value::Stream(entries, data) => {
            let filter = value_at_key(entries, filter_key());
            if rc.decode && filter == Value::Name(hex_filter_key()) && level_rank(rc.level) >= 1
                && hex_decoded(data) is Some {
                Value::Stream(unfiltered(entries), hex_decoded(data)->0)
            } else if rc.decode && filter == Value::Name(run_length_filter_key()) && level_rank(
                rc.level,
            ) >= 2 && run_length_decoded(data, 0, Seq::empty()) is Some {
                Value::Stream(unfiltered(entries), run_length_decoded(data, 0, Seq::empty())->0)
            } else if rc.compress && !has_key(entries, filter_key()) && run_length_encoded(
                data,
                0,
            ).len() <= i64::MAX {
                Value::Stream(
                    entries_with_key(
                        entries,
                        filter_key(),
                        Value::Name(run_length_filter_key()),
                    ),
                    run_length_encoded(data, 0),
                )
            } else {
                v
            }
        },
        _ => v,
    }
}

/// A value as it is written is well formed where the value is.
pub proof fn lemma_recoded_wf(v: Value, rc: Recoding)
    requires
        v.wf(),
    ensures
        recoded(v, rc).wf(),
{
    if let Value::Stream(entries, data) = v {
        assert(v->Stream_0 == entries);
        lemma_entries_without_key(entries, filter_key());
        lemma_entries_without_key(entries_without_key(entries, filter_key()), decode_parms_key());
        lemma_entries_with_key(entries, filter_key(), Value::Name(run_length_filter_key()));
        let r = recoded(v, rc);
        if r != v {
            assert(r->Stream_0 == unfiltered(entries) || r->Stream_0 == entries_with_key(
                entries,
                filter_key(),
                Value::Name(run_length_filter_key()),
            ));
        }
    }
}

pub fn rank_of(level: QPDFWriteDecodeLevel) -> (r: u8)
    ensures
        r as int == level_rank(level),
{
    match level {
        QPDFWriteDecodeLevel::Disabled => 0,
        QPDFWriteDecodeLevel::Generalized => 1,
        QPDFWriteDecodeLevel::Specialized => 2,
        QPDFWriteDecodeLevel::ALl => 3,
    }
}

/// What the options of writing ask for.
pub fn make_recoding(params: &QPDFWriteParams) -> (r: Recoding)
    ensures
        r == recoding_of(*params),
{
    let compress: bool = !params.qdf_mode && (params.compress_stream || matches!(
        params.stream_data,
        QPDFWriteStreamData::Compress
    ));
    let level: QPDFWriteDecodeLevel = if params.qdf_mode && matches!(
        params.decode_level,
        QPDFWriteDecodeLevel::Disabled
    ) {
        QPDFWriteDecodeLevel::Generalized
    } else {
        params.decode_level
    };
    Recoding {
        compress,
        decode: !compress && (params.qdf_mode || matches!(
            params.stream_data,
            QPDFWriteStreamData::Uncompress
        )),
        level,
    }
}

/// Whether the entries name `name` as their one filter.
fn filter_is(entries: &Vec<Entry>, name: &String) -> (r: bool)
    ensures
        r == (value_at_key(entries_view(entries@), filter_key()) == Value::Name(name@)),
{
    let at: usize = find_key(entries, &filter_key_string());
    if at >= entries.len() {
        return false;
    }
    match &entries[at].1 {
        ObjectValue::Name(n) => *n == *name,
        _ => false,
    }
}

/// The value as it is written under `rc`.
pub fn recode(v: &ObjectValue, rc: &Recoding) -> (r: ObjectValue)
    requires
        v@.wf(),
    ensures
        r@ == recoded(v@, *rc),
        r@.wf(),
{
    proof {
        lemma_view_members(*v);
        lemma_recoded_wf(v@, *rc);
    }
    match v {
        ObjectValue::Stream(entries, data) => {
            if rc.decode && rank_of(rc.level) >= 1 && filter_is(entries, &hex_filter_key_string()) {
                match read_hex_string(data, 0) {
                    Some((plain, _)) => {
                        let mut kept: Vec<Entry> = crate::qpdf::object::value::duplicate_entries(
                            entries,
                        );
                        remove_entry(&mut kept, &filter_key_string());
                        remove_entry(&mut kept, &decode_parms_key_string());
                        let r = ObjectValue::Stream(kept, plain);
                        proof {
                            lemma_view_members(r);
                        }
                        return r;
                    },
                    None => {},
                }
            }
            proof {
                lemma_filter_names();
            }
            if rc.decode && rank_of(rc.level) >= 2 && filter_is(
                entries,
                &run_length_filter_key_string(),
            ) {
                match run_length_decode(data) {
                    Some(plain) => {
                        let mut kept: Vec<Entry> = crate::qpdf::object::value::duplicate_entries(
                            entries,
                        );
                        remove_entry(&mut kept, &filter_key_string());
                        remove_entry(&mut kept, &decode_parms_key_string());
                        let r = ObjectValue::Stream(kept, plain);
                        proof {
                            lemma_view_members(r);
                        }
                        return r;
                    },
                    None => {},
                }
            }
            if rc.compress && find_key(entries, &filter_key_string()) >= entries.len() {
                let code: Vec<u8> = run_length_encode(data);
                if code.len() as u64 <= 9223372036854775807 {
                    let mut kept: Vec<Entry> = crate::qpdf::object::value::duplicate_entries(
                        entries,
                    );
                    replace_entry(
                        &mut kept,
                        filter_key_string(),
                        ObjectValue::Name(run_length_filter_key_string()),
                    );
                    let r = ObjectValue::Stream(kept, code);
                    proof {
                        lemma_view_members(r);
                    }
                    return r;
                }
            }
            v.duplicate()
        },
        _ => v.duplicate(),
    }
}

/// A stream that was compressed is decoded as it was: what is written
/// with compression and then with the special filters undone is the
/// stream again. This holds of a stream that names neither a filter nor
/// parameters for one, and whose code fits.
pub proof fn law_compressed_stream_decodes(entries: Seq<EntryModel>, data: Seq<u8>)
    requires
        entries_wf(entries),
        !has_key(entries, filter_key()),
        !has_key(entries, decode_parms_key()),
        run_length_encoded(data, 0).len() <= i64::MAX,
    ensures
        recoded(
            recoded(
                Value::Stream(entries, data),
                Recoding { compress: true, decode: false, level: QPDFWriteDecodeLevel::Disabled },
            ),
            Recoding { compress: false, decode: true, level: QPDFWriteDecodeLevel::Specialized },
        ) == Value::Stream(entries, data),
{
    lemma_filter_names();
    let name = Value::Name(run_length_filter_key());
    let packed = entries_with_key(entries, filter_key(), name);
    lemma_entries_with_key(entries, filter_key(), name);
    crate::qpdf::object::value::lemma_key_index(entries, filter_key());
    crate::qpdf::object::value::lemma_key_index(packed, filter_key());
    assert(crate::qpdf::object::value::key_index(packed, filter_key()) == entries.len()) by {
        let k = crate::qpdf::object::value::key_index(packed, filter_key());
        if k < entries.len() {
            assert(packed[k] == entries[k]);
        }
    }
    assert(entries_without_key(packed, filter_key()) =~= entries);
    assert(filter_key() != decode_parms_key()) by {
        assert(filter_key()[1] != decode_parms_key()[1]);
    }
    lemma_run_length_inverse(data, 0, Seq::empty());
    assert(Seq::<u8>::empty() + data.subrange(0, data.len() as int) =~= data);
}

/// The names of the two filters differ.
pub proof fn lemma_filter_names()
    ensures
        hex_filter_key() != run_length_filter_key(),
{
    assert(hex_filter_key()[1] != run_length_filter_key()[1]);
}

} // verus!
