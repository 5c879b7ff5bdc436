//! The members of the object stream of a packed file are read back as
//! they were written.

use crate::qpdf::inverse::lexical::{
    lemma_digits_of, lemma_has_at, lemma_has_at_split, lemma_int_text, lemma_read_digits_of,
    lemma_skip_space_none, lemma_skip_space_one, lemma_token_end_is,
};
use crate::qpdf::inverse::lexical::{ends_token, lemma_real_text};
use crate::qpdf::inverse::numbering::lemma_ascii_name;
use crate::qpdf::inverse::packing::lemma_member_count_grows;
use crate::qpdf::inverse::trailer::{entries_in_order, lemma_with_in_order};
use crate::qpdf::keys::{
    filter_key, first_key, length_key, number_key, object_stream_name_key, type_key,
};
use crate::qpdf::layout::is_name_text;
use crate::qpdf::object::value::{has_key, value_at_key, EntryModel};
use crate::qpdf::object::{entries_with_key, lemma_entries_with_key};
use crate::qpdf::packed::container_value;
use crate::qpdf::streams::{count_in, object_in_stream, plain_data};
use crate::qpdf::inverse::values::{lemma_parse_written, lemma_text_start};
use crate::qpdf::layout::writable;
use crate::qpdf::object::value::Value;
use crate::qpdf::reader::{parse_value, reference_follows, MAX_DEPTH};
use crate::qpdf::inverse::table::{lemma_has_at_left, lemma_has_at_right, lemma_has_at_self};
use crate::qpdf::object::types::ObjectRef;
use crate::qpdf::packed::{member_count, members_text, packable, pairs_text, written_value};
use crate::qpdf::store::{StoreModel, MAX_OBJECT_ID};
use crate::qpdf::streams::nth_pair;
use crate::qpdf::syntax::{
    bounded_digits, has_at, int_text, is_digit, is_regular, is_space, skip_space, token_end,
};
use vstd::prelude::*;

verus! {

/// The pair for the `k`-th object: its number and the place of its text
/// among the texts, a space after each.
pub open spec fn pair_text(objects: StoreModel, plan: Seq<ObjectRef>, k: int) -> Seq<u8> {
    int_text(k) + seq![32u8] + int_text(
        members_text(objects, plan, (k - 1) as nat).len() as int,
    ) + seq![32u8]
}

/// Where the pairs for the first `j` objects end.
pub open spec fn pairs_end(objects: StoreModel, plan: Seq<ObjectRef>, j: int) -> int {
    pairs_text(objects, plan, j as nat).len() as int
}

/// The pair for the `k`-th object, where the object stream holds it,
/// stands among the pairs for the first `n` after those before it.
pub proof fn lemma_pair_at(objects: StoreModel, plan: Seq<ObjectRef>, k: nat, n: nat)
    requires
        1 <= k <= n <= plan.len(),
        packable(written_value(objects, plan, k as int)),
    ensures
        has_at(
            pairs_text(objects, plan, n),
            pairs_end(objects, plan, k - 1),
            pair_text(objects, plan, k as int),
        ),
        pairs_end(objects, plan, k as int) == pairs_end(objects, plan, k - 1) + pair_text(
            objects,
            plan,
            k as int,
        ).len(),
    decreases n - k,
{
    let part = pair_text(objects, plan, k as int);
    let before = pairs_text(objects, plan, (k - 1) as nat);
    assert(pairs_text(objects, plan, k) =~= before + part);
    if k == n {
        lemma_has_at_self(part);
        lemma_has_at_right(before, part, 0, part);
    } else {
        lemma_pair_at(objects, plan, k, (n - 1) as nat);
        if packable(written_value(objects, plan, n as int)) {
            let last = pair_text(objects, plan, n as int);
            assert(pairs_text(objects, plan, n) =~= pairs_text(objects, plan, (n - 1) as nat)
                + last);
            lemma_has_at_left(
                pairs_text(objects, plan, (n - 1) as nat),
                last,
                pairs_end(objects, plan, k - 1),
                part,
            );
        }
    }
}

/// The texts of the first members are no longer than those of more.
pub proof fn lemma_members_grow(objects: StoreModel, plan: Seq<ObjectRef>, k: nat, n: nat)
    requires
        k <= n <= plan.len(),
    ensures
        members_text(objects, plan, k).len() <= members_text(objects, plan, n).len(),
    decreases n - k,
{
    if k < n {
        lemma_members_grow(objects, plan, k, (n - 1) as nat);
    }
}

/// Before an object that the object stream holds, the pairs go on with
/// a digit.
pub proof fn lemma_pairs_start(objects: StoreModel, plan: Seq<ObjectRef>, j: nat, k: nat)
    requires
        j < k <= plan.len(),
        packable(written_value(objects, plan, k as int)),
    ensures
        pairs_end(objects, plan, j as int) < pairs_end(objects, plan, plan.len() as int),
        is_digit(pairs_text(objects, plan, plan.len())[pairs_end(objects, plan, j as int)]),
    decreases k - j,
{
    let n = plan.len();
    if packable(written_value(objects, plan, j as int + 1)) {
        lemma_pair_at(objects, plan, j + 1, n);
        let part = pair_text(objects, plan, j as int + 1);
        let number = int_text(j as int + 1);
        lemma_int_text(j as int + 1);
        lemma_has_at(pairs_text(objects, plan, n), pairs_end(objects, plan, j as int), part);
        assert(part[0] == number[0]);
        assert(pairs_text(objects, plan, n)[pairs_end(objects, plan, j as int) + 0] == part[0]);
    } else {
        lemma_pairs_start(objects, plan, j + 1, k);
    }
}

/// Where the pair for the `k`-th object stands, its two numbers are read
/// and a space follows them.
pub proof fn lemma_parse_pair(
    plain: Seq<u8>,
    start: int,
    objects: StoreModel,
    plan: Seq<ObjectRef>,
    k: int,
)
    requires
        1 <= k <= plan.len() <= MAX_OBJECT_ID,
        has_at(plain, start, pair_text(objects, plan, k)),
        members_text(objects, plan, (k - 1) as nat).len() <= plain.len(),
    ensures
        skip_space(plain, start) == start,
        bounded_digits(
            plain,
            start,
            token_end(plain, start),
            MAX_OBJECT_ID as nat,
        ) == Some(k as nat),
        bounded_digits(
            plain,
            skip_space(plain, token_end(plain, start)),
            token_end(plain, skip_space(plain, token_end(plain, start))),
            plain.len(),
        ) == Some(members_text(objects, plan, (k - 1) as nat).len()),
        token_end(plain, skip_space(plain, token_end(plain, start))) == start + pair_text(
            objects,
            plan,
            k,
        ).len() - 1,
        plain[start + pair_text(objects, plan, k).len() - 1] == 32,
        start + pair_text(objects, plan, k).len() <= plain.len(),
{
    let place = members_text(objects, plan, (k - 1) as nat).len();
    let number = int_text(k);
    let offset = int_text(place as int);
    let part = pair_text(objects, plan, k);
    lemma_int_text(k);
    lemma_int_text(place as int);
    lemma_digits_of(k as nat);
    lemma_digits_of(place);
    assert(part =~= number + (seq![32u8] + (offset + seq![32u8])));
    lemma_has_at_split(plain, start, number, seq![32u8] + (offset + seq![32u8]));
    let e1 = start + number.len();
    lemma_has_at_split(plain, e1, seq![32u8], offset + seq![32u8]);
    lemma_has_at_split(plain, e1 + 1, offset, seq![32u8]);
    let e2 = e1 + 1 + offset.len();
    lemma_has_at(plain, start, number);
    lemma_has_at(plain, e1, seq![32u8]);
    lemma_has_at(plain, e1 + 1, offset);
    lemma_has_at(plain, e2, seq![32u8]);
    assert(plain[start + 0] == number[0]);
    assert(plain[e1 + 0] == seq![32u8][0]);
    assert(plain[e1 + 1 + 0] == offset[0]);
    assert(plain[e2 + 0] == seq![32u8][0]);
    lemma_skip_space_none(plain, start);
    assert forall|i: int| start <= i < e1 implies is_regular(#[trigger] plain[i]) by {
        assert(plain[start + (i - start)] == number[i - start]);
    }
    lemma_token_end_is(plain, start, e1);
    lemma_skip_space_one(plain, e1);
    assert forall|i: int| e1 + 1 <= i < e2 implies is_regular(#[trigger] plain[i]) by {
        assert(plain[e1 + 1 + (i - e1 - 1)] == offset[i - e1 - 1]);
    }
    lemma_token_end_is(plain, e1 + 1, e2);
    lemma_read_digits_of(plain, start, k as nat, MAX_OBJECT_ID as nat);
    lemma_read_digits_of(plain, e1 + 1, place, plain.len());
}

/// Counted from the pairs that follow those for the first `j` objects,
/// the pair for an object that the object stream holds is found by the
/// number of members between.
pub proof fn lemma_nth_pair(
    plain: Seq<u8>,
    pos: int,
    objects: StoreModel,
    plan: Seq<ObjectRef>,
    j: nat,
    k: nat,
)
    requires
        plain == pairs_text(objects, plan, plan.len()) + members_text(
            objects,
            plan,
            plan.len(),
        ),
        plan.len() <= MAX_OBJECT_ID,
        j < k <= plan.len(),
        packable(written_value(objects, plan, k as int)),
        0 <= pos <= pairs_end(objects, plan, j as int),
        skip_space(plain, pos) == pairs_end(objects, plan, j as int),
    ensures
        member_count(objects, plan, (k - 1) as nat) >= member_count(objects, plan, j),
        nth_pair(
            plain,
            pos,
            (member_count(objects, plan, (k - 1) as nat) - member_count(objects, plan, j)) as nat,
        ) == Some((k, members_text(objects, plan, (k - 1) as nat).len())),
    decreases k - j,
{
    let n = plan.len();
    let pairs = pairs_text(objects, plan, n);
    let start = pairs_end(objects, plan, j as int);
    lemma_member_count_grows(objects, plan, j, (k - 1) as nat);
    if packable(written_value(objects, plan, j as int + 1)) {
        let part = pair_text(objects, plan, j as int + 1);
        lemma_pair_at(objects, plan, j + 1, n);
        lemma_has_at_left(pairs, members_text(objects, plan, n), start, part);
        lemma_members_grow(objects, plan, j, n);
        lemma_parse_pair(plain, start, objects, plan, j as int + 1);
        let e2 = start + part.len() - 1;
        if j + 1 < k {
            lemma_member_count_grows(objects, plan, j + 1, (k - 1) as nat);
            lemma_pairs_start(objects, plan, j + 1, k);
            assert(plain[e2 + 1] == pairs[e2 + 1]);
            lemma_skip_space_one(plain, e2);
            lemma_nth_pair(plain, e2, objects, plan, j + 1, k);
        }
    } else {
        lemma_nth_pair(plain, pos, objects, plan, j + 1, k);
    }
}

/// The texts of the members among the objects after the `k`-th, a line
/// feed after each.
pub open spec fn members_rest(objects: StoreModel, plan: Seq<ObjectRef>, k: nat) -> Seq<u8>
    decreases plan.len() - k,
{
    if k >= plan.len() {
        Seq::empty()
    } else if packable(written_value(objects, plan, k as int + 1)) {
        written_value(objects, plan, k as int + 1).text() + seq![10u8] + members_rest(
            objects,
            plan,
            k + 1,
        )
    } else {
        members_rest(objects, plan, k + 1)
    }
}

/// The texts of all members are those of the members among the first
/// `k` objects and then those of the rest.
pub proof fn lemma_members_rest(objects: StoreModel, plan: Seq<ObjectRef>, k: nat)
    requires
        k <= plan.len(),
    ensures
        members_text(objects, plan, plan.len()) == members_text(objects, plan, k) + members_rest(
            objects,
            plan,
            k,
        ),
    decreases plan.len() - k,
{
    if k < plan.len() {
        lemma_members_rest(objects, plan, k + 1);
        assert(members_text(objects, plan, k + 1) + members_rest(objects, plan, k + 1)
            =~= members_text(objects, plan, k) + members_rest(objects, plan, k));
    } else {
        assert(members_text(objects, plan, k) + members_rest(objects, plan, k)
            =~= members_text(objects, plan, k));
    }
}

/// Every object that the object stream holds is well formed and can be
/// written as a member.
pub open spec fn members_writable(objects: StoreModel, plan: Seq<ObjectRef>) -> bool {
    forall|j: int|
        1 <= j <= plan.len() && packable(#[trigger] written_value(objects, plan, j)) ==> writable(
            written_value(objects, plan, j),
            MAX_DEPTH as nat,
        ) && written_value(objects, plan, j).wf()
}

/// The texts of the rest of the members are empty or start with a byte
/// that is neither white space nor the start of a comment nor `R`.
pub proof fn lemma_members_rest_start(objects: StoreModel, plan: Seq<ObjectRef>, k: nat)
    requires
        members_writable(objects, plan),
        k <= plan.len(),
    ensures
        members_rest(objects, plan, k).len() > 0 ==> !is_space(
            members_rest(objects, plan, k)[0],
        ) && members_rest(objects, plan, k)[0] != 37 && members_rest(objects, plan, k)[0] != 82,
    decreases plan.len() - k,
{
    if k < plan.len() {
        let v = written_value(objects, plan, k as int + 1);
        if packable(v) {
            lemma_text_start(v, MAX_DEPTH as nat);
            assert(members_rest(objects, plan, k)[0] == v.text()[0]);
        } else {
            lemma_members_rest_start(objects, plan, k + 1);
        }
    }
}

/// After a line feed, the rest of the members, up to the end of the
/// data, makes no reference of an integer before it.
pub proof fn lemma_members_quiet(
    b: Seq<u8>,
    e: int,
    objects: StoreModel,
    plan: Seq<ObjectRef>,
    k: nat,
)
    requires
        0 <= e < b.len(),
        b[e] == 10,
        k <= plan.len(),
        members_writable(objects, plan),
        has_at(b, e + 1, members_rest(objects, plan, k)),
        e + 1 + members_rest(objects, plan, k).len() == b.len(),
    ensures
        !reference_follows(b, e),
    decreases plan.len() - k,
{
    let rest = members_rest(objects, plan, k);
    if k >= plan.len() {
        lemma_skip_space_one(b, e);
    } else if !packable(written_value(objects, plan, k as int + 1)) {
        lemma_members_quiet(b, e, objects, plan, k + 1);
    } else {
        let v = written_value(objects, plan, k as int + 1);
        let t = v.text();
        let more = members_rest(objects, plan, k + 1);
        lemma_text_start(v, MAX_DEPTH as nat);
        let after = seq![10u8] + more;
        assert(rest =~= t + after);
        let s2 = e + 1;
        lemma_has_at_split(b, s2, t, after);
        lemma_has_at(b, s2, t);
        assert(b[s2 + 0] == t[0]);
        lemma_skip_space_one(b, e);
        let e2 = s2 + t.len();
        lemma_has_at_split(b, e2, seq![10u8], more);
        lemma_has_at(b, e2, seq![10u8]);
        assert(b[e2 + 0] == seq![10u8][0]);
        lemma_members_rest_start(objects, plan, k + 1);
        lemma_has_at(b, e2 + 1, more);
        if more.len() > 0 {
            assert(b[e2 + 1 + 0] == more[0]);
        }
        if is_digit(t[0]) {
            match v {
                Value::Integer(i) => {
                    lemma_int_text(i);
                    assert forall|j: int| s2 <= j < e2 implies is_regular(#[trigger] b[j]) by {
                        assert(b[s2 + (j - s2)] == t[j - s2]);
                    }
                    lemma_token_end_is(b, s2, e2);
                    lemma_skip_space_one(b, e2);
                },
                Value::Real(s) => {
                    lemma_real_text(t);
                    assert forall|j: int| s2 <= j < e2 implies is_regular(#[trigger] b[j]) by {
                        assert(b[s2 + (j - s2)] == t[j - s2]);
                    }
                    lemma_token_end_is(b, s2, e2);
                    assert(b.subrange(s2, e2) == t);
                },
                Value::Indirect(r) => {
                    let id = int_text(r.id as int);
                    let generation = int_text(r.generation as int);
                    lemma_int_text(r.id as int);
                    lemma_int_text(r.generation as int);
                    assert(t =~= id + (seq![32u8] + (generation + seq![32u8, 82u8])));
                    lemma_has_at_split(b, s2, id, seq![32u8] + (generation + seq![32u8, 82u8]));
                    let e1 = s2 + id.len();
                    lemma_has_at_split(b, e1, seq![32u8], generation + seq![32u8, 82u8]);
                    lemma_has_at_split(b, e1 + 1, generation, seq![32u8, 82u8]);
                    lemma_has_at(b, s2, id);
                    lemma_has_at(b, e1, seq![32u8]);
                    lemma_has_at(b, e1 + 1, generation);
                    assert(b[e1 + 0] == seq![32u8][0]);
                    assert(b[e1 + 1 + 0] == generation[0]);
                    assert forall|j: int| s2 <= j < e1 implies is_regular(#[trigger] b[j]) by {
                        assert(b[s2 + (j - s2)] == id[j - s2]);
                    }
                    lemma_token_end_is(b, s2, e1);
                    lemma_skip_space_one(b, e1);
                },
                _ => {},
            }
        }
    }
}

/// The text of the `k`-th object, where the object stream holds it,
/// stands at its place in the data of the object stream, before a line
/// feed and the texts of the rest of the members, with which the data
/// ends.
pub proof fn lemma_member_at(plain: Seq<u8>, objects: StoreModel, plan: Seq<ObjectRef>, k: nat)
    requires
        plain == pairs_text(objects, plan, plan.len()) + members_text(
            objects,
            plan,
            plan.len(),
        ),
        1 <= k <= plan.len(),
        packable(written_value(objects, plan, k as int)),
    ensures
        has_at(
            plain,
            member_start(objects, plan, k as int),
            written_value(objects, plan, k as int).text(),
        ),
        has_at(
            plain,
            member_start(objects, plan, k as int) + written_value(
                objects,
                plan,
                k as int,
            ).text().len(),
            seq![10u8],
        ),
        has_at(
            plain,
            member_start(objects, plan, k as int) + written_value(
                objects,
                plan,
                k as int,
            ).text().len() + 1,
            members_rest(objects, plan, k),
        ),
        member_start(objects, plan, k as int) + written_value(objects, plan, k as int).text().len()
            + 1 + members_rest(objects, plan, k).len() == plain.len(),
{
    let n = plan.len();
    let pairs = pairs_text(objects, plan, n);
    let before = members_text(objects, plan, (k - 1) as nat);
    let t = written_value(objects, plan, k as int).text();
    let more = members_rest(objects, plan, k);
    let start = member_start(objects, plan, k as int);
    lemma_members_rest(objects, plan, (k - 1) as nat);
    assert(members_rest(objects, plan, (k - 1) as nat) == t + seq![10u8] + more);
    assert(plain =~= (pairs + before) + (t + (seq![10u8] + more)));
    lemma_has_at_self(plain);
    lemma_has_at_split(plain, 0, pairs + before, t + (seq![10u8] + more));
    lemma_has_at_split(plain, start, t, seq![10u8] + more);
    lemma_has_at_split(plain, start + t.len(), seq![10u8], more);
}

/// Where the text of the `k`-th object starts in the data of the object
/// stream.
pub open spec fn member_start(objects: StoreModel, plan: Seq<ObjectRef>, k: int) -> int {
    pairs_end(objects, plan, plan.len() as int) + members_text(
        objects,
        plan,
        (k - 1) as nat,
    ).len()
}

/// The text of the `k`-th object, where the object stream holds it, is
/// read at its place in the data of the object stream as the object.
pub proof fn lemma_parse_member(
    plain: Seq<u8>,
    objects: StoreModel,
    plan: Seq<ObjectRef>,
    k: nat,
)
    requires
        plain == pairs_text(objects, plan, plan.len()) + members_text(
            objects,
            plan,
            plan.len(),
        ),
        1 <= k <= plan.len(),
        packable(written_value(objects, plan, k as int)),
        members_writable(objects, plan),
    ensures
        parse_value(
            plain,
            member_start(objects, plan, k as int),
            MAX_DEPTH as nat,
        ) matches Some(found) && found.0 == written_value(objects, plan, k as int),
{
    let v = written_value(objects, plan, k as int);
    let t = v.text();
    let start = member_start(objects, plan, k as int);
    let e = start + t.len();
    lemma_member_at(plain, objects, plan, k);
    lemma_has_at(plain, e, seq![10u8]);
    assert(plain[e + 0] == seq![10u8][0]);
    lemma_text_start(v, MAX_DEPTH as nat);
    lemma_has_at(plain, start, t);
    assert(plain[start + 0] == t[0]);
    lemma_skip_space_none(plain, start);
    assert(ends_token(plain, e));
    lemma_members_quiet(plain, e, objects, plan, k);
    lemma_parse_written(plain, start, start, v, MAX_DEPTH as nat);
}

/// The data of the object stream: the pairs and then the texts of the
/// members.
pub open spec fn container_data(objects: StoreModel, plan: Seq<ObjectRef>) -> Seq<u8> {
    pairs_text(objects, plan, plan.len()) + members_text(objects, plan, plan.len())
}

/// The dictionary of the object stream.
pub open spec fn container_entries(objects: StoreModel, plan: Seq<ObjectRef>) -> Seq<EntryModel> {
    seq![
        (type_key(), Value::Name(object_stream_name_key())),
        (number_key(), Value::Integer(member_count(objects, plan, plan.len()) as int)),
        (first_key(), Value::Integer(pairs_text(objects, plan, plan.len()).len() as int)),
        (length_key(), Value::Integer(container_data(objects, plan).len() as int)),
    ]
}

/// The keys of the dictionary of an object stream differ from one
/// another and from the key of a filter, and can be written as names.
pub proof fn lemma_container_keys()
    ensures
        type_key()[1] == 'T',
        number_key()[1] == 'N',
        first_key()[1] == 'F',
        first_key()[3] == 'r',
        length_key()[1] == 'L',
        filter_key()[1] == 'F',
        filter_key()[3] == 'l',
        is_name_text(type_key()),
        is_name_text(number_key()),
        is_name_text(first_key()),
        is_name_text(length_key()),
        is_name_text(object_stream_name_key()),
{
    lemma_ascii_name(type_key());
    lemma_ascii_name(number_key());
    lemma_ascii_name(first_key());
    lemma_ascii_name(length_key());
    lemma_ascii_name(object_stream_name_key());
}

/// The dictionary of the object stream is in order, and names the type,
/// the number of members, where the members start and the length of the
/// data, and no filter.
pub proof fn lemma_container_entries(objects: StoreModel, plan: Seq<ObjectRef>)
    requires
        container_data(objects, plan).len() <= i64::MAX,
        plan.len() <= MAX_OBJECT_ID,
    ensures
        container_value(objects, plan) == Value::Stream(
            container_entries(objects, plan),
            container_data(objects, plan),
        ),
        entries_in_order(container_entries(objects, plan), (MAX_DEPTH - 1) as nat),
        value_at_key(container_entries(objects, plan), type_key()) == Value::Name(
            object_stream_name_key(),
        ),
        value_at_key(container_entries(objects, plan), number_key()) == Value::Integer(
            member_count(objects, plan, plan.len()) as int,
        ),
        value_at_key(container_entries(objects, plan), first_key()) == Value::Integer(
            pairs_text(objects, plan, plan.len()).len() as int,
        ),
        value_at_key(container_entries(objects, plan), length_key()) == Value::Integer(
            container_data(objects, plan).len() as int,
        ),
        value_at_key(container_entries(objects, plan), filter_key()) == Value::Null,
{
    let depth = (MAX_DEPTH - 1) as nat;
    lemma_container_keys();
    let kind = Value::Name(object_stream_name_key());
    let count = Value::Integer(member_count(objects, plan, plan.len()) as int);
    let first = Value::Integer(pairs_text(objects, plan, plan.len()).len() as int);
    let length = Value::Integer(container_data(objects, plan).len() as int);
    lemma_member_count_grows(objects, plan, plan.len(), plan.len());
    let e0 = Seq::<EntryModel>::empty();
    let e1 = entries_with_key(e0, type_key(), kind);
    lemma_with_in_order(e0, type_key(), kind, depth);
    lemma_entries_with_key(e0, type_key(), kind);
    let e2 = entries_with_key(e1, number_key(), count);
    lemma_with_in_order(e1, number_key(), count, depth);
    lemma_entries_with_key(e1, number_key(), count);
    let e3 = entries_with_key(e2, first_key(), first);
    lemma_with_in_order(e2, first_key(), first, depth);
    lemma_entries_with_key(e2, first_key(), first);
    let e4 = entries_with_key(e3, length_key(), length);
    lemma_with_in_order(e3, length_key(), length, depth);
    lemma_entries_with_key(e3, length_key(), length);
    assert(!has_key(e0, type_key()));
    assert(!has_key(e0, number_key()));
    assert(!has_key(e0, first_key()));
    assert(!has_key(e0, length_key()));
    assert(!has_key(e0, filter_key()));
    assert(!has_key(e1, number_key()));
    assert(!has_key(e1, first_key()));
    assert(!has_key(e1, length_key()));
    assert(!has_key(e1, filter_key()));
    assert(!has_key(e2, first_key()));
    assert(!has_key(e2, length_key()));
    assert(!has_key(e2, filter_key()));
    assert(!has_key(e3, length_key()));
    assert(!has_key(e3, filter_key()));
    assert(!has_key(e4, filter_key()));
    assert(e4 =~= container_entries(objects, plan));
}

/// The object stream of a packed file holds, at its place among the
/// members, each object that was packed into it.
pub proof fn lemma_object_in_stream(objects: StoreModel, plan: Seq<ObjectRef>, k: nat)
    requires
        container_data(objects, plan).len() <= i64::MAX,
        plan.len() <= MAX_OBJECT_ID,
        1 <= k <= plan.len(),
        packable(written_value(objects, plan, k as int)),
        members_writable(objects, plan),
    ensures
        object_in_stream(
            container_value(objects, plan),
            member_count(objects, plan, (k - 1) as nat),
            k as int,
        ) == Some(written_value(objects, plan, k as int)),
{
    let n = plan.len();
    let entries = container_entries(objects, plan);
    let data = container_data(objects, plan);
    lemma_container_entries(objects, plan);
    lemma_member_count_grows(objects, plan, k, n);
    lemma_member_count_grows(objects, plan, n, n);
    lemma_members_grow(objects, plan, (k - 1) as nat, n);
    assert(plain_data(entries, data) == Some(data));
    assert(count_in(value_at_key(entries, number_key()), MAX_OBJECT_ID as int) == Some(
        member_count(objects, plan, n),
    ));
    assert(count_in(value_at_key(entries, first_key()), data.len() as int) == Some(
        pairs_text(objects, plan, n).len(),
    ));
    lemma_pairs_start(objects, plan, 0, k);
    assert(data[0] == pairs_text(objects, plan, n)[0]);
    lemma_skip_space_none(data, 0);
    lemma_nth_pair(data, 0, objects, plan, 0, k);
    lemma_parse_member(data, objects, plan, k);
}

} // verus!
