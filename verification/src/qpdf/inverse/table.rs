//! The cross-reference table is read back as it was written.

use crate::qpdf::document::{last_index_of, parse_xref_lines, XrefEntry};
use crate::qpdf::inverse::lexical::{
    lemma_has_at, lemma_has_at_from, lemma_has_at_split, lemma_skip_space_one,
    lemma_token_end_is,
};
use crate::qpdf::layout::{body_text, object_text, padded, prepared, xref_line_end, xref_lines};
use crate::qpdf::object::types::ObjectRef;
use crate::qpdf::store::{resolve, StoreModel, MAX_OBJECT_ID};
use crate::qpdf::syntax::{
    all_digits, digits_value, has_at, is_digit, is_regular, is_space, skip_space,
};
use vstd::prelude::*;

verus! {

/// What stands in a first part stands in the whole.
pub proof fn lemma_has_at_left(x: Seq<u8>, y: Seq<u8>, pos: int, pattern: Seq<u8>)
    requires
        has_at(x, pos, pattern),
    ensures
        has_at(x + y, pos, pattern),
{
    lemma_has_at(x, pos, pattern);
    assert forall|i: int| 0 <= i < pattern.len() implies (x + y)[pos + i] == #[trigger] pattern[i] by {
        assert((x + y)[pos + i] == x[pos + i]);
    }
    lemma_has_at_from(x + y, pos, pattern);
}

/// What stands in a second part stands in the whole, after the first.
pub proof fn lemma_has_at_right(x: Seq<u8>, y: Seq<u8>, pos: int, pattern: Seq<u8>)
    requires
        has_at(y, pos, pattern),
    ensures
        has_at(x + y, x.len() + pos, pattern),
{
    lemma_has_at(y, pos, pattern);
    assert forall|i: int| 0 <= i < pattern.len() implies (x + y)[x.len() + pos + i]
        == #[trigger] pattern[i] by {
        assert((x + y)[x.len() + pos + i] == y[pos + i]);
    }
    lemma_has_at_from(x + y, x.len() + pos, pattern);
}

/// A part stands at its own start.
pub proof fn lemma_has_at_self(x: Seq<u8>)
    ensures
        has_at(x, 0, x),
{
    assert(x.subrange(0, x.len() as int) =~= x);
}

/// Two bytes of white space are skipped before a byte that is neither
/// white space nor the start of a comment.
pub proof fn lemma_skip_space_two(b: Seq<u8>, p: int)
    requires
        0 <= p,
        p + 1 < b.len(),
        is_space(b[p]),
        is_space(b[p + 1]),
        p + 2 < b.len() ==> !is_space(b[p + 2]) && b[p + 2] != 37,
    ensures
        skip_space(b, p) == p + 2,
{
    lemma_skip_space_one(b, p + 1);
}

/// Where a pattern stands whose first byte occurs nowhere after it, the
/// pattern stands there last.
pub proof fn lemma_last_index_of(b: Seq<u8>, pattern: Seq<u8>, at: int, before: int)
    requires
        has_at(b, at, pattern),
        pattern.len() > 0,
        at < before <= b.len(),
        forall|q: int| at < q < b.len() ==> #[trigger] b[q] != pattern[0],
    ensures
        last_index_of(b, pattern, before) == at,
    decreases before,
{
    if before - 1 == at {
    } else {
        assert(!has_at(b, before - 1, pattern)) by {
            if has_at(b, before - 1, pattern) {
                lemma_has_at(b, before - 1, pattern);
                assert(b[before - 1 + 0] == pattern[0]);
            }
        }
        lemma_last_index_of(b, pattern, at, before - 1);
    }
}

/// Ten to the power of `w`.
pub open spec fn pow10(w: nat) -> nat
    decreases w,
{
    if w == 0 {
        1
    } else {
        10 * pow10((w - 1) as nat)
    }
}

/// A number of at most `w` digits, written in `w` digits, is `w` digits
/// that stand for the number.
pub proof fn lemma_padded(n: nat, w: nat)
    requires
        n < pow10(w),
    ensures
        padded(n, w).len() == w,
        all_digits(padded(n, w)),
        digits_value(padded(n, w)) == n,
        forall|k: int| 0 <= k < w ==> is_regular(#[trigger] padded(n, w)[k]),
    decreases w,
{
    if w > 0 {
        lemma_padded(n / 10, (w - 1) as nat);
        let head = padded(n / 10, (w - 1) as nat);
        let s = padded(n, w);
        assert(s.drop_last() =~= head);
        assert forall|k: int| 0 <= k < s.len() implies is_digit(#[trigger] s[k]) by {
            if k < head.len() {
                assert(s[k] == head[k]);
            }
        }
        assert forall|k: int| 0 <= k < w implies is_regular(#[trigger] s[k]) by {
            if k < head.len() {
                assert(s[k] == head[k]);
            }
        }
    } else {
        assert(padded(n, w) =~= Seq::<u8>::empty());
    }
}

/// One line of a cross-reference table: the offset in ten digits, the
/// generation in five, and the letter `mark`.
pub open spec fn table_line(offset: nat, generation: nat, mark: u8) -> Seq<u8> {
    padded(offset, 10) + seq![32u8] + padded(generation, 5) + seq![32u8, mark, 32u8, 10u8]
}

/// Where a line of a cross-reference table stands, it is read as its
/// offset, its generation and its letter.
pub proof fn lemma_parse_line(
    b: Seq<u8>,
    cur: int,
    at: int,
    id: int,
    remaining: nat,
    acc: Seq<XrefEntry>,
    offset: nat,
    generation: nat,
    mark: u8,
)
    requires
        0 <= cur <= at,
        skip_space(b, cur) == at,
        has_at(b, at, table_line(offset, generation, mark)),
        offset <= 9999999999,
        generation <= 65535,
        mark == 110 || mark == 102,
        0 <= id <= MAX_OBJECT_ID,
        remaining > 0,
    ensures
        parse_xref_lines(b, cur, id, remaining, acc) == parse_xref_lines(
            b,
            at + 18,
            id + 1,
            (remaining - 1) as nat,
            acc.push(
                XrefEntry {
                    id: id as i32,
                    offset: offset as u64,
                    generation: generation as i32,
                    in_use: mark == 110,
                    container: 0,
                },
            ),
        ),
        table_line(offset, generation, mark).len() == 20,
        b[at + 18] == 32,
        b[at + 19] == 10,
{
    let line = table_line(offset, generation, mark);
    assert(pow10(10) == 10000000000) by {
        reveal_with_fuel(pow10, 11);
    }
    assert(pow10(5) == 100000) by {
        reveal_with_fuel(pow10, 6);
    }
    lemma_padded(offset, 10);
    lemma_padded(generation, 5);
    let first = padded(offset, 10);
    let second = padded(generation, 5);
    let end = seq![32u8, mark, 32u8, 10u8];
    assert(line =~= first + (seq![32u8] + (second + end)));
    lemma_has_at_split(b, at, first, seq![32u8] + (second + end));
    lemma_has_at_split(b, at + 10, seq![32u8], second + end);
    lemma_has_at_split(b, at + 11, second, end);
    lemma_has_at(b, at, first);
    lemma_has_at(b, at + 10, seq![32u8]);
    lemma_has_at(b, at + 11, second);
    lemma_has_at(b, at + 16, end);
    assert(b[at + 10 + 0] == seq![32u8][0]);
    assert(b[at + 16 + 0] == end[0]);
    assert(b[at + 16 + 1] == end[1]);
    assert(b[at + 16 + 2] == end[2]);
    assert(b[at + 16 + 3] == end[3]);
    assert(b[at + 11 + 0] == second[0]);
    assert forall|k: int| at <= k < at + 10 implies is_regular(#[trigger] b[k]) by {
        assert(b[at + (k - at)] == first[k - at]);
    }
    lemma_token_end_is(b, at, at + 10);
    lemma_skip_space_one(b, at + 10);
    assert forall|k: int| at + 11 <= k < at + 16 implies is_regular(#[trigger] b[k]) by {
        assert(b[at + 11 + (k - at - 11)] == second[k - at - 11]);
    }
    lemma_token_end_is(b, at + 11, at + 16);
    lemma_skip_space_one(b, at + 16);
    lemma_token_end_is(b, at + 17, at + 18);
    assert(b.subrange(at, at + 10) == first);
    assert(b.subrange(at + 11, at + 16) == second);
}

/// A line of a cross-reference table is twenty bytes and ends with a
/// space and a line feed.
pub proof fn lemma_line_tail(offset: nat, generation: nat, mark: u8)
    ensures
        table_line(offset, generation, mark).len() == 20,
        table_line(offset, generation, mark)[18] == 32,
        table_line(offset, generation, mark)[19] == 10,
{
    lemma_padded_len(offset, 10);
    lemma_padded_len(generation, 5);
}

/// What stands in a pattern stands where the pattern stands.
pub proof fn lemma_has_at_within(b: Seq<u8>, at: int, whole: Seq<u8>, pos: int, part: Seq<u8>)
    requires
        has_at(b, at, whole),
        has_at(whole, pos, part),
    ensures
        has_at(b, at + pos, part),
{
    lemma_has_at(b, at, whole);
    lemma_has_at(whole, pos, part);
    assert forall|i: int| 0 <= i < part.len() implies b[at + pos + i] == #[trigger] part[i] by {
        assert(b[at + (pos + i)] == whole[pos + i]);
        assert(whole[pos + i] == part[i]);
    }
    lemma_has_at_from(b, at + pos, part);
}

/// Where the `k`-th object starts, for a file whose first object starts
/// at `start`.
pub open spec fn offset_of(start: int, objects: StoreModel, plan: Seq<ObjectRef>, k: int) -> int {
    start + body_text(objects, plan, (k - 1) as nat).len()
}

/// The lines of the table that is written for `n` objects: the free
/// number 0, then each object in use at its offset.
pub open spec fn written_lines(start: int, objects: StoreModel, plan: Seq<ObjectRef>, n: nat)
    -> Seq<XrefEntry> {
    Seq::new(
        n + 1,
        |j: int|
            if j == 0 {
                XrefEntry { id: 0, offset: 0, generation: 65535, in_use: false, container: 0 }
            } else {
                XrefEntry {
                    id: j as i32,
                    offset: offset_of(start, objects, plan, j) as u64,
                    generation: 0,
                    in_use: true,
                    container: 0,
                }
            },
    )
}

/// The text of the first objects is no longer than that of more.
pub proof fn lemma_body_grows(objects: StoreModel, plan: Seq<ObjectRef>, k: nat, n: nat)
    requires
        k <= n <= plan.len(),
    ensures
        body_text(objects, plan, k).len() <= body_text(objects, plan, n).len(),
    decreases n - k,
{
    if k < n {
        lemma_body_grows(objects, plan, k, (n - 1) as nat);
    }
}

/// The text of the `k`-th object stands in the text of the first `n`
/// objects after the text of the objects before it.
pub proof fn lemma_body_object_at(objects: StoreModel, plan: Seq<ObjectRef>, k: nat, n: nat)
    requires
        1 <= k <= n <= plan.len(),
    ensures
        has_at(
            body_text(objects, plan, n),
            body_text(objects, plan, (k - 1) as nat).len() as int,
            object_text(k as int, prepared(resolve(objects, plan[k - 1]), plan)),
        ),
    decreases n - k,
{
    let part = object_text(k as int, prepared(resolve(objects, plan[k - 1]), plan));
    if k == n {
        lemma_has_at_self(part);
        lemma_has_at_right(body_text(objects, plan, (k - 1) as nat), part, 0, part);
    } else {
        lemma_body_object_at(objects, plan, k, (n - 1) as nat);
        lemma_has_at_left(
            body_text(objects, plan, (n - 1) as nat),
            object_text(n as int, prepared(resolve(objects, plan[n - 1]), plan)),
            body_text(objects, plan, (k - 1) as nat).len() as int,
            part,
        );
    }
}

/// The lines of a written table for the first `n` objects are twenty
/// bytes each, and the `k`-th of them stands at its place.
pub proof fn lemma_xref_line_at(
    start: int,
    objects: StoreModel,
    plan: Seq<ObjectRef>,
    k: nat,
    n: nat,
)
    requires
        1 <= k <= n <= plan.len(),
        0 <= start,
    ensures
        xref_lines(start, objects, plan, n).len() == 20 * n,
        has_at(
            xref_lines(start, objects, plan, n),
            20 * (k - 1),
            table_line(offset_of(start, objects, plan, k as int) as nat, 0, 110),
        ),
    decreases n,
{
    lemma_xref_lines_len(start, objects, plan, n);
    lemma_xref_lines_len(start, objects, plan, (n - 1) as nat);
    let last = table_line(offset_of(start, objects, plan, n as int) as nat, 0, 110);
    lemma_line_end();
    assert(xref_lines(start, objects, plan, n) =~= xref_lines(
        start,
        objects,
        plan,
        (n - 1) as nat,
    ) + last);
    if k == n {
        lemma_has_at_self(last);
        lemma_has_at_right(xref_lines(start, objects, plan, (n - 1) as nat), last, 0, last);
    } else {
        lemma_xref_line_at(start, objects, plan, k, (n - 1) as nat);
        lemma_has_at_left(
            xref_lines(start, objects, plan, (n - 1) as nat),
            last,
            20 * (k - 1),
            table_line(offset_of(start, objects, plan, k as int) as nat, 0, 110),
        );
    }
}

/// The end of a written line is the generation 0 in five digits and the
/// letter `n`.
pub proof fn lemma_line_end()
    ensures
        xref_line_end() == seq![32u8] + padded(0, 5) + seq![32u8, 110u8, 32u8, 10u8],
        padded(0, 5).len() == 5,
{
    reveal_with_fuel(padded, 6);
    assert(padded(0, 5) =~= seq![48u8, 48u8, 48u8, 48u8, 48u8]);
    assert(xref_line_end() =~= seq![32u8] + padded(0, 5) + seq![32u8, 110u8, 32u8, 10u8]);
}

/// The lines of a written table for the first `n` objects are twenty
/// bytes each.
pub proof fn lemma_xref_lines_len(start: int, objects: StoreModel, plan: Seq<ObjectRef>, n: nat)
    requires
        n <= plan.len(),
    ensures
        xref_lines(start, objects, plan, n).len() == 20 * n,
    decreases n,
{
    if n > 0 {
        lemma_xref_lines_len(start, objects, plan, (n - 1) as nat);
        lemma_padded_len(
            (start + body_text(objects, plan, (n - 1) as nat).len()) as nat,
            10,
        );
    }
}

/// A number written in `w` digits is `w` bytes.
pub proof fn lemma_padded_len(n: nat, w: nat)
    ensures
        padded(n, w).len() == w,
    decreases w,
{
    if w > 0 {
        lemma_padded_len(n / 10, (w - 1) as nat);
    }
}

/// The line of the `j`-th object stands at its place after the line of
/// the free number, holds an offset that a line can hold, and starts
/// with a digit.
pub proof fn lemma_line_stands(
    b: Seq<u8>,
    free: int,
    start: int,
    objects: StoreModel,
    plan: Seq<ObjectRef>,
    j: nat,
)
    requires
        0 <= start,
        start + body_text(objects, plan, plan.len()).len() <= 9999999999,
        has_at(b, free + 20, xref_lines(start, objects, plan, plan.len())),
        1 <= j <= plan.len(),
    ensures
        has_at(
            b,
            free + 20 * j,
            table_line(offset_of(start, objects, plan, j as int) as nat, 0, 110),
        ),
        0 <= offset_of(start, objects, plan, j as int) <= 9999999999,
        free + 20 * j < b.len(),
        is_digit(b[free + 20 * j]),
{
    let n = plan.len();
    let offset = offset_of(start, objects, plan, j as int) as nat;
    let line = table_line(offset, 0, 110);
    lemma_xref_line_at(start, objects, plan, j, n);
    lemma_has_at_within(b, free + 20, xref_lines(start, objects, plan, n), 20 * (j - 1), line);
    lemma_body_grows(objects, plan, (j - 1) as nat, n);
    assert(pow10(10) == 10000000000) by {
        reveal_with_fuel(pow10, 11);
    }
    lemma_padded(offset, 10);
    lemma_has_at(b, free + 20 * j, line);
    assert(b[free + 20 * j + 0] == line[0]);
    assert(line[0] == padded(offset, 10)[0]);
}

/// The line of the free number is read as such.
pub proof fn lemma_parse_free_line(b: Seq<u8>, cur: int, free: int, remaining: nat)
    requires
        0 <= cur <= free,
        skip_space(b, cur) == free,
        has_at(b, free, table_line(0, 65535, 102)),
        remaining > 0,
    ensures
        parse_xref_lines(b, cur, 0, remaining, Seq::empty()) == parse_xref_lines(
            b,
            free + 18,
            1,
            (remaining - 1) as nat,
            seq![XrefEntry { id: 0, offset: 0, generation: 65535, in_use: false, container: 0 }],
        ),
        b[free + 18] == 32,
        b[free + 19] == 10,
{
    lemma_parse_line(b, cur, free, 0, remaining, Seq::empty(), 0, 65535, 102);
    assert(Seq::<XrefEntry>::empty().push(
        XrefEntry { id: 0, offset: 0, generation: 65535, in_use: false, container: 0 },
    ) =~= seq![XrefEntry { id: 0, offset: 0, generation: 65535, in_use: false, container: 0 }]);
}

/// Where the lines of a written table stand after the line of the free
/// number, which stands at `free`, the lines from the `j`-th on are read
/// and added to those before them.
pub proof fn lemma_parse_lines(
    b: Seq<u8>,
    free: int,
    start: int,
    objects: StoreModel,
    plan: Seq<ObjectRef>,
    j: nat,
)
    requires
        0 <= start,
        0 <= free,
        plan.len() <= MAX_OBJECT_ID,
        start + body_text(objects, plan, plan.len()).len() <= 9999999999,
        has_at(b, free + 20, xref_lines(start, objects, plan, plan.len())),
        1 <= j <= plan.len() + 1,
        free + 20 * j <= b.len(),
        b[free + 20 * j - 2] == 32,
        b[free + 20 * j - 1] == 10,
    ensures
        parse_xref_lines(
            b,
            free + 20 * j - 2,
            j as int,
            (plan.len() + 1 - j) as nat,
            written_lines(start, objects, plan, plan.len()).subrange(0, j as int),
        ) == Some(
            (
                written_lines(start, objects, plan, plan.len()),
                free + 20 * (plan.len() + 1) - 2,
            ),
        ),
    decreases plan.len() + 1 - j,
{
    let n = plan.len();
    let all = written_lines(start, objects, plan, n);
    let acc = all.subrange(0, j as int);
    if j == n + 1 {
        assert(acc =~= all);
    } else {
        let at = free + 20 * j;
        let offset = offset_of(start, objects, plan, j as int) as nat;
        lemma_line_stands(b, free, start, objects, plan, j);
        lemma_skip_space_two(b, at - 2);
        lemma_parse_line(b, at - 2, at, j as int, (n + 1 - j) as nat, acc, offset, 0, 110);
        assert(acc.push(all[j as int]) =~= all.subrange(0, j as int + 1));
        lemma_parse_lines(b, free, start, objects, plan, j + 1);
    }
}

} // verus!
