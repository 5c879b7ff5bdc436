//! The objects of a packed file that stand in the file themselves are
//! loaded as they were written, and the lines of the file name the
//! object stream for every other object.

use crate::qpdf::document::{load_objects, parse_indirect_object};
use crate::qpdf::inverse::file::lemma_resolve_wf;
use crate::qpdf::inverse::numbering::lemma_prepared;
use crate::qpdf::inverse::objects::lemma_parse_object;
use crate::qpdf::inverse::packing::{
    lemma_member_count_grows, lemma_standing_grows, packed_line, packed_lines, places_in_order,
    Places,
};
use crate::qpdf::inverse::table::{
    lemma_has_at_left, lemma_has_at_right, lemma_has_at_self, lemma_has_at_within,
};
use crate::qpdf::layout::{object_text, plan_writable};
use crate::qpdf::object::types::ObjectRef;
use crate::qpdf::object::value::Value;
use crate::qpdf::packed::{member_count, packable, standing_text, written_value};
use crate::qpdf::store::{
    resolve, store_wf, with_object, without_number, StoreModel, StoredModel, MAX_OBJECT_ID,
};
use crate::qpdf::streams::{held_in, waiting_of, waiting_with, Waiting};
use crate::qpdf::syntax::has_at;
use vstd::prelude::*;

verus! {

/// A value as an object of generation 0.
pub open spec fn stored(v: Value) -> Option<StoredModel> {
    Some(StoredModel { generation: 0, value: v })
}

/// The store `first`, then the object stream `c` and the cross-reference
/// stream `x`.
pub open spec fn with_two(first: StoreModel, c: Value, x: Value) -> StoreModel {
    first.push(stored(c)).push(stored(x))
}

/// What stands in the file for the number `i + 1`: the object where it
/// is a stream, nothing where the object stream holds it.
pub open spec fn standing_slot(objects: StoreModel, plan: Seq<ObjectRef>, i: int) -> Option<
    StoredModel,
> {
    if packable(written_value(objects, plan, i + 1)) {
        None
    } else {
        stored(written_value(objects, plan, i + 1))
    }
}

/// The objects of the plan that stand in the file themselves.
pub open spec fn standing_objects(objects: StoreModel, plan: Seq<ObjectRef>) -> StoreModel {
    Seq::new(plan.len(), |i: int| standing_slot(objects, plan, i))
}

/// Where the `k`-th object of the plan starts if it stands in the file.
pub open spec fn standing_offset(
    at: Places,
    objects: StoreModel,
    plan: Seq<ObjectRef>,
    k: int,
) -> int {
    at.start + standing_text(objects, plan, (k - 1) as nat).len()
}

/// The text of the `k`-th object, where it stands in the file itself,
/// stands in the text of the first `n` after that of those before it.
pub proof fn lemma_standing_object_at(objects: StoreModel, plan: Seq<ObjectRef>, k: nat, n: nat)
    requires
        1 <= k <= n <= plan.len(),
        !packable(written_value(objects, plan, k as int)),
    ensures
        has_at(
            standing_text(objects, plan, n),
            standing_text(objects, plan, (k - 1) as nat).len() as int,
            object_text(k as int, written_value(objects, plan, k as int)),
        ),
    decreases n - k,
{
    let part = object_text(k as int, written_value(objects, plan, k as int));
    if k == n {
        lemma_has_at_self(part);
        lemma_has_at_right(standing_text(objects, plan, (k - 1) as nat), part, 0, part);
    } else {
        lemma_standing_object_at(objects, plan, k, (n - 1) as nat);
        if !packable(written_value(objects, plan, n as int)) {
            lemma_has_at_left(
                standing_text(objects, plan, (n - 1) as nat),
                object_text(n as int, written_value(objects, plan, n as int)),
                standing_text(objects, plan, (k - 1) as nat).len() as int,
                part,
            );
        }
    }
}

/// Every object that stands in the file itself is read at its offset as
/// it was written.
pub open spec fn standing_stand(
    b: Seq<u8>,
    at: Places,
    objects: StoreModel,
    plan: Seq<ObjectRef>,
) -> bool {
    forall|k: int|
        1 <= k <= plan.len() && !packable(written_value(objects, plan, k)) ==> (
        #[trigger] parse_indirect_object(b, standing_offset(at, objects, plan, k))
            matches Some(found) && found.0 == (ObjectRef { id: k as i32, generation: 0 })
            && found.1 == written_value(objects, plan, k))
}

/// Where the texts of the standing objects stand, each is read at its
/// offset as it was written.
pub proof fn lemma_standing_stand(
    b: Seq<u8>,
    at: Places,
    objects: StoreModel,
    plan: Seq<ObjectRef>,
)
    requires
        store_wf(objects),
        0 <= at.start,
        plan.len() <= MAX_OBJECT_ID,
        plan_writable(objects, plan, plan.len()),
        has_at(b, at.start, standing_text(objects, plan, plan.len())),
    ensures
        standing_stand(b, at, objects, plan),
{
    let n = plan.len();
    assert forall|k: int|
        1 <= k <= n && !packable(written_value(objects, plan, k)) implies (
    #[trigger] parse_indirect_object(b, standing_offset(at, objects, plan, k)) matches Some(
        found,
    ) && found.0 == (ObjectRef { id: k as i32, generation: 0 }) && found.1 == written_value(
        objects,
        plan,
        k,
    )) by {
        let v = resolve(objects, plan[k - 1]);
        lemma_resolve_wf(objects, plan[k - 1]);
        lemma_prepared(v, plan);
        lemma_standing_object_at(objects, plan, k as nat, n);
        lemma_has_at_within(
            b,
            at.start,
            standing_text(objects, plan, n),
            standing_text(objects, plan, (k - 1) as nat).len() as int,
            object_text(k, written_value(objects, plan, k)),
        );
        lemma_parse_object(
            b,
            standing_offset(at, objects, plan, k),
            k,
            written_value(objects, plan, k),
        );
    }
}

/// The store holds, of the first `k` objects, those that stand in the
/// file themselves, and nothing else.
pub open spec fn holds_standing(
    store: StoreModel,
    objects: StoreModel,
    plan: Seq<ObjectRef>,
    k: nat,
) -> bool {
    &&& store.len() <= k
    &&& forall|i: int|
        0 <= i < store.len() ==> #[trigger] store[i] == standing_slot(objects, plan, i)
    &&& forall|j: int|
        store.len() < j <= k ==> packable(#[trigger] written_value(objects, plan, j))
}

/// Where every standing object, the object stream `c` and the
/// cross-reference stream `x` are read at their offsets, the lines from
/// the `j`-th on load them.
pub proof fn lemma_load_standing(
    b: Seq<u8>,
    at: Places,
    objects: StoreModel,
    plan: Seq<ObjectRef>,
    c: Value,
    x: Value,
    j: nat,
    store: StoreModel,
)
    requires
        places_in_order(at, objects, plan),
        standing_stand(b, at, objects, plan),
        parse_indirect_object(b, at.container_at) matches Some(found) && found.0 == (ObjectRef {
            id: (plan.len() + 1) as i32,
            generation: 0,
        }) && found.1 == c,
        parse_indirect_object(b, at.table_at) matches Some(found) && found.0 == (ObjectRef {
            id: (plan.len() + 2) as i32,
            generation: 0,
        }) && found.1 == x,
        1 <= j <= plan.len() + 1,
        holds_standing(store, objects, plan, (j - 1) as nat),
    ensures
        load_objects(b, packed_lines(at, objects, plan), j, store) == Some(
            with_two(standing_objects(objects, plan), c, x),
        ),
    decreases plan.len() + 1 - j,
{
    let n = plan.len();
    let lines = packed_lines(at, objects, plan);
    let line = lines[j as int];
    assert(line == packed_line(at, objects, plan, j as int));
    if j <= n {
        lemma_standing_grows(objects, plan, (j - 1) as nat, n);
        lemma_member_count_grows(objects, plan, (j - 1) as nat, n);
        if packable(written_value(objects, plan, j as int)) {
            assert(without_number(store, line.id as int) == store);
            lemma_load_standing(b, at, objects, plan, c, x, j + 1, store);
        } else {
            assert(line.offset as int == standing_offset(at, objects, plan, j as int));
            let found = parse_indirect_object(b, standing_offset(at, objects, plan, j as int))->0;
            let reference = ObjectRef { id: j as i32, generation: 0 };
            assert(found.0 == reference);
            let next = with_object(store, reference, found.1);
            assert(holds_standing(next, objects, plan, j)) by {
                assert forall|i: int| 0 <= i < next.len() implies #[trigger] next[i]
                    == standing_slot(objects, plan, i) by {
                    if i < store.len() {
                        assert(next[i] == store[i]);
                    } else if i < j - 1 {
                        assert(packable(written_value(objects, plan, i + 1)));
                    }
                }
            }
            lemma_load_standing(b, at, objects, plan, c, x, j + 1, next);
        }
    } else {
        let last = lines[n as int + 2];
        assert(last == packed_line(at, objects, plan, n as int + 2));
        let first = ObjectRef { id: (n + 1) as i32, generation: 0 };
        let second = ObjectRef { id: (n + 2) as i32, generation: 0 };
        let s1 = with_object(store, first, c);
        let s2 = with_object(s1, second, x);
        assert(load_objects(b, lines, j, store) == load_objects(b, lines, j + 1, s1));
        assert(load_objects(b, lines, j + 1, s1) == load_objects(b, lines, j + 2, s2));
        assert(load_objects(b, lines, j + 2, s2) == Some(s2));
        let all = with_two(standing_objects(objects, plan), c, x);
        assert(s2.len() == all.len());
        assert forall|i: int| 0 <= i < s2.len() implies s2[i] == all[i] by {
            if i < store.len() {
                assert(s2[i] == store[i]);
            } else if i < n {
                assert(packable(written_value(objects, plan, i + 1)));
            }
        }
        assert(s2 =~= all);
    }
}

/// What the lines say of the number `i + 1`: the object stream and the
/// place in it where the object stream holds the object.
pub open spec fn waiting_slot(objects: StoreModel, plan: Seq<ObjectRef>, i: int) -> Option<
    (int, int),
> {
    if packable(written_value(objects, plan, i + 1)) {
        Some(((plan.len() + 1) as int, member_count(objects, plan, i as nat) as int))
    } else {
        None
    }
}

/// The list names the object stream for those of the first `k` objects
/// that it holds, and ends with one of them.
pub open spec fn holds_waiting(
    w: Waiting,
    objects: StoreModel,
    plan: Seq<ObjectRef>,
    k: nat,
) -> bool {
    &&& w.len() <= k
    &&& forall|i: int| 0 <= i < w.len() ==> #[trigger] w[i] == waiting_slot(objects, plan, i)
    &&& forall|j: int| w.len() < j <= k ==> !packable(#[trigger] written_value(objects, plan, j))
}

/// The first `m` lines of a packed file name the object stream for the
/// objects that it holds.
pub proof fn lemma_waiting(at: Places, objects: StoreModel, plan: Seq<ObjectRef>, m: nat)
    requires
        places_in_order(at, objects, plan),
        1 <= m <= plan.len() + 3,
    ensures
        holds_waiting(
            waiting_of(packed_lines(at, objects, plan), m),
            objects,
            plan,
            if m - 1 <= plan.len() {
                (m - 1) as nat
            } else {
                plan.len()
            },
        ),
    decreases m,
{
    let n = plan.len();
    let lines = packed_lines(at, objects, plan);
    let j = (m - 1) as nat;
    let line = lines[j as int];
    assert(line == packed_line(at, objects, plan, j as int));
    if m == 1 {
        assert(waiting_of(lines, 0) =~= Seq::<Option<(int, int)>>::empty());
        assert(waiting_of(lines, 1) == waiting_with(waiting_of(lines, 0), 0, held_in(line)));
    } else {
        lemma_waiting(at, objects, plan, j);
        let before = waiting_of(lines, j);
        let after = waiting_of(lines, m);
        assert(after == waiting_with(before, line.id as int, held_in(line)));
        if j <= n {
            lemma_standing_grows(objects, plan, (j - 1) as nat, n);
            lemma_member_count_grows(objects, plan, (j - 1) as nat, n);
            if packable(written_value(objects, plan, j as int)) {
                assert(held_in(line) == waiting_slot(objects, plan, j - 1));
                assert forall|i: int| 0 <= i < after.len() implies #[trigger] after[i]
                    == waiting_slot(objects, plan, i) by {
                    if i < before.len() {
                        assert(after[i] == before[i]);
                    } else if i < j - 1 {
                        assert(!packable(written_value(objects, plan, i + 1)));
                    }
                }
            } else {
                assert(after == before);
            }
        } else {
            assert(after == before);
        }
    }
}

} // verus!
