//! How far a walk goes: it finds no more objects than the store holds,
//! and it finds every object that it starts from, where it is not cut
//! short.

use crate::qpdf::graph::{reached, successors, walk, walk_limit, WalkKind};
use crate::qpdf::object::types::ObjectRef;
use crate::qpdf::store::{holds, resolve, StoreModel};
use vstd::prelude::*;
use vstd::set_lib::{lemma_int_range, lemma_len_subset, set_int_range};

verus! {

/// How many objects the object with the number `n` goes on to; 0 where
/// the number is not in use.
pub open spec fn steps_from(objects: StoreModel, kind: WalkKind, n: int) -> nat {
    if 0 < n <= objects.len() {
        match objects[n - 1] {
            Some(o) => successors(kind, o.value).len(),
            None => 0,
        }
    } else {
        0
    }
}

/// How many objects those of the first `n` numbers go on to that a walk
/// has not met.
pub open spec fn steps_ahead(objects: StoreModel, kind: WalkKind, met: Set<int>, n: nat) -> nat
    decreases n,
{
    if n == 0 {
        0
    } else {
        steps_ahead(objects, kind, met, (n - 1) as nat) + if met.contains(n as int) {
            0
        } else {
            steps_from(objects, kind, n as int)
        }
    }
}

/// How many steps a walk from `roots` needs at most: one for each root
/// and one for each object that an object goes on to.
pub open spec fn walk_need(objects: StoreModel, kind: WalkKind, roots: Seq<ObjectRef>) -> nat {
    roots.len() + steps_ahead(objects, kind, Set::empty(), objects.len())
}

/// Once an object is met, what it goes on to is no longer ahead.
pub proof fn lemma_steps_ahead_met(
    objects: StoreModel,
    kind: WalkKind,
    met: Set<int>,
    id: int,
    n: nat,
)
    requires
        !met.contains(id),
    ensures
        steps_ahead(objects, kind, met.insert(id), n) + (if 0 < id <= n {
            steps_from(objects, kind, id)
        } else {
            0
        }) == steps_ahead(objects, kind, met, n),
    decreases n,
{
    if n > 0 {
        lemma_steps_ahead_met(objects, kind, met, id, (n - 1) as nat);
    }
}

/// Whether the list holds a reference with the number `id`.
pub open spec fn holds_id(list: Seq<ObjectRef>, id: int) -> bool {
    exists|i: int| 0 <= i < list.len() && (#[trigger] list[i]).id == id
}

/// A walk that is not cut short finds every object that the store holds
/// and that stands on its stack or was met before.
pub proof fn lemma_walk_reaches(
    objects: StoreModel,
    kind: WalkKind,
    stack: Seq<ObjectRef>,
    met: Set<int>,
    acc: Seq<ObjectRef>,
    fuel: nat,
    target: ObjectRef,
)
    requires
        stack.len() + steps_ahead(objects, kind, met, objects.len()) <= fuel,
        forall|id: int| met.contains(id) ==> holds_id(acc, id),
        forall|i: int| 0 <= i < acc.len() ==> holds(objects, #[trigger] acc[i]),
        holds(objects, target),
        stack.contains(target) || met.contains(target.id as int),
    ensures
        walk(objects, kind, stack, met, acc, fuel).contains(target),
    decreases fuel,
{
    if fuel == 0 || stack.len() == 0 {
        assert(stack.len() == 0);
        assert(met.contains(target.id as int));
        assert(holds_id(acc, target.id as int));
        let i = choose|i: int| 0 <= i < acc.len() && (#[trigger] acc[i]).id == target.id;
        assert(holds(objects, acc[i]));
        assert(acc[i] == target);
    } else {
        let r = stack.last();
        let rest = stack.drop_last();
        if stack.contains(target) {
            let j = choose|j: int| 0 <= j < stack.len() && stack[j] == target;
            if j < stack.len() - 1 {
                assert(rest[j] == target);
            }
        }
        if !holds(objects, r) || met.contains(r.id as int) {
            assert(rest.contains(target) || met.contains(target.id as int));
            lemma_walk_reaches(objects, kind, rest, met, acc, (fuel - 1) as nat, target);
        } else {
            let more = successors(kind, resolve(objects, r)).reverse();
            let next = rest + more;
            let seen = met.insert(r.id as int);
            let found = acc.push(r);
            lemma_steps_ahead_met(objects, kind, met, r.id as int, objects.len());
            assert(steps_from(objects, kind, r.id as int) == more.len());
            assert forall|id: int| seen.contains(id) implies holds_id(found, id) by {
                if id == r.id {
                    assert(found[acc.len() as int].id == id);
                } else {
                    assert(holds_id(acc, id));
                    let i = choose|i: int| 0 <= i < acc.len() && (#[trigger] acc[i]).id == id;
                    assert(found[i].id == id);
                }
            }
            assert forall|i: int| 0 <= i < found.len() implies holds(
                objects,
                #[trigger] found[i],
            ) by {
                if i < acc.len() {
                    assert(found[i] == acc[i]);
                }
            }
            if stack.contains(target) && !seen.contains(target.id as int) {
                let j = choose|j: int| 0 <= j < stack.len() && stack[j] == target;
                assert(j < stack.len() - 1);
                assert(next[j] == target);
            }
            lemma_walk_reaches(objects, kind, next, seen, found, (fuel - 1) as nat, target);
        }
    }
}

/// A walk finds at most as many objects as the store spans numbers.
pub proof fn lemma_walk_bound(
    objects: StoreModel,
    kind: WalkKind,
    stack: Seq<ObjectRef>,
    met: Set<int>,
    acc: Seq<ObjectRef>,
    fuel: nat,
)
    requires
        met.finite(),
        acc.len() == met.len(),
        forall|id: int| met.contains(id) ==> 1 <= id <= objects.len(),
    ensures
        walk(objects, kind, stack, met, acc, fuel).len() <= objects.len(),
    decreases fuel,
{
    if fuel == 0 || stack.len() == 0 {
        lemma_int_range(1, objects.len() as int + 1);
        assert(met.subset_of(set_int_range(1, objects.len() as int + 1)));
        lemma_len_subset(met, set_int_range(1, objects.len() as int + 1));
    } else {
        let r = stack.last();
        let rest = stack.drop_last();
        if !holds(objects, r) || met.contains(r.id as int) {
            lemma_walk_bound(objects, kind, rest, met, acc, (fuel - 1) as nat);
        } else {
            lemma_walk_bound(
                objects,
                kind,
                rest + successors(kind, resolve(objects, r)).reverse(),
                met.insert(r.id as int),
                acc.push(r),
                (fuel - 1) as nat,
            );
        }
    }
}

/// What is reached from any roots is at most as many objects as the
/// store spans numbers.
pub proof fn law_no_more_is_reached_than_is_held(
    objects: StoreModel,
    kind: WalkKind,
    roots: Seq<ObjectRef>,
)
    ensures
        reached(objects, kind, roots).len() <= objects.len(),
{
    lemma_walk_bound(objects, kind, roots.reverse(), Set::empty(), Seq::empty(), walk_limit());
}

/// Every root that the store holds is reached, where the walk needs
/// fewer steps than a walk is long.
pub proof fn law_every_held_root_is_reached(
    objects: StoreModel,
    kind: WalkKind,
    roots: Seq<ObjectRef>,
    target: ObjectRef,
)
    requires
        walk_need(objects, kind, roots) <= walk_limit(),
        roots.contains(target),
        holds(objects, target),
    ensures
        reached(objects, kind, roots).contains(target),
{
    let stack = roots.reverse();
    let j = choose|j: int| 0 <= j < roots.len() && roots[j] == target;
    assert(stack[roots.len() - 1 - j] == target);
    lemma_walk_reaches(
        objects,
        kind,
        stack,
        Set::empty(),
        Seq::empty(),
        walk_limit(),
        target,
    );
}

} // verus!
