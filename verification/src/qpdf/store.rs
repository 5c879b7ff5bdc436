//! The object store: every indirect object of a document, by number and
//! generation.

use crate::qpdf::filters::{lemma_recoded_wf, recode, recoded, Recoding};
use crate::qpdf::object::types::{Generation, ObjectId, ObjectRef};
use crate::qpdf::object::value::{ObjectValue, Value};
use vstd::prelude::*;

verus! {

/// The largest object number that a store holds.
pub const MAX_OBJECT_ID: i32 = 8388607;

/// One stored object: its generation and its value.
#[derive(Debug)]
pub struct StoredObject {
    pub generation: Generation,
    pub value: ObjectValue,
}

/// The model of a stored object.
pub struct StoredModel {
    pub generation: int,
    pub value: Value,
}

/// The model of a store: the object numbered `n` is at position `n - 1`,
/// and a number that is not in use holds `None`.
pub type StoreModel = Seq<Option<StoredModel>>;

/// Whether the store holds the object that `r` names.
pub open spec fn holds(objects: StoreModel, r: ObjectRef) -> bool {
    &&& 0 < r.id <= objects.len()
    &&& objects[r.id - 1] matches Some(o)
    &&& o.generation == r.generation
}

/// The value of the object that `r` names; null where the store holds no
/// such object.
pub open spec fn resolve(objects: StoreModel, r: ObjectRef) -> Value {
    if holds(objects, r) {
        objects[r.id - 1]->0.value
    } else {
        Value::Null
    }
}

/// Every stored value is well formed and no generation is negative.
pub open spec fn store_wf(objects: StoreModel) -> bool {
    &&& objects.len() <= MAX_OBJECT_ID
    &&& forall|i: int|
        0 <= i < objects.len() ==> (#[trigger] objects[i] matches Some(o) ==> o.generation >= 0
            && o.value.wf())
}

/// The store with `value` as the object `r`, the numbers between the old
/// length and `r` not in use.
pub open spec fn with_object(objects: StoreModel, r: ObjectRef, value: Value) -> StoreModel {
    let stored = Some(StoredModel { generation: r.generation as int, value });
    if r.id <= objects.len() {
        objects.update(r.id - 1, stored)
    } else {
        Seq::new(
            r.id as nat,
            |i: int|
                if i < objects.len() {
                    objects[i]
                } else if i == r.id - 1 {
                    stored
                } else {
                    None
                },
        )
    }
}

/// The store without the object `r`.
pub open spec fn without_object(objects: StoreModel, r: ObjectRef) -> StoreModel {
    if holds(objects, r) {
        objects.update(r.id - 1, None)
    } else {
        objects
    }
}

/// The store with the number `id` not in use, whatever its generation.
pub open spec fn without_number(objects: StoreModel, id: int) -> StoreModel {
    if 0 < id <= objects.len() {
        objects.update(id - 1, None)
    } else {
        objects
    }
}

/// A store that is well formed stays so with every value as it is
/// written.
pub proof fn lemma_recoded_store_wf(objects: StoreModel, rc: Recoding)
    requires
        store_wf(objects),
    ensures
        store_wf(recoded_store(objects, rc)),
{
    let after = recoded_store(objects, rc);
    assert forall|i: int| 0 <= i < after.len() implies (#[trigger] after[i] matches Some(o)
        ==> o.generation >= 0 && o.value.wf()) by {
        if let Some(o) = objects[i] {
            lemma_recoded_wf(o.value, rc);
        }
    }
}

/// The store without the numbers at its end that are not in use.
pub open spec fn compacted(objects: StoreModel) -> StoreModel
    decreases objects.len(),
{
    if objects.len() > 0 && objects.last() is None {
        compacted(objects.drop_last())
    } else {
        objects
    }
}

/// The store with every value as it is written under `rc`.
pub open spec fn recoded_store(objects: StoreModel, rc: Recoding) -> StoreModel {
    Seq::new(
        objects.len(),
        |i: int|
            match objects[i] {
                Some(o) => Some(
                    StoredModel { generation: o.generation, value: recoded(o.value, rc) },
                ),
                None => None,
            },
    )
}

/// The references of the objects held under the first `n` numbers, in the
/// order of their numbers.
pub open spec fn all_held(objects: StoreModel, n: nat) -> Seq<ObjectRef>
    decreases n,
{
    if n == 0 || n > objects.len() {
        Seq::empty()
    } else {
        match objects[n - 1] {
            Some(o) => all_held(objects, (n - 1) as nat).push(
                ObjectRef { id: n as i32, generation: o.generation as i32 },
            ),
            None => all_held(objects, (n - 1) as nat),
        }
    }
}

/// Every indirect object of a document.
#[derive(Debug)]
pub struct ObjectStore {
    slots: Vec<Option<StoredObject>>,
}

impl View for ObjectStore {
    type V = StoreModel;

    closed spec fn view(&self) -> StoreModel {
        Seq::new(
            self.slots@.len(),
            |i: int|
                match self.slots@[i] {
                    Some(o) => Some(StoredModel { generation: o.generation as int, value: o.value@ }),
                    None => None,
                },
        )
    }
}

impl ObjectStore {
    /// A store is valid when its model is well formed.
    pub open spec fn wf(&self) -> bool {
        store_wf(self@)
    }

    /// The empty store.
    pub fn new() -> (r: Self)
        ensures
            r@.len() == 0,
            r.wf(),
    {
        ObjectStore { slots: Vec::new() }
    }

    /// The number of object numbers that the store spans.
    pub fn len(&self) -> (r: usize)
        ensures
            r == self@.len(),
    {
        self.slots.len()
    }

    /// The value held under the number `index + 1`.
    pub fn value_at(&self, index: usize) -> (v: Option<&ObjectValue>)
        requires
            index < self@.len(),
        ensures
            v matches Some(value) ==> self@[index as int] matches Some(o) && o.value == value@,
            v is None ==> self@[index as int] is None,
    {
        match &self.slots[index] {
            Some(o) => Some(&o.value),
            None => None,
        }
    }

    /// The references of all objects held, in the order of their numbers.
    pub fn held_refs(&self) -> (r: Vec<ObjectRef>)
        requires
            self.wf(),
        ensures
            r@ == all_held(self@, self@.len()),
    {
        let mut out: Vec<ObjectRef> = Vec::new();
        let mut i: usize = 0;
        while i < self.slots.len()
            invariant
                i <= self.slots.len() <= MAX_OBJECT_ID,
                out@ == all_held(self@, i as nat),
            decreases self.slots.len() - i,
        {
            match &self.slots[i] {
                Some(o) => {
                    out.push(ObjectRef { id: (i + 1) as i32, generation: o.generation });
                },
                None => {},
            }
            i += 1;
        }
        out
    }

    /// Whether the store holds the object `r`.
    pub fn contains(&self, r: ObjectRef) -> (b: bool)
        ensures
            b == holds(self@, r),
    {
        if r.id > 0 && (r.id as usize) <= self.slots.len() {
            match &self.slots[(r.id - 1) as usize] {
                Some(o) => o.generation == r.generation,
                None => false,
            }
        } else {
            false
        }
    }

    /// The stored value of the object `r`.
    pub fn peek(&self, r: ObjectRef) -> (v: Option<&ObjectValue>)
        ensures
            v is Some <==> holds(self@, r),
            v matches Some(value) ==> value@ == resolve(self@, r),
            self.wf() && v is Some ==> v->0@.wf(),
    {
        if r.id > 0 && (r.id as usize) <= self.slots.len() {
            match &self.slots[(r.id - 1) as usize] {
                Some(o) => {
                    if o.generation == r.generation {
                        assert(self@[r.id - 1] is Some);
                        Some(&o.value)
                    } else {
                        None
                    }
                },
                None => None,
            }
        } else {
            None
        }
    }

    /// A copy of the value of the object `id`, `generation`; `None` where
    /// the number is unknown or the generation is another.
    pub fn get(&self, id: ObjectId, generation: Generation) -> (v: Option<ObjectValue>)
        ensures
            v is Some <==> holds(self@, ObjectRef { id, generation }),
            v matches Some(value) ==> value@ == resolve(self@, ObjectRef { id, generation }),
            self.wf() && v is Some ==> v->0@.wf(),
    {
        match self.peek(ObjectRef { id, generation }) {
            Some(value) => Some(value.duplicate()),
            None => None,
        }
    }

    /// A copy of the value that `r` resolves to: null for a reference that
    /// the store does not hold.
    pub fn resolved(&self, r: ObjectRef) -> (v: ObjectValue)
        ensures
            v@ == resolve(self@, r),
            self.wf() ==> v@.wf(),
    {
        match self.peek(r) {
            Some(value) => value.duplicate(),
            None => ObjectValue::Null,
        }
    }

    /// Takes a number that no object has had: the next after the largest
    /// spanned. The new object has generation 0 and holds null. `None`
    /// where the store is full.
    pub fn allocate(&mut self) -> (r: Option<ObjectId>)
        requires
            old(self).wf(),
        ensures
            final(self).wf(),
            r is None <==> old(self)@.len() >= MAX_OBJECT_ID,
            r is None ==> final(self)@ == old(self)@,
            r matches Some(id) ==> {
                &&& id == old(self)@.len() + 1
                &&& final(self)@ == old(self)@.push(
                    Some(StoredModel { generation: 0, value: Value::Null }),
                )
            },
    {
        if self.slots.len() >= MAX_OBJECT_ID as usize {
            return None;
        }
        let id: i32 = (self.slots.len() + 1) as i32;
        self.slots.push(Some(StoredObject { generation: 0, value: ObjectValue::Null }));
        assert(self@ =~= old(self)@.push(Some(StoredModel { generation: 0, value: Value::Null })));
        Some(id)
    }

    /// Stores `value` as the object `r`, in place of what the number held.
    /// Nothing is stored, and `false` returned, where `r` is not valid or
    /// its number is beyond the largest that a store holds.
    pub fn put(&mut self, r: ObjectRef, value: ObjectValue) -> (done: bool)
        requires
            old(self).wf(),
            value@.wf(),
        ensures
            final(self).wf(),
            done == (r.valid() && r.id <= MAX_OBJECT_ID),
            done ==> final(self)@ == with_object(old(self)@, r, value@),
            !done ==> final(self)@ == old(self)@,
    {
        if !(r.id > 0 && r.generation >= 0 && r.id <= MAX_OBJECT_ID) {
            return false;
        }
        let at: usize = (r.id - 1) as usize;
        while self.slots.len() <= at
            invariant
                at == r.id - 1,
                0 < r.id <= MAX_OBJECT_ID,
                self.slots@.len() <= old(self).slots@.len() || self.slots@.len() <= at + 1,
                self.slots@.len() >= old(self).slots@.len(),
                forall|i: int| 0 <= i < old(self).slots@.len() ==> self.slots@[i] == old(self).slots@[i],
                forall|i: int| old(self).slots@.len() <= i < self.slots@.len() ==> self.slots@[i] is None,
            decreases at + 1 - self.slots.len(),
        {
            self.slots.push(None);
        }
        self.slots.set(at, Some(StoredObject { generation: r.generation, value }));
        assert(self@ =~= with_object(old(self)@, r, value@));
        true
    }

    /// A copy of the store.
    pub fn duplicate(&self) -> (r: ObjectStore)
        requires
            self.wf(),
        ensures
            r@ == self@,
            r.wf(),
    {
        let mut slots: Vec<Option<StoredObject>> = Vec::new();
        let mut i: usize = 0;
        while i < self.slots.len()
            invariant
                i <= self.slots.len(),
                slots@.len() == i,
                forall|j: int|
                    0 <= j < i ==> match self.slots@[j] {
                        Some(o) => (#[trigger] slots@[j]) matches Some(c) && c.generation
                            == o.generation && c.value@ == o.value@,
                        None => slots@[j] is None,
                    },
            decreases self.slots.len() - i,
        {
            match &self.slots[i] {
                Some(o) => {
                    slots.push(
                        Some(StoredObject { generation: o.generation, value: o.value.duplicate() }),
                    );
                },
                None => {
                    slots.push(None);
                },
            }
            i += 1;
        }
        let r = ObjectStore { slots };
        assert(r@ =~= self@);
        r
    }

    /// A copy of the store with every value as it is written under `rc`.
    pub fn recoded(&self, rc: &Recoding) -> (r: ObjectStore)
        requires
            self.wf(),
        ensures
            r@ == recoded_store(self@, *rc),
            r.wf(),
    {
        let mut slots: Vec<Option<StoredObject>> = Vec::new();
        let mut i: usize = 0;
        while i < self.slots.len()
            invariant
                i <= self.slots.len() <= MAX_OBJECT_ID,
                self.wf(),
                slots@.len() == i,
                forall|j: int|
                    0 <= j < i ==> match self.slots@[j] {
                        Some(o) => (#[trigger] slots@[j]) matches Some(c) && c.generation
                            == o.generation && c.value@ == recoded(o.value@, *rc)
                            && c.value@.wf() && c.generation >= 0,
                        None => slots@[j] is None,
                    },
            decreases self.slots.len() - i,
        {
            match &self.slots[i] {
                Some(o) => {
                    assert(self@[i as int] is Some);
                    let value: ObjectValue = recode(&o.value, rc);
                    slots.push(Some(StoredObject { generation: o.generation, value }));
                },
                None => {
                    slots.push(None);
                },
            }
            i += 1;
        }
        let r = ObjectStore { slots };
        assert(r@ =~= recoded_store(self@, *rc));
        r
    }

    /// Gives up the numbers at the end of the store that are not in use,
    /// so that they are given out again.
    pub fn compact(&mut self)
        requires
            old(self).wf(),
        ensures
            final(self).wf(),
            final(self)@ == compacted(old(self)@),
    {
        while self.slots.len() > 0 && self.slots[self.slots.len() - 1].is_none()
            invariant
                self.wf(),
                compacted(self@) == compacted(old(self)@),
            decreases self.slots.len(),
        {
            let ghost before = self@;
            let _ = self.slots.pop();
            assert(self@ =~= before.drop_last());
        }
    }

    /// Takes the object with the number `id` out, whatever its
    /// generation.
    pub fn clear(&mut self, id: ObjectId)
        requires
            old(self).wf(),
        ensures
            final(self).wf(),
            final(self)@ == without_number(old(self)@, id as int),
    {
        if id > 0 && (id as usize) <= self.slots.len() {
            self.slots.set((id - 1) as usize, None);
            assert(self@ =~= without_number(old(self)@, id as int));
        }
    }

    /// Takes the object `r` out; its number stays spanned and is not given
    /// out again. Returns whether the store held it.
    pub fn remove(&mut self, r: ObjectRef) -> (done: bool)
        requires
            old(self).wf(),
        ensures
            final(self).wf(),
            done == holds(old(self)@, r),
            final(self)@ == without_object(old(self)@, r),
    {
        if self.contains(r) {
            self.slots.set((r.id - 1) as usize, None);
            assert(self@ =~= without_object(old(self)@, r));
            true
        } else {
            assert(self@ =~= without_object(old(self)@, r));
            false
        }
    }
}

} // verus!
