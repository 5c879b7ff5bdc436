//! Object handles: a value together with the identity it has in a store,
//! the type tests and conversions on it, and the array and dictionary
//! operations.

pub mod types;
pub mod value;

use crate::qpdf::error::ErrorKind;
use crate::qpdf::keys::{subtype_key, subtype_key_string, type_key, type_key_string};
use crate::qpdf::object::types::{Generation, ObjectId};
use crate::qpdf::store::{
    holds, resolve, store_wf, with_object, StoreModel, StoredModel, MAX_OBJECT_ID,
};
use crate::qpdf::{DocumentModel, QPDF};
use crate::qpdf::object::types::{ObjectRef, QPDFIsObjectType};
use crate::qpdf::object::value::{
    duplicate_entries, entries_view, entries_wf, has_key, key_index, keys_unique, lemma_key_index,
    lemma_view_members, value_at_key, values_view, Entry, EntryModel, ObjectValue, Value,
};
use vstd::prelude::*;
use vstd::utf8::{encode_utf8, valid_utf8};

verus! {

/// A handle on one object: the value, and the reference under which the
/// object is known to a store where it is an indirect object.
#[derive(Debug)]
pub struct QPDFObjectHandler {
    pub(crate) value: ObjectValue,
    pub(crate) reference: Option<ObjectRef>,
}

/// The model of a handle.
pub struct HandleModel {
    pub value: Value,
    pub reference: Option<ObjectRef>,
}

/// What a conversion can ask for.
pub enum Target {
    Bool,
    I64,
    I32,
    U64,
    U32,
    Real,
    String,
    Name,
    Bytes,
}

impl Value {
    /// Whether the variant of the value is the one that `target` reads.
    pub open spec fn tag_matches(self, target: Target) -> bool {
        match target {
            Target::Bool => self is Bool,
            Target::I64 | Target::I32 | Target::U64 | Target::U32 => self is Integer,
            Target::Real => self is Real,
            Target::String | Target::Bytes => self is String,
            Target::Name => self is Name,
        }
    }

    /// Whether the stored value can be held by `target`: an integer within
    /// the range of the target, a string that is valid UTF-8 where text is
    /// asked for.
    pub open spec fn fits(self, target: Target) -> bool {
        match target {
            Target::I32 => self matches Value::Integer(i) ==> i32::MIN <= i <= i32::MAX,
            Target::U64 => self matches Value::Integer(i) ==> 0 <= i,
            Target::U32 => self matches Value::Integer(i) ==> 0 <= i <= u32::MAX,
            Target::String => self matches Value::String(b) ==> valid_utf8(b),
            _ => true,
        }
    }

    /// Whether the conversion to `target` succeeds.
    pub open spec fn converts(self, target: Target) -> bool {
        self.tag_matches(target) && self.fits(target)
    }

    /// The item at `at`, or null where the value is no array or `at` is out
    /// of range.
    pub open spec fn item_at(self, at: int) -> Value {
        match self {
            Value::Array(items) => if 0 <= at < items.len() {
                items[at]
            } else {
                Value::Null
            },
            _ => Value::Null,
        }
    }

    /// The number of items of an array; 0 for every other value.
    pub open spec fn item_count(self) -> nat {
        match self {
            Value::Array(items) => items.len(),
            _ => 0,
        }
    }

    /// Whether the value is a name equal to `name`.
    pub open spec fn is_name_equal(self, name: Seq<char>) -> bool {
        self == Value::Name(name)
    }

    /// Whether the value is the name `name`, or an array that holds it.
    pub open spec fn is_or_has_name(self, name: Seq<char>) -> bool {
        match self {
            Value::Name(n) => n == name,
            Value::Array(items) => exists|i: int|
                0 <= i < items.len() && #[trigger] items[i] == Value::Name(name),
            _ => false,
        }
    }

    /// Whether the value is a dictionary whose `/Type` is `kind` and whose
    /// `/Subtype` is `subkind`; an empty `kind` or `subkind` is not tested.
    pub open spec fn is_dictionary_of_type(self, kind: Seq<char>, subkind: Seq<char>) -> bool {
        match self {
            Value::Dictionary(entries) => {
                &&& kind.len() == 0 || value_at_key(entries, type_key()) == Value::Name(kind)
                &&& subkind.len() == 0 || value_at_key(entries, subtype_key()) == Value::Name(
                    subkind,
                )
            },
            _ => false,
        }
    }
}

impl Value {
    /// The array with `v` in place of the item at `at`; the value itself
    /// where it is no array or `at` is out of range.
    pub open spec fn with_item_set(self, at: int, v: Value) -> Value {
        match self {
            Value::Array(items) => if 0 <= at < items.len() {
                Value::Array(items.update(at, v))
            } else {
                self
            },
            _ => self,
        }
    }

    /// The array with `v` put in before the item at `at`, the later items
    /// moved one place up; `at` may be the length. Otherwise the value
    /// itself.
    pub open spec fn with_item_inserted(self, at: int, v: Value) -> Value {
        match self {
            Value::Array(items) => if 0 <= at <= items.len() {
                Value::Array(items.insert(at, v))
            } else {
                self
            },
            _ => self,
        }
    }

    /// The array without the item at `at`, the later items moved one place
    /// down. Otherwise the value itself.
    pub open spec fn with_item_erased(self, at: int) -> Value {
        match self {
            Value::Array(items) => if 0 <= at < items.len() {
                Value::Array(items.remove(at))
            } else {
                self
            },
            _ => self,
        }
    }

    /// The array with `v` added at its end. Otherwise the value itself.
    pub open spec fn with_item_appended(self, v: Value) -> Value {
        match self {
            Value::Array(items) => Value::Array(items.push(v)),
            _ => self,
        }
    }

    /// Whether the value is a dictionary that holds `key`.
    pub open spec fn holds_key(self, key: Seq<char>) -> bool {
        match self {
            Value::Dictionary(entries) => has_key(entries, key),
            _ => false,
        }
    }

    /// The value under `key` of a dictionary; null where the key is absent
    /// or the value is no dictionary.
    pub open spec fn value_under(self, key: Seq<char>) -> Value {
        match self {
            Value::Dictionary(entries) => value_at_key(entries, key),
            _ => Value::Null,
        }
    }

    /// The dictionary with `v` under `key`: in the place of the old entry
    /// where the key was present, at the end where it was not. Otherwise
    /// the value itself.
    pub open spec fn with_key_replaced(self, key: Seq<char>, v: Value) -> Value {
        match self {
            Value::Dictionary(entries) => Value::Dictionary(entries_with_key(entries, key, v)),
            _ => self,
        }
    }

    /// The dictionary without `key`. Otherwise the value itself.
    pub open spec fn with_key_removed(self, key: Seq<char>) -> Value {
        match self {
            Value::Dictionary(entries) => Value::Dictionary(entries_without_key(entries, key)),
            _ => self,
        }
    }
}

/// The array operations keep a value well formed.
pub proof fn lemma_array_ops_wf(v: Value, at: int, member: Value)
    requires
        v.wf(),
        member.wf(),
    ensures
        v.with_item_set(at, member).wf(),
        v.with_item_inserted(at, member).wf(),
        v.with_item_erased(at).wf(),
        v.with_item_appended(member).wf(),
        v.item_at(at).wf(),
{
    if let Value::Array(items) = v {
        if 0 <= at < items.len() {
            let a = items.update(at, member);
            assert forall|i: int| 0 <= i < a.len() implies (#[trigger] a[i]).wf() by {
                if i != at {
                    assert(a[i] == items[i]);
                }
            }
            let b = items.remove(at);
            assert forall|i: int| 0 <= i < b.len() implies (#[trigger] b[i]).wf() by {
                if i < at {
                    assert(b[i] == items[i]);
                } else {
                    assert(b[i] == items[i + 1]);
                }
            }
        }
        if 0 <= at <= items.len() {
            let c = items.insert(at, member);
            assert forall|i: int| 0 <= i < c.len() implies (#[trigger] c[i]).wf() by {
                if i < at {
                    assert(c[i] == items[i]);
                } else if i > at {
                    assert(c[i] == items[i - 1]);
                }
            }
        }
        let d = items.push(member);
        assert forall|i: int| 0 <= i < d.len() implies (#[trigger] d[i]).wf() by {
            if i < items.len() {
                assert(d[i] == items[i]);
            }
        }
    }
}

/// The entries with `v` under `key`.
pub open spec fn entries_with_key(entries: Seq<EntryModel>, key: Seq<char>, v: Value) -> Seq<
    EntryModel,
> {
    if has_key(entries, key) {
        entries.update(key_index(entries, key), (key, v))
    } else {
        entries.push((key, v))
    }
}

/// The entries without the first entry under `key`.
pub open spec fn entries_without_key(entries: Seq<EntryModel>, key: Seq<char>) -> Seq<
    EntryModel,
> {
    if has_key(entries, key) {
        entries.remove(key_index(entries, key))
    } else {
        entries
    }
}

/// Replacing a key keeps the entries well formed, puts the value under the
/// key and leaves every other key as it was.
pub proof fn lemma_entries_with_key(entries: Seq<EntryModel>, key: Seq<char>, v: Value)
    requires
        entries_wf(entries),
        v.wf(),
    ensures
        entries_wf(entries_with_key(entries, key, v)),
        has_key(entries_with_key(entries, key, v), key),
        value_at_key(entries_with_key(entries, key, v), key) == v,
        forall|other: Seq<char>|
            other != key ==> {
                &&& has_key(entries_with_key(entries, key, v), other) == has_key(entries, other)
                &&& value_at_key(entries_with_key(entries, key, v), other) == value_at_key(
                    entries,
                    other,
                )
            },
{
    let after = entries_with_key(entries, key, v);
    lemma_key_index(entries, key);
    let at = key_index(entries, key);
    assert(after[at] == (key, v));
    lemma_key_index(after, key);
    assert(keys_unique(after)) by {
        assert forall|i: int, j: int| 0 <= i < j < after.len() implies (#[trigger] after[i]).0 != (
        #[trigger] after[j]).0 by {
            if i != at && j != at {
                assert(after[i] == entries[i]);
                assert(after[j] == entries[j]);
            } else if i == at {
                if has_key(entries, key) {
                    assert(after[j] == entries[j]);
                    assert(entries[i].0 == key);
                }
            } else {
                assert(after[i] == entries[i]);
                if has_key(entries, key) {
                    assert(entries[j].0 == key);
                }
            }
        }
    }
    assert forall|i: int| 0 <= i < after.len() implies (#[trigger] after[i]).1.wf() by {
        if i != at {
            assert(after[i] == entries[i]);
        }
    }
    assert(key_index(after, key) == at) by {
        if key_index(after, key) < at {
            assert(after[key_index(after, key)] == entries[key_index(after, key)]);
        }
    }
    assert forall|other: Seq<char>| other != key implies {
        &&& has_key(after, other) == has_key(entries, other)
        &&& value_at_key(after, other) == value_at_key(entries, other)
    } by {
        lemma_key_index(entries, other);
        lemma_key_index(after, other);
        let a = key_index(entries, other);
        let b = key_index(after, other);
        if a < entries.len() {
            assert(after[a] == entries[a]);
            if b < a {
                assert(after[b].0 == other);
                assert(b != at);
                assert(after[b] == entries[b]);
            }
        }
        if b < after.len() {
            assert(b != at);
            assert(after[b] == entries[b]);
            if a < b {
                assert(after[a] == entries[a]);
            }
        }
    }
}

/// Removing a key keeps the entries well formed, leaves the key absent and
/// every other key as it was.
pub proof fn lemma_entries_without_key(entries: Seq<EntryModel>, key: Seq<char>)
    requires
        entries_wf(entries),
    ensures
        entries_wf(entries_without_key(entries, key)),
        !has_key(entries_without_key(entries, key), key),
        forall|other: Seq<char>|
            other != key ==> {
                &&& has_key(entries_without_key(entries, key), other) == has_key(
                    entries,
                    other,
                )
                &&& value_at_key(entries_without_key(entries, key), other) == value_at_key(
                    entries,
                    other,
                )
            },
{
    let after = entries_without_key(entries, key);
    lemma_key_index(entries, key);
    let at = key_index(entries, key);
    if has_key(entries, key) {
        assert forall|i: int| 0 <= i < after.len() implies #[trigger] after[i] == entries[if i
            < at {
            i
        } else {
            i + 1
        }] by {}
        assert(keys_unique(after)) by {
            assert forall|i: int, j: int| 0 <= i < j < after.len() implies (#[trigger] after[i]).0
                != (#[trigger] after[j]).0 by {
                let i0 = if i < at { i } else { i + 1 };
                let j0 = if j < at { j } else { j + 1 };
                assert(after[i] == entries[i0]);
                assert(after[j] == entries[j0]);
            }
        }
        assert forall|i: int| 0 <= i < after.len() implies (#[trigger] after[i]).1.wf() by {
            let i0 = if i < at { i } else { i + 1 };
            assert(after[i] == entries[i0]);
        }
        lemma_key_index(after, key);
        if has_key(after, key) {
            let b = key_index(after, key);
            let b0 = if b < at { b } else { b + 1 };
            assert(after[b] == entries[b0]);
            assert(entries[b0].0 == key);
            assert(entries[at].0 == key);
        }
        assert forall|other: Seq<char>| other != key implies {
            &&& has_key(after, other) == has_key(entries, other)
            &&& value_at_key(after, other) == value_at_key(entries, other)
        } by {
            lemma_key_index(entries, other);
            lemma_key_index(after, other);
            let a = key_index(entries, other);
            let b = key_index(after, other);
            if a < entries.len() {
                let a1 = if a < at { a } else { a - 1 };
                assert(a != at);
                assert(after[a1] == entries[a]);
                if b < a1 {
                    let b0 = if b < at { b } else { b + 1 };
                    assert(after[b] == entries[b0]);
                }
            }
            if b < after.len() {
                let b0 = if b < at { b } else { b + 1 };
                assert(after[b] == entries[b0]);
                if a < b0 {
                    let a1 = if a < at { a } else { a - 1 };
                    assert(a != at);
                    assert(after[a1] == entries[a]);
                }
            }
        }
    } else {
        lemma_key_index(after, key);
    }
}

impl HandleModel {
    /// The handle made of a value by hand: a reference has the identity
    /// it names, any other value has none.
    pub open spec fn of_value(v: Value) -> HandleModel {
        match v {
            Value::Indirect(r) => HandleModel { value: v, reference: Some(r) },
            _ => HandleModel { value: v, reference: None },
        }
    }

    /// The handle of a member of an array or a dictionary, read through
    /// the store `objects`: a reference stands for the indirect object
    /// that it names, with the value that it resolves to, null where the
    /// store does not hold it; any other member is a direct value.
    pub open spec fn of_member(objects: StoreModel, v: Value) -> HandleModel {
        match v {
            Value::Indirect(r) => HandleModel { value: resolve(objects, r), reference: Some(r) },
            _ => HandleModel { value: v, reference: None },
        }
    }

    /// What an array or a dictionary holds once the handle is put into it:
    /// the reference of an indirect object, the value of a direct one.
    pub open spec fn as_member(self) -> Value {
        match self.reference {
            Some(r) => Value::Indirect(r),
            None => self.value,
        }
    }

    /// The value is well formed and the reference is valid.
    pub open spec fn wf(self) -> bool {
        &&& self.value.wf()
        &&& self.reference matches Some(r) ==> r.valid()
    }

    /// The answer to a type test. `Initialized` asks for a handle that
    /// holds nothing yet, and `InlineImage` for an inline image of a
    /// content stream: a handle holds a value always, and no value is an
    /// inline image, so neither is ever met. `Indirect` asks whether the
    /// handle stands for an indirect object.
    pub open spec fn satisfies(self, t: QPDFIsObjectType) -> bool {
        match t {
            QPDFIsObjectType::Initialized => false,
            QPDFIsObjectType::Bool => self.value is Bool,
            QPDFIsObjectType::Null => self.value is Null,
            QPDFIsObjectType::Integer => self.value is Integer,
            QPDFIsObjectType::Real => self.value is Real,
            QPDFIsObjectType::Name => self.value is Name,
            QPDFIsObjectType::String => self.value is String,
            QPDFIsObjectType::Operator => self.value is Operator,
            QPDFIsObjectType::InlineImage => false,
            QPDFIsObjectType::Array => self.value is Array,
            QPDFIsObjectType::Dictionary => self.value is Dictionary,
            QPDFIsObjectType::Stream => self.value is Stream,
            QPDFIsObjectType::Indirect => self.reference is Some,
            QPDFIsObjectType::Scalar => self.value.is_scalar(),
            QPDFIsObjectType::NameEquals(name) => self.value.is_name_equal(name@),
            QPDFIsObjectType::IsOrHasName(name) => self.value.is_or_has_name(name@),
            QPDFIsObjectType::DictionaryOfType(kind, subkind) => self.value.is_dictionary_of_type(
                kind@,
                subkind@,
            ),
        }
    }
}

/// A well-formed handle is held as a well-formed member, and the handle of
/// a well-formed member, read through a well-formed store, is well formed.
pub proof fn lemma_member_wf(h: HandleModel, objects: StoreModel, v: Value)
    ensures
        h.wf() ==> h.as_member().wf(),
        v.wf() ==> HandleModel::of_value(v).wf(),
        v.wf() && store_wf(objects) ==> HandleModel::of_member(objects, v).wf(),
{
    if let Value::Indirect(r) = v {
        if holds(objects, r) && store_wf(objects) {
            assert(objects[r.id - 1] is Some);
        }
    }
}

impl View for QPDFObjectHandler {
    type V = HandleModel;

    closed spec fn view(&self) -> HandleModel {
        HandleModel { value: self.value@, reference: self.reference }
    }
}

/// `String::from_utf8`: the bytes become a string exactly when they are
/// valid UTF-8, and the string then encodes to those bytes.
#[verifier::external_body]
pub(crate) fn string_from_utf8(bytes: Vec<u8>) -> (r: Option<String>)
    ensures
        r is Some <==> valid_utf8(bytes@),
        r matches Some(s) ==> encode_utf8(s@) == bytes@,
{
    String::from_utf8(bytes).ok()
}

/// The text that `String::from_utf8_lossy` makes of bytes: the text that
/// they encode where they are valid UTF-8, and otherwise a text in which
/// the replacement character stands for what is not valid. Which bytes
/// one replacement character stands for is not stated here.
pub uninterp spec fn lossy_text(bytes: Seq<u8>) -> Seq<char>;

/// `String::from_utf8_lossy`, with its result as an owned string: the
/// text is the one that the function makes of these bytes.
#[verifier::external_body]
pub(crate) fn string_from_utf8_lossy(bytes: &Vec<u8>) -> (r: String)
    ensures
        r@ == lossy_text(bytes@),
{
    String::from_utf8_lossy(bytes.as_slice()).into_owned()
}

/// The first position of `key` among `entries`, or their number where the
/// key is absent.
pub fn find_key(entries: &Vec<Entry>, key: &String) -> (r: usize)
    ensures
        r as int == key_index(entries_view(entries@), key@),
        r <= entries.len(),
{
    let ghost model = entries_view(entries@);
    let mut i: usize = 0;
    assert(model.skip(0) =~= model);
    while i < entries.len()
        invariant
            i <= entries.len(),
            model == entries_view(entries@),
            key_index(model, key@) == i + key_index(model.skip(i as int), key@),
        decreases entries.len() - i,
    {
        proof {
            let rest = model.skip(i as int);
            assert(rest[0] == model[i as int]);
            assert(rest.drop_first() =~= model.skip(i + 1));
        }
        if entries[i].0 == *key {
            return i;
        }
        i += 1;
    }
    proof {
        assert(model.skip(i as int).len() == 0);
    }
    i
}

/// Whether `value` is a name equal to `name`.
fn name_equals(value: &ObjectValue, name: &String) -> (r: bool)
    ensures
        r == value@.is_name_equal(name@),
{
    match value {
        ObjectValue::Name(n) => *n == *name,
        _ => false,
    }
}

/// The value under `key` among `entries`, tested for being the name `name`.
fn key_is_name(entries: &Vec<Entry>, key: &String, name: &String) -> (r: bool)
    ensures
        r == (value_at_key(entries_view(entries@), key@) == Value::Name(name@)),
{
    let at: usize = find_key(entries, key);
    if at < entries.len() {
        name_equals(&entries[at].1, name)
    } else {
        false
    }
}

impl QPDFObjectHandler {
    /// A handle is valid when its model is well formed.
    pub open spec fn wf(&self) -> bool {
        self@.wf()
    }

    /// A handle on a direct value. Made of a reference, the handle
    /// stands for the indirect object that the reference names, and holds
    /// the reference itself until it is read through a document.
    pub fn new(value: ObjectValue) -> (r: Self)
        requires
            value@.wf(),
        ensures
            r@ == HandleModel::of_value(value@),
            r.wf(),
    {
        let reference: Option<ObjectRef> = match &value {
            ObjectValue::Indirect(r) => Some(*r),
            _ => None,
        };
        QPDFObjectHandler { value, reference }
    }

    /// A handle on the indirect object `reference` with the value `value`.
    pub fn indirect(value: ObjectValue, reference: ObjectRef) -> (r: Self)
        requires
            value@.wf(),
            reference.valid(),
        ensures
            r@ == (HandleModel { value: value@, reference: Some(reference) }),
            r.wf(),
    {
        QPDFObjectHandler { value, reference: Some(reference) }
    }

    /// A copy of the handle: the value is copied member by member, a
    /// reference stays a reference.
    pub fn duplicate(&self) -> (r: Self)
        ensures
            r@ == self@,
    {
        QPDFObjectHandler { value: self.value.duplicate(), reference: self.reference }
    }

    /// The reference under which the object is known to a store.
    pub fn reference(&self) -> (r: Option<ObjectRef>)
        ensures
            r == self@.reference,
    {
        self.reference
    }

    /// The value that the handle holds.
    pub fn value(&self) -> (r: &ObjectValue)
        ensures
            r@ == self@.value,
    {
        &self.value
    }

    /// Tests the object for a type: its variant, whether it stands for
    /// an indirect object, whether it is a given name or an array that
    /// holds it, or a dictionary of a given type and subtype.
    #[verifier::loop_isolation(false)]
    pub fn is(&self, t: QPDFIsObjectType) -> (r: bool)
        ensures
            r == self@.satisfies(t),
    {
        match t {
            QPDFIsObjectType::Initialized => false,
            QPDFIsObjectType::Bool => matches!(self.value, ObjectValue::Bool(_)),
            QPDFIsObjectType::Null => matches!(self.value, ObjectValue::Null),
            QPDFIsObjectType::Integer => matches!(self.value, ObjectValue::Integer(_)),
            QPDFIsObjectType::Real => matches!(self.value, ObjectValue::Real(_)),
            QPDFIsObjectType::Name => matches!(self.value, ObjectValue::Name(_)),
            QPDFIsObjectType::String => matches!(self.value, ObjectValue::String(_)),
            QPDFIsObjectType::Operator => matches!(self.value, ObjectValue::Operator(_)),
            QPDFIsObjectType::InlineImage => false,
            QPDFIsObjectType::Array => matches!(self.value, ObjectValue::Array(_)),
            QPDFIsObjectType::Dictionary => matches!(self.value, ObjectValue::Dictionary(_)),
            QPDFIsObjectType::Stream => matches!(self.value, ObjectValue::Stream(_, _)),
            QPDFIsObjectType::Indirect => self.reference.is_some(),
            QPDFIsObjectType::Scalar => !(matches!(self.value, ObjectValue::Array(_))
                || matches!(self.value, ObjectValue::Dictionary(_)) || matches!(
                self.value,
                ObjectValue::Stream(_, _)
            )),
            QPDFIsObjectType::NameEquals(name) => name_equals(&self.value, &name),
            QPDFIsObjectType::IsOrHasName(name) => {
                proof {
                    lemma_view_members(self.value);
                }
                match &self.value {
                    ObjectValue::Name(n) => *n == name,
                    ObjectValue::Array(items) => {
                        let mut i: usize = 0;
                        while i < items.len()
                            invariant
                                i <= items.len(),
                                forall|j: int|
                                    0 <= j < i ==> (#[trigger] values_view(items@)[j])
                                        != Value::Name(name@),
                            decreases items.len() - i,
                        {
                            if name_equals(&items[i], &name) {
                                assert(values_view(items@)[i as int] == Value::Name(name@));
                                return true;
                            }
                            i += 1;
                        }
                        false
                    },
                    _ => false,
                }
            },
            QPDFIsObjectType::DictionaryOfType(kind, subkind) => {
                proof {
                    lemma_view_members(self.value);
                }
                match &self.value {
                    ObjectValue::Dictionary(entries) => {
                        let type_key_text: String = type_key_string();
                        let subtype_key_text: String = subtype_key_string();
                        (kind.as_str().is_empty() || key_is_name(entries, &type_key_text, &kind))
                            && (subkind.as_str().is_empty() || key_is_name(
                            entries,
                            &subtype_key_text,
                            &subkind,
                        ))
                    },
                    _ => false,
                }
            },
        }
    }
}

impl QPDFObjectHandler {
    /// The boolean that the object holds.
    pub fn try_as_bool(&self) -> (r: Result<bool, ErrorKind>)
        ensures
            r is Ok <==> self@.value.converts(Target::Bool),
            r matches Ok(b) ==> self@.value == Value::Bool(b),
            r matches Err(e) ==> e == ErrorKind::ConversionError,
    {
        match &self.value {
            ObjectValue::Bool(b) => Ok(*b),
            _ => Err(ErrorKind::ConversionError),
        }
    }

    /// The integer that the object holds.
    pub fn try_as_i64(&self) -> (r: Result<i64, ErrorKind>)
        ensures
            r is Ok <==> self@.value.converts(Target::I64),
            r matches Ok(i) ==> self@.value == Value::Integer(i as int),
            r matches Err(e) ==> e == ErrorKind::ConversionError,
    {
        match &self.value {
            ObjectValue::Integer(i) => Ok(*i),
            _ => Err(ErrorKind::ConversionError),
        }
    }

    /// The integer that the object holds, where it fits 32 bits.
    pub fn try_as_i32(&self) -> (r: Result<i32, ErrorKind>)
        ensures
            r is Ok <==> self@.value.converts(Target::I32),
            r matches Ok(i) ==> self@.value == Value::Integer(i as int),
            r matches Err(e) ==> e == ErrorKind::ConversionError,
    {
        match &self.value {
            ObjectValue::Integer(i) => {
                if -2147483648 <= *i && *i <= 2147483647 {
                    Ok(*i as i32)
                } else {
                    Err(ErrorKind::ConversionError)
                }
            },
            _ => Err(ErrorKind::ConversionError),
        }
    }

    /// The integer that the object holds, where it is not negative.
    pub fn try_as_u64(&self) -> (r: Result<u64, ErrorKind>)
        ensures
            r is Ok <==> self@.value.converts(Target::U64),
            r matches Ok(i) ==> self@.value == Value::Integer(i as int),
            r matches Err(e) ==> e == ErrorKind::ConversionError,
    {
        match &self.value {
            ObjectValue::Integer(i) => {
                if *i >= 0 {
                    Ok(*i as u64)
                } else {
                    Err(ErrorKind::ConversionError)
                }
            },
            _ => Err(ErrorKind::ConversionError),
        }
    }

    /// The integer that the object holds, where it is not negative and
    /// fits 32 bits.
    pub fn try_as_u32(&self) -> (r: Result<u32, ErrorKind>)
        ensures
            r is Ok <==> self@.value.converts(Target::U32),
            r matches Ok(i) ==> self@.value == Value::Integer(i as int),
            r matches Err(e) ==> e == ErrorKind::ConversionError,
    {
        match &self.value {
            ObjectValue::Integer(i) => {
                if 0 <= *i && *i <= 4294967295 {
                    Ok(*i as u32)
                } else {
                    Err(ErrorKind::ConversionError)
                }
            },
            _ => Err(ErrorKind::ConversionError),
        }
    }

    /// The decimal text of the real number that the object holds.
    pub fn try_as_real(&self) -> (r: Result<String, ErrorKind>)
        ensures
            r is Ok <==> self@.value.converts(Target::Real),
            r matches Ok(s) ==> self@.value == Value::Real(s@),
            r matches Err(e) ==> e == ErrorKind::ConversionError,
    {
        match &self.value {
            ObjectValue::Real(s) => Ok(s.clone()),
            _ => Err(ErrorKind::ConversionError),
        }
    }

    /// The text of the string that the object holds, where its bytes are
    /// valid UTF-8.
    pub fn try_as_string(&self) -> (r: Result<String, ErrorKind>)
        ensures
            r is Ok <==> self@.value.converts(Target::String),
            r matches Ok(s) ==> self@.value == Value::String(encode_utf8(s@)),
            r matches Err(e) ==> e == ErrorKind::ConversionError,
    {
        match &self.value {
            ObjectValue::String(b) => {
                match string_from_utf8(b.clone()) {
                    Some(s) => Ok(s),
                    None => Err(ErrorKind::ConversionError),
                }
            },
            _ => Err(ErrorKind::ConversionError),
        }
    }

    /// The bytes of the string that the object holds.
    pub fn try_as_bytes(&self) -> (r: Result<Vec<u8>, ErrorKind>)
        ensures
            r is Ok <==> self@.value.converts(Target::Bytes),
            r matches Ok(b) ==> self@.value == Value::String(b@),
            r matches Err(e) ==> e == ErrorKind::ConversionError,
    {
        match &self.value {
            ObjectValue::String(b) => Ok(b.clone()),
            _ => Err(ErrorKind::ConversionError),
        }
    }

    /// The name that the object holds, with its leading slash.
    pub fn name(&self) -> (r: Result<String, ErrorKind>)
        ensures
            r is Ok <==> self@.value.converts(Target::Name),
            r matches Ok(s) ==> self@.value == Value::Name(s@),
            r matches Err(e) ==> e == ErrorKind::ConversionError,
    {
        match &self.value {
            ObjectValue::Name(s) => Ok(s.clone()),
            _ => Err(ErrorKind::ConversionError),
        }
    }

    /// The dictionary of a stream, as a direct dictionary; a direct null
    /// for every other object.
    pub fn dict(&self) -> (r: QPDFObjectHandler)
        ensures
            r@.reference is None,
            r@.value == match self@.value {
                Value::Stream(entries, _) => Value::Dictionary(entries),
                _ => Value::Null,
            },
            self.wf() ==> r.wf(),
    {
        proof {
            lemma_view_members(self.value);
        }
        match &self.value {
            ObjectValue::Stream(entries, _) => {
                let value = ObjectValue::Dictionary(duplicate_entries(entries));
                proof {
                    lemma_view_members(value);
                }
                QPDFObjectHandler { value, reference: None }
            },
            _ => QPDFObjectHandler { value: ObjectValue::Null, reference: None },
        }
    }

    /// The number of the indirect object, 0 for a direct one.
    pub fn object_id(&self) -> (r: i32)
        ensures
            r == match self@.reference {
                Some(reference) => reference.id,
                None => 0,
            },
    {
        match self.reference {
            Some(reference) => reference.id,
            None => 0,
        }
    }

    /// The generation of the indirect object, 0 for a direct one.
    pub fn generation(&self) -> (r: i32)
        ensures
            r == match self@.reference {
                Some(reference) => reference.generation,
                None => 0,
            },
    {
        match self.reference {
            Some(reference) => reference.generation,
            None => 0,
        }
    }

    /// What an array or a dictionary holds once this handle is put into
    /// it.
    pub fn to_member(&self) -> (r: ObjectValue)
        ensures
            r@ == self@.as_member(),
    {
        match self.reference {
            Some(reference) => ObjectValue::Indirect(reference),
            None => self.value.duplicate(),
        }
    }

    /// The handle of a member of an array or a dictionary, read through
    /// the document `owner`: a reference is resolved.
    pub fn of_member(owner: &QPDF, member: &ObjectValue) -> (r: QPDFObjectHandler)
        requires
            owner.wf(),
        ensures
            r@ == HandleModel::of_member(owner@.objects, member@),
            member@.wf() ==> r.wf(),
    {
        proof {
            lemma_member_wf(HandleModel::of_value(member@), owner@.objects, member@);
        }
        match member {
            ObjectValue::Indirect(reference) => QPDFObjectHandler {
                value: owner.resolve(*reference),
                reference: Some(*reference),
            },
            _ => QPDFObjectHandler { value: member.duplicate(), reference: None },
        }
    }
}

impl QPDFObjectHandler {
    /// The number of items of an array, 0 for every other object; a number
    /// beyond `i32::MAX` is given as `i32::MAX`.
    pub fn array_len(&self) -> (r: i32)
        ensures
            r as int == if self@.value.item_count() <= i32::MAX {
                self@.value.item_count() as int
            } else {
                i32::MAX as int
            },
    {
        proof {
            lemma_view_members(self.value);
        }
        match &self.value {
            ObjectValue::Array(items) => {
                if items.len() <= 2147483647 {
                    items.len() as i32
                } else {
                    2147483647
                }
            },
            _ => 0,
        }
    }

    /// The item at `at`, read through the document `owner`: an item that
    /// is a reference is the indirect object that it names, with the
    /// value that the document holds for it. A direct null where the
    /// object is no array or `at` is out of range.
    pub fn array_get_at(&self, owner: &QPDF, at: i32) -> (r: QPDFObjectHandler)
        requires
            owner.wf(),
        ensures
            r@ == HandleModel::of_member(owner@.objects, self@.value.item_at(at as int)),
            self.wf() ==> r.wf(),
    {
        proof {
            lemma_view_members(self.value);
            if self.wf() {
                lemma_array_ops_wf(self@.value, at as int, Value::Null);
                lemma_member_wf(self@, owner@.objects, self@.value.item_at(at as int));
            }
        }
        match &self.value {
            ObjectValue::Array(items) => {
                if at >= 0 && (at as usize) < items.len() {
                    QPDFObjectHandler::of_member(owner, &items[at as usize])
                } else {
                    QPDFObjectHandler { value: ObjectValue::Null, reference: None }
                }
            },
            _ => QPDFObjectHandler { value: ObjectValue::Null, reference: None },
        }
    }

    /// Puts `item` in place of the item at `at`. Nothing changes where the
    /// object is no array or `at` is out of range.
    pub fn array_set_at(&mut self, at: i32, item: QPDFObjectHandler)
        ensures
            final(self)@.reference == old(self)@.reference,
            final(self)@.value == old(self)@.value.with_item_set(at as int, item@.as_member()),
            old(self).wf() && item.wf() ==> final(self).wf(),
    {
        proof {
            lemma_view_members(self.value);
            lemma_member_wf(item@, Seq::empty(), Value::Null);
            if self.wf() && item.wf() {
                lemma_array_ops_wf(self@.value, at as int, item@.as_member());
            }
        }
        let member: ObjectValue = item.to_member();
        match &mut self.value {
            ObjectValue::Array(items) => {
                if at >= 0 && (at as usize) < items.len() {
                    let ghost before = items@;
                    items.set(at as usize, member);
                    assert(values_view(items@) =~= values_view(before).update(
                        at as int,
                        member@,
                    ));
                }
            },
            _ => {},
        }
        proof {
            lemma_view_members(self.value);
        }
    }

    /// Puts `item` in before the item at `at`; `at` may be the length.
    /// Nothing changes where the object is no array or `at` is out of
    /// range.
    pub fn array_insert_at(&mut self, at: i32, item: QPDFObjectHandler)
        ensures
            final(self)@.reference == old(self)@.reference,
            final(self)@.value == old(self)@.value.with_item_inserted(
                at as int,
                item@.as_member(),
            ),
            old(self).wf() && item.wf() ==> final(self).wf(),
    {
        proof {
            lemma_view_members(self.value);
            lemma_member_wf(item@, Seq::empty(), Value::Null);
            if self.wf() && item.wf() {
                lemma_array_ops_wf(self@.value, at as int, item@.as_member());
            }
        }
        let member: ObjectValue = item.to_member();
        match &mut self.value {
            ObjectValue::Array(items) => {
                if at >= 0 && (at as usize) <= items.len() {
                    let ghost before = items@;
                    items.insert(at as usize, member);
                    assert(values_view(items@) =~= values_view(before).insert(
                        at as int,
                        member@,
                    ));
                }
            },
            _ => {},
        }
        proof {
            lemma_view_members(self.value);
        }
    }

    /// Takes out the item at `at`. Nothing changes where the object is no
    /// array or `at` is out of range.
    pub fn array_erase_at(&mut self, at: i32)
        ensures
            final(self)@.reference == old(self)@.reference,
            final(self)@.value == old(self)@.value.with_item_erased(at as int),
            old(self).wf() ==> final(self).wf(),
    {
        proof {
            lemma_view_members(self.value);
        }
        match &mut self.value {
            ObjectValue::Array(items) => {
                if at >= 0 && (at as usize) < items.len() {
                    let ghost before = items@;
                    let _ = items.remove(at as usize);
                    assert(values_view(items@) =~= values_view(before).remove(at as int));
                }
            },
            _ => {},
        }
        proof {
            lemma_view_members(self.value);
        }
    }

    /// Adds `item` at the end of an array. Nothing changes where the
    /// object is no array.
    pub fn array_append(&mut self, item: QPDFObjectHandler)
        ensures
            final(self)@.reference == old(self)@.reference,
            final(self)@.value == old(self)@.value.with_item_appended(item@.as_member()),
            old(self).wf() && item.wf() ==> final(self).wf(),
    {
        proof {
            lemma_view_members(self.value);
            lemma_member_wf(item@, Seq::empty(), Value::Null);
            if self.wf() && item.wf() {
                lemma_array_ops_wf(self@.value, 0, item@.as_member());
            }
        }
        let member: ObjectValue = item.to_member();
        match &mut self.value {
            ObjectValue::Array(items) => {
                let ghost before = items@;
                items.push(member);
                assert(values_view(items@) =~= values_view(before).push(member@));
            },
            _ => {},
        }
        proof {
            lemma_view_members(self.value);
        }
    }
}

impl QPDFObjectHandler {
    /// Whether the object is a dictionary that holds `key`.
    pub fn dict_has_key(&self, key: String) -> (r: bool)
        ensures
            r == self@.value.holds_key(key@),
    {
        proof {
            lemma_view_members(self.value);
        }
        match &self.value {
            ObjectValue::Dictionary(entries) => find_key(entries, &key) < entries.len(),
            _ => false,
        }
    }

    /// The value under `key`, read through the document `owner`: a value
    /// that is a reference is the indirect object that it names, with the
    /// value that the document holds for it. A direct null where the key
    /// is absent or the object is no dictionary.
    pub fn dict_get_key(&self, owner: &QPDF, key: String) -> (r: QPDFObjectHandler)
        requires
            owner.wf(),
        ensures
            r@ == HandleModel::of_member(owner@.objects, self@.value.value_under(key@)),
            self.wf() ==> r.wf(),
    {
        proof {
            lemma_view_members(self.value);
        }
        match &self.value {
            ObjectValue::Dictionary(entries) => {
                let at: usize = find_key(entries, &key);
                if at < entries.len() {
                    proof {
                        lemma_member_wf(
                            self@,
                            owner@.objects,
                            entries_view(entries@)[at as int].1,
                        );
                    }
                    QPDFObjectHandler::of_member(owner, &entries[at].1)
                } else {
                    QPDFObjectHandler { value: ObjectValue::Null, reference: None }
                }
            },
            _ => QPDFObjectHandler { value: ObjectValue::Null, reference: None },
        }
    }

    /// Puts `item` under `key`, in place of what the key held or as a new
    /// entry. Nothing changes where the object is no dictionary.
    pub fn dict_replace_key(&mut self, key: String, item: QPDFObjectHandler)
        ensures
            final(self)@.reference == old(self)@.reference,
            final(self)@.value == old(self)@.value.with_key_replaced(key@, item@.as_member()),
            old(self).wf() && item.wf() ==> final(self).wf(),
    {
        proof {
            lemma_view_members(self.value);
            lemma_member_wf(item@, Seq::empty(), Value::Null);
            if self.wf() && item.wf() && self@.value is Dictionary {
                lemma_entries_with_key(self@.value->Dictionary_0, key@, item@.as_member());
            }
        }
        let member: ObjectValue = item.to_member();
        match &mut self.value {
            ObjectValue::Dictionary(entries) => {
                replace_entry(entries, key, member);
            },
            _ => {},
        }
        proof {
            lemma_view_members(self.value);
        }
    }

    /// Takes `key` out. Nothing changes where the key is absent or the
    /// object is no dictionary.
    pub fn dict_remove_key(&mut self, key: String)
        ensures
            final(self)@.reference == old(self)@.reference,
            final(self)@.value == old(self)@.value.with_key_removed(key@),
            old(self).wf() ==> final(self).wf() && !final(self)@.value.holds_key(key@),
    {
        proof {
            lemma_view_members(self.value);
            if self.wf() && self@.value is Dictionary {
                lemma_entries_without_key(self@.value->Dictionary_0, key@);
            }
        }
        match &mut self.value {
            ObjectValue::Dictionary(entries) => {
                remove_entry(entries, &key);
            },
            _ => {},
        }
        proof {
            lemma_view_members(self.value);
        }
    }

    /// Takes `key` out where `item` holds null, and puts `item` under
    /// `key` where it holds anything else.
    pub fn dict_replace_or_remove_key(&mut self, key: String, item: QPDFObjectHandler)
        ensures
            final(self)@.reference == old(self)@.reference,
            final(self)@.value == if item@.value is Null {
                old(self)@.value.with_key_removed(key@)
            } else {
                old(self)@.value.with_key_replaced(key@, item@.as_member())
            },
            old(self).wf() && item.wf() ==> final(self).wf(),
            old(self).wf() && item@.value is Null ==> !final(self)@.value.holds_key(key@),
    {
        if matches!(item.value, ObjectValue::Null) {
            self.dict_remove_key(key);
        } else {
            self.dict_replace_key(key, item);
        }
    }
}

/// Puts `member` under `key` among `entries`.
pub fn replace_entry(entries: &mut Vec<Entry>, key: String, member: ObjectValue)
    ensures
        entries_view(final(entries)@) == entries_with_key(
            entries_view(old(entries)@),
            key@,
            member@,
        ),
{
    let at: usize = find_key(entries, &key);
    let ghost before = entries@;
    if at < entries.len() {
        entries.set(at, (key, member));
        assert(entries_view(entries@) =~= entries_view(before).update(
            at as int,
            (key@, member@),
        ));
    } else {
        entries.push((key, member));
        assert(entries_view(entries@) =~= entries_view(before).push((key@, member@)));
    }
}

/// Takes `key` out of `entries`.
pub fn remove_entry(entries: &mut Vec<Entry>, key: &String)
    ensures
        entries_view(final(entries)@) == entries_without_key(entries_view(old(entries)@), key@),
{
    let at: usize = find_key(entries, key);
    let ghost before = entries@;
    if at < entries.len() {
        let _ = entries.remove(at);
        assert(entries_view(entries@) =~= entries_view(before).remove(at as int));
    }
}

// Between a handle and the store of a document
impl QPDFObjectHandler {
    /// Makes the value of the handle a new indirect object of the
    /// document `owner`, and returns a handle on it. `None`, with an
    /// error recorded in `owner`, where no document is held or the store
    /// is full.
    pub fn make_indirect(&self, owner: &mut QPDF) -> (r: Option<QPDFObjectHandler>)
        requires
            old(owner).wf(),
            self.wf(),
        ensures
            final(owner).wf(),
            r is Some <==> old(owner)@.loaded() && old(owner)@.objects.len() < MAX_OBJECT_ID,
            r matches Some(h) ==> {
                &&& h.wf()
                &&& h@ == (HandleModel {
                    value: self@.value,
                    reference: Some(
                        ObjectRef {
                            id: (old(owner)@.objects.len() + 1) as i32,
                            generation: 0,
                        },
                    ),
                })
                &&& final(owner)@ == (DocumentModel {
                    objects: old(owner)@.objects.push(
                        Some(StoredModel { generation: 0, value: self@.value }),
                    ),
                    ..old(owner)@
                })
            },
            r is None ==> final(owner)@ == old(owner)@.failed(
                if old(owner)@.loaded() {
                    ErrorKind::NotFound
                } else {
                    ErrorKind::InvalidState
                },
            ),
    {
        let ghost before = owner@.objects;
        match owner.allocate() {
            Some(id) => {
                let _ = owner.put(id, 0, self.value.duplicate());
                assert(owner@.objects =~= before.push(
                    Some(StoredModel { generation: 0, value: self@.value }),
                ));
                Some(
                    QPDFObjectHandler {
                        value: self.value.duplicate(),
                        reference: Some(ObjectRef { id, generation: 0 }),
                    },
                )
            },
            None => None,
        }
    }

    /// Makes the value of the handle the object `obj_id`, `generation` of
    /// the document `owner`, in place of what the number held. Where that
    /// cannot be, an error is recorded in `owner`.
    pub fn replace(&self, owner: &mut QPDF, obj_id: ObjectId, generation: Generation)
        requires
            old(owner).wf(),
            self.wf(),
        ensures
            final(owner).wf(),
            final(owner)@ == if old(owner)@.loaded() && (ObjectRef {
                id: obj_id,
                generation,
            }).valid() && obj_id <= MAX_OBJECT_ID {
                DocumentModel {
                    objects: with_object(
                        old(owner)@.objects,
                        ObjectRef { id: obj_id, generation },
                        self@.value,
                    ),
                    ..old(owner)@
                }
            } else {
                old(owner)@.failed(
                    if old(owner)@.loaded() {
                        ErrorKind::NotFound
                    } else {
                        ErrorKind::InvalidState
                    },
                )
            },
    {
        let _ = owner.put(obj_id, generation, self.value.duplicate());
    }

    /// Makes the handle one on a direct object: it loses its reference,
    /// and a value that is itself a reference gives way to what it
    /// resolves to in the document `owner`.
    pub fn make_direct(&mut self, owner: &QPDF)
        requires
            old(self).wf(),
            owner.wf(),
        ensures
            final(self).wf(),
            final(self)@ == (HandleModel {
                value: match old(self)@.value {
                    Value::Indirect(target) => resolve(owner@.objects, target),
                    other => other,
                },
                reference: None,
            }),
    {
        let resolved: Option<ObjectValue> = match &self.value {
            ObjectValue::Indirect(target) => Some(owner.resolve(*target)),
            _ => None,
        };
        match resolved {
            Some(value) => {
                self.value = value;
            },
            None => {},
        }
        self.reference = None;
    }
}

} // verus!
