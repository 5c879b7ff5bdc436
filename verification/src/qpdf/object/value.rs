//! Object values and their mathematical model.

use crate::qpdf::object::types::ObjectRef;
use vstd::prelude::*;

verus! {

/// One entry of a dictionary: a key and its value.
pub type Entry = (String, ObjectValue);

/// A PDF value. Arrays and dictionaries hold their direct members inline;
/// an indirect member is held as a reference.
#[derive(Debug)]
pub enum ObjectValue {
    Null,
    Bool(bool),
    Integer(i64),
    /// A real number, kept as the decimal text it was given in.
    Real(String),
    /// A name, with its leading slash.
    Name(String),
    String(Vec<u8>),
    Array(Vec<ObjectValue>),
    /// The entries of a dictionary, no key twice.
    Dictionary(Vec<Entry>),
    /// A stream: its dictionary and its data.
    Stream(Vec<Entry>, Vec<u8>),
    /// A token of a content stream.
    Operator(String),
    Indirect(ObjectRef),
}

/// The model of an entry.
pub type EntryModel = (Seq<char>, Value);

/// The mathematical model of an [`ObjectValue`].
pub enum Value {
    Null,
    Bool(bool),
    Integer(int),
    Real(Seq<char>),
    Name(Seq<char>),
    String(Seq<u8>),
    Array(Seq<Value>),
    Dictionary(Seq<EntryModel>),
    Stream(Seq<EntryModel>, Seq<u8>),
    Operator(Seq<char>),
    Indirect(ObjectRef),
}

/// The first position at which `key` occurs in `entries`, or the length of
/// `entries` where it does not occur.
pub open spec fn key_index(entries: Seq<EntryModel>, key: Seq<char>) -> int
    decreases entries.len(),
{
    if entries.len() == 0 {
        0
    } else if entries[0].0 == key {
        0
    } else {
        1 + key_index(entries.drop_first(), key)
    }
}

/// Whether `key` occurs in `entries`.
pub open spec fn has_key(entries: Seq<EntryModel>, key: Seq<char>) -> bool {
    key_index(entries, key) < entries.len()
}

/// The value under `key`, or null where the key is absent.
pub open spec fn value_at_key(entries: Seq<EntryModel>, key: Seq<char>) -> Value {
    if has_key(entries, key) {
        entries[key_index(entries, key)].1
    } else {
        Value::Null
    }
}

/// No key occurs twice.
pub open spec fn keys_unique(entries: Seq<EntryModel>) -> bool {
    forall|i: int, j: int|
        0 <= i < j < entries.len() ==> (#[trigger] entries[i]).0 != (#[trigger] entries[j]).0
}

pub proof fn lemma_key_index(entries: Seq<EntryModel>, key: Seq<char>)
    ensures
        0 <= key_index(entries, key) <= entries.len(),
        has_key(entries, key) ==> entries[key_index(entries, key)].0 == key,
        forall|i: int| 0 <= i < key_index(entries, key) ==> (#[trigger] entries[i]).0 != key,
        has_key(entries, key) <==> exists|i: int|
            0 <= i < entries.len() && (#[trigger] entries[i]).0 == key,
    decreases entries.len(),
{
    if entries.len() == 0 {
    } else if entries[0].0 == key {
    } else {
        let rest = entries.drop_first();
        lemma_key_index(rest, key);
        let k = key_index(rest, key);
        assert forall|i: int| 0 <= i < 1 + k implies (#[trigger] entries[i]).0 != key by {
            if i > 0 {
                assert(entries[i] == rest[i - 1]);
            }
        }
        if has_key(rest, key) {
            assert(entries[1 + k] == rest[k]);
        } else {
            assert forall|i: int| 0 <= i < entries.len() implies (#[trigger] entries[i]).0
                != key by {
                if i > 0 {
                    assert(entries[i] == rest[i - 1]);
                }
            }
        }
    }
}

impl Value {
    /// A value is well formed when every reference in it is valid and no
    /// dictionary in it holds a key twice.
    pub open spec fn wf(self) -> bool
        decreases self,
    {
        match self {
            Value::Array(items) => forall|i: int|
                0 <= i < items.len() ==> (#[trigger] items[i]).wf(),
            Value::Dictionary(entries) => {
                &&& keys_unique(entries)
                &&& forall|i: int| 0 <= i < entries.len() ==> (#[trigger] entries[i]).1.wf()
            },
            Value::Stream(entries, _) => {
                &&& keys_unique(entries)
                &&& forall|i: int| 0 <= i < entries.len() ==> (#[trigger] entries[i]).1.wf()
            },
            Value::Indirect(r) => r.valid(),
            _ => true,
        }
    }

    /// Neither an array, a dictionary nor a stream.
    pub open spec fn is_scalar(self) -> bool {
        !(self is Array || self is Dictionary || self is Stream)
    }
}

/// Well-formedness of the entries of a dictionary.
pub open spec fn entries_wf(entries: Seq<EntryModel>) -> bool {
    &&& keys_unique(entries)
    &&& forall|i: int| 0 <= i < entries.len() ==> (#[trigger] entries[i]).1.wf()
}

/// The model of a sequence of entries.
pub open spec fn entries_view(entries: Seq<Entry>) -> Seq<EntryModel> {
    Seq::new(entries.len(), |i: int| (entries[i].0@, entries[i].1@))
}

/// The model of a sequence of values.
pub open spec fn values_view(items: Seq<ObjectValue>) -> Seq<Value> {
    Seq::new(items.len(), |i: int| items[i]@)
}

impl ObjectValue {
    /// The model of a value, member by member.
    pub open spec fn model(&self) -> Value
        decreases self,
    {
        match self {
            ObjectValue::Null => Value::Null,
            ObjectValue::Bool(b) => Value::Bool(*b),
            ObjectValue::Integer(i) => Value::Integer(*i as int),
            ObjectValue::Real(s) => Value::Real(s@),
            ObjectValue::Name(s) => Value::Name(s@),
            ObjectValue::String(b) => Value::String(b@),
            ObjectValue::Array(items) => Value::Array(
                Seq::new(
                    items@.len(),
                    |i: int|
                        if 0 <= i < items@.len() {
                            items@[i].model()
                        } else {
                            Value::Null
                        },
                ),
            ),
            ObjectValue::Dictionary(entries) => Value::Dictionary(
                Seq::new(
                    entries@.len(),
                    |i: int|
                        if 0 <= i < entries@.len() {
                            (entries@[i].0@, entries@[i].1.model())
                        } else {
                            (Seq::empty(), Value::Null)
                        },
                ),
            ),
            ObjectValue::Stream(entries, data) => Value::Stream(
                Seq::new(
                    entries@.len(),
                    |i: int|
                        if 0 <= i < entries@.len() {
                            (entries@[i].0@, entries@[i].1.model())
                        } else {
                            (Seq::empty(), Value::Null)
                        },
                ),
                data@,
            ),
            ObjectValue::Operator(s) => Value::Operator(s@),
            ObjectValue::Indirect(r) => Value::Indirect(*r),
        }
    }
}

impl View for ObjectValue {
    type V = Value;

    open spec fn view(&self) -> Value {
        self.model()
    }
}

/// The model of an array is the sequence of the models of its items, and
/// likewise for the entries of a dictionary or a stream.
pub proof fn lemma_view_members(v: ObjectValue)
    ensures
        v matches ObjectValue::Array(items) ==> v@ == Value::Array(values_view(items@)),
        v matches ObjectValue::Dictionary(entries) ==> v@ == Value::Dictionary(
            entries_view(entries@),
        ),
        v matches ObjectValue::Stream(entries, data) ==> v@ == Value::Stream(
            entries_view(entries@),
            data@,
        ),
{
    match v {
        ObjectValue::Array(items) => {
            assert(v@->Array_0 =~= values_view(items@));
        },
        ObjectValue::Dictionary(entries) => {
            assert(v@->Dictionary_0 =~= entries_view(entries@));
        },
        ObjectValue::Stream(entries, data) => {
            assert(v@->Stream_0 =~= entries_view(entries@));
        },
        _ => {},
    }
}

impl ObjectValue {
    /// A deep copy: direct members are copied, references stay references.
    #[verifier::loop_isolation(false)]
    pub fn duplicate(&self) -> (r: ObjectValue)
        ensures
            r@ == self@,
        decreases self,
    {
        proof {
            lemma_view_members(*self);
        }
        let r = match self {
            ObjectValue::Null => ObjectValue::Null,
            ObjectValue::Bool(b) => ObjectValue::Bool(*b),
            ObjectValue::Integer(i) => ObjectValue::Integer(*i),
            ObjectValue::Real(s) => ObjectValue::Real(s.clone()),
            ObjectValue::Name(s) => ObjectValue::Name(s.clone()),
            ObjectValue::String(b) => ObjectValue::String(b.clone()),
            ObjectValue::Array(items) => {
                let mut out: Vec<ObjectValue> = Vec::new();
                let mut i: usize = 0;
                while i < items.len()
                    invariant
                        i <= items.len(),
                        out.len() == i,
                        forall|j: int| 0 <= j < i ==> out@[j]@ == items@[j]@,
                    decreases items.len() - i,
                {
                    out.push(items[i].duplicate());
                    i += 1;
                }
                assert(values_view(out@) =~= values_view(items@));
                ObjectValue::Array(out)
            },
            ObjectValue::Dictionary(entries) => ObjectValue::Dictionary(duplicate_entries(entries)),
            ObjectValue::Stream(entries, data) => ObjectValue::Stream(
                duplicate_entries(entries),
                data.clone(),
            ),
            ObjectValue::Operator(s) => ObjectValue::Operator(s.clone()),
            ObjectValue::Indirect(r) => ObjectValue::Indirect(*r),
        };
        proof {
            lemma_view_members(r);
        }
        r
    }
}

/// Whether no key occurs twice among the entries and every value is well
/// formed.
pub fn check_entries_wf(entries: &Vec<Entry>) -> (r: bool)
    ensures
        r == entries_wf(entries_view(entries@)),
    decreases entries,
{
    let ghost model = entries_view(entries@);
    let mut i: usize = 0;
    while i < entries.len()
        invariant
            i <= entries.len(),
            model == entries_view(entries@),
            forall|a: int, b: int| 0 <= a < b < i ==> (#[trigger] model[a]).0 != (#[trigger] model[b]).0,
            forall|a: int| 0 <= a < i ==> (#[trigger] model[a]).1.wf(),
        decreases entries.len() - i,
    {
        let e: &Entry = &entries[i];
        assert(model[i as int] == (e.0@, e.1@));
        if !e.1.is_wf() {
            return false;
        }
        let mut j: usize = 0;
        while j < i
            invariant
                j <= i < entries.len(),
                model == entries_view(entries@),
                forall|a: int| 0 <= a < j ==> (#[trigger] model[a]).0 != model[i as int].0,
            decreases i - j,
        {
            assert(model[j as int] == (entries@[j as int].0@, entries@[j as int].1@));
            assert(model[i as int] == (entries@[i as int].0@, entries@[i as int].1@));
            if entries[j].0 == entries[i].0 {
                assert(model[j as int].0 == model[i as int].0);
                assert(!keys_unique(model));
                return false;
            }
            j += 1;
        }
        i += 1;
    }
    true
}

impl ObjectValue {
    /// Whether the value is well formed.
    #[verifier::loop_isolation(false)]
    pub fn is_wf(&self) -> (r: bool)
        ensures
            r == self@.wf(),
        decreases self,
    {
        proof {
            lemma_view_members(*self);
        }
        match self {
            ObjectValue::Array(items) => {
                let ghost model = values_view(items@);
                let mut i: usize = 0;
                while i < items.len()
                    invariant
                        i <= items.len(),
                        forall|a: int| 0 <= a < i ==> (#[trigger] model[a]).wf(),
                    decreases items.len() - i,
                {
                    assert(model[i as int] == items@[i as int]@);
                    if !items[i].is_wf() {
                        assert(!self@->Array_0[i as int].wf());
                        return false;
                    }
                    i += 1;
                }
                assert(self@->Array_0 == model);
                true
            },
            ObjectValue::Dictionary(entries) => {
                let r = check_entries_wf(entries);
                assert(self@->Dictionary_0 == entries_view(entries@));
                r
            },
            ObjectValue::Stream(entries, _) => {
                let r = check_entries_wf(entries);
                assert(self@->Stream_0 == entries_view(entries@));
                r
            },
            ObjectValue::Indirect(r) => r.is_valid(),
            _ => true,
        }
    }
}

/// A deep copy of the entries of a dictionary.
pub fn duplicate_entries(entries: &Vec<Entry>) -> (out: Vec<Entry>)
    ensures
        entries_view(out@) == entries_view(entries@),
    decreases entries,
{
    let mut out: Vec<Entry> = Vec::new();
    let mut i: usize = 0;
    while i < entries.len()
        invariant
            i <= entries.len(),
            out.len() == i,
            forall|j: int|
                0 <= j < i ==> out@[j].0@ == entries@[j].0@ && out@[j].1@ == entries@[j].1@,
        decreases entries.len() - i,
    {
        let e: &Entry = &entries[i];
        out.push((e.0.clone(), e.1.duplicate()));
        i += 1;
    }
    assert(entries_view(out@) =~= entries_view(entries@));
    out
}

} // verus!
