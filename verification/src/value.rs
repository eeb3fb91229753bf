//! The owned value tree every layer is merged as.
//!
//! Deliberately a superset of JSON and TOML rather than either one: `Null` is
//! JSON-only, `Datetime` is TOML-only, and both survive the merge untouched so
//! that the format crates are only involved at the parse and emit boundaries.
//!
//! An object is an insertion-ordered list of `(key, value)` entries, so input
//! key order survives; [`ValueModel::well_formed`] is the invariant that no
//! object holds a key twice.

use vstd::prelude::*;

verus! {

/// A number, kept in the widest lossless representation of its source.
///
/// `U64` is reserved for values that do not fit an `i64`; construct through
/// [`Number::from_u64`] to keep that canonical. A float is carried as its
/// IEEE-754 bit pattern: nothing here does arithmetic on it, and the bits are
/// what round-trips exactly.
#[derive(Debug, Clone, Copy, PartialEq, Eq, Structural)]
pub enum Number {
    I64(i64),
    U64(u64),
    F64(u64),
}

impl Number {
    /// Demotes to `I64` when the value fits, so that every representable
    /// integer has exactly one representation.
    pub fn from_u64(u: u64) -> (n: Number)
        ensures
            u <= i64::MAX ==> n == Number::I64(u as i64),
            u > i64::MAX ==> n == Number::U64(u),
    {
        if u <= 9223372036854775807u64 {
            Number::I64(u as i64)
        } else {
            Number::U64(u)
        }
    }

    /// A float whose exponent bits are all set: an infinity or a NaN.
    pub open spec fn is_non_finite(self) -> bool {
        match self {
            Number::F64(bits) => (bits >> 52u64) & 0x7ffu64 == 0x7ffu64,
            _ => false,
        }
    }

    /// Whether this is an infinity or a NaN.
    pub fn non_finite(&self) -> (r: bool)
        ensures
            r == self.is_non_finite(),
    {
        match self {
            Number::F64(bits) => (*bits >> 52u64) & 0x7ffu64 == 0x7ffu64,
            _ => false,
        }
    }
}

/// A parsed document, or any node within one.
#[derive(Debug, PartialEq)]
pub enum Value {
    Null,
    Bool(bool),
    Number(Number),
    String(String),
    /// A TOML datetime, kept as its source spelling.
    Datetime(String),
    Array(Vec<Value>),
    /// Entries in insertion order.
    Object(Vec<(String, Value)>),
}

/// The entries of an object, in insertion order.
pub type Table = Vec<(String, Value)>;

/// What a [`Value`] denotes: strings by their characters, containers by the
/// denotations of their members.
pub enum ValueModel {
    Null,
    Bool(bool),
    Number(Number),
    String(Seq<char>),
    Datetime(Seq<char>),
    Array(Seq<ValueModel>),
    Object(Seq<(Seq<char>, ValueModel)>),
}

/// The seven kinds a value can have. All numbers are one kind, and a datetime
/// is its own.
#[derive(Debug, Clone, Copy, PartialEq, Eq, Structural)]
pub enum Kind {
    Object,
    Array,
    String,
    Datetime,
    Number,
    Bool,
    Null,
}

impl Kind {
    /// How a kind is spelled in messages.
    pub open spec fn label(self) -> &'static str {
        match self {
            Kind::Object => "object",
            Kind::Array => "array",
            Kind::String => "string",
            Kind::Datetime => "datetime",
            Kind::Number => "number",
            Kind::Bool => "bool",
            Kind::Null => "null",
        }
    }

    /// The kind's name.
    pub fn name(self) -> (r: &'static str)
        ensures
            r == self.label(),
    {
        match self {
            Kind::Object => "object",
            Kind::Array => "array",
            Kind::String => "string",
            Kind::Datetime => "datetime",
            Kind::Number => "number",
            Kind::Bool => "bool",
            Kind::Null => "null",
        }
    }
}

impl ValueModel {
    /// The kind of a value.
    pub open spec fn kind(self) -> Kind {
        match self {
            ValueModel::Object(_) => Kind::Object,
            ValueModel::Array(_) => Kind::Array,
            ValueModel::String(_) => Kind::String,
            ValueModel::Datetime(_) => Kind::Datetime,
            ValueModel::Number(_) => Kind::Number,
            ValueModel::Bool(_) => Kind::Bool,
            ValueModel::Null => Kind::Null,
        }
    }

    /// No object anywhere in the tree holds the same key twice.
    pub open spec fn well_formed(self) -> bool
        decreases self,
    {
        match self {
            ValueModel::Array(items) => forall|i: int|
                0 <= i < items.len() ==> (#[trigger] items[i]).well_formed(),
            ValueModel::Object(entries) => {
                &&& keys_distinct(entries)
                &&& forall|i: int| 0 <= i < entries.len() ==> (#[trigger] entries[i]).1.well_formed()
            },
            _ => true,
        }
    }
}

/// No two entries share a key.
pub open spec fn keys_distinct<V>(entries: Seq<(Seq<char>, V)>) -> bool {
    forall|i: int, j: int|
        0 <= i < entries.len() && 0 <= j < entries.len() && i != j ==> entries[i].0
            != entries[j].0
}

/// The index of the first entry with key `key`, or -1.
pub open spec fn key_index<V>(entries: Seq<(Seq<char>, V)>, key: Seq<char>) -> int
    decreases entries.len(),
{
    if entries.len() == 0 {
        -1
    } else if entries[0].0 == key {
        0
    } else {
        let rest = key_index(entries.drop_first(), key);
        if rest < 0 {
            -1
        } else {
            rest + 1
        }
    }
}

/// `key_index` is the first index holding the key, or -1 when none does.
pub proof fn lemma_key_index<V>(entries: Seq<(Seq<char>, V)>, key: Seq<char>)
    ensures
        -1 <= key_index(entries, key) < entries.len(),
        key_index(entries, key) >= 0 ==> entries[key_index(entries, key)].0 == key,
        key_index(entries, key) >= 0 ==> forall|j: int|
            0 <= j < key_index(entries, key) ==> entries[j].0 != key,
        key_index(entries, key) < 0 ==> forall|j: int|
            0 <= j < entries.len() ==> entries[j].0 != key,
    decreases entries.len(),
{
    if entries.len() > 0 {
        lemma_key_index(entries.drop_first(), key);
        if entries[0].0 != key {
            assert forall|j: int| 1 <= j < entries.len() implies entries[j].0
                == entries.drop_first()[j - 1].0 by {}
        }
    }
}

/// With distinct keys, an entry's own index is where its key is found.
pub proof fn lemma_key_index_distinct<V>(entries: Seq<(Seq<char>, V)>, i: int)
    requires
        keys_distinct(entries),
        0 <= i < entries.len(),
    ensures
        key_index(entries, entries[i].0) == i,
{
    lemma_key_index(entries, entries[i].0);
}

impl Value {
    /// The denotation of this value.
    pub open spec fn model(self) -> ValueModel
        decreases self,
    {
        match self {
            Value::Null => ValueModel::Null,
            Value::Bool(b) => ValueModel::Bool(b),
            Value::Number(n) => ValueModel::Number(n),
            Value::String(s) => ValueModel::String(s@),
            Value::Datetime(s) => ValueModel::Datetime(s@),
            Value::Array(items) => ValueModel::Array(
                Seq::new(
                    items@.len(),
                    |i: int|
                        if 0 <= i < items@.len() {
                            items@[i].model()
                        } else {
                            ValueModel::Null
                        },
                ),
            ),
            Value::Object(entries) => ValueModel::Object(
                Seq::new(
                    entries@.len(),
                    |i: int|
                        if 0 <= i < entries@.len() {
                            (entries@[i].0@, entries@[i].1.model())
                        } else {
                            (Seq::empty(), ValueModel::Null)
                        },
                ),
            ),
        }
    }

    /// The kind of a value, for conflict reporting and parse errors.
    pub fn kind_of(&self) -> (k: Kind)
        ensures
            k == self.model().kind(),
    {
        match self {
            Value::Object(_) => Kind::Object,
            Value::Array(_) => Kind::Array,
            Value::String(_) => Kind::String,
            Value::Datetime(_) => Kind::Datetime,
            Value::Number(_) => Kind::Number,
            Value::Bool(_) => Kind::Bool,
            Value::Null => Kind::Null,
        }
    }

    /// The kind's name: `object`, `array`, `string`, `datetime`, `number`,
    /// `bool` or `null`.
    pub fn kind(&self) -> (r: &'static str)
        ensures
            r == self.model().kind().label(),
    {
        self.kind_of().name()
    }

    /// A copy with the same denotation.
    pub fn duplicate(&self) -> (r: Value)
        ensures
            r.model() == self.model(),
        decreases self,
    {
        match self {
            Value::Null => Value::Null,
            Value::Bool(b) => Value::Bool(*b),
            Value::Number(n) => Value::Number(*n),
            Value::String(s) => Value::String(s.clone()),
            Value::Datetime(s) => Value::Datetime(s.clone()),
            Value::Array(items) => {
                let mut out: Vec<Value> = Vec::new();
                let mut i: usize = 0;
                #[verifier::loop_isolation(false)]
                while i < items.len()
                    invariant
                        i <= items@.len(),
                        out@.len() == i,
                        forall|j: int| 0 <= j < i ==> #[trigger] out@[j].model() == items@[j].model(),
                    decreases items.len() - i,
                {
                    proof {
                        assert(decreases_to!(self => items@[i as int]));
                    }
                    let item = items[i].duplicate();
                    out.push(item);
                    i += 1;
                }
                let r = Value::Array(out);
                proof {
                    assert forall|j: int| 0 <= j < out@.len() implies r.model()->Array_0[j]
                        == self.model()->Array_0[j] by {
                        assert(out@[j].model() == items@[j].model());
                    }
                    assert(r.model()->Array_0 =~= self.model()->Array_0);
                }
                r
            },
            Value::Object(entries) => {
                let mut out: Vec<(String, Value)> = Vec::new();
                let mut i: usize = 0;
                #[verifier::loop_isolation(false)]
                while i < entries.len()
                    invariant
                        i <= entries@.len(),
                        out@.len() == i,
                        forall|j: int|
                            0 <= j < i ==> #[trigger] out@[j].0@ == entries@[j].0@
                                && out@[j].1.model() == entries@[j].1.model(),
                    decreases entries.len() - i,
                {
                    let key = entries[i].0.clone();
                    proof {
                        assert(decreases_to!(self => entries@[i as int].1));
                    }
                    let item = entries[i].1.duplicate();
                    out.push((key, item));
                    i += 1;
                }
                let r = Value::Object(out);
                proof {
                    assert(r.model()->Object_0 =~= self.model()->Object_0);
                }
                r
            },
        }
    }
}

/// The denotation of an object's entries.
pub open spec fn entries_model(entries: Seq<(String, Value)>) -> Seq<(Seq<char>, ValueModel)> {
    Seq::new(entries.len(), |i: int| (entries[i].0@, entries[i].1.model()))
}

/// An object denotes the denotation of its entries.
pub proof fn lemma_object_model(entries: Vec<(String, Value)>)
    ensures
        Value::Object(entries).model() == ValueModel::Object(entries_model(entries@)),
{
    assert(Value::Object(entries).model()->Object_0 =~= entries_model(entries@));
}

/// An array denotes the denotations of its items.
pub proof fn lemma_array_model(items: Vec<Value>)
    ensures
        Value::Array(items).model() == ValueModel::Array(items@.map_values(|v: Value| v.model())),
{
    assert(Value::Array(items).model()->Array_0 =~= items@.map_values(|v: Value| v.model()));
}

/// Whether no object anywhere in the value holds the same key twice.
pub fn is_well_formed(value: &Value) -> (r: bool)
    ensures
        r == value.model().well_formed(),
    decreases value,
{
    match value {
        Value::Array(items) => {
            proof {
                lemma_array_model(*items);
            }
            let mut i: usize = 0;
            #[verifier::loop_isolation(false)]
            while i < items.len()
                invariant
                    i <= items@.len(),
                    value.model() == ValueModel::Array(items@.map_values(|v: Value| v.model())),
                    forall|j: int| 0 <= j < i ==> (#[trigger] items@[j]).model().well_formed(),
                decreases items.len() - i,
            {
                proof {
                    assert(decreases_to!(value => items@[i as int]));
                }
                if !is_well_formed(&items[i]) {
                    proof {
                        assert(value.model()->Array_0[i as int] == items@[i as int].model());
                    }
                    return false;
                }
                i += 1;
            }
            proof {
                assert forall|j: int| 0 <= j < items@.len() implies (#[trigger] value.model()->Array_0[j]).well_formed() by {
                    assert(value.model()->Array_0[j] == items@[j].model());
                }
            }
            true
        },
        Value::Object(entries) => {
            proof {
                lemma_object_model(*entries);
            }
            let ghost em = entries_model(entries@);
            let mut i: usize = 0;
            #[verifier::loop_isolation(false)]
            while i < entries.len()
                invariant
                    i <= entries@.len(),
                    em == entries_model(entries@),
                    value.model() == ValueModel::Object(em),
                    forall|a: int, b: int| 0 <= a < i && 0 <= b < i && a != b ==> em[a].0 != em[b].0,
                    forall|j: int| 0 <= j < i ==> (#[trigger] em[j]).1.well_formed(),
                decreases entries.len() - i,
            {
                proof {
                    assert(decreases_to!(value => entries@[i as int]));
                    assert(decreases_to!(entries@[i as int] => entries@[i as int].1));
                }
                if !is_well_formed(&entries[i].1) {
                    proof {
                        assert(em[i as int].1 == entries@[i as int].1.model());
                    }
                    return false;
                }
                let mut j: usize = 0;
                while j < i
                    invariant
                        j <= i < entries@.len(),
                        em == entries_model(entries@),
                        value.model() == ValueModel::Object(em),
                        forall|b: int| 0 <= b < j ==> em[b].0 != em[i as int].0,
                    decreases i - j,
                {
                    if crate::text::str_eq(entries[j].0.as_str(), entries[i].0.as_str()) {
                        proof {
                            assert(em[j as int].0 == em[i as int].0);
                            assert(!keys_distinct(em));
                        }
                        return false;
                    }
                    j += 1;
                }
                proof {
                    assert(em[i as int].1 == entries@[i as int].1.model());
                }
                i += 1;
            }
            proof {
                assert(keys_distinct(em));
            }
            true
        },
        _ => true,
    }
}

/// Where `key` is among the entries: the first index holding it.
pub fn find_key(entries: &Vec<(String, Value)>, key: &str) -> (r: Option<usize>)
    ensures
        match r {
            Some(i) => key_index(entries_model(entries@), key@) == i,
            None => key_index(entries_model(entries@), key@) == -1,
        },
{
    let ghost m = entries_model(entries@);
    let mut i: usize = 0;
    while i < entries.len()
        invariant
            i <= entries@.len(),
            m == entries_model(entries@),
            forall|j: int| 0 <= j < i ==> m[j].0 != key@,
        decreases entries.len() - i,
    {
        if crate::text::str_eq(entries[i].0.as_str(), key) {
            proof {
                lemma_key_index(m, key@);
                assert(m[i as int].0 == key@);
            }
            return Some(i);
        }
        i += 1;
    }
    proof {
        lemma_key_index(m, key@);
    }
    None
}

impl Clone for Value {
    fn clone(&self) -> (r: Self)
        ensures
            r.model() == self.model(),
    {
        self.duplicate()
    }
}

} // verus!
