//! JSON values, their model, and objects that keep their keys in order.

use crate::order::{
    comes_before, lemma_precedes_irreflexive, lemma_precedes_total, lemma_precedes_transitive,
    precedes,
};
use vstd::prelude::*;
use vstd::utf8::{encode_utf8, encode_utf8_valid_utf8, valid_utf8};

verus! {

/// The mathematical model of a JSON value: a tree whose strings and keys are
/// sequences of UTF-8 bytes and whose composite nodes hold their children in
/// enumeration order.
pub enum Json {
    Null,
    Bool(bool),
    Integer(int),
    /// A floating-point number, given by the text that stands for it.
    Float(Seq<u8>),
    String(Seq<u8>),
    Array(Seq<Json>),
    Object(Seq<(Seq<u8>, Json)>),
}

impl Json {
    /// Whether every string, every key and the text of every float in the
    /// value is UTF-8.
    pub open spec fn is_text(self) -> bool
        decreases self,
    {
        match self {
            Json::Float(text) => valid_utf8(text),
            Json::String(s) => valid_utf8(s),
            Json::Array(items) => forall|i: int| 0 <= i < items.len() ==> (#[trigger] items[i]).is_text(),
            Json::Object(entries) => forall|i: int|
                0 <= i < entries.len() ==> valid_utf8((#[trigger] entries[i]).0)
                    && entries[i].1.is_text(),
            _ => true,
        }
    }
}

/// A JSON value. The conversion only reads it.
#[derive(Debug)]
pub enum Value {
    Null,
    Bool(bool),
    /// An integer. The range takes in both the signed and the unsigned
    /// 64-bit integers.
    Integer(i128),
    /// A floating-point number, held as the text that stands for it in the
    /// output: the one who builds the value formats the number.
    Float(String),
    String(String),
    /// The elements in the order of their indices.
    Array(Vec<Value>),
    Object(Object),
}

/// A JSON object: a mapping from keys to values in which no key occurs
/// twice. Its entries are enumerated in ascending order of their keys, a key
/// being compared byte by byte as `String` compares.
#[derive(Debug)]
pub struct Object {
    entries: Vec<(String, Value)>,
}

/// The model of a sequence of entries: each key as its bytes, each value as
/// its model.
pub open spec fn entries_view(entries: Seq<(String, Value)>) -> Seq<(Seq<u8>, Json)>
    decreases entries,
{
    Seq::new(
        entries.len(),
        |i: int|
            if 0 <= i < entries.len() {
                (encode_utf8(entries[i].0@), entries[i].1.view())
            } else {
                (Seq::empty(), Json::Null)
            },
    )
}

/// An object is viewed as its entries in the order of their enumeration.
impl View for Object {
    type V = Seq<(Seq<u8>, Json)>;

    closed spec fn view(&self) -> Seq<(Seq<u8>, Json)>
        decreases self,
    {
        entries_view(self.entries@)
    }
}

/// A value is viewed as its model: each string as its UTF-8 bytes, each
/// container as the sequence of its children.
impl View for Value {
    type V = Json;

    open spec fn view(&self) -> Json
        decreases self,
    {
        match self {
            Value::Null => Json::Null,
            Value::Bool(b) => Json::Bool(*b),
            Value::Integer(n) => Json::Integer(*n as int),
            Value::Float(text) => Json::Float(encode_utf8(text@)),
            Value::String(s) => Json::String(encode_utf8(s@)),
            Value::Array(items) => Json::Array(
                Seq::new(
                    items@.len(),
                    |i: int|
                        if 0 <= i < items@.len() {
                            items@[i].view()
                        } else {
                            Json::Null
                        },
                ),
            ),
            Value::Object(object) => Json::Object(object.view()),
        }
    }
}

/// Whether each key comes before the keys of all later entries, so that no
/// key occurs twice.
pub open spec fn keys_ascending(entries: Seq<(Seq<u8>, Json)>) -> bool {
    forall|i: int, j: int|
        #![trigger entries[i], entries[j]]
        0 <= i < j < entries.len() ==> precedes(entries[i].0, entries[j].0)
}

/// The number of entries whose key comes before `key`.
pub open spec fn rank(entries: Seq<(Seq<u8>, Json)>, key: Seq<u8>) -> nat
    decreases entries.len(),
{
    if entries.len() == 0 {
        0
    } else if precedes(entries.last().0, key) {
        rank(entries.drop_last(), key) + 1
    } else {
        rank(entries.drop_last(), key)
    }
}

/// Whether an entry of `entries` has the key `key`.
pub open spec fn has_key(entries: Seq<(Seq<u8>, Json)>, key: Seq<u8>) -> bool {
    exists|i: int| 0 <= i < entries.len() && #[trigger] entries[i].0 == key
}

/// The entries with `key` bound to `json`: in place of the entry that had
/// the key, or else behind the entries whose keys come before it.
pub open spec fn with_entry(entries: Seq<(Seq<u8>, Json)>, key: Seq<u8>, json: Json) -> Seq<
    (Seq<u8>, Json),
> {
    let at = rank(entries, key) as int;
    if has_key(entries, key) {
        entries.update(at, (key, json))
    } else {
        entries.insert(at, (key, json))
    }
}

/// Where the entries up to `at` have keys before `key` and the others do
/// not, `at` is the rank of `key`.
proof fn lemma_rank_at_split(entries: Seq<(Seq<u8>, Json)>, key: Seq<u8>, at: int)
    requires
        0 <= at <= entries.len(),
        forall|i: int| 0 <= i < at ==> precedes(#[trigger] entries[i].0, key),
        forall|i: int| at <= i < entries.len() ==> !precedes(#[trigger] entries[i].0, key),
    ensures
        rank(entries, key) == at,
    decreases entries.len(),
{
    if entries.len() > 0 {
        let shorter = entries.drop_last();
        if at == entries.len() {
            lemma_rank_at_split(shorter, key, at - 1);
        } else {
            lemma_rank_at_split(shorter, key, at);
        }
    }
}

/// Among ascending keys, those that come before `key` are the first ones,
/// as many as the rank of `key` says, and `key` itself can only stand right
/// behind them.
pub proof fn lemma_rank_splits(entries: Seq<(Seq<u8>, Json)>, key: Seq<u8>)
    requires
        keys_ascending(entries),
    ensures
        rank(entries, key) <= entries.len(),
        forall|i: int| 0 <= i < rank(entries, key) ==> precedes(#[trigger] entries[i].0, key),
        forall|i: int|
            rank(entries, key) <= i < entries.len() ==> !precedes(#[trigger] entries[i].0, key),
        forall|i: int|
            0 <= i < entries.len() && #[trigger] entries[i].0 == key ==> i == rank(entries, key),
    decreases entries.len(),
{
    if entries.len() > 0 {
        let shorter = entries.drop_last();
        let last = entries.len() - 1;
        assert forall|i: int, j: int| 0 <= i < j < shorter.len() implies precedes(
            (#[trigger] shorter[i]).0,
            (#[trigger] shorter[j]).0,
        ) by {
            assert(shorter[i] == entries[i] && shorter[j] == entries[j]);
        }
        lemma_rank_splits(shorter, key);
        let at = rank(entries, key) as int;
        assert forall|i: int| 0 <= i < at implies precedes(#[trigger] entries[i].0, key) by {
            if i < last {
                assert(entries[i].0 == shorter[i].0);
                if !precedes(entries[i].0, key) {
                    lemma_precedes_transitive(entries[i].0, entries[last].0, key);
                }
            }
        }
        assert forall|i: int| at <= i < entries.len() implies !precedes(
            #[trigger] entries[i].0,
            key,
        ) by {
            let below = rank(shorter, key) as int;
            if i < last {
                assert(entries[i].0 == shorter[i].0);
            } else if precedes(entries[last].0, key) {
                assert(entries[below].0 == shorter[below].0);
                lemma_precedes_transitive(entries[below].0, entries[last].0, key);
            }
        }
        assert forall|i: int| 0 <= i < entries.len() && #[trigger] entries[i].0 == key implies i
            == at by {
            lemma_precedes_irreflexive(key);
            if at < i {
                assert(precedes(entries[at].0, entries[i].0));
            }
        }
    }
}

impl Object {
    /// The keys ascend, at all times.
    #[verifier::type_invariant]
    spec fn ordered(&self) -> bool {
        keys_ascending(self@)
    }

    /// An object without entries.
    pub fn new() -> (object: Object)
        ensures
            object@ == Seq::<(Seq<u8>, Json)>::empty(),
    {
        let object = Object { entries: Vec::new() };
        assert(object@ =~= Seq::empty());
        object
    }

    /// The number of entries.
    pub fn len(&self) -> (n: usize)
        ensures
            n == self@.len(),
            keys_ascending(self@),
    {
        proof {
            use_type_invariant(self);
        }
        self.entries.len()
    }

    /// The key and the value at position `i` of the enumeration.
    pub fn entry(&self, i: usize) -> (e: (&str, &Value))
        requires
            i < self@.len(),
        ensures
            encode_utf8(e.0@) == self@[i as int].0,
            e.1@ == self@[i as int].1,
    {
        let pair = &self.entries[i];
        (pair.0.as_str(), &pair.1)
    }

    /// Binds `key` to `value` and returns the value that the key had before,
    /// if it had one. The entries stay in ascending order of their keys.
    pub fn insert(&mut self, key: String, value: Value) -> (previous: Option<Value>)
        ensures
            keys_ascending(old(self)@),
            keys_ascending(final(self)@),
            final(self)@ == with_entry(old(self)@, encode_utf8(key@), value@),
            match previous {
                Some(v) => has_key(old(self)@, encode_utf8(key@)) && v@ == old(self)@[rank(
                    old(self)@,
                    encode_utf8(key@),
                ) as int].1,
                None => !has_key(old(self)@, encode_utf8(key@)),
            },
    {
        proof {
            use_type_invariant(&*self);
        }
        let ghost before = self@;
        let ghost k = encode_utf8(key@);
        let mut entries: Vec<(String, Value)> = Vec::new();
        core::mem::swap(&mut self.entries, &mut entries);
        assert(entries_view(entries@) == before);
        let mut at: usize = entries.len();
        while at > 0 && !comes_before(entries[at - 1].0.as_str().as_bytes(), key.as_str().as_bytes())
            invariant
                at <= entries.len(),
                entries_view(entries@) == before,
                before.len() == entries.len(),
                k == encode_utf8(key@),
                forall|i: int| at <= i < before.len() ==> !precedes(#[trigger] before[i].0, k),
            decreases at,
        {
            at = at - 1;
        }
        proof {
            assert forall|i: int| 0 <= i < at implies precedes(#[trigger] before[i].0, k) by {
                if i < at - 1 {
                    lemma_precedes_transitive(before[i].0, before[at - 1].0, k);
                }
            }
            lemma_rank_at_split(before, k, at as int);
        }
        if at < entries.len() && !comes_before(
            key.as_str().as_bytes(),
            entries[at].0.as_str().as_bytes(),
        ) {
            proof {
                lemma_precedes_total(before[at as int].0, k);
                assert(before[at as int].0 == k);
            }
            let old_entry = entries.remove(at);
            entries.insert(at, (key, value));
            proof {
                assert(entries_view(entries@) =~= before.update(at as int, (k, value@)));
            }
            core::mem::swap(&mut self.entries, &mut entries);
            Some(old_entry.1)
        } else {
            proof {
                assert forall|i: int| 0 <= i < before.len() implies before[i].0 != k by {
                    lemma_precedes_irreflexive(k);
                    if i > at {
                        lemma_precedes_transitive(k, before[at as int].0, before[i].0);
                    }
                }
            }
            entries.insert(at, (key, value));
            proof {
                let after = before.insert(at as int, (k, value@));
                assert(entries_view(entries@) =~= after);
                assert forall|i: int, j: int| 0 <= i < j < after.len() implies precedes(
                    (#[trigger] after[i]).0,
                    (#[trigger] after[j]).0,
                ) by {
                    if j == at {
                        assert(after[i] == before[i]);
                    } else if i == at {
                        assert(after[j] == before[j - 1]);
                        if j - 1 > at {
                            lemma_precedes_transitive(k, before[at as int].0, before[j - 1].0);
                        }
                    } else {
                        let bi = if i < at { i } else { i - 1 };
                        let bj = if j < at { j } else { j - 1 };
                        assert(after[i] == before[bi]);
                        assert(after[j] == before[bj]);
                    }
                }
            }
            core::mem::swap(&mut self.entries, &mut entries);
            None
        }
    }
}

/// The model of every value is text: its strings are Rust strings.
pub proof fn lemma_view_is_text(value: Value)
    ensures
        value@.is_text(),
    decreases value,
{
    match value {
        Value::Float(text) => {
            encode_utf8_valid_utf8(text@);
        },
        Value::String(s) => {
            encode_utf8_valid_utf8(s@);
        },
        Value::Array(items) => {
            let models = value@->Array_0;
            assert forall|i: int| 0 <= i < models.len() implies (#[trigger] models[i]).is_text() by {
                lemma_view_is_text(items@[i]);
            }
        },
        Value::Object(object) => {
            let models = object@;
            assert forall|i: int| 0 <= i < models.len() implies valid_utf8(
                (#[trigger] models[i]).0,
            ) && models[i].1.is_text() by {
                encode_utf8_valid_utf8(object.entries@[i].0@);
                lemma_view_is_text(object.entries@[i].1);
            }
        },
        _ => {},
    }
}

} // verus!
