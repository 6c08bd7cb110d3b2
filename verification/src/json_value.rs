//! The JSON data model: values, numbers, errors, and their mathematical views.

use vstd::prelude::*;
use vstd::assert_seqs_equal;
use crate::text::str_eq;

verus! {

/// Mathematical model of a JSON number: an exact 64-bit integer, or a
/// floating-point literal kept as its (cooked) decimal text.
pub enum JNum {
    Int(i64),
    Float(Seq<char>),
}

/// Mathematical model of a JSON value. Objects are sequences of
/// key/value entries in insertion order, with pairwise distinct keys.
pub enum JVal {
    Null,
    Bool(bool),
    Num(JNum),
    Str(Seq<char>),
    Arr(Seq<JVal>),
    Obj(Seq<(Seq<char>, JVal)>),
}

/// A JSON number. Floating-point values are carried as their decimal
/// text so that the data model stays within exact arithmetic; callers
/// that need the binary value parse the text themselves.
#[derive(Debug, PartialEq)]
pub enum Number {
    Integer(i64),
    Float(String),
}

/// A JSON value of the lenient dialect. Objects keep their entries in
/// insertion order and never hold the same key twice.
#[derive(Debug, PartialEq)]
pub enum JsonValue {
    Null,
    Boolean(bool),
    Number(Number),
    String(String),
    Array(Vec<JsonValue>),
    Object(Vec<(String, JsonValue)>),
}

impl View for Number {
    type V = JNum;

    open spec fn view(&self) -> JNum {
        match self {
            Number::Integer(i) => JNum::Int(*i),
            Number::Float(s) => JNum::Float(s@),
        }
    }
}

/// The views of an array's elements, in order.
pub open spec fn arr_view(items: Seq<JsonValue>) -> Seq<JVal>
    decreases items,
{
    Seq::new(
        items.len(),
        |i: int|
            if 0 <= i < items.len() {
                items[i]@
            } else {
                JVal::Null
            },
    )
}

/// The views of an object's entries, in order.
pub open spec fn obj_view(entries: Seq<(String, JsonValue)>) -> Seq<(Seq<char>, JVal)>
    decreases entries,
{
    Seq::new(
        entries.len(),
        |i: int|
            if 0 <= i < entries.len() {
                (entries[i].0@, entries[i].1@)
            } else {
                (Seq::empty(), JVal::Null)
            },
    )
}

impl View for JsonValue {
    type V = JVal;

    open spec fn view(&self) -> JVal
        decreases self,
    {
        match self {
            JsonValue::Null => JVal::Null,
            JsonValue::Boolean(b) => JVal::Bool(*b),
            JsonValue::Number(n) => JVal::Num(n@),
            JsonValue::String(s) => JVal::Str(s@),
            JsonValue::Array(items) => JVal::Arr(arr_view(items@)),
            JsonValue::Object(entries) => JVal::Obj(obj_view(entries@)),
        }
    }
}

/// The errors the scanner and builder can surface.
#[derive(Debug, PartialEq)]
pub enum JsonError {
    InvalidKey,
    InvalidEscape,
    InvalidNumber(String),
    UnexpectedEof,
    UnexpectedChar(char),
}

/// Mathematical model of a [`JsonError`].
pub enum JErr {
    InvalidKey,
    InvalidEscape,
    InvalidNumber(Seq<char>),
    UnexpectedEof,
    UnexpectedChar(char),
}

impl View for JsonError {
    type V = JErr;

    open spec fn view(&self) -> JErr {
        match self {
            JsonError::InvalidKey => JErr::InvalidKey,
            JsonError::InvalidEscape => JErr::InvalidEscape,
            JsonError::InvalidNumber(s) => JErr::InvalidNumber(s@),
            JsonError::UnexpectedEof => JErr::UnexpectedEof,
            JsonError::UnexpectedChar(c) => JErr::UnexpectedChar(*c),
        }
    }
}

pub open spec fn obj_has_key(entries: Seq<(Seq<char>, JVal)>, key: Seq<char>) -> bool {
    exists|i: int| 0 <= i < entries.len() && entries[i].0 == key
}

/// The value bound to `key`: the entry at the first matching index.
pub open spec fn obj_lookup(entries: Seq<(Seq<char>, JVal)>, key: Seq<char>) -> Option<JVal> {
    if obj_has_key(entries, key) {
        Some(entries[obj_first_index_of(entries, key)].1)
    } else {
        None
    }
}

/// The least index bound to `key`, defined by recursion from the front.
pub open spec fn obj_first_index_of(entries: Seq<(Seq<char>, JVal)>, key: Seq<char>) -> int
    decreases entries.len(),
{
    if entries.len() == 0 {
        0
    } else if entries[0].0 == key {
        0
    } else {
        1 + obj_first_index_of(entries.skip(1), key)
    }
}

/// Binding `key` to `val`: replace the first entry with that key, or
/// append a new entry at the end.
pub open spec fn obj_put(entries: Seq<(Seq<char>, JVal)>, key: Seq<char>, val: JVal) -> Seq<
    (Seq<char>, JVal),
> {
    if obj_has_key(entries, key) {
        entries.update(obj_first_index_of(entries, key), (key, val))
    } else {
        entries.push((key, val))
    }
}

pub proof fn lemma_obj_first_index_of(entries: Seq<(Seq<char>, JVal)>, key: Seq<char>)
    requires
        obj_has_key(entries, key),
    ensures
        0 <= obj_first_index_of(entries, key) < entries.len(),
        entries[obj_first_index_of(entries, key)].0 == key,
        forall|j: int| 0 <= j < obj_first_index_of(entries, key) ==> entries[j].0 != key,
    decreases entries.len(),
{
    if entries.len() > 0 && entries[0].0 != key {
        assert(obj_has_key(entries.skip(1), key)) by {
            let i = choose|i: int| 0 <= i < entries.len() && entries[i].0 == key;
            assert(entries.skip(1)[i - 1].0 == key);
        }
        lemma_obj_first_index_of(entries.skip(1), key);
        assert forall|j: int| 0 <= j < obj_first_index_of(entries, key) implies entries[j].0
            != key by {
            if j > 0 {
                assert(entries.skip(1)[j - 1].0 != key);
            }
        }
    }
}

impl JsonValue {
    /// The inner text of a string value.
    pub fn as_string(&self) -> (r: Option<&String>)
        ensures
            match r {
                Some(s) => self@ == JVal::Str(s@),
                None => !(self@ is Str),
            },
    {
        match self {
            JsonValue::String(s) => Some(s),
            _ => None,
        }
    }

    /// A deep copy; the copy has the same mathematical value.
    #[verifier::loop_isolation(false)]
    pub fn dup(&self) -> (r: JsonValue)
        ensures
            r@ == self@,
        decreases self,
    {
        match self {
            JsonValue::Null => JsonValue::Null,
            JsonValue::Boolean(b) => JsonValue::Boolean(*b),
            JsonValue::Number(n) => JsonValue::Number(
                match n {
                    Number::Integer(i) => Number::Integer(*i),
                    Number::Float(f) => Number::Float(f.clone()),
                },
            ),
            JsonValue::String(s) => JsonValue::String(s.clone()),
            JsonValue::Array(items) => {
                let mut out: Vec<JsonValue> = Vec::new();
                let mut j: usize = 0;
                while j < items.len()
                    invariant
                        j <= items@.len(),
                        out@.len() == j,
                        forall|k: int| 0 <= k < j ==> out@[k]@ == items@[k]@,
                    decreases items@.len() - j,
                {
                    out.push(items[j].dup());
                    j = j + 1;
                }
                proof {
                    assert_seqs_equal!(arr_view(out@), arr_view(items@));
                }
                JsonValue::Array(out)
            },
            JsonValue::Object(entries) => {
                let mut out: Vec<(String, JsonValue)> = Vec::new();
                let mut j: usize = 0;
                while j < entries.len()
                    invariant
                        j <= entries@.len(),
                        out@.len() == j,
                        forall|k: int|
                            0 <= k < j ==> out@[k].0@ == entries@[k].0@ && out@[k].1@
                                == entries@[k].1@,
                    decreases entries@.len() - j,
                {
                    let copy = (entries[j].0.clone(), entries[j].1.dup());
                    out.push(copy);
                    j = j + 1;
                }
                proof {
                    assert_seqs_equal!(obj_view(out@), obj_view(entries@));
                }
                JsonValue::Object(out)
            },
        }
    }
}

/// A deep copy of an array's elements.
#[verifier::loop_isolation(false)]
pub fn dup_items(items: &Vec<JsonValue>) -> (r: Vec<JsonValue>)
    ensures
        arr_view(r@) == arr_view(items@),
{
    let mut out: Vec<JsonValue> = Vec::new();
    let mut j: usize = 0;
    while j < items.len()
        invariant
            j <= items@.len(),
            out@.len() == j,
            forall|k: int| 0 <= k < j ==> out@[k]@ == items@[k]@,
        decreases items@.len() - j,
    {
        out.push(items[j].dup());
        j = j + 1;
    }
    proof {
        assert_seqs_equal!(arr_view(out@), arr_view(items@));
    }
    out
}

/// A deep copy of an object's entries.
#[verifier::loop_isolation(false)]
pub fn dup_entries(entries: &Vec<(String, JsonValue)>) -> (r: Vec<(String, JsonValue)>)
    ensures
        obj_view(r@) == obj_view(entries@),
{
    let mut out: Vec<(String, JsonValue)> = Vec::new();
    let mut j: usize = 0;
    while j < entries.len()
        invariant
            j <= entries@.len(),
            out@.len() == j,
            forall|k: int|
                0 <= k < j ==> out@[k].0@ == entries@[k].0@ && out@[k].1@ == entries@[k].1@,
        decreases entries@.len() - j,
    {
        let copy = (entries[j].0.clone(), entries[j].1.dup());
        out.push(copy);
        j = j + 1;
    }
    proof {
        assert_seqs_equal!(obj_view(out@), obj_view(entries@));
    }
    out
}

/// Looks `key` up among an object's entries.
#[verifier::loop_isolation(false)]
pub fn obj_get<'a>(entries: &'a Vec<(String, JsonValue)>, key: &str) -> (r: Option<
    &'a JsonValue,
>)
    ensures
        match r {
            Some(v) => obj_lookup(obj_view(entries@), key@) == Some(v@),
            None => obj_lookup(obj_view(entries@), key@) is None,
        },
{
    let ghost m = obj_view(entries@);
    let mut i: usize = 0;
    while i < entries.len()
        invariant
            i <= entries@.len(),
            forall|k: int| 0 <= k < i ==> m[k].0 != key@,
        decreases entries@.len() - i,
    {
        if str_eq(entries[i].0.as_str(), key) {
            proof {
                assert(m[i as int].0 == key@);
                assert(obj_has_key(m, key@));
                lemma_obj_first_index_of(m, key@);
                assert(obj_first_index_of(m, key@) == i);
            }
            return Some(&entries[i].1);
        }
        i = i + 1;
    }
    proof {
        assert(!obj_has_key(m, key@));
    }
    None
}

/// Inserts `val` under `key` among an object's entries, replacing the
/// first entry already bound to that key.
#[verifier::loop_isolation(false)]
pub fn obj_set(entries: &mut Vec<(String, JsonValue)>, key: String, val: JsonValue)
    ensures
        obj_view(final(entries)@) == obj_put(obj_view(old(entries)@), key@, val@),
{
    let ghost m = obj_view(old(entries)@);
    let mut i: usize = 0;
    while i < entries.len()
        invariant
            entries@ == old(entries)@,
            i <= entries@.len(),
            forall|k: int| 0 <= k < i ==> m[k].0 != key@,
        decreases entries@.len() - i,
    {
        if str_eq(entries[i].0.as_str(), key.as_str()) {
            proof {
                assert(m[i as int].0 == key@);
                assert(obj_has_key(m, key@));
                lemma_obj_first_index_of(m, key@);
                assert(obj_first_index_of(m, key@) == i);
            }
            entries.set(i, (key, val));
            proof {
                assert_seqs_equal!(obj_view(entries@), obj_put(m, key@, val@));
            }
            return ;
        }
        i = i + 1;
    }
    proof {
        assert(!obj_has_key(m, key@));
    }
    entries.push((key, val));
    proof {
        assert_seqs_equal!(obj_view(entries@), obj_put(m, key@, val@));
    }
}

} // verus!
