//! JSON values as the snapshot format reads and writes them, with the
//! lookups that the readers use: a missing member or element reads as null.

use vstd::prelude::*;
use crate::block_compiler::str_eq;

verus! {

/// A JSON value. Integer numbers are kept exactly; other numbers keep their
/// text.
#[derive(Debug)]
pub enum JsonValue {
    Null,
    Bool(bool),
    Int(i128),
    Float(String),
    Str(String),
    Array(Vec<JsonValue>),
    Object(Vec<(String, JsonValue)>),
}

/// What a JSON value is, as the contracts speak of it.
pub ghost enum JsonSpec {
    Null,
    Bool(bool),
    Int(int),
    Float(Seq<char>),
    Str(Seq<char>),
    Array(Seq<JsonSpec>),
    Object(Seq<(Seq<char>, JsonSpec)>),
}

/// The model of a JSON value.
pub open spec fn json_view(v: JsonValue) -> JsonSpec
    decreases v,
{
    match v {
        JsonValue::Null => JsonSpec::Null,
        JsonValue::Bool(b) => JsonSpec::Bool(b),
        JsonValue::Int(n) => JsonSpec::Int(n as int),
        JsonValue::Float(t) => JsonSpec::Float(t@),
        JsonValue::Str(s) => JsonSpec::Str(s@),
        JsonValue::Array(a) => JsonSpec::Array(json_list_view(a@, a@.len() as int)),
        JsonValue::Object(m) => JsonSpec::Object(json_members_view(m@, m@.len() as int)),
    }
}

/// The models of the first `k` elements of an array.
pub open spec fn json_list_view(v: Seq<JsonValue>, k: int) -> Seq<JsonSpec>
    decreases v, k,
{
    if k <= 0 || k > v.len() {
        Seq::empty()
    } else {
        json_list_view(v, k - 1).push(json_view(v[k - 1]))
    }
}

/// The models of the first `k` members of an object.
pub open spec fn json_members_view(v: Seq<(String, JsonValue)>, k: int) -> Seq<(Seq<char>, JsonSpec)>
    decreases v, k,
{
    if k <= 0 || k > v.len() {
        Seq::empty()
    } else {
        json_members_view(v, k - 1).push((v[k - 1].0@, json_view(v[k - 1].1)))
    }
}

/// The models of all elements of an array.
pub open spec fn json_all(v: Seq<JsonValue>) -> Seq<JsonSpec> {
    json_list_view(v, v.len() as int)
}

/// The models of all members of an object.
pub open spec fn json_members(v: Seq<(String, JsonValue)>) -> Seq<(Seq<char>, JsonSpec)> {
    json_members_view(v, v.len() as int)
}

/// The index of the first member named `key`.
pub open spec fn member_index(m: Seq<(Seq<char>, JsonSpec)>, key: Seq<char>, i: int) -> Option<int>
    decreases m.len() - i,
{
    if i < 0 || i >= m.len() {
        None
    } else if m[i].0 == key {
        Some(i)
    } else {
        member_index(m, key, i + 1)
    }
}

/// The member `key` of an object; null for a missing member or another kind
/// of value.
pub open spec fn json_get(v: JsonSpec, key: Seq<char>) -> JsonSpec {
    match v {
        JsonSpec::Object(m) => match member_index(m, key, 0) {
            Some(i) => m[i].1,
            None => JsonSpec::Null,
        },
        _ => JsonSpec::Null,
    }
}

/// Element `i` of an array; null past its end or for another kind of value.
pub open spec fn json_at(v: JsonSpec, i: int) -> JsonSpec {
    match v {
        JsonSpec::Array(a) => if 0 <= i < a.len() {
            a[i]
        } else {
            JsonSpec::Null
        },
        _ => JsonSpec::Null,
    }
}

/// The value as an `i64`, where it is an integer in range.
pub open spec fn json_i64(v: JsonSpec) -> Option<i64> {
    match v {
        JsonSpec::Int(n) => if i64::MIN <= n <= i64::MAX {
            Some(n as i64)
        } else {
            None
        },
        _ => None,
    }
}

/// The value as a boolean.
pub open spec fn json_bool(v: JsonSpec) -> Option<bool> {
    match v {
        JsonSpec::Bool(b) => Some(b),
        _ => None,
    }
}

/// The value as a string.
pub open spec fn json_str(v: JsonSpec) -> Option<Seq<char>> {
    match v {
        JsonSpec::Str(s) => Some(s),
        _ => None,
    }
}

/// The elements of an array; none for another kind of value.
pub open spec fn json_elems(v: JsonSpec) -> Seq<JsonSpec> {
    match v {
        JsonSpec::Array(a) => a,
        _ => Seq::empty(),
    }
}

/// The models of an array, one by one.
pub proof fn lemma_json_list_index(v: Seq<JsonValue>, k: int)
    requires
        0 <= k <= v.len(),
    ensures
        json_list_view(v, k).len() == k,
        forall|i: int| 0 <= i < k ==> json_list_view(v, k)[i] == json_view(v[i]),
    decreases k,
{
    if k > 0 {
        lemma_json_list_index(v, k - 1);
    }
}

/// The models of an object's members, one by one.
pub proof fn lemma_json_members_index(v: Seq<(String, JsonValue)>, k: int)
    requires
        0 <= k <= v.len(),
    ensures
        json_members_view(v, k).len() == k,
        forall|i: int| 0 <= i < k ==> json_members_view(v, k)[i] == (v[i].0@, json_view(v[i].1)),
    decreases k,
{
    if k > 0 {
        lemma_json_members_index(v, k - 1);
    }
}

/// A longer array keeps the models of its prefix.
pub proof fn lemma_json_list_push(v: Seq<JsonValue>, x: JsonValue, k: int)
    requires
        0 <= k <= v.len(),
    ensures
        json_list_view(v.push(x), k) == json_list_view(v, k),
    decreases k,
{
    if k > 0 {
        lemma_json_list_push(v, x, k - 1);
        assert(v.push(x)[k - 1] == v[k - 1]);
    }
}

/// A longer object keeps the models of its prefix.
pub proof fn lemma_json_members_push(v: Seq<(String, JsonValue)>, x: (String, JsonValue), k: int)
    requires
        0 <= k <= v.len(),
    ensures
        json_members_view(v.push(x), k) == json_members_view(v, k),
    decreases k,
{
    if k > 0 {
        lemma_json_members_push(v, x, k - 1);
        assert(v.push(x)[k - 1] == v[k - 1]);
    }
}

impl JsonValue {
    /// The member `key` of an object; `None` where it reads as null because
    /// it is missing or this is no object.
    pub fn get(&self, key: &str) -> (r: Option<&JsonValue>)
        ensures
            match r {
                Some(x) => json_view(*x) == json_get(json_view(*self), key@),
                None => json_get(json_view(*self), key@) == JsonSpec::Null,
            },
    {
        match self {
            JsonValue::Object(m) => {
                let ghost mv = json_members(m@);
                proof {
                    lemma_json_members_index(m@, m@.len() as int);
                }
                let mut i: usize = 0;
                while i < m.len()
                    invariant
                        i <= m.len(),
                        mv == json_members(m@),
                        json_view(*self) == JsonSpec::Object(mv),
                        mv.len() == m@.len(),
                        forall|j: int| 0 <= j < m@.len() ==> mv[j] == (m@[j].0@, json_view(m@[j].1)),
                        member_index(mv, key@, 0) == member_index(mv, key@, i as int),
                    decreases m.len() - i,
                {
                    if str_eq(m[i].0.as_str(), key) {
                        proof {
                            assert(member_index(mv, key@, i as int) == Some(i as int));
                        }
                        return Some(&m[i].1);
                    }
                    i += 1;
                }
                None
            },
            _ => None,
        }
    }

    /// Element `i` of an array; `None` where it reads as null.
    pub fn at(&self, i: usize) -> (r: Option<&JsonValue>)
        ensures
            match r {
                Some(x) => json_view(*x) == json_at(json_view(*self), i as int),
                None => json_at(json_view(*self), i as int) == JsonSpec::Null,
            },
    {
        match self {
            JsonValue::Array(a) => {
                proof {
                    lemma_json_list_index(a@, a@.len() as int);
                }
                if i < a.len() {
                    Some(&a[i])
                } else {
                    None
                }
            },
            _ => None,
        }
    }

    /// The value as an `i64`, where it is an integer in range.
    pub fn as_i64(&self) -> (r: Option<i64>)
        ensures
            r == json_i64(json_view(*self)),
    {
        match self {
            JsonValue::Int(n) => if i64::MIN as i128 <= *n && *n <= i64::MAX as i128 {
                Some(*n as i64)
            } else {
                None
            },
            _ => None,
        }
    }

    /// The value as a boolean.
    pub fn as_bool(&self) -> (r: Option<bool>)
        ensures
            r == json_bool(json_view(*self)),
    {
        match self {
            JsonValue::Bool(b) => Some(*b),
            _ => None,
        }
    }

    /// The value as a string.
    pub fn as_str(&self) -> (r: Option<&str>)
        ensures
            match r {
                Some(s) => json_str(json_view(*self)) == Some(s@),
                None => json_str(json_view(*self)) is None,
            },
    {
        match self {
            JsonValue::Str(s) => Some(s.as_str()),
            _ => None,
        }
    }
}

/// The `i64` that member `key` holds, or `dflt`.
pub fn get_i64_or(v: &JsonValue, key: &str, dflt: i64) -> (r: i64)
    ensures
        r == match json_i64(json_get(json_view(*v), key@)) {
            Some(n) => n,
            None => dflt,
        },
{
    match v.get(key) {
        Some(x) => match x.as_i64() {
            Some(n) => n,
            None => dflt,
        },
        None => dflt,
    }
}

/// The boolean that member `key` holds, or `dflt`.
pub fn get_bool_or(v: &JsonValue, key: &str, dflt: bool) -> (r: bool)
    ensures
        r == match json_bool(json_get(json_view(*v), key@)) {
            Some(b) => b,
            None => dflt,
        },
{
    match v.get(key) {
        Some(x) => match x.as_bool() {
            Some(b) => b,
            None => dflt,
        },
        None => dflt,
    }
}

/// The string that member `key` holds, or `dflt`.
pub fn get_str_or(v: &JsonValue, key: &str, dflt: &str) -> (r: String)
    ensures
        r@ == match json_str(json_get(json_view(*v), key@)) {
            Some(s) => s,
            None => dflt@,
        },
{
    match v.get(key) {
        Some(x) => match x.as_str() {
            Some(s) => s.to_string(),
            None => dflt.to_string(),
        },
        None => dflt.to_string(),
    }
}

} // verus!
