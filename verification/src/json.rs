//! JSON values as plain data, with the lookups the listing and catalog
//! logic performs on them.
//!
//! Objects keep their members in the order they were read; a lookup by key
//! finds the first member with that key.

use vstd::prelude::*;
use crate::text::chars_of;

verus! {

/// A JSON value.
#[derive(Debug)]
pub enum Json {
    Null,
    Bool(bool),
    /// A number, by its value as an `i64` where it is an integer in that
    /// range; `None` for any other number.
    Number(Option<i64>),
    String(String),
    Array(Vec<Json>),
    Object(Vec<(String, Json)>),
}

/// Position of the first member of `m` named `key`.
#[verifier::opaque]
pub open spec fn member_at(m: Seq<(String, Json)>, key: Seq<char>) -> Option<int> {
    if exists|i: int| 0 <= i < m.len() && (#[trigger] m[i]).0@ == key {
        Some(
            choose|i: int|
                0 <= i < m.len() && (#[trigger] m[i]).0@ == key && forall|k: int| 0 <= k < i ==> (#[trigger] m[k]).0@ != key,
        )
    } else {
        None
    }
}

/// The value of the first member of `m` named `key`.
pub open spec fn member(m: Seq<(String, Json)>, key: Seq<char>) -> Option<Json> {
    match member_at(m, key) {
        Some(i) => Some(m[i].1),
        None => None,
    }
}

/// `member_at` finds the first member with the key.
pub proof fn lemma_member_at(m: Seq<(String, Json)>, key: Seq<char>, i: int)
    requires
        0 <= i <= m.len(),
        forall|k: int| 0 <= k < i ==> (#[trigger] m[k]).0@ != key,
        i < m.len() ==> m[i].0@ == key,
    ensures
        i < m.len() ==> member_at(m, key) == Some(i),
        i == m.len() ==> member_at(m, key) is None,
{
    reveal(member_at);
    if i < m.len() {
        let c = choose|c: int|
            0 <= c < m.len() && (#[trigger] m[c]).0@ == key && forall|k: int| 0 <= k < c ==> (#[trigger] m[k]).0@ != key;
        assert(m[i].0@ == key);
        if c < i {
        } else if c > i {
            assert(m[i].0@ != key);
        }
    }
}

/// `v` as an integer (`Value::as_i64`).
pub open spec fn as_int(v: Option<Json>) -> Option<i64> {
    match v {
        Some(Json::Number(n)) => n,
        _ => None,
    }
}

/// `v` as a boolean (`Value::as_bool`).
pub open spec fn as_flag(v: Option<Json>) -> Option<bool> {
    match v {
        Some(Json::Bool(b)) => Some(b),
        _ => None,
    }
}

/// The position of the member named `key` of `m`.
pub fn find_member(m: &Vec<(String, Json)>, key: &str) -> (r: Option<usize>)
    ensures
        match r {
            Some(i) => member_at(m@, key@) == Some(i as int) && i < m@.len(),
            None => member_at(m@, key@) is None,
        },
{
    let k = chars_of(key);
    let mut i: usize = 0;
    while i < m.len()
        invariant
            i <= m@.len(),
            k@ == key@,
            forall|t: int| 0 <= t < i ==> (#[trigger] m@[t]).0@ != key@,
        decreases m@.len() - i,
    {
        let name = chars_of(m[i].0.as_str());
        if crate::text::chars_eq(name.as_slice(), k.as_slice()) {
            proof {
                lemma_member_at(m@, key@, i as int);
            }
            return Some(i);
        }
        i += 1;
    }
    proof {
        lemma_member_at(m@, key@, i as int);
    }
    None
}

/// The member named `key` of `m`.
pub fn get_member<'a>(m: &'a Vec<(String, Json)>, key: &str) -> (r: Option<&'a Json>)
    ensures
        match r {
            Some(v) => member(m@, key@) == Some(*v),
            None => member(m@, key@) is None,
        },
{
    match find_member(m, key) {
        Some(i) => Some(&m[i].1),
        None => None,
    }
}

/// `v` as an integer, where it is one.
pub fn int_of(v: Option<&Json>) -> (r: Option<i64>)
    ensures
        r == as_int(match v {
            Some(x) => Some(*x),
            None => None,
        }),
{
    match v {
        Some(Json::Number(n)) => *n,
        _ => None,
    }
}

} // verus!
