//! Structured feed payloads.
//!
//! One inbound frame is one JSON-shaped value: nested strings, numbers,
//! booleans, arrays and objects. The decoder only ever reads strings, arrays
//! and object fields out of a payload, so a number is carried as its token
//! text and never interpreted here.

use vstd::prelude::*;
use vstd::string::StrSliceExecFns;

verus! {

/// One structured feed payload.
#[derive(Debug, PartialEq)]
pub enum JsonValue {
    Null,
    Bool(bool),
    /// A number, kept as its token text.
    Number(String),
    Str(String),
    Array(Vec<JsonValue>),
    Object(Vec<(String, JsonValue)>),
}

/// The value under the first entry of `entries` whose key reads `key`.
pub open spec fn spec_entry_lookup(entries: Seq<(String, JsonValue)>, key: Seq<char>) -> Option<
    JsonValue,
>
    decreases entries.len(),
{
    if entries.len() == 0 {
        None
    } else if entries[0].0@ == key {
        Some(entries[0].1)
    } else {
        spec_entry_lookup(entries.drop_first(), key)
    }
}

impl JsonValue {
    /// The value of field `key`, when this payload is an object that has it.
    pub open spec fn spec_get(self, key: Seq<char>) -> Option<JsonValue> {
        match self {
            JsonValue::Object(entries) => spec_entry_lookup(entries@, key),
            _ => None,
        }
    }

    /// The characters of this payload, when it is a string.
    pub open spec fn spec_as_str(self) -> Option<Seq<char>> {
        match self {
            JsonValue::Str(s) => Some(s@),
            _ => None,
        }
    }

    /// The elements of this payload, when it is an array.
    pub open spec fn spec_as_array(self) -> Option<Seq<JsonValue>> {
        match self {
            JsonValue::Array(items) => Some(items@),
            _ => None,
        }
    }

    /// Looks up field `key` of an object payload.
    pub fn get<'a>(&'a self, key: &str) -> (r: Option<&'a JsonValue>)
        ensures
            match r {
                Some(v) => self.spec_get(key@) == Some(*v),
                None => self.spec_get(key@) is None,
            },
    {
        if let JsonValue::Object(entries) = self {
            proof {
                assert(entries@.skip(0int) =~= entries@);
            }
            let mut i: usize = 0;
            while i < entries.len()
                invariant
                    i <= entries@.len(),
                    self.spec_get(key@) == spec_entry_lookup(entries@, key@),
                    spec_entry_lookup(entries@.skip(i as int), key@) == spec_entry_lookup(
                        entries@,
                        key@,
                    ),
                decreases entries@.len() - i,
            {
                let entry = &entries[i];
                proof {
                    assert(entries@.skip(i as int)[0] == entries@[i as int]);
                }
                if str_eq(entry.0.as_str(), key) {
                    proof {
                        assert(entries@[i as int].0@ == key@);
                        assert(spec_entry_lookup(entries@.skip(i as int), key@) == Some(
                            entries@[i as int].1,
                        ));
                    }
                    return Some(&entry.1);
                }
                proof {
                    assert(entries@.skip(i as int).drop_first() =~= entries@.skip(i as int + 1));
                }
                i = i + 1;
            }
            proof {
                assert(entries@.skip(i as int) =~= Seq::<(String, JsonValue)>::empty());
            }
            None
        } else {
            None
        }
    }

    /// Reads this payload as a string.
    pub fn as_str(&self) -> (r: Option<&String>)
        ensures
            match r {
                Some(s) => self.spec_as_str() == Some(s@),
                None => self.spec_as_str() is None,
            },
    {
        match self {
            JsonValue::Str(s) => Some(s),
            _ => None,
        }
    }

    /// Reads this payload as an array.
    pub fn as_array(&self) -> (r: Option<&Vec<JsonValue>>)
        ensures
            match r {
                Some(items) => self.spec_as_array() == Some(items@),
                None => self.spec_as_array() is None,
            },
    {
        match self {
            JsonValue::Array(items) => Some(items),
            _ => None,
        }
    }
}

/// Character-for-character string equality.
pub fn str_eq(a: &str, b: &str) -> (r: bool)
    ensures
        r == (a@ == b@),
{
    let a_len = a.unicode_len();
    let b_len = b.unicode_len();
    if a_len != b_len {
        return false;
    }
    let mut i: usize = 0;
    while i < a_len
        invariant
            i <= a_len,
            a_len == a@.len(),
            a@.len() == b@.len(),
            forall|j: int| 0 <= j < i ==> a@[j] == b@[j],
        decreases a_len - i,
    {
        if a.get_char(i) != b.get_char(i) {
            return false;
        }
        i = i + 1;
    }
    proof {
        assert(a@ =~= b@);
    }
    true
}

} // verus!
