//! A JSON document as the feed delivers it, and the reading of price levels from it.
use crate::book::{Level, levels_wf};
use crate::decimal::{decimal_of_text, parse_decimal_text, Dec};
use vstd::prelude::*;

verus! {

/// A JSON value. Numbers keep the text that `serde_json` prints for them; an object keeps
/// its members in order, each key once.
pub enum Json {
    Null,
    Bool(bool),
    Number(String),
    Str(String),
    Array(Vec<Json>),
    Object(Vec<(String, Json)>),
}

/// The value stored under `key` among an object's members (the first such member).
pub open spec fn object_lookup(members: Seq<(String, Json)>, key: Seq<char>) -> Option<Json>
    decreases members.len(),
{
    if members.len() == 0 {
        None
    } else if members[0].0@ == key {
        Some(members[0].1)
    } else {
        object_lookup(members.drop_first(), key)
    }
}

/// The member `key` of `j` when `j` is an object.
pub open spec fn member(j: Json, key: Seq<char>) -> Option<Json> {
    match j {
        Json::Object(members) => object_lookup(members@, key),
        _ => None,
    }
}

/// Looks up the value stored under `key` among an object's members.
pub fn object_get<'a>(members: &'a Vec<(String, Json)>, key: &String) -> (r: Option<&'a Json>)
    ensures
        r is Some <==> object_lookup(members@, key@) is Some,
        r matches Some(v) ==> object_lookup(members@, key@) == Some(*v),
{
    let mut i: usize = 0;
    assert(members@.skip(0) =~= members@);
    while i < members.len()
        invariant
            0 <= i <= members@.len(),
            object_lookup(members@, key@) == object_lookup(members@.skip(i as int), key@),
        decreases members@.len() - i,
    {
        assert(members@.skip(i as int)[0] == members@[i as int]);
        if members[i].0 == *key {
            return Some(&members[i].1);
        }
        assert(members@.skip(i as int).drop_first() =~= members@.skip(i + 1));
        i = i + 1;
    }
    None
}

impl Json {
    /// The member `key` of this value when it is an object (`serde_json::Value::get`).
    pub fn get(&self, key: &String) -> (r: Option<&Json>)
        ensures
            r is Some <==> member(*self, key@) is Some,
            r matches Some(v) ==> member(*self, key@) == Some(*v),
    {
        match self {
            Json::Object(members) => object_get(members, key),
            _ => None,
        }
    }
}

/// The decimal that a JSON value holds: a string or a number whose text `rust_decimal` reads.
pub open spec fn decimal_of(j: Json) -> Option<Dec> {
    match j {
        Json::Str(s) => decimal_of_text(s@),
        Json::Number(n) => decimal_of_text(n@),
        _ => None,
    }
}

/// Reads a decimal from a JSON string or number.
pub fn parse_decimal(value: &Json) -> (r: Option<Dec>)
    ensures
        r == decimal_of(*value),
        r matches Some(d) ==> d.wf(),
{
    match value {
        Json::Str(s) => parse_decimal_text(s.as_str()),
        Json::Number(n) => parse_decimal_text(n.as_str()),
        _ => None,
    }
}

/// The level that an entry `[price, volume, ...]` denotes, when both numbers read as decimals.
pub open spec fn level_of(entry: Json) -> Option<Level> {
    match entry {
        Json::Array(items) => if items@.len() >= 2 {
            match (decimal_of(items@[0]), decimal_of(items@[1])) {
                (Some(p), Some(v)) => Some((p, v)),
                _ => None,
            }
        } else {
            None
        },
        _ => None,
    }
}

/// The levels of a list of entries, in order, skipping the entries that denote none.
pub open spec fn levels_of_entries(entries: Seq<Json>) -> Seq<Level>
    decreases entries.len(),
{
    if entries.len() == 0 {
        Seq::empty()
    } else {
        let prev = levels_of_entries(entries.drop_last());
        match level_of(entries.last()) {
            Some(l) => prev.push(l),
            None => prev,
        }
    }
}

/// The levels of a JSON array of entries; none for any other value.
pub open spec fn levels_of(value: Json) -> Seq<Level> {
    match value {
        Json::Array(entries) => levels_of_entries(entries@),
        _ => Seq::empty(),
    }
}

/// Reads the level of one entry `[price, volume, ...]`.
fn parse_level(entry: &Json) -> (r: Option<Level>)
    ensures
        r == level_of(*entry),
        r matches Some(l) ==> l.0.wf() && l.1.wf(),
{
    match entry {
        Json::Array(items) => {
            if items.len() < 2 {
                return None;
            }
            let price = match parse_decimal(&items[0]) {
                Some(p) => p,
                None => return None,
            };
            let volume = match parse_decimal(&items[1]) {
                Some(v) => v,
                None => return None,
            };
            Some((price, volume))
        },
        _ => None,
    }
}

/// Reads the levels of a JSON array of `[price, volume, ...]` entries, skipping entries that
/// are not arrays of at least two decimals; any other value gives no levels.
pub fn parse_levels(value: &Json) -> (r: Vec<Level>)
    ensures
        r@ == levels_of(*value),
        levels_wf(r@),
{
    let mut r: Vec<Level> = Vec::new();
    match value {
        Json::Array(entries) => {
            let mut i: usize = 0;
            while i < entries.len()
                invariant
                    0 <= i <= entries@.len(),
                    r@ == levels_of_entries(entries@.take(i as int)),
                    levels_wf(r@),
                decreases entries@.len() - i,
            {
                assert(entries@.take(i + 1).drop_last() =~= entries@.take(i as int));
                assert(entries@.take(i + 1).last() == entries@[i as int]);
                match parse_level(&entries[i]) {
                    Some(l) => r.push(l),
                    None => {},
                }
                i = i + 1;
            }
            assert(entries@.take(entries@.len() as int) =~= entries@);
        },
        _ => {},
    }
    r
}

/// An entry gives a level exactly when it is an array of at least two items whose first two
/// read as decimals, whatever follows them; the level is those two decimals, price first.
pub proof fn lemma_entry_level(entry: Json)
    ensures
        level_of(entry) is Some <==> (entry matches Json::Array(items) && items@.len() >= 2
            && decimal_of(items@[0]) is Some && decimal_of(items@[1]) is Some),
        entry matches Json::Array(items) ==> (items@.len() >= 2 && decimal_of(items@[0]) is Some
            && decimal_of(items@[1]) is Some ==> level_of(entry) == Some(
            (decimal_of(items@[0])->0, decimal_of(items@[1])->0),
        )),
{
}

/// Reading a list of entries keeps, in order, the level of each entry that has one: when
/// every entry is an array of at least two decimals, there is one level per entry, the `i`th
/// made of the `i`th entry's first two items.
pub proof fn lemma_entries_all_levels(entries: Seq<Json>)
    requires
        forall|i: int|
            0 <= i < entries.len() ==> (#[trigger] entries[i] matches Json::Array(items)
                && items@.len() >= 2 && decimal_of(items@[0]) is Some && decimal_of(items@[1]) is Some),
    ensures
        levels_of_entries(entries).len() == entries.len(),
        forall|i: int|
            0 <= i < entries.len() ==> (#[trigger] entries[i] matches Json::Array(items)
                && levels_of_entries(entries)[i] == (
                decimal_of(items@[0])->0,
                decimal_of(items@[1])->0,
            )),
    decreases entries.len(),
{
    if entries.len() > 0 {
        let prev = entries.drop_last();
        assert forall|i: int| 0 <= i < prev.len() implies (#[trigger] prev[i] matches Json::Array(items)
            && items@.len() >= 2 && decimal_of(items@[0]) is Some && decimal_of(items@[1]) is Some) by {
            assert(prev[i] == entries[i]);
        }
        lemma_entries_all_levels(prev);
        let last = entries[entries.len() - 1];
        lemma_entry_level(last);
        assert forall|i: int| 0 <= i < entries.len() implies (#[trigger] entries[i] matches Json::Array(
            items,
        ) && levels_of_entries(entries)[i] == (
            decimal_of(items@[0])->0,
            decimal_of(items@[1])->0,
        )) by {
            if i < entries.len() - 1 {
                assert(prev[i] == entries[i]);
            } else {
                lemma_entry_level(entries[i]);
            }
        }
    }
}

/// A string or a number gives the decimal its text reads as; any other value gives none.
pub proof fn lemma_decimal_of_value(value: Json)
    ensures
        value matches Json::Str(t) ==> decimal_of(value) == decimal_of_text(t@),
        value matches Json::Number(t) ==> decimal_of(value) == decimal_of_text(t@),
        !(value is Str || value is Number) ==> decimal_of(value) is None,
{
}

/// Looking up a key among members with distinct keys finds the member with that key, and
/// finds nothing when no member has it.
pub proof fn lemma_object_lookup_finds(members: Seq<(String, Json)>, key: Seq<char>)
    requires
        forall|i: int, j: int|
            0 <= i < j < members.len() ==> (#[trigger] members[i]).0@ != (#[trigger] members[j]).0@,
    ensures
        forall|i: int|
            0 <= i < members.len() && (#[trigger] members[i]).0@ == key ==> object_lookup(members, key)
                == Some(members[i].1),
        (forall|i: int| 0 <= i < members.len() ==> (#[trigger] members[i]).0@ != key) ==> object_lookup(
            members,
            key,
        ) is None,
    decreases members.len(),
{
    if members.len() > 0 {
        let rest = members.drop_first();
        assert forall|i: int, j: int| 0 <= i < j < rest.len() implies (#[trigger] rest[i]).0@ != (
        #[trigger] rest[j]).0@ by {
            assert(rest[i] == members[i + 1] && rest[j] == members[j + 1]);
        }
        lemma_object_lookup_finds(rest, key);
        assert forall|i: int|
            0 <= i < members.len() && (#[trigger] members[i]).0@ == key implies object_lookup(
            members,
            key,
        ) == Some(members[i].1) by {
            if i > 0 {
                assert(rest[i - 1] == members[i]);
                assert(members[0].0@ != members[i].0@);
            }
        }
        if forall|i: int| 0 <= i < members.len() ==> (#[trigger] members[i]).0@ != key {
            assert forall|i: int| 0 <= i < rest.len() implies (#[trigger] rest[i]).0@ != key by {
                assert(rest[i] == members[i + 1]);
            }
            assert(members[0].0@ != key);
        }
    }
}

} // verus!
