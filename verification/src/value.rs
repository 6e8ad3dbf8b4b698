//! The structured-value type that both transcoders exchange.
//!
//! `JsonValue` is a closed tagged union over null, booleans, integers,
//! strings, ordered lists and ordered maps (insertion order preserved,
//! first match wins on lookup). Its mathematical model is [`SpecValue`],
//! where strings become `Seq<char>` and collections become `Seq`.

use vstd::prelude::*;

verus! {

/// The mathematical model of a structured value.
pub enum SpecValue {
    Null,
    Bool(bool),
    Num(int),
    Str(Seq<char>),
    Arr(Seq<SpecValue>),
    Obj(Seq<(Seq<char>, SpecValue)>),
}

/// A structured value: the universal interchange type for both directions.
pub enum JsonValue {
    /// The null value.
    Null,
    /// A boolean scalar.
    Bool(bool),
    /// An integer scalar.
    Num(i64),
    /// A text scalar.
    Str(String),
    /// An ordered list.
    Arr(Vec<JsonValue>),
    /// An ordered map of unique keys; insertion order is preserved.
    Obj(Vec<(String, JsonValue)>),
}

/// The model of an executable value: strings become character sequences,
/// vectors become sequences.
pub open spec fn value_view(v: JsonValue) -> SpecValue
    decreases v,
{
    match v {
        JsonValue::Null => SpecValue::Null,
        JsonValue::Bool(b) => SpecValue::Bool(b),
        JsonValue::Num(n) => SpecValue::Num(n as int),
        JsonValue::Str(s) => SpecValue::Str(s@),
        JsonValue::Arr(items) => SpecValue::Arr(
            Seq::new(
                items@.len(),
                |i: int|
                    if 0 <= i < items@.len() {
                        value_view(items@[i])
                    } else {
                        SpecValue::Null
                    },
            ),
        ),
        JsonValue::Obj(entries) => SpecValue::Obj(
            Seq::new(
                entries@.len(),
                |i: int|
                    if 0 <= i < entries@.len() {
                        (entries@[i].0@, value_view(entries@[i].1))
                    } else {
                        (Seq::empty(), SpecValue::Null)
                    },
            ),
        ),
    }
}

impl View for JsonValue {
    type V = SpecValue;

    open spec fn view(&self) -> SpecValue {
        value_view(*self)
    }
}

/// The model of a list of map entries.
pub open spec fn entries_view(s: Seq<(String, JsonValue)>) -> Seq<(Seq<char>, SpecValue)> {
    Seq::new(s.len(), |i: int| (s[i].0@, s[i].1@))
}

/// The model of a list of values.
pub open spec fn arr_view(s: Seq<JsonValue>) -> Seq<SpecValue> {
    Seq::new(s.len(), |i: int| s[i]@)
}

/// A map value is the model of its entries.
pub broadcast proof fn lemma_obj_view(entries: Vec<(String, JsonValue)>)
    ensures
        #[trigger] value_view(JsonValue::Obj(entries)) == SpecValue::Obj(entries_view(entries@)),
{
    let lhs = value_view(JsonValue::Obj(entries));
    assert(lhs->Obj_0 =~= entries_view(entries@));
}

/// A list value is the model of its items.
pub broadcast proof fn lemma_arr_view(items: Vec<JsonValue>)
    ensures
        #[trigger] value_view(JsonValue::Arr(items)) == SpecValue::Arr(arr_view(items@)),
{
    let lhs = value_view(JsonValue::Arr(items));
    assert(lhs->Arr_0 =~= arr_view(items@));
}

/// Index of the first entry with the given key, if any.
pub open spec fn obj_find(entries: Seq<(Seq<char>, SpecValue)>, key: Seq<char>) -> Option<int>
    decreases entries.len(),
{
    if entries.len() == 0 {
        None
    } else if entries[0].0 == key {
        Some(0int)
    } else {
        match obj_find(entries.drop_first(), key) {
            None => None,
            Some(i) => Some(i + 1),
        }
    }
}

/// The value stored at the first entry with the given key, if any.
pub open spec fn obj_get(entries: Seq<(Seq<char>, SpecValue)>, key: Seq<char>) -> Option<
    SpecValue,
> {
    match obj_find(entries, key) {
        None => None,
        Some(i) => Some(entries[i].1),
    }
}

/// Writing at a key: the first matching entry is replaced in place;
/// a missing key is appended at the end.
pub open spec fn obj_set(
    entries: Seq<(Seq<char>, SpecValue)>,
    key: Seq<char>,
    v: SpecValue,
) -> Seq<(Seq<char>, SpecValue)> {
    match obj_find(entries, key) {
        None => entries.push((key, v)),
        Some(i) => entries.update(i, (key, v)),
    }
}

proof fn lemma_obj_find_in_range(entries: Seq<(Seq<char>, SpecValue)>, key: Seq<char>)
    ensures
        match obj_find(entries, key) {
            None => forall|i: int| 0 <= i < entries.len() ==> entries[i].0 != key,
            Some(i) => 0 <= i < entries.len() && entries[i].0 == key,
        },
    decreases entries.len(),
{
    if entries.len() > 0 && entries[0].0 != key {
        let rest = entries.drop_first();
        lemma_obj_find_in_range(rest, key);
        assert(forall|i: int| 0 <= i < rest.len() ==> rest[i] == entries[i + 1]);
        match obj_find(rest, key) {
            None => {
                assert(forall|i: int| 0 <= i < entries.len() ==> entries[i].0 != key) by {
                    assert(forall|i: int|
                        1 <= i < entries.len() ==> entries[i] == rest[i - 1]);
                }
            },
            Some(j) => {
                assert(entries[j + 1] == rest[j]);
            },
        }
    }
}

/// `obj_find` returns an index inside the sequence that carries the key,
/// and `None` only when no entry carries it.
pub broadcast proof fn lemma_obj_find_spec(entries: Seq<(Seq<char>, SpecValue)>, key: Seq<char>)
    ensures
        match #[trigger] obj_find(entries, key) {
            None => forall|i: int| 0 <= i < entries.len() ==> entries[i].0 != key,
            Some(i) => 0 <= i < entries.len() && entries[i].0 == key,
        },
{
    lemma_obj_find_in_range(entries, key);
}

/// True when the value counts as empty: null, the empty string, the
/// empty list or the empty map.
pub open spec fn spec_is_empty(v: SpecValue) -> bool {
    match v {
        SpecValue::Null => true,
        SpecValue::Bool(_) => false,
        SpecValue::Num(_) => false,
        SpecValue::Str(s) => s.len() == 0,
        SpecValue::Arr(a) => a.len() == 0,
        SpecValue::Obj(o) => o.len() == 0,
    }
}

/// Relies on `str`'s `PartialEq`: equality of string slices is equality
/// of their characters.
pub assume_specification[ <str as PartialEq<str>>::eq ](a: &str, b: &str) -> (r: bool)
    ensures
        r == (a@ == b@),
;

/// Whether two string slices hold the same characters.
pub(crate) fn str_eq(a: &str, b: &str) -> (r: bool)
    ensures
        r == (a@ == b@),
{
    a.eq(b)
}

proof fn lemma_obj_find_prefix(entries: Seq<(Seq<char>, SpecValue)>, key: Seq<char>, i: int)
    requires
        0 <= i <= entries.len(),
        forall|j: int| 0 <= j < i ==> entries[j].0 != key,
    ensures
        obj_find(entries, key) == match obj_find(entries.skip(i), key) {
            None => None::<int>,
            Some(k) => Some(k + i),
        },
    decreases i,
{
    if i == 0 {
        assert(entries.skip(0) =~= entries);
    } else {
        let rest = entries.drop_first();
        assert(entries[0].0 != key);
        assert(forall|j: int| 0 <= j < i - 1 ==> rest[j] == entries[j + 1]);
        lemma_obj_find_prefix(rest, key, i - 1);
        assert(rest.skip(i - 1) =~= entries.skip(i));
    }
}

/// The index of the first entry carrying the key, searched from the
/// front.
pub(crate) fn obj_find_idx(entries: &Vec<(String, JsonValue)>, key: &str) -> (r: Option<usize>)
    ensures
        match r {
            Some(i) => i < entries@.len() && obj_find(entries_view(entries@), key@) == Some(
                i as int,
            ),
            None => obj_find(entries_view(entries@), key@) is None,
        },
{
    let ghost ev = entries_view(entries@);
    let mut i: usize = 0;
    while i < entries.len()
        invariant
            0 <= i <= entries@.len(),
            ev == entries_view(entries@),
            forall|j: int| 0 <= j < i ==> ev[j].0 != key@,
        decreases entries@.len() - i,
    {
        if str_eq(entries[i].0.as_str(), key) {
            proof {
                lemma_obj_find_prefix(ev, key@, i as int);
                assert(ev.skip(i as int)[0] == ev[i as int]);
            }
            return Some(i);
        }
        proof {
            assert(ev[i as int].0 == entries@[i as int].0@);
        }
        i = i + 1;
    }
    proof {
        lemma_obj_find_prefix(ev, key@, i as int);
        assert(ev.skip(i as int) =~= Seq::<(Seq<char>, SpecValue)>::empty());
    }
    None
}

/// Index-assignment into a map: the first entry with the key is replaced,
/// a missing key is appended.
pub(crate) fn obj_set_exec(entries: &mut Vec<(String, JsonValue)>, key: &str, v: JsonValue)
    ensures
        entries_view(final (entries)@) == obj_set(entries_view(old(entries)@), key@, v@),
{
    let ghost ev0 = entries_view(old(entries)@);
    match obj_find_idx(entries, key) {
        None => {
            entries.push((key.to_owned(), v));
            proof {
                assert(entries_view(entries@) =~= ev0.push((key@, v@)));
            }
        },
        Some(i) => {
            let _ = entries.remove(i);
            entries.insert(i, (key.to_owned(), v));
            proof {
                assert(entries_view(entries@) =~= ev0.update(i as int, (key@, v@)));
            }
        },
    }
}

impl JsonValue {
    /// True for lists.
    pub fn is_array(&self) -> (r: bool)
        ensures
            r == (self@ is Arr),
    {
        match self {
            JsonValue::Arr(_) => true,
            _ => false,
        }
    }

    /// True for text scalars.
    pub fn is_string(&self) -> (r: bool)
        ensures
            r == (self@ is Str),
    {
        match self {
            JsonValue::Str(_) => true,
            _ => false,
        }
    }

    /// The text of a text scalar.
    pub fn as_str(&self) -> (r: Option<&str>)
        ensures
            match r {
                Some(s) => self@ is Str && self@->Str_0 == s@,
                None => !(self@ is Str),
            },
    {
        match self {
            JsonValue::Str(s) => Some(s.as_str()),
            _ => None,
        }
    }
}

} // verus!
