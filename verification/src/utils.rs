//! Small shared tests over structured values.

use vstd::prelude::*;

use crate::jsontext::{push_json, spec_to_string_raw};
use crate::text::string_from_chars;
use crate::value::{spec_is_empty, JsonValue};

verus! {

/// Whether a structured value is empty: null, the empty string, the
/// empty list or the empty map.
pub fn json_is_empty(node: &JsonValue) -> (r: bool)
    ensures
        r == spec_is_empty(node@),
{
    match node {
        JsonValue::Null => true,
        JsonValue::Bool(_) => false,
        JsonValue::Num(_) => false,
        JsonValue::Str(v) => v.as_str().is_empty(),
        JsonValue::Arr(v) => v.len() == 0,
        JsonValue::Obj(v) => v.len() == 0,
    }
}

/// The number of keys of a map value; any other value counts zero.
pub fn json_object_key_len(node: &JsonValue) -> (r: usize)
    ensures
        node@ is Obj ==> r == node@->Obj_0.len(),
        !(node@ is Obj) ==> r == 0,
{
    match node {
        JsonValue::Obj(v) => v.len(),
        _ => 0,
    }
}

/// The raw text of a value: a text scalar is taken as it is, anything
/// else is rendered as compact JSON text.
pub fn to_string_raw(node: &JsonValue) -> (r: String)
    ensures
        r@ == spec_to_string_raw(node@),
{
    match node {
        JsonValue::Str(s) => s.clone(),
        _ => {
            let mut out: Vec<char> = Vec::new();
            push_json(&mut out, node);
            string_from_chars(out.as_slice())
        },
    }
}

} // verus!
