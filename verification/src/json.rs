//! The shape of a JSON document, as far as the tokenizer reads it.

use vstd::prelude::*;

verus! {

/// A JSON value. Objects keep their members in the order in which the
/// parser hands them out; numbers keep their text.
pub enum JsonValue {
    Null,
    Bool(bool),
    Number(String),
    Str(String),
    Array(Vec<JsonValue>),
    Object(Vec<(String, JsonValue)>),
}

}
