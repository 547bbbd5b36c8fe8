//! JSON values as the remote price sources send them, parsed.

use vstd::prelude::*;

verus! {

/// A JSON number as the parser splits it: the integer part, the digits of
/// the fraction read as an integer, how many digits the fraction has, and
/// the decimal exponent.
#[derive(Clone, Copy, Debug, PartialEq, Eq, Structural)]
pub struct NumberValue {
    pub integer: i64,
    pub fraction: u64,
    pub fraction_length: u32,
    pub exponent: i32,
}

/// A parsed JSON value; an object keeps its members in document order.
#[derive(Debug)]
pub enum JsonValue {
    Object(Vec<(Vec<char>, JsonValue)>),
    Array(Vec<JsonValue>),
    String(Vec<char>),
    Number(NumberValue),
    Boolean(bool),
    Null,
}

/// Each character cut down to its low byte.
pub open spec fn low_bytes(cs: Seq<char>) -> Seq<u8> {
    cs.map_values(|c: char| c as u8)
}

/// The characters of `it`, each cut down to its low byte.
pub fn vecchars_to_vecbytes(it: &Vec<char>) -> (r: Vec<u8>)
    ensures
        r@ == low_bytes(it@),
{
    let mut r: Vec<u8> = Vec::new();
    let mut i: usize = 0;
    while i < it.len()
        invariant
            i <= it@.len(),
            r@ == low_bytes(it@.take(i as int)),
        decreases it@.len() - i,
    {
        let c = it[i];
        r.push(c as u8);
        assert(low_bytes(it@.take(i + 1)) =~= low_bytes(it@.take(i as int)).push(c as u8));
        i = i + 1;
    }
    assert(it@.take(i as int) =~= it@);
    r
}

/// The members of an object (none for any other value).
pub open spec fn members(v: JsonValue) -> Seq<(Vec<char>, JsonValue)> {
    match v {
        JsonValue::Object(o) => o@,
        _ => Seq::empty(),
    }
}

/// The bytes of a string value.
pub fn get_bytes(v: &JsonValue) -> (r: Vec<u8>)
    requires
        v is String,
    ensures
        r@ == low_bytes(v->String_0@),
{
    match v {
        JsonValue::String(s) => vecchars_to_vecbytes(s),
        _ => {
            proof {
                assert(false);
            }
            Vec::new()
        },
    }
}

} // verus!
