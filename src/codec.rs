use vstd::prelude::*;

use rmpv::Value as V;

use crate::datum::{Datum, DatumView};

verus! {

/// The MessagePack bytes that rmpv writes for a value.
pub uninterp spec fn msgpack_encoding(v: DatumView) -> Seq<u8>;

/// The value that rmpv reads from the front of a byte string, if any.
pub uninterp spec fn msgpack_decoding(b: Seq<u8>) -> Option<DatumView>;

/// Relies on rmpv's `Value` variants and its `From<u64>`, `From<i64>` and
/// `From<&str>` conversions: builds the rmpv value with the same shape as
/// `v`, one variant for one. No contract: the result only feeds the encoder.
#[verifier::external_body]
fn to_rmpv(v: &Datum) -> V {
    match v {
        Datum::Nil => V::Nil,
        Datum::Boolean(b) => V::Boolean(*b),
        Datum::UInt(n) => V::from(*n),
        Datum::NegInt(n) => V::from(*n),
        Datum::Str(s) => V::from(s.as_str()),
        Datum::Binary(b) => V::Binary(b.clone()),
        Datum::Array(a) => V::Array(a.iter().map(to_rmpv).collect()),
        Datum::Dict(m) => V::Map(m.iter().map(|(k, v)| (to_rmpv(k), to_rmpv(v))).collect()),
        Datum::Ext(t, b) => V::Ext(*t, b.clone()),
    }
}

/// Relies on rmpv's `Value` variants, `Integer::as_u64` / `as_i64` and
/// `Utf8String::into_str`: builds the library value with the same shape as
/// `v`, one variant for one; floating-point numbers and strings that are not
/// UTF-8 become `Nil`. No contract: the decoder's result is named instead.
#[verifier::external_body]
fn from_rmpv(v: V) -> Datum {
    match v {
        V::Boolean(b) => Datum::Boolean(b),
        V::Integer(n) => match n.as_u64() {
            Some(u) => Datum::UInt(u),
            None => Datum::NegInt(n.as_i64().unwrap_or(0)),
        },
        V::String(s) => s.into_str().map_or(Datum::Nil, Datum::Str),
        V::Binary(b) => Datum::Binary(b),
        V::Array(a) => Datum::Array(a.into_iter().map(from_rmpv).collect()),
        V::Map(m) => Datum::Dict(m.into_iter().map(|(k, v)| (from_rmpv(k), from_rmpv(v))).collect()),
        V::Ext(t, b) => Datum::Ext(t, b),
        _ => Datum::Nil,
    }
}

/// Relies on rmpv::encode::write_value: the MessagePack encoding of `data`,
/// written into a fresh byte vector, a writer that cannot fail.
#[verifier::external_body]
pub fn rmpv_encode(data: &Datum) -> (r: Option<Vec<u8>>)
    ensures
        r is Some,
        r matches Some(b) ==> b@ == msgpack_encoding(data@),
{
    let mut bytes = Vec::new();
    rmpv::encode::write_value(&mut bytes, &to_rmpv(data)).ok()?;
    Some(bytes)
}

/// Relies on rmpv::decode::read_value: the value encoded at the front of
/// `bytes`, or `None` where they hold no complete value.
#[verifier::external_body]
pub fn rmpv_decode(bytes: &[u8]) -> (r: Option<Datum>)
    ensures
        match r {
            Some(d) => msgpack_decoding(bytes@) == Some(d@),
            None => msgpack_decoding(bytes@) is None,
        },
{
    let mut rd = bytes;
    rmpv::decode::read_value(&mut rd).ok().map(from_rmpv)
}

} // verus!
