//! Field-extraction utilities over an untyped JSON value.
//!
//! Decoding a typed value out of a JSON document can fail in exactly two
//! ways: a required member is absent, or a present value has the wrong
//! shape. Both are reported through [`DecodeError`]; extraction of a named
//! member wraps the cause so that the failing field is named in the error.

use vstd::prelude::*;

verus! {

use vstd::string::StringExecFns;
use crate::json::JsonModel;
use crate::json::JsonValue;
use crate::json::spec_obj_lookup;

/// Model of a [`DecodeError`].
pub enum ErrorModel {
    MissingField(Seq<char>),
    MalformedValue(Seq<char>),
}

/// Error produced when a typed value cannot be decoded out of JSON.
#[derive(Debug, PartialEq, Eq)]
pub enum DecodeError {
    /// A required member was absent; carries the member's name.
    MissingField(String),
    /// A present value failed to decode; carries a readable cause.
    MalformedValue(String),
}

impl View for DecodeError {
    type V = ErrorModel;

    open spec fn view(&self) -> ErrorModel {
        match self {
            DecodeError::MissingField(f) => ErrorModel::MissingField(f@),
            DecodeError::MalformedValue(c) => ErrorModel::MalformedValue(c@),
        }
    }
}

/// A type that encodes to and decodes from JSON, with a mathematical
/// model of both directions.
pub trait JsonCodec: View + Sized {
    /// Views on which encoding and decoding round-trip. Decoding only ever
    /// produces valid views.
    spec fn valid_view(v: Self::V) -> bool;

    /// Model of encoding.
    spec fn spec_encode(v: Self::V) -> JsonModel;

    /// Model of decoding: the decoded view, or the cause of the failure.
    spec fn spec_decode(m: JsonModel) -> Result<Self::V, Seq<char>>;

    /// Decoding inverts encoding on valid views.
    proof fn lemma_round_trip(v: Self::V)
        requires
            Self::valid_view(v),
        ensures
            Self::spec_decode(Self::spec_encode(v)) == Ok::<Self::V, Seq<char>>(v),
    ;

    /// Decoded views are valid.
    proof fn lemma_decode_valid(m: JsonModel)
        ensures
            Self::spec_decode(m) matches Ok(v) ==> Self::valid_view(v),
    ;

    fn encode(&self) -> (r: JsonValue)
        ensures
            r@ == Self::spec_encode(self@),
    ;

    fn decode(v: &JsonValue) -> (r: Result<Self, DecodeError>)
        ensures
            match Self::spec_decode(v@) {
                Ok(m) => r matches Ok(t) && t@ == m,
                Err(c) => r matches Err(e) && e@ == ErrorModel::MalformedValue(c),
            },
    ;
}

impl JsonCodec for String {
    open spec fn valid_view(v: Seq<char>) -> bool {
        true
    }

    open spec fn spec_encode(v: Seq<char>) -> JsonModel {
        JsonModel::Str(v)
    }

    open spec fn spec_decode(m: JsonModel) -> Result<Seq<char>, Seq<char>> {
        match m {
            JsonModel::Str(s) => Ok(s),
            _ => Err("expected a string"@),
        }
    }

    proof fn lemma_round_trip(v: Seq<char>) {
    }

    proof fn lemma_decode_valid(m: JsonModel) {
    }

    fn encode(&self) -> (r: JsonValue) {
        JsonValue::Str(self.clone())
    }

    fn decode(v: &JsonValue) -> (r: Result<Self, DecodeError>) {
        match v {
            JsonValue::Str(s) => Ok(s.clone()),
            _ => Err(DecodeError::MalformedValue("expected a string".to_owned())),
        }
    }
}

/// Model of field extraction: the decoded view of member `field`, a
/// missing-field error when the member (or the whole object) is absent, or
/// a malformed-value error naming the field when its value fails to
/// decode.
pub open spec fn spec_get_field<T: JsonCodec>(m: JsonModel, field: Seq<char>) -> Result<
    T::V,
    ErrorModel,
> {
    match spec_obj_lookup(m, field) {
        Option::None => Err(ErrorModel::MissingField(field)),
        Option::Some(v) => match T::spec_decode(v) {
            Ok(t) => Ok(t),
            Err(c) => Err(ErrorModel::MalformedValue(field + ": "@ + c)),
        },
    }
}

/// Extracts member `field` of `value` and decodes it into a `T`.
pub fn get_field<T: JsonCodec>(value: &JsonValue, field: &str) -> (r: Result<T, DecodeError>)
    ensures
        match spec_get_field::<T>(value@, field@) {
            Ok(t) => r matches Ok(x) && x@ == t && T::valid_view(t),
            Err(em) => r matches Err(e) && e@ == em,
        },
{
    match value.get_member(field) {
        Option::None => Err(DecodeError::MissingField(field.to_owned())),
        Option::Some(v) => match T::decode(v) {
            Ok(t) => {
                proof {
                    T::lemma_decode_valid(v@);
                }
                Ok(t)
            },
            Err(e) => match e {
                DecodeError::MalformedValue(cause) => {
                    let mut msg: String = field.to_owned();
                    msg.append(": ");
                    msg.append(cause.as_str());
                    Err(DecodeError::MalformedValue(msg))
                },
                DecodeError::MissingField(f) => {
                    proof {
                        assert(false);
                    }
                    Err(DecodeError::MissingField(f))
                },
            },
        },
    }
}

/// The error of a failed field decode names the field: its text starts
/// with the field's own name.
pub proof fn lemma_error_names_field<T: JsonCodec>(m: JsonModel, field: Seq<char>)
    requires
        spec_obj_lookup(m, field) matches Some(v) && T::spec_decode(v) is Err,
    ensures
        spec_get_field::<T>(m, field) matches Err(em) && em matches ErrorModel::MalformedValue(msg)
            && msg.take(field.len() as int) == field,
{
    let v = spec_obj_lookup(m, field)->0;
    let c = T::spec_decode(v)->Err_0;
    assert((field + ": "@ + c).take(field.len() as int) =~= field);
}

/// Decodes `value` into a `T` and lifts it into a containing union type
/// through `variant`.
pub fn try_variant_from_value<T: JsonCodec, U, F: FnOnce(T) -> U>(
    value: JsonValue,
    variant: F,
) -> (r: Result<U, DecodeError>)
    requires
        forall|t: T| T::valid_view(t@) ==> call_requires(variant, (t,)),
    ensures
        match T::spec_decode(value@) {
            Ok(m) => r matches Ok(u) && exists|t: T|
                t@ == m && T::valid_view(m) && call_ensures(variant, (t,), u),
            Err(c) => r matches Err(e) && e@ == ErrorModel::MalformedValue(c),
        },
{
    match T::decode(&value) {
        Ok(t) => {
            proof {
                T::lemma_decode_valid(value@);
            }
            Ok(variant(t))
        },
        Err(e) => Err(e),
    }
}

} // verus!
