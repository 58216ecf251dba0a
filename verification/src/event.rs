//! The typed envelope codec.
//!
//! A wire message is a JSON object with two members: `type`, the
//! discriminator string bound to the content type, and `content`, the
//! encoded content value. [`BasicEvent`] carries one content value and
//! maps between the two shapes; unknown sibling members of the input are
//! ignored.

use vstd::prelude::*;

verus! {

use crate::json::JsonModel;
use crate::json::JsonValue;
use crate::json::lemma_model_entries_index;
use crate::json::spec_entries_lookup;
use crate::json::spec_obj_lookup;
use crate::util::DecodeError;
use crate::util::ErrorModel;
use crate::util::JsonCodec;
use crate::util::get_field;
use crate::util::spec_get_field;

/// A content type bound to its discriminator string.
pub trait EventContent: JsonCodec {
    /// The discriminator string carried in the `type` member.
    spec fn spec_event_type() -> Seq<char>;

    /// The discriminator string, discoverable at run time so that an
    /// outer registry can dispatch on it.
    fn event_type() -> (r: &'static str)
        ensures
            r@ == Self::spec_event_type(),
    ;
}

/// An event with no fields beside its content: the envelope around one
/// content value.
#[derive(Debug, PartialEq, Eq)]
pub struct BasicEvent<C> {
    /// The event's payload.
    pub content: C,
}

/// Model of encoding an event: an object with the encoded content under
/// `content` and the discriminator under `type`.
pub open spec fn spec_encode_event<C: EventContent>(v: C::V) -> JsonModel {
    JsonModel::Obj(
        seq![
            ("content"@, C::spec_encode(v)),
            ("type"@, JsonModel::Str(C::spec_event_type())),
        ],
    )
}

/// Model of decoding an event: `type` must be present and a string,
/// `content` must be present and decode as `C`; errors are those of field
/// extraction.
pub open spec fn spec_decode_event<C: EventContent>(m: JsonModel) -> Result<C::V, ErrorModel> {
    match spec_get_field::<String>(m, "type"@) {
        Err(e) => Err(e),
        Ok(_) => match spec_get_field::<C>(m, "content"@) {
            Err(e) => Err(e),
            Ok(c) => Ok(c),
        },
    }
}

impl<C: EventContent> BasicEvent<C> {
    /// Encodes the event into its wire shape.
    pub fn to_json(&self) -> (r: JsonValue)
        ensures
            r@ == spec_encode_event::<C>(self.content@),
    {
        let mut entries: Vec<(String, JsonValue)> = Vec::new();
        entries.push(("content".to_owned(), self.content.encode()));
        entries.push(("type".to_owned(), JsonValue::Str(C::event_type().to_owned())));
        let r = JsonValue::Obj(entries);
        proof {
            lemma_model_entries_index(entries@);
            assert(r@->Obj_0 =~= spec_encode_event::<C>(self.content@)->Obj_0);
        }
        r
    }

    /// Decodes an event out of its wire shape.
    pub fn from_json(value: &JsonValue) -> (r: Result<Self, DecodeError>)
        ensures
            match spec_decode_event::<C>(value@) {
                Ok(cv) => r matches Ok(ev) && ev.content@ == cv && C::valid_view(cv),
                Err(em) => r matches Err(e) && e@ == em,
            },
    {
        let _kind: String = match get_field::<String>(value, "type") {
            Ok(t) => t,
            Err(e) => {
                return Err(e);
            },
        };
        match get_field::<C>(value, "content") {
            Ok(c) => Ok(BasicEvent { content: c }),
            Err(e) => Err(e),
        }
    }
}

/// Round trip: decoding an encoded event yields exactly the content value
/// the envelope carried.
pub proof fn lemma_event_round_trip<C: EventContent>(v: C::V)
    requires
        C::valid_view(v),
    ensures
        spec_decode_event::<C>(spec_encode_event::<C>(v)) == Ok::<C::V, ErrorModel>(v),
{
    reveal_strlit("content");
    reveal_strlit("type");
    let m = spec_encode_event::<C>(v);
    let entries = m->Obj_0;
    assert("content"@ != "type"@);
    let tail_entries = seq![("type"@, JsonModel::Str(C::spec_event_type()))];
    assert(entries.drop_first() =~= tail_entries);
    assert(spec_entries_lookup(tail_entries, "type"@) == Some(
        JsonModel::Str(C::spec_event_type()),
    ));
    assert(spec_obj_lookup(m, "type"@) == Some(JsonModel::Str(C::spec_event_type())));
    assert(spec_obj_lookup(m, "content"@) == Some(C::spec_encode(v)));
    C::lemma_round_trip(v);
}

/// A JSON object without a `type` member fails to decode with a
/// missing-field error naming `type`; one with a string `type` but no
/// `content` member fails naming `content`.
pub proof fn lemma_missing_field_reported<C: EventContent>(m: JsonModel)
    ensures
        spec_obj_lookup(m, "type"@) is None ==> spec_decode_event::<C>(m) == Err::<
            C::V,
            ErrorModel,
        >(ErrorModel::MissingField("type"@)),
        (spec_obj_lookup(m, "type"@) matches Some(t) && t is Str && spec_obj_lookup(m, "content"@)
            is None) ==> spec_decode_event::<C>(m) == Err::<C::V, ErrorModel>(
            ErrorModel::MissingField("content"@),
        ),
{
}

} // verus!
