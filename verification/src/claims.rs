//! The claims validator: verifies a bearer token against the pre-shared
//! symmetric key and reads the `scopes` claim out of the decoded claim
//! set.  Verification and JSON decoding belong to the `jsonwebtoken` and
//! `serde_json` crates; whether a given token verifies may depend on the
//! clock (expiry), so nothing more than the shape of each outcome is
//! assumed of the decode.  What a decoded claims value holds is named by
//! uninterpreted functions that the trusted accessors relate to their
//! results, so the claim-format rule itself is verified.

use vstd::prelude::*;
use crate::ast::string_views;

verus! {

#[verifier::external_type_specification]
#[verifier::external_body]
pub struct ExDecodingKey(jsonwebtoken::DecodingKey);

#[verifier::external_type_specification]
#[verifier::external_body]
pub struct ExValidation(jsonwebtoken::Validation);

#[verifier::external_type_specification]
#[verifier::external_body]
pub struct ExJwtError(jsonwebtoken::errors::Error);

#[verifier::external_type_specification]
#[verifier::external_body]
pub struct ExJsonValue(serde_json::Value);

/// What a claims value holds under the key `scopes`: the entry when the
/// value is an object with that key, nothing otherwise.
pub uninterp spec fn scopes_entry(claims: serde_json::Value) -> Option<serde_json::Value>;

/// What a JSON value holds as an array: its elements in order when it is
/// an array, nothing otherwise.
pub uninterp spec fn array_items(v: serde_json::Value) -> Option<Seq<serde_json::Value>>;

/// What a JSON value holds as a string: its characters when it is a
/// string, nothing otherwise.
pub uninterp spec fn text_chars(v: serde_json::Value) -> Option<Seq<char>>;

/// The texts of a sequence of JSON values, in order, when every one of
/// them is a string; nothing as soon as one is not.
pub open spec fn texts_of(items: Seq<serde_json::Value>) -> Option<Seq<Seq<char>>>
    decreases items.len(),
{
    if items.len() == 0 {
        Some(Seq::<Seq<char>>::empty())
    } else {
        match (texts_of(items.drop_last()), text_chars(items.last())) {
            (Some(init), Some(t)) => Some(init.push(t)),
            _ => None::<Seq<Seq<char>>>,
        }
    }
}

/// The scope names a decoded claim set grants: the texts of the array
/// under its `scopes` key.  Nothing — a claim-format violation — when
/// the key is absent, its value is no array, or an element is no string.
pub open spec fn granted_scopes_of(claims: serde_json::Value) -> Option<Seq<Seq<char>>> {
    match scopes_entry(claims) {
        Some(v) => match array_items(v) {
            Some(items) => texts_of(items),
            None => None::<Seq<Seq<char>>>,
        },
        None => None::<Seq<Seq<char>>>,
    }
}

/// Relies on jsonwebtoken::DecodingKey::from_secret: builds the
/// verification key for a pre-shared symmetric secret.
#[verifier::external_body]
pub(crate) fn decoding_key_from_secret(secret: &[u8]) -> (r: jsonwebtoken::DecodingKey) {
    jsonwebtoken::DecodingKey::from_secret(secret)
}

/// Relies on jsonwebtoken::Validation::new: the default validation for
/// one accepted algorithm, here HS256, which demands a valid signature
/// and an unexpired `exp` claim.
#[verifier::external_body]
pub(crate) fn hs256_validation() -> (r: jsonwebtoken::Validation) {
    jsonwebtoken::Validation::new(jsonwebtoken::Algorithm::HS256)
}

/// Relies on jsonwebtoken::decode: verifies the token's signature against
/// the key and checks the standard claims per the validation settings,
/// handing back the token's decoded claims on success.  The expiry check
/// reads the system clock, so the outcome may differ between calls and
/// no more is stated of it; the read panics only on a clock before 1970.
#[verifier::external_body]
pub(crate) fn decode_claims(
    token: &str,
    key: &jsonwebtoken::DecodingKey,
    validation: &jsonwebtoken::Validation,
) -> (r: Result<serde_json::Value, jsonwebtoken::errors::Error>) {
    match jsonwebtoken::decode::<serde_json::Value>(token, key, validation) {
        Ok(data) => Ok(data.claims),
        Err(e) => Err(e),
    }
}

/// Relies on serde_json::Value::get: the value under the key `scopes`
/// when the claims are an object holding that key, absent otherwise.
#[verifier::external_body]
fn claims_scopes_field<'a>(claims: &'a serde_json::Value) -> (r: Option<&'a serde_json::Value>)
    ensures
        match r {
            Some(f) => scopes_entry(*claims) == Some(*f),
            None => scopes_entry(*claims) is None,
        },
{
    claims.get("scopes")
}

/// Relies on serde_json::Value::as_array: the elements when the value is
/// a JSON array, absent otherwise.
#[verifier::external_body]
fn value_as_array<'a>(v: &'a serde_json::Value) -> (r: Option<&'a Vec<serde_json::Value>>)
    ensures
        match r {
            Some(a) => array_items(*v) == Some(a@),
            None => array_items(*v) is None,
        },
{
    v.as_array()
}

/// Relies on serde_json::Value::as_str: the text when the value is a
/// JSON string, absent otherwise.
#[verifier::external_body]
fn value_as_text<'a>(v: &'a serde_json::Value) -> (r: Option<&'a str>)
    ensures
        match r {
            Some(s) => text_chars(*v) == Some(s@),
            None => text_chars(*v) is None,
        },
{
    v.as_str()
}

/// One non-string element spoils the whole sequence of texts.
proof fn lemma_texts_of_none(items: Seq<serde_json::Value>, i: int)
    requires
        0 <= i < items.len(),
        text_chars(items[i]) is None,
    ensures
        texts_of(items) is None,
    decreases items.len(),
{
    if i < items.len() - 1 {
        assert(items.drop_last()[i] == items[i]);
        lemma_texts_of_none(items.drop_last(), i);
    }
}

/// Read the `scopes` claim as a list of scope names: exactly the texts
/// of the array stored under `scopes`, in order.  Absence of the claim,
/// a non-array value, or a non-string element is a claim-format
/// violation, answered with `None`.
pub fn scopes_of_claims(claims: &serde_json::Value) -> (r: Option<Vec<String>>)
    ensures
        match r {
            Some(out) => granted_scopes_of(*claims) == Some(string_views(out@)),
            None => granted_scopes_of(*claims) is None,
        },
{
    let field = match claims_scopes_field(claims) {
        Some(f) => f,
        None => {
            return None;
        },
    };
    let arr = match value_as_array(field) {
        Some(a) => a,
        None => {
            return None;
        },
    };
    let mut out: Vec<String> = Vec::new();
    let mut i: usize = 0;
    while i < arr.len()
        invariant
            i <= arr.len(),
            scopes_entry(*claims) == Some(*field),
            array_items(*field) == Some(arr@),
            texts_of(arr@.subrange(0, i as int)) == Some(string_views(out@)),
        decreases arr.len() - i,
    {
        let ghost pre = out@;
        match value_as_text(&arr[i]) {
            Some(s) => out.push(s.to_owned()),
            None => {
                proof {
                    lemma_texts_of_none(arr@, i as int);
                }
                return None;
            },
        }
        proof {
            let items = arr@;
            assert(items.subrange(0, i as int + 1).drop_last() =~= items.subrange(0, i as int));
            assert(items.subrange(0, i as int + 1).last() == items[i as int]);
            assert(string_views(out@) =~= string_views(pre).push(out@.last()@));
        }
        i += 1;
    }
    proof {
        assert(arr@.subrange(0, arr@.len() as int) =~= arr@);
    }
    Some(out)
}

} // verus!
