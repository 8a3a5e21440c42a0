//! The credential extractor: reads the `Authorization` header out of the
//! request's header collection and extracts the bearer token it carries,
//! if any.  The header collection and its values belong to the `http`
//! crate; what they hold is named by uninterpreted functions that the
//! trusted wrappers relate to their results.

use vstd::prelude::*;
use vstd::string::StrSliceExecFns;
use crate::resolver::AuthzError;

verus! {

#[verifier::external_type_specification]
#[verifier::external_body]
#[verifier::reject_recursive_types(T)]
pub struct ExHeaderMap<T>(http::HeaderMap<T>);

#[verifier::external_type_specification]
#[verifier::external_body]
pub struct ExHeaderValue(http::HeaderValue);

#[verifier::external_type_specification]
#[verifier::external_body]
pub struct ExToStrError(http::header::ToStrError);

/// What the header collection holds under the case-insensitive name
/// `Authorization`: the bytes of the first such value, if any.
pub uninterp spec fn authorization_bytes(headers: http::HeaderMap<http::HeaderValue>) -> Option<
    Seq<u8>,
>;

/// The bytes one header value holds.
pub uninterp spec fn header_value_bytes(value: http::HeaderValue) -> Seq<u8>;

/// A byte that header text may carry: visible ASCII or a tab.
pub open spec fn is_text_byte(b: u8) -> bool {
    (32 <= b < 127) || b == 9
}

/// Whether every byte of a header value is text.
pub open spec fn bytes_are_text(bs: Seq<u8>) -> bool {
    forall|i: int| 0 <= i < bs.len() ==> is_text_byte(bs[i])
}

/// The characters of a text header value: one per byte.
pub open spec fn chars_of_bytes(bs: Seq<u8>) -> Seq<char> {
    bs.map_values(|b: u8| b as char)
}

/// Relies on http::HeaderMap::get: the first value stored under the
/// given name, compared case-insensitively; absent exactly when the
/// collection holds no such header.
#[verifier::external_body]
fn get_authorization<'a>(headers: &'a http::HeaderMap<http::HeaderValue>) -> (r: Option<
    &'a http::HeaderValue,
>)
    ensures
        match r {
            Some(v) => authorization_bytes(*headers) == Some(header_value_bytes(*v)),
            None => authorization_bytes(*headers) is None,
        },
{
    headers.get("Authorization")
}

/// Relies on http::HeaderValue::to_str: `Ok` exactly when every byte of
/// the value is visible ASCII or a tab, and then the text whose
/// characters are those bytes.
#[verifier::external_body]
fn header_value_text<'a>(value: &'a http::HeaderValue) -> (r: Result<
    &'a str,
    http::header::ToStrError,
>)
    ensures
        match r {
            Ok(s) => bytes_are_text(header_value_bytes(*value)) && s@ == chars_of_bytes(
                header_value_bytes(*value),
            ),
            Err(_) => !bytes_are_text(header_value_bytes(*value)),
        },
{
    value.to_str()
}

/// The suffix of `s` after its last space: what splitting on every space
/// and keeping the last segment leaves.
pub open spec fn last_segment(s: Seq<char>) -> Seq<char>
    decreases s.len(),
{
    if s.len() == 0 {
        s
    } else if s.last() == ' ' {
        Seq::<char>::empty()
    } else {
        last_segment(s.drop_last()).push(s.last())
    }
}

/// The token a well-formed `Authorization` text carries: the last
/// space-delimited segment, when the text starts with the literal
/// scheme prefix `Bearer `; none otherwise.
pub open spec fn bearer_token_of(s: Seq<char>) -> Option<Seq<char>> {
    if s.len() >= 7 && s.subrange(0, 7) == "Bearer "@ {
        Some(last_segment(s))
    } else {
        None::<Seq<char>>
    }
}

/// The usable bearer token a header collection presents: none when the
/// `Authorization` header is absent, not text, or does not carry the
/// `Bearer ` scheme.
pub open spec fn usable_bearer(headers: http::HeaderMap<http::HeaderValue>) -> Option<Seq<char>> {
    match authorization_bytes(headers) {
        Some(bs) => if bytes_are_text(bs) {
            bearer_token_of(chars_of_bytes(bs))
        } else {
            None::<Seq<char>>
        },
        None => None::<Seq<char>>,
    }
}

/// When no character from `cut` on is a space and the character before
/// `cut` (if any) is one, the last segment is the suffix from `cut`.
proof fn lemma_last_segment_subrange(s: Seq<char>, cut: int)
    requires
        0 <= cut <= s.len(),
        forall|j: int| cut <= j < s.len() ==> s[j] != ' ',
        cut == 0 || s[cut - 1] == ' ',
    ensures
        last_segment(s) == s.subrange(cut, s.len() as int),
    decreases s.len() - cut,
{
    if s.len() == cut {
        if cut == 0 {
            assert(last_segment(s) =~= s.subrange(0, 0));
        } else {
            assert(s.last() == ' ');
            assert(last_segment(s) =~= s.subrange(cut, s.len() as int));
        }
    } else {
        assert(s.last() != ' ');
        assert(s.drop_last().subrange(cut, s.drop_last().len() as int) =~= s.subrange(
            cut,
            s.len() - 1,
        ));
        lemma_last_segment_subrange(s.drop_last(), cut);
        assert(last_segment(s) =~= s.subrange(cut, s.len() - 1).push(s[s.len() - 1]));
        assert(s.subrange(cut, s.len() - 1).push(s[s.len() - 1]) =~= s.subrange(
            cut,
            s.len() as int,
        ));
    }
}

/// The bearer token carried by one header text, if the text carries the
/// `Bearer ` scheme.
fn bearer_of_text(s: &str) -> (r: Option<String>)
    ensures
        match r {
            Some(t) => bearer_token_of(s@) == Some(t@),
            None => bearer_token_of(s@) is None,
        },
{
    let n = s.unicode_len();
    let prefix = "Bearer ";
    proof {
        reveal_strlit("Bearer ");
    }
    if n < 7 {
        return None;
    }
    let mut i: usize = 0;
    while i < 7
        invariant
            i <= 7,
            n == s@.len(),
            n >= 7,
            prefix@ == "Bearer "@,
            prefix@.len() == 7,
            forall|j: int| 0 <= j < i ==> s@[j] == prefix@[j],
        decreases 7 - i,
    {
        if s.get_char(i) != prefix.get_char(i) {
            proof {
                assert(s@.subrange(0, 7) != "Bearer "@) by {
                    assert(s@.subrange(0, 7)[i as int] == s@[i as int]);
                }
            }
            return None;
        }
        i += 1;
    }
    proof {
        assert(s@.subrange(0, 7) =~= "Bearer "@);
    }
    let mut cut: usize = n;
    while cut > 0 && s.get_char(cut - 1) != ' '
        invariant
            cut <= n,
            n == s@.len(),
            forall|j: int| cut <= j < n ==> s@[j] != ' ',
        decreases cut,
    {
        cut -= 1;
    }
    proof {
        assert(cut == 0 || s@[cut - 1] == ' ');
        lemma_last_segment_subrange(s@, cut as int);
    }
    let token = s.substring_char(cut, n).to_owned();
    Some(token)
}

/// Extract the bearer token from the `Authorization` header: none when
/// the header is absent or does not carry the `Bearer ` scheme, the
/// last space-delimited segment of its text when it does, and a header
/// encoding failure exactly when the header is present but not text.
pub fn extract_bearer_token(headers: &http::HeaderMap<http::HeaderValue>) -> (r: Result<
    Option<String>,
    AuthzError,
>)
    ensures
        match r {
            Ok(t) => {
                &&& (match t {
                    Some(tok) => usable_bearer(*headers) == Some(tok@),
                    None => usable_bearer(*headers) is None,
                })
                &&& (match authorization_bytes(*headers) {
                    Some(bs) => bytes_are_text(bs),
                    None => true,
                })
            },
            Err(e) => {
                &&& e == AuthzError::HeaderEncoding
                &&& (authorization_bytes(*headers) matches Some(bs) && !bytes_are_text(bs))
                &&& usable_bearer(*headers) is None
            },
        },
{
    match get_authorization(headers) {
        None => Ok(None),
        Some(v) => match header_value_text(v) {
            Err(_) => Err(AuthzError::HeaderEncoding),
            Ok(s) => Ok(bearer_of_text(s)),
        },
    }
}

} // verus!
