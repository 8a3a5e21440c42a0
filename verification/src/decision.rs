//! The decision engine: combines the resolved scope requirements, the
//! request's headers and the validated claims into a single decision.
//! The comparison of required against granted scopes is exact; of the
//! cryptographic validation only the shape of each outcome is assumed,
//! and everything after it is verified for every possible outcome.

use vstd::prelude::*;
use vstd::string::StringExecFns;
use crate::ast::string_views;
use crate::claims::{
    decode_claims, decoding_key_from_secret, granted_scopes_of, hs256_validation, scopes_of_claims,
};
use crate::headers::{extract_bearer_token, usable_bearer};
use crate::resolver::RequiredScopes;
use crate::text::{contains_string, join_strings, joined, sort_scope_names, sort_spec};

verus! {

/// The outcome of one authorization check: proceed with the original,
/// unmodified request, or short-circuit with a user-facing reason.
pub enum Decision {
    Continue,
    Deny(String),
}

/// The required scope names that the granted set lacks, in declaration
/// order.
pub open spec fn missing_of(required: Seq<Seq<char>>, granted: Set<Seq<char>>) -> Seq<Seq<char>>
    decreases required.len(),
{
    if required.len() == 0 {
        Seq::<Seq<char>>::empty()
    } else {
        missing_of(required.drop_last(), granted) + (if !granted.contains(required.last()) {
            seq![required.last()]
        } else {
            Seq::<Seq<char>>::empty()
        })
    }
}

/// The deny message naming the missing scopes: the sorted names, comma
/// joined, behind a fixed prefix.
pub open spec fn missing_scopes_message(missing_sorted: Seq<Seq<char>>) -> Seq<char> {
    "missing required scopes: "@ + joined(missing_sorted, ", "@)
}

/// The required scopes the granted collection lacks, in declaration
/// order.
fn missing_scopes(model: &RequiredScopes, granted: &Vec<String>) -> (r: Vec<String>)
    ensures
        string_views(r@) == missing_of(
            string_views(model.scopes@),
            string_views(granted@).to_set(),
        ),
{
    let ghost gset = string_views(granted@).to_set();
    let mut out: Vec<String> = Vec::new();
    let mut i: usize = 0;
    while i < model.scopes.len()
        invariant
            i <= model.scopes.len(),
            gset == string_views(granted@).to_set(),
            string_views(out@) == missing_of(
                string_views(model.scopes@).subrange(0, i as int),
                gset,
            ),
        decreases model.scopes.len() - i,
    {
        let ghost views = string_views(model.scopes@);
        let ghost pre = out@;
        if !contains_string(granted, &model.scopes[i]) {
            out.push(model.scopes[i].clone());
            proof {
                assert(string_views(pre.push(model.scopes@[i as int])) =~= string_views(pre).push(
                    views[i as int],
                ));
            }
        }
        proof {
            assert(views.subrange(0, i as int + 1).drop_last() =~= views.subrange(0, i as int));
            assert(views.subrange(0, i as int + 1).last() == views[i as int]);
            if gset.contains(views[i as int]) {
                assert(string_views(out@) =~= missing_of(views.subrange(0, i as int), gset)
                    + Seq::<Seq<char>>::empty());
            } else {
                assert(string_views(out@) =~= missing_of(views.subrange(0, i as int), gset)
                    + seq![views[i as int]]);
            }
        }
        i += 1;
    }
    proof {
        assert(string_views(model.scopes@).subrange(0, model.scopes@.len() as int)
            =~= string_views(model.scopes@));
    }
    out
}

/// Compare required against granted scopes: continue exactly when no
/// required scope is missing; otherwise deny, naming the missing scopes,
/// sorted, comma-joined.
pub fn decision_given_claims(model: &RequiredScopes, granted: &Vec<String>) -> (r: Decision)
    ensures
        ({
            let missing = missing_of(
                string_views(model.scopes@),
                string_views(granted@).to_set(),
            );
            match r {
                Decision::Continue => missing.len() == 0,
                Decision::Deny(m) => missing.len() > 0 && m@ == missing_scopes_message(
                    sort_spec(missing),
                ),
            }
        }),
{
    let missing = missing_scopes(model, granted);
    if missing.len() == 0 {
        Decision::Continue
    } else {
        let sorted_names = sort_scope_names(missing);
        let mut msg: String = "missing required scopes: ".to_owned();
        let list = join_strings(&sorted_names, ", ");
        msg.append(list.as_str());
        Decision::Deny(msg)
    }
}

/// The decision for one decoded claim set: a claim-format violation —
/// no `scopes` key, a non-array value, a non-string element — is an
/// invalid token; otherwise the granted scopes decide the comparison.
pub fn decision_given_decoded(model: &RequiredScopes, claims: &serde_json::Value) -> (r: Decision)
    ensures
        ({
            match granted_scopes_of(*claims) {
                None => r matches Decision::Deny(m) && m@ == "invalid token"@,
                Some(g) => {
                    let missing = missing_of(string_views(model.scopes@), g.to_set());
                    match r {
                        Decision::Continue => missing.len() == 0,
                        Decision::Deny(m) => missing.len() > 0 && m@ == missing_scopes_message(
                            sort_spec(missing),
                        ),
                    }
                },
            }
        }),
{
    match scopes_of_claims(claims) {
        None => Decision::Deny("invalid token".to_owned()),
        Some(granted) => decision_given_claims(model, &granted),
    }
}

/// The authorization decision engine: one pre-shared symmetric
/// verification key and its validation settings, fixed at startup and
/// read-only afterwards.
pub struct AuthzEngine {
    key: jsonwebtoken::DecodingKey,
    validation: jsonwebtoken::Validation,
}

impl AuthzEngine {
    /// Build an engine around the pre-shared symmetric verification key.
    pub fn new(secret: &[u8]) -> AuthzEngine {
        AuthzEngine {
            key: decoding_key_from_secret(secret),
            validation: hs256_validation(),
        }
    }

    /// Decide one request.  When no reachable field demands
    /// authentication the request passes, whatever the headers hold.
    /// Otherwise a usable bearer token is demanded: absent, malformed or
    /// scheme-less credentials are all answered alike, with
    /// `authentication required`.  A token the validator rejects is
    /// answered with `invalid token`; a validated one passes exactly
    /// when its granted scopes cover the required ones, and is otherwise
    /// denied with the sorted list of the model's scopes that some
    /// granted set lacks — which set the token carried is stated, for
    /// each possible claim value, by `decision_given_decoded`.
    pub fn decide(
        &self,
        model: &RequiredScopes,
        headers: &http::HeaderMap<http::HeaderValue>,
    ) -> (r: Decision)
        ensures
            !model.requires_auth ==> r is Continue,
            model.requires_auth && usable_bearer(*headers) is None ==> (r matches Decision::Deny(m)
                && m@ == "authentication required"@),
            model.requires_auth && r is Continue ==> usable_bearer(*headers) is Some,
            model.requires_auth && usable_bearer(*headers) is Some ==> (r is Continue || (
            r matches Decision::Deny(m) && (m@ == "invalid token"@ || (exists|g: Set<Seq<char>>|
                #[trigger] missing_of(string_views(model.scopes@), g).len() > 0
                    && m@ == missing_scopes_message(
                    sort_spec(missing_of(string_views(model.scopes@), g)),
                ))))),
            r matches Decision::Deny(m) ==> m@.len() > 0,
    {
        proof {
            reveal_strlit("authentication required");
            reveal_strlit("invalid token");
            reveal_strlit("missing required scopes: ");
        }
        if !model.requires_auth {
            return Decision::Continue;
        }
        let token = match extract_bearer_token(headers) {
            Ok(Some(t)) => t,
            Ok(None) => {
                return Decision::Deny("authentication required".to_owned());
            },
            Err(_) => {
                return Decision::Deny("authentication required".to_owned());
            },
        };
        match decode_claims(token.as_str(), &self.key, &self.validation) {
            Err(_) => Decision::Deny("invalid token".to_owned()),
            Ok(claims) => {
                let d = decision_given_decoded(model, &claims);
                proof {
                    let go = granted_scopes_of(claims);
                    if go is Some {
                        let missing = missing_of(
                            string_views(model.scopes@),
                            go->Some_0.to_set(),
                        );
                        match &d {
                            Decision::Deny(m) => {
                                assert(m@ == missing_scopes_message(sort_spec(missing)));
                            },
                            Decision::Continue => {},
                        }
                    }
                }
                d
            },
        }
    }
}

} // verus!
