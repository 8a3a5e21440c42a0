use router_authz::ast::{
    Argument, ArgumentValue, Directive, FieldDefinition, FieldSelection, Fragment, Operation,
    QueryDocument, Selection, has_directive, string_argument_values, value_strings,
};
use router_authz::decision::{AuthzEngine, Decision, decision_given_claims, decision_given_decoded};
use router_authz::headers::extract_bearer_token;
use router_authz::resolver::{AuthzError, RequiredScopes, resolve_required_scopes};

const SECRET: &[u8] = b"12345";

fn authz_directive() -> Directive {
    Directive { name: "authz".to_string(), arguments: vec![] }
}

fn scope_directive(scope: &str) -> Directive {
    Directive {
        name: "requiresScope".to_string(),
        arguments: vec![Argument {
            name: "scope".to_string(),
            value: ArgumentValue::Text(scope.to_string()),
        }],
    }
}

fn field(def: Option<FieldDefinition>, subs: Vec<Selection>) -> Selection {
    Selection::Field(FieldSelection { definition: def, selections: subs })
}

fn single_op_doc(selections: Vec<Selection>, fragments: Vec<Fragment>) -> QueryDocument {
    QueryDocument {
        operations: vec![Operation { name: None, selections }],
        fragments,
    }
}

/// A document whose one operation selects a field `secret` marked
/// `@authz @requiresScope(scope: "admin")`.
fn secret_doc() -> QueryDocument {
    single_op_doc(
        vec![field(
            Some(FieldDefinition {
                directives: vec![authz_directive(), scope_directive("admin")],
            }),
            vec![],
        )],
        vec![],
    )
}

fn resolve(doc: &QueryDocument) -> RequiredScopes {
    resolve_required_scopes(doc, None).unwrap()
}

fn make_token(scopes: &[&str], secret: &[u8]) -> String {
    let mut obj = serde_json::Map::new();
    obj.insert(
        "scopes".to_string(),
        serde_json::Value::Array(
            scopes.iter().map(|s| serde_json::Value::String(s.to_string())).collect(),
        ),
    );
    obj.insert(
        "exp".to_string(),
        serde_json::Value::Number(serde_json::Number::from(4102444800u64)),
    );
    jsonwebtoken::encode(
        &jsonwebtoken::Header::new(jsonwebtoken::Algorithm::HS256),
        &serde_json::Value::Object(obj),
        &jsonwebtoken::EncodingKey::from_secret(secret),
    )
    .unwrap()
}

fn bearer_headers(token: &str) -> http::HeaderMap {
    let mut h = http::HeaderMap::new();
    let value = format!("Bearer {}", token);
    h.insert("authorization", http::HeaderValue::from_str(&value).unwrap());
    h
}

fn deny_reason(d: &Decision) -> Option<&str> {
    match d {
        Decision::Continue => None,
        Decision::Deny(m) => Some(m.as_str()),
    }
}

#[test]
fn no_authz_marker_continues_without_headers() {
    let doc = single_op_doc(
        vec![field(Some(FieldDefinition { directives: vec![] }), vec![])],
        vec![],
    );
    let model = resolve(&doc);
    assert!(!model.requires_auth);
    let engine = AuthzEngine::new(SECRET);
    let d = engine.decide(&model, &http::HeaderMap::new());
    assert!(matches!(d, Decision::Continue));
}

#[test]
fn scopes_without_marker_are_inert() {
    // A field carries @requiresScope(scope: "admin") but no @authz:
    // every request passes, with or without a token.
    let doc = single_op_doc(
        vec![field(
            Some(FieldDefinition { directives: vec![scope_directive("admin")] }),
            vec![],
        )],
        vec![],
    );
    let model = resolve(&doc);
    assert!(!model.requires_auth);
    assert_eq!(model.scopes, vec!["admin".to_string()]);
    let engine = AuthzEngine::new(SECRET);
    let d = engine.decide(&model, &http::HeaderMap::new());
    assert!(matches!(d, Decision::Continue));
    let d = engine.decide(&model, &bearer_headers(&make_token(&[], SECRET)));
    assert!(matches!(d, Decision::Continue));
}

#[test]
fn missing_header_is_denied() {
    let model = resolve(&secret_doc());
    assert!(model.requires_auth);
    let engine = AuthzEngine::new(SECRET);
    let d = engine.decide(&model, &http::HeaderMap::new());
    assert_eq!(deny_reason(&d), Some("authentication required"));
}

#[test]
fn secret_scenario() {
    // No header: authentication required.  A valid token with scopes
    // {"user"}: missing "admin".  A valid token with {"admin"}: pass.
    let model = resolve(&secret_doc());
    let engine = AuthzEngine::new(SECRET);

    let d = engine.decide(&model, &http::HeaderMap::new());
    assert_eq!(deny_reason(&d), Some("authentication required"));

    let d = engine.decide(&model, &bearer_headers(&make_token(&["user"], SECRET)));
    assert_eq!(deny_reason(&d), Some("missing required scopes: admin"));

    let d = engine.decide(&model, &bearer_headers(&make_token(&["admin"], SECRET)));
    assert!(matches!(d, Decision::Continue));
}

#[test]
fn superset_of_scopes_continues() {
    let model = resolve(&secret_doc());
    let engine = AuthzEngine::new(SECRET);
    let token = make_token(&["admin", "user", "extra"], SECRET);
    let d = engine.decide(&model, &bearer_headers(&token));
    assert!(matches!(d, Decision::Continue));
}

#[test]
fn deny_message_lists_missing_scopes_sorted_once() {
    // Scopes are declared out of order, and "admin" twice across two
    // directives; the message lists each missing scope once, sorted.
    let doc = single_op_doc(
        vec![field(
            Some(FieldDefinition {
                directives: vec![
                    authz_directive(),
                    scope_directive("write"),
                    scope_directive("admin"),
                    scope_directive("audit"),
                    scope_directive("admin"),
                ],
            }),
            vec![],
        )],
        vec![],
    );
    let model = resolve(&doc);
    let engine = AuthzEngine::new(SECRET);
    let d = engine.decide(&model, &bearer_headers(&make_token(&["write"], SECRET)));
    assert_eq!(deny_reason(&d), Some("missing required scopes: admin, audit"));
}

#[test]
fn decision_given_claims_compares_sets() {
    let model = RequiredScopes {
        scopes: vec!["a".to_string(), "b".to_string()],
        requires_auth: true,
    };
    let d = decision_given_claims(&model, &vec!["b".to_string(), "a".to_string()]);
    assert!(matches!(d, Decision::Continue));
    let d = decision_given_claims(&model, &vec!["b".to_string()]);
    assert_eq!(deny_reason(&d), Some("missing required scopes: a"));
    let d = decision_given_claims(&model, &vec![]);
    assert_eq!(deny_reason(&d), Some("missing required scopes: a, b"));
}

#[test]
fn invalid_tokens_are_denied() {
    let model = resolve(&secret_doc());
    let engine = AuthzEngine::new(SECRET);

    // Not a JWT at all.
    let d = engine.decide(&model, &bearer_headers("garbage"));
    assert_eq!(deny_reason(&d), Some("invalid token"));

    // Signed with another key.
    let d = engine.decide(&model, &bearer_headers(&make_token(&["admin"], b"other")));
    assert_eq!(deny_reason(&d), Some("invalid token"));

    // Valid signature but no scopes claim.
    let mut obj = serde_json::Map::new();
    obj.insert(
        "exp".to_string(),
        serde_json::Value::Number(serde_json::Number::from(4102444800u64)),
    );
    let token = jsonwebtoken::encode(
        &jsonwebtoken::Header::new(jsonwebtoken::Algorithm::HS256),
        &serde_json::Value::Object(obj),
        &jsonwebtoken::EncodingKey::from_secret(SECRET),
    )
    .unwrap();
    let d = engine.decide(&model, &bearer_headers(&token));
    assert_eq!(deny_reason(&d), Some("invalid token"));

    // Valid signature but scopes is not an array of strings.
    let mut obj = serde_json::Map::new();
    obj.insert("scopes".to_string(), serde_json::Value::String("admin".to_string()));
    obj.insert(
        "exp".to_string(),
        serde_json::Value::Number(serde_json::Number::from(4102444800u64)),
    );
    let token = jsonwebtoken::encode(
        &jsonwebtoken::Header::new(jsonwebtoken::Algorithm::HS256),
        &serde_json::Value::Object(obj),
        &jsonwebtoken::EncodingKey::from_secret(SECRET),
    )
    .unwrap();
    let d = engine.decide(&model, &bearer_headers(&token));
    assert_eq!(deny_reason(&d), Some("invalid token"));

    // Expired token.
    let mut obj = serde_json::Map::new();
    obj.insert(
        "scopes".to_string(),
        serde_json::Value::Array(vec![serde_json::Value::String("admin".to_string())]),
    );
    obj.insert("exp".to_string(), serde_json::Value::Number(serde_json::Number::from(1u64)));
    let token = jsonwebtoken::encode(
        &jsonwebtoken::Header::new(jsonwebtoken::Algorithm::HS256),
        &serde_json::Value::Object(obj),
        &jsonwebtoken::EncodingKey::from_secret(SECRET),
    )
    .unwrap();
    let d = engine.decide(&model, &bearer_headers(&token));
    assert_eq!(deny_reason(&d), Some("invalid token"));
}

#[test]
fn malformed_header_treated_like_missing() {
    let model = resolve(&secret_doc());
    let engine = AuthzEngine::new(SECRET);

    let mut headers = http::HeaderMap::new();
    headers.insert(
        "authorization",
        http::HeaderValue::from_bytes(&[0x42, 0xFF, 0x42]).unwrap(),
    );
    assert!(extract_bearer_token(&headers).is_err());
    let malformed = engine.decide(&model, &headers);
    let missing = engine.decide(&model, &http::HeaderMap::new());
    assert_eq!(deny_reason(&malformed), Some("authentication required"));
    assert_eq!(deny_reason(&malformed), deny_reason(&missing));
}

#[test]
fn bearer_token_extraction() {
    let mut h = http::HeaderMap::new();
    h.insert("authorization", http::HeaderValue::from_static("Bearer abc"));
    assert_eq!(extract_bearer_token(&h).unwrap(), Some("abc".to_string()));

    // The value is split on every space and the last segment kept.
    let mut h = http::HeaderMap::new();
    h.insert("authorization", http::HeaderValue::from_static("Bearer a b"));
    assert_eq!(extract_bearer_token(&h).unwrap(), Some("b".to_string()));

    let mut h = http::HeaderMap::new();
    h.insert("authorization", http::HeaderValue::from_static("Bearer "));
    assert_eq!(extract_bearer_token(&h).unwrap(), Some("".to_string()));

    // Another scheme is not a bearer credential.
    let mut h = http::HeaderMap::new();
    h.insert("authorization", http::HeaderValue::from_static("Basic abc"));
    assert_eq!(extract_bearer_token(&h).unwrap(), None);

    assert_eq!(extract_bearer_token(&http::HeaderMap::new()).unwrap(), None);
}

#[test]
fn fragment_spreads_resolve_like_inline() {
    // One operation spreads two fragments; another selects the same
    // fields directly.  Both resolve to the same requirements.
    let f1_body = || {
        vec![field(
            Some(FieldDefinition {
                directives: vec![authz_directive(), scope_directive("read")],
            }),
            vec![],
        )]
    };
    let f2_body = || {
        vec![field(
            Some(FieldDefinition { directives: vec![scope_directive("write")] }),
            vec![],
        )]
    };
    let spread_doc = QueryDocument {
        operations: vec![Operation {
            name: None,
            selections: vec![
                Selection::FragmentSpread("f1".to_string()),
                Selection::FragmentSpread("f2".to_string()),
            ],
        }],
        fragments: vec![
            Fragment { name: "f1".to_string(), selections: f1_body() },
            Fragment { name: "f2".to_string(), selections: f2_body() },
        ],
    };
    let mut inline_selections = f1_body();
    inline_selections.extend(f2_body());
    let inline_doc = single_op_doc(inline_selections, vec![]);

    let spread_model = resolve(&spread_doc);
    let inline_model = resolve(&inline_doc);
    assert_eq!(spread_model.requires_auth, inline_model.requires_auth);
    let mut a = spread_model.scopes.clone();
    let mut b = inline_model.scopes.clone();
    a.sort();
    b.sort();
    assert_eq!(a, b);
}

#[test]
fn fragment_cycle_terminates() {
    // Fragment a spreads b, fragment b spreads a: resolution must end,
    // collecting each fragment's contribution once.
    let doc = QueryDocument {
        operations: vec![Operation {
            name: None,
            selections: vec![Selection::FragmentSpread("a".to_string())],
        }],
        fragments: vec![
            Fragment {
                name: "a".to_string(),
                selections: vec![
                    field(
                        Some(FieldDefinition { directives: vec![scope_directive("one")] }),
                        vec![],
                    ),
                    Selection::FragmentSpread("b".to_string()),
                ],
            },
            Fragment {
                name: "b".to_string(),
                selections: vec![
                    field(
                        Some(FieldDefinition {
                            directives: vec![authz_directive(), scope_directive("two")],
                        }),
                        vec![],
                    ),
                    Selection::FragmentSpread("a".to_string()),
                ],
            },
        ],
    };
    let model = resolve(&doc);
    assert!(model.requires_auth);
    let mut scopes = model.scopes.clone();
    scopes.sort();
    assert_eq!(scopes, vec!["one".to_string(), "two".to_string()]);
}

#[test]
fn unresolved_fragment_contributes_nothing() {
    let doc = single_op_doc(vec![Selection::FragmentSpread("nowhere".to_string())], vec![]);
    let model = resolve(&doc);
    assert!(!model.requires_auth);
    assert!(model.scopes.is_empty());
}

#[test]
fn inline_fragments_are_walked() {
    let doc = single_op_doc(
        vec![Selection::InlineFragment(vec![field(
            Some(FieldDefinition {
                directives: vec![authz_directive(), scope_directive("inner")],
            }),
            vec![],
        )])],
        vec![],
    );
    let model = resolve(&doc);
    assert!(model.requires_auth);
    assert_eq!(model.scopes, vec!["inner".to_string()]);
}

#[test]
fn operation_selection_rules() {
    let named = |n: &str| Operation { name: Some(n.to_string()), selections: vec![] };
    let doc = QueryDocument { operations: vec![named("a"), named("b")], fragments: vec![] };
    assert!(doc.operation_by_name(Some("a")).is_some());
    assert!(doc.operation_by_name(Some("zzz")).is_none());
    // Two operations and no name: ambiguous.
    assert!(doc.operation_by_name(None).is_none());
    assert_eq!(
        resolve_required_scopes(&doc, None).unwrap_err(),
        AuthzError::OperationNotFound,
    );

    let doc = QueryDocument { operations: vec![named("a")], fragments: vec![] };
    assert!(doc.operation_by_name(None).is_some());
    assert!(resolve_required_scopes(&doc, None).is_ok());

    // An unnamed operation answers to the empty requested name.
    let doc = QueryDocument {
        operations: vec![
            Operation { name: None, selections: vec![] },
            named("b"),
        ],
        fragments: vec![],
    };
    assert!(doc.operation_by_name(Some("")).is_some());

    // No operations at all.
    let doc = QueryDocument { operations: vec![], fragments: vec![] };
    assert_eq!(
        resolve_required_scopes(&doc, None).unwrap_err(),
        AuthzError::OperationNotFound,
    );
}

#[test]
fn directive_extraction() {
    let def = FieldDefinition {
        directives: vec![authz_directive(), scope_directive("admin")],
    };
    assert!(has_directive(&def, "authz"));
    assert!(!has_directive(&def, "other"));

    // A list value contributes its string elements; other values
    // contribute nothing.
    let d = Directive {
        name: "requiresScope".to_string(),
        arguments: vec![
            Argument {
                name: "scope".to_string(),
                value: ArgumentValue::TextList(vec!["a".to_string(), "b".to_string()]),
            },
            Argument { name: "scope".to_string(), value: ArgumentValue::Other },
            Argument {
                name: "unrelated".to_string(),
                value: ArgumentValue::Text("c".to_string()),
            },
            Argument { name: "scope".to_string(), value: ArgumentValue::Text("d".to_string()) },
        ],
    };
    assert_eq!(
        string_argument_values(&d, "scope"),
        vec!["a".to_string(), "b".to_string(), "d".to_string()],
    );
    assert_eq!(value_strings(&ArgumentValue::Other), Vec::<String>::new());
    assert_eq!(
        value_strings(&ArgumentValue::Text("x".to_string())),
        vec!["x".to_string()],
    );
}

#[test]
fn duplicate_scope_declarations_collapse() {
    let doc = single_op_doc(
        vec![
            field(
                Some(FieldDefinition { directives: vec![scope_directive("admin")] }),
                vec![],
            ),
            field(
                Some(FieldDefinition { directives: vec![scope_directive("admin")] }),
                vec![],
            ),
        ],
        vec![],
    );
    let model = resolve(&doc);
    assert_eq!(model.scopes, vec!["admin".to_string()]);
}

#[test]
fn nested_field_selections_are_walked() {
    let inner = field(
        Some(FieldDefinition {
            directives: vec![authz_directive(), scope_directive("deep")],
        }),
        vec![],
    );
    let doc = single_op_doc(
        vec![field(Some(FieldDefinition { directives: vec![] }), vec![inner])],
        vec![],
    );
    let model = resolve(&doc);
    assert!(model.requires_auth);
    assert_eq!(model.scopes, vec!["deep".to_string()]);
}

#[test]
fn decoded_claims_format_violations_are_invalid() {
    let model = resolve(&secret_doc());

    // No scopes key.
    let claims = serde_json::Value::Object(serde_json::Map::new());
    let d = decision_given_decoded(&model, &claims);
    assert_eq!(deny_reason(&d), Some("invalid token"));

    // scopes is not an array.
    let mut obj = serde_json::Map::new();
    obj.insert("scopes".to_string(), serde_json::Value::String("admin".to_string()));
    let d = decision_given_decoded(&model, &serde_json::Value::Object(obj));
    assert_eq!(deny_reason(&d), Some("invalid token"));

    // scopes holds a non-string element.
    let mut obj = serde_json::Map::new();
    obj.insert(
        "scopes".to_string(),
        serde_json::Value::Array(vec![
            serde_json::Value::String("admin".to_string()),
            serde_json::Value::Bool(true),
        ]),
    );
    let d = decision_given_decoded(&model, &serde_json::Value::Object(obj));
    assert_eq!(deny_reason(&d), Some("invalid token"));

    // The claims value is not an object at all.
    let d = decision_given_decoded(&model, &serde_json::Value::Null);
    assert_eq!(deny_reason(&d), Some("invalid token"));
}

#[test]
fn decoded_claims_scopes_decide() {
    let model = resolve(&secret_doc());

    let mut obj = serde_json::Map::new();
    obj.insert(
        "scopes".to_string(),
        serde_json::Value::Array(vec![serde_json::Value::String("admin".to_string())]),
    );
    let d = decision_given_decoded(&model, &serde_json::Value::Object(obj));
    assert!(matches!(d, Decision::Continue));

    let mut obj = serde_json::Map::new();
    obj.insert(
        "scopes".to_string(),
        serde_json::Value::Array(vec![serde_json::Value::String("user".to_string())]),
    );
    let d = decision_given_decoded(&model, &serde_json::Value::Object(obj));
    assert_eq!(deny_reason(&d), Some("missing required scopes: admin"));

    // An empty scopes array is well-formed: it just grants nothing.
    let mut obj = serde_json::Map::new();
    obj.insert("scopes".to_string(), serde_json::Value::Array(vec![]));
    let d = decision_given_decoded(&model, &serde_json::Value::Object(obj));
    assert_eq!(deny_reason(&d), Some("missing required scopes: admin"));
}
