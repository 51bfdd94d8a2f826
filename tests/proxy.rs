use tzstats_middleware::json::Json;
use tzstats_middleware::proxy::{
    plan, respond, route, upstream_url, Action, ForwardRequest, GatewayError, Method, Policy,
    Reply, Route,
};

fn num(n: &str) -> Json {
    Json::Number(n.to_string())
}

fn obj(entries: Vec<(&str, Json)>) -> Json {
    Json::Object(entries.into_iter().map(|(k, v)| (k.to_string(), v)).collect())
}

#[test]
fn get_with_body_is_routed_before_plain_get() {
    let policy = Policy::duplicate_fee();
    assert_eq!(route(&policy, Method::Get, true), Route::GetWithBody);
    assert_eq!(route(&policy, Method::Get, false), Route::GetWithoutBody);
    assert_eq!(route(&policy, Method::Post, true), Route::Post);
    assert_eq!(route(&policy, Method::Post, false), Route::Unmatched);
    assert_eq!(route(&policy, Method::Other, true), Route::Unmatched);
}

#[test]
fn redirecting_policy_redirects_every_get() {
    let policy = Policy::plural_requests();
    assert_eq!(route(&policy, Method::Get, true), Route::Redirect);
    assert_eq!(route(&policy, Method::Get, false), Route::Redirect);
    assert_eq!(route(&policy, Method::Post, true), Route::Post);
}

#[test]
fn path_and_query_pass_through() {
    assert_eq!(
        upstream_url("api.tzstats.com", "/accounts/tz1abc?limit=10"),
        "https://api.tzstats.com/accounts/tz1abc?limit=10"
    );
    let policy = Policy::duplicate_fee();
    let host = "example.org".to_string();
    let action = plan(&policy, &host, Method::Get, &"/accounts/tz1abc?limit=10".to_string(), None);
    assert_eq!(
        action,
        Action::Forward(ForwardRequest {
            method: Method::Get,
            url: "https://example.org/accounts/tz1abc?limit=10".to_string(),
            host: "example.org".to_string(),
            body: None,
        })
    );
}

#[test]
fn get_with_body_forwards_body_untouched_under_duplicate_policy() {
    let policy = Policy::duplicate_fee();
    let host = "h".to_string();
    let body = obj(vec![("fee", num("5"))]);
    let action = plan(&policy, &host, Method::Get, &"/p".to_string(), Some(body.copy()));
    assert_eq!(
        action,
        Action::Forward(ForwardRequest {
            method: Method::Get,
            url: "https://h/p".to_string(),
            host: "h".to_string(),
            body: Some(body),
        })
    );
}

#[test]
fn post_with_fee_forwards_and_returns_both_keys() {
    let policy = Policy::duplicate_fee();
    let host = "api.tzstats.com".to_string();
    let body = obj(vec![("balance", num("100")), ("fee", num("5"))]);
    let expected = obj(vec![("balance", num("100")), ("fee", num("5")), ("fees", num("5"))]);
    let action = plan(&policy, &host, Method::Post, &"/op".to_string(), Some(body));
    let forwarded = match action {
        Action::Forward(f) => {
            assert_eq!(f.method, Method::Post);
            assert_eq!(f.url, "https://api.tzstats.com/op");
            assert_eq!(f.host, "api.tzstats.com");
            f.body.expect("a body")
        }
        _ => panic!("not forwarded"),
    };
    assert_eq!(forwarded, expected);
    // the upstream echoes the body
    let reply = respond(&policy, Ok(forwarded));
    assert_eq!(reply, Reply::Json(expected));
}

#[test]
fn upstream_failure_gives_one_not_found() {
    let policy = Policy::duplicate_fee();
    assert_eq!(respond(&policy, Err(GatewayError)), Reply::NotFound);
    let policy = Policy::singular_replies();
    assert_eq!(respond(&policy, Err(GatewayError)), Reply::NotFound);
}

#[test]
fn rename_policy_rewrites_reply() {
    let policy = Policy::singular_replies();
    let reply = respond(&policy, Ok(obj(vec![("rewards", num("3"))])));
    assert_eq!(reply, Reply::Json(obj(vec![("reward", num("3"))])));
}

#[test]
fn rename_policy_leaves_post_body_alone() {
    let policy = Policy::singular_replies();
    let host = "h".to_string();
    let body = obj(vec![("rewards", num("3"))]);
    let action = plan(&policy, &host, Method::Post, &"/".to_string(), Some(body.copy()));
    match action {
        Action::Forward(f) => assert_eq!(f.body, Some(body)),
        _ => panic!("not forwarded"),
    }
}

#[test]
fn plural_policy_redirects_reads_and_rewrites_posts() {
    let policy = Policy::plural_requests();
    let host = "api.tzstats.com".to_string();
    let action = plan(&policy, &host, Method::Get, &"/x".to_string(), None);
    assert_eq!(action, Action::Redirect("https://api.tzstats.com/".to_string()));
    let body = obj(vec![("deposit", num("8"))]);
    let action = plan(&policy, &host, Method::Post, &"/x".to_string(), Some(body));
    match action {
        Action::Forward(f) => assert_eq!(f.body, Some(obj(vec![("deposits", num("8"))]))),
        _ => panic!("not forwarded"),
    }
    let reply = respond(&policy, Ok(obj(vec![("deposit", num("8"))])));
    assert_eq!(reply, Reply::Json(obj(vec![("deposit", num("8"))])));
}

#[test]
fn unhandled_requests_are_rejected() {
    let policy = Policy::duplicate_fee();
    let host = "h".to_string();
    assert_eq!(plan(&policy, &host, Method::Other, &"/".to_string(), None), Action::Reject);
    assert_eq!(plan(&policy, &host, Method::Post, &"/".to_string(), None), Action::Reject);
}
