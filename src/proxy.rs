use vstd::prelude::*;

use crate::json::{Json, JsonView};
use crate::transform::{
    fee_rules, hijack, hijacked, plural_rules, singular_rules, KeyRules, KeyRulesView,
};

verus! {

/// The inbound request method, as far as routing cares.
#[derive(PartialEq, Eq, Structural, Clone, Copy, Debug)]
pub enum Method {
    Get,
    Post,
    Other,
}

/// The handling rule that an inbound request falls under.
#[derive(PartialEq, Eq, Structural, Clone, Copy, Debug)]
pub enum Route {
    GetWithBody,
    GetWithoutBody,
    Post,
    Redirect,
    Unmatched,
}

/// Where a deployment rewrites keys, and with which table.
#[derive(Clone, Debug, PartialEq, Eq)]
pub struct Policy {
    pub rules: KeyRules,
    /// Rewrite the body of a GET that carries one before forwarding it.
    pub transform_get_body: bool,
    /// Rewrite the body of a POST before forwarding it.
    pub transform_post_body: bool,
    /// Rewrite the upstream's reply before returning it.
    pub transform_response: bool,
    /// Answer every GET with a redirect to the target host instead of proxying it.
    pub redirect_get: bool,
}

pub struct PolicyView {
    pub rules: KeyRulesView,
    pub transform_get_body: bool,
    pub transform_post_body: bool,
    pub transform_response: bool,
    pub redirect_get: bool,
}

impl View for Policy {
    type V = PolicyView;

    open spec fn view(&self) -> PolicyView {
        PolicyView {
            rules: self.rules@,
            transform_get_body: self.transform_get_body,
            transform_post_body: self.transform_post_body,
            transform_response: self.transform_response,
            redirect_get: self.redirect_get,
        }
    }
}

/// The upstream failed: the call, its status, or its body. The causes are
/// deliberately not told apart.
#[derive(PartialEq, Eq, Structural, Clone, Copy, Debug)]
pub struct GatewayError;

/// What the upstream is asked.
#[derive(Debug, PartialEq, Eq)]
pub struct ForwardRequest {
    pub method: Method,
    pub url: String,
    /// The value of the `Host` header.
    pub host: String,
    pub body: Option<Json>,
}

/// What to do with an inbound request.
#[derive(Debug, PartialEq, Eq)]
pub enum Action {
    Forward(ForwardRequest),
    /// Answer with a temporary redirect to this location; the upstream is not called.
    Redirect(String),
    /// Not handled here.
    Reject,
}

/// The answer to the caller once the upstream has replied.
#[derive(Debug, PartialEq, Eq)]
pub enum Reply {
    Json(Json),
    NotFound,
}

/// Dispatch in priority order: a GET with a body before a GET without one,
/// then POST with a body; in a redirecting deployment every GET is redirected.
pub open spec fn route_of(redirect_get: bool, method: Method, has_body: bool) -> Route {
    match method {
        Method::Get => if redirect_get {
            Route::Redirect
        } else if has_body {
            Route::GetWithBody
        } else {
            Route::GetWithoutBody
        },
        Method::Post => if has_body {
            Route::Post
        } else {
            Route::Unmatched
        },
        Method::Other => Route::Unmatched,
    }
}

pub open spec fn url_of(host: Seq<char>, full_path: Seq<char>) -> Seq<char> {
    "https://"@ + host + full_path
}

/// The body forwarded upstream, rewritten when `rewrite` holds.
pub open spec fn body_of(rewrite: bool, b: JsonView, rules: KeyRulesView) -> JsonView {
    if rewrite {
        hijacked(b, rules)
    } else {
        b
    }
}

pub open spec fn body_view(b: Option<Json>) -> Option<JsonView> {
    match b {
        Some(j) => Some(j@),
        None => None,
    }
}

/// `a` forwards exactly this request upstream.
pub open spec fn forwards(
    a: Action,
    method: Method,
    url: Seq<char>,
    host: Seq<char>,
    body: Option<JsonView>,
) -> bool {
    match a {
        Action::Forward(f) => f.method == method && f.url@ == url && f.host@ == host && body_view(
            f.body,
        ) == body,
        _ => false,
    }
}

pub fn route(policy: &Policy, method: Method, has_body: bool) -> (r: Route)
    ensures
        r == route_of(policy.redirect_get, method, has_body),
{
    match method {
        Method::Get => {
            if policy.redirect_get {
                Route::Redirect
            } else if has_body {
                Route::GetWithBody
            } else {
                Route::GetWithoutBody
            }
        },
        Method::Post => {
            if has_body {
                Route::Post
            } else {
                Route::Unmatched
            }
        },
        Method::Other => Route::Unmatched,
    }
}

/// `https://{host}{full_path}`, with the path and query kept verbatim.
pub fn upstream_url(host: &str, full_path: &str) -> (r: String)
    ensures
        r@ == url_of(host@, full_path@),
{
    let scheme = String::from_str("https://");
    let with_host = scheme.concat(host);
    with_host.concat(full_path)
}

fn rewrite_if(rewrite: bool, b: Json, rules: &KeyRules) -> (r: Json)
    ensures
        r@ == body_of(rewrite, b@, rules@),
{
    if rewrite {
        hijack(b, rules)
    } else {
        b
    }
}

/// Decides what an inbound request becomes: the request to send upstream, a
/// redirect, or a refusal.
pub fn plan(
    policy: &Policy,
    target_host: &String,
    method: Method,
    full_path: &String,
    body: Option<Json>,
) -> (r: Action)
    ensures
        match route_of(policy.redirect_get, method, body is Some) {
            Route::GetWithBody => forwards(
                r,
                Method::Get,
                url_of(target_host@, full_path@),
                target_host@,
                Some(body_of(policy.transform_get_body, body->0@, policy.rules@)),
            ),
            Route::GetWithoutBody => forwards(
                r,
                Method::Get,
                url_of(target_host@, full_path@),
                target_host@,
                None,
            ),
            Route::Post => forwards(
                r,
                Method::Post,
                url_of(target_host@, full_path@),
                target_host@,
                Some(body_of(policy.transform_post_body, body->0@, policy.rules@)),
            ),
            Route::Redirect => r matches Action::Redirect(loc) && loc@ == url_of(
                target_host@,
                "/"@,
            ),
            Route::Unmatched => r is Reject,
        },
{
    match route(policy, method, body.is_some()) {
        Route::GetWithBody => {
            let b = match body {
                Some(b) => b,
                None => Json::Null,
            };
            let url = upstream_url(target_host.as_str(), full_path.as_str());
            let b = rewrite_if(policy.transform_get_body, b, &policy.rules);
            Action::Forward(
                ForwardRequest { method: Method::Get, url, host: target_host.clone(), body: Some(b) },
            )
        },
        Route::GetWithoutBody => {
            let url = upstream_url(target_host.as_str(), full_path.as_str());
            Action::Forward(
                ForwardRequest { method: Method::Get, url, host: target_host.clone(), body: None },
            )
        },
        Route::Post => {
            let b = match body {
                Some(b) => b,
                None => Json::Null,
            };
            let url = upstream_url(target_host.as_str(), full_path.as_str());
            let b = rewrite_if(policy.transform_post_body, b, &policy.rules);
            Action::Forward(
                ForwardRequest { method: Method::Post, url, host: target_host.clone(), body: Some(b) },
            )
        },
        Route::Redirect => Action::Redirect(upstream_url(target_host.as_str(), "/")),
        Route::Unmatched => Action::Reject,
    }
}

/// Turns the upstream's outcome into the caller's reply: the JSON (rewritten
/// when the policy says so) on success, a bare not-found on any failure.
pub fn respond(policy: &Policy, outcome: Result<Json, GatewayError>) -> (r: Reply)
    ensures
        match outcome {
            Ok(j) => r matches Reply::Json(out) && out@ == body_of(
                policy.transform_response,
                j@,
                policy.rules@,
            ),
            Err(_) => r is NotFound,
        },
{
    match outcome {
        Ok(j) => Reply::Json(rewrite_if(policy.transform_response, j, &policy.rules)),
        Err(_) => Reply::NotFound,
    }
}

impl Policy {
    /// Adds `fees` beside `fee` in POST bodies and in every reply.
    pub fn duplicate_fee() -> (r: Policy)
        ensures
            r@ == (PolicyView {
                rules: fee_rules(),
                transform_get_body: false,
                transform_post_body: true,
                transform_response: true,
                redirect_get: false,
            }),
    {
        Policy {
            rules: KeyRules::duplicate_fee(),
            transform_get_body: false,
            transform_post_body: true,
            transform_response: true,
            redirect_get: false,
        }
    }

    /// Renames plural keys to singular ones in replies only.
    pub fn singular_replies() -> (r: Policy)
        ensures
            r@ == (PolicyView {
                rules: singular_rules(),
                transform_get_body: false,
                transform_post_body: false,
                transform_response: true,
                redirect_get: false,
            }),
    {
        Policy {
            rules: KeyRules::plural_to_singular(),
            transform_get_body: false,
            transform_post_body: false,
            transform_response: true,
            redirect_get: false,
        }
    }

    /// Redirects reads to the target host and renames singular keys to plural
    /// ones in forwarded POST bodies.
    pub fn plural_requests() -> (r: Policy)
        ensures
            r@ == (PolicyView {
                rules: plural_rules(),
                transform_get_body: false,
                transform_post_body: true,
                transform_response: false,
                redirect_get: true,
            }),
    {
        Policy {
            rules: KeyRules::singular_to_plural(),
            transform_get_body: false,
            transform_post_body: true,
            transform_response: false,
            redirect_get: true,
        }
    }
}

/// Routing checks for a body first: without a read redirect, a GET carrying a
/// body is always the GET-with-body rule and a GET without one the plain rule.
pub proof fn lemma_get_with_body_first(redirect_get: bool)
    requires
        !redirect_get,
    ensures
        route_of(redirect_get, Method::Get, true) == Route::GetWithBody,
        route_of(redirect_get, Method::Get, false) == Route::GetWithoutBody,
{
}

/// The forwarded URL is the scheme and host followed by the inbound path and
/// query exactly as received.
pub proof fn lemma_path_verbatim(host: Seq<char>, full_path: Seq<char>)
    ensures
        url_of(host, full_path).len() == 8 + host.len() as int + full_path.len(),
        url_of(host, full_path).subrange(0, 8) == "https://"@,
        url_of(host, full_path).subrange(8, 8 + host.len() as int) == host,
        url_of(host, full_path).subrange(8 + host.len() as int, url_of(host, full_path).len() as int)
            == full_path,
{
    reveal_strlit("https://");
    let u = url_of(host, full_path);
    assert(u.subrange(0, 8) =~= "https://"@);
    assert(u.subrange(8, 8 + host.len() as int) =~= host);
    assert(u.subrange(8 + host.len() as int, u.len() as int) =~= full_path);
}

} // verus!
