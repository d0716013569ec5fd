//! The per-request lifecycle: one state machine from arrival through
//! dispatch and polling to the finalized response.
//!
//! Resolution and dispatch are synchronous; a handler's continuation may
//! suspend, and the driver re-polls it.  The driver performs the actions
//! this machine decides — it invokes the chosen handler or fallback and
//! reports each poll's outcome back.

use vstd::prelude::*;
use vstd::string::StringSliceAdditionalSpecFns;
use crate::app::{AppData, RouterResult};
use crate::recognizer::Captures;
use crate::tree::ScopeId;

verus! {

/// A response body: of known size, or streamed with unknown length.
#[derive(Debug)]
pub enum ResponseBody {
    Sized(Vec<u8>),
    Stream,
}

impl ResponseBody {
    /// The declared length of the body, if it is known.
    pub fn content_length(&self) -> (r: Option<usize>)
        ensures
            match self {
                ResponseBody::Sized(data) => r == Some(data@.len() as usize),
                ResponseBody::Stream => r is None,
            },
    {
        match self {
            ResponseBody::Sized(data) => Some(data.len()),
            ResponseBody::Stream => None,
        }
    }
}

/// A response under construction: status, headers in order, body.
#[derive(Debug)]
pub struct Response {
    pub status: u16,
    pub headers: Vec<(String, String)>,
    pub body: ResponseBody,
}

/// A handler or extractor failure: its HTTP status classification and a
/// message.
#[derive(Debug)]
pub struct HandlerError {
    pub status: u16,
    pub message: String,
}

/// Converts an error into the response it classifies to: its status, with
/// the message as the body.
pub fn error_response(e: &HandlerError) -> (r: Response)
    ensures
        r.status == e.status,
        r.headers@ == Seq::<(String, String)>::empty(),
        r.body matches ResponseBody::Sized(b) && b@ == vstd::utf8::encode_utf8(e.message@),
{
    let body = e.message.as_str().as_bytes_vec();
    Response { status: e.status, headers: Vec::new(), body: ResponseBody::Sized(body) }
}

/// The kind of outcome a fallback is invoked for.
#[derive(Debug)]
pub enum FallbackKind {
    /// The path matched this resource, but not the method.
    FoundResource(Option<usize>),
    /// Nothing matched; these are the partially matching candidates.
    NotFound(Vec<usize>),
}

/// What the driver must do next with the request.
#[derive(Debug)]
pub enum DispatchAction {
    /// Invoke this handler.
    CallHandler { handler: usize, endpoint_id: usize },
    /// Invoke this fallback — or, when none is set on any enclosing scope,
    /// the default that answers 405 with `Allow` or 404.
    CallFallback { fallback: Option<usize>, kind: FallbackKind, scope: ScopeId },
}

/// The state of one request: dispatch happens once, polling repeats while
/// the continuation suspends, and a completed request must not be polled.
#[derive(Clone, Copy, Debug, PartialEq, Eq, Structural)]
pub enum AppFutureState {
    Init,
    InFlight,
    Done,
}

/// The lifecycle of one request.
#[derive(Debug)]
pub struct AppFuture {
    pub state: AppFutureState,
    pub resource: Option<usize>,
    pub captures: Option<Captures>,
}

impl AppFuture {
    /// A fresh request lifecycle.
    pub fn new() -> (r: AppFuture)
        ensures
            r.state == AppFutureState::Init,
            r.resource is None,
            r.captures is None,
    {
        AppFuture { state: AppFutureState::Init, resource: None, captures: None }
    }

    /// Consumes the routing result: records the matched resource and
    /// captures, and decides whether the endpoint's handler or a fallback
    /// runs.  The fallback is the nearest one on the chain from the
    /// outcome's scope up to the root.
    pub fn start(&mut self, app: &AppData, outcome: RouterResult) -> (d: DispatchAction)
        requires
            app.wf(),
            old(self).state == AppFutureState::Init,
            match outcome {
                RouterResult::FoundEndpoint { .. } => true,
                RouterResult::FoundResource { scope, .. } => 0 <= scope.index_spec()
                    < app.scopes.len_spec(),
                RouterResult::NotFound { scope, .. } => 0 <= scope.index_spec()
                    < app.scopes.len_spec(),
            },
        ensures
            final(self).state == AppFutureState::InFlight,
            match outcome {
                RouterResult::FoundEndpoint {
                    resource, endpoint_id, handler, captures, ..
                } => {
                    &&& final(self).resource == resource
                    &&& final(self).captures matches Some(c) && c@ == captures@
                    &&& (d matches DispatchAction::CallHandler { handler: h, endpoint_id: e }
                        && h == handler && e == endpoint_id)
                },
                RouterResult::FoundResource { resource, captures, scope } => {
                    &&& final(self).resource == resource
                    &&& final(self).captures matches Some(c) && c@ == captures@
                    &&& (d matches DispatchAction::CallFallback { fallback, kind, scope: s }
                        && fallback == app.scopes.effective_fallback(scope.index_spec())
                        && (kind matches FallbackKind::FoundResource(fr) && fr == resource)
                        && s == scope)
                },
                RouterResult::NotFound { resources, scope } => {
                    &&& final(self).resource is None
                    &&& final(self).captures is None
                    &&& (d matches DispatchAction::CallFallback { fallback, kind, scope: s }
                        && fallback == app.scopes.effective_fallback(scope.index_spec())
                        && (kind matches FallbackKind::NotFound(nf) && nf@ == resources@)
                        && s == scope)
                },
            },
    {
        let n = app.scopes.nodes.len();
        proof {
            assert(n as int == app.scopes.len_spec());
        }
        self.state = AppFutureState::InFlight;
        match outcome {
            RouterResult::FoundEndpoint { resource, endpoint_id, handler, captures, .. } => {
                self.resource = resource;
                self.captures = Some(captures);
                DispatchAction::CallHandler { handler, endpoint_id }
            },
            RouterResult::FoundResource { resource, captures, scope } => {
                self.resource = resource;
                self.captures = Some(captures);
                let idx = scope_index(scope);
                let fallback = app.scopes.find_fallback(idx);
                DispatchAction::CallFallback {
                    fallback,
                    kind: FallbackKind::FoundResource(resource),
                    scope,
                }
            },
            RouterResult::NotFound { resources, scope } => {
                self.resource = None;
                self.captures = None;
                let idx = scope_index(scope);
                let fallback = app.scopes.find_fallback(idx);
                DispatchAction::CallFallback {
                    fallback,
                    kind: FallbackKind::NotFound(resources),
                    scope,
                }
            },
        }
    }

    /// Records that the continuation suspended; the driver polls again.
    pub fn suspend(&mut self)
        requires
            old(self).state != AppFutureState::Done,
        ensures
            final(self).state == AppFutureState::InFlight,
            final(self).resource == old(self).resource,
            final(self).captures == old(self).captures,
    {
        self.state = AppFutureState::InFlight;
    }

    /// Consumes the continuation's terminal result: an error converts to
    /// its response, and the response is finalized with the request's
    /// pending cookie changes and supplemental headers.
    pub fn complete(
        &mut self,
        polled: Result<Response, HandlerError>,
        set_cookies: &Vec<String>,
        extra_headers: &Vec<(String, String)>,
    ) -> (r: Response)
        requires
            old(self).state != AppFutureState::Done,
        ensures
            final(self).state == AppFutureState::Done,
            ({
                match polled {
                    Ok(resp) => r.status == resp.status
                        && r.body == resp.body
                        && finalized_headers_match(
                            resp.headers@.map_values(|h: (String, String)| (h.0@, h.1@)),
                            set_cookies@.map_values(|s: String| s@),
                            extra_headers@.map_values(|h: (String, String)| (h.0@, h.1@)),
                            body_len(resp.body),
                            r.headers@.map_values(|h: (String, String)| (h.0@, h.1@)),
                        ),
                    Err(ref e) => r.status == e.status
                        && (r.body matches ResponseBody::Sized(b)
                            && b@ == vstd::utf8::encode_utf8(e.message@))
                        && finalized_headers_match(
                            Seq::<(Seq<char>, Seq<char>)>::empty(),
                            set_cookies@.map_values(|s: String| s@),
                            extra_headers@.map_values(|h: (String, String)| (h.0@, h.1@)),
                            Some(vstd::utf8::encode_utf8(e.message@).len() as int),
                            r.headers@.map_values(|h: (String, String)| (h.0@, h.1@)),
                        ),
                }
            }),
    {
        self.state = AppFutureState::Done;
        let mut resp = match polled {
            Ok(resp) => resp,
            Err(e) => error_response(&e),
        };
        finalize(&mut resp, set_cookies, extra_headers);
        resp
    }
}

/// The arena index of a scope identity.
pub fn scope_index(s: ScopeId) -> (r: usize)
    requires
        s.index_spec() <= usize::MAX,
    ensures
        r == s.index_spec(),
{
    match s {
        ScopeId::Global => 0,
        ScopeId::Local(k) => k + 1,
    }
}

/// The declared body length, as a mathematical value.
pub open spec fn body_len(b: ResponseBody) -> Option<int> {
    match b {
        ResponseBody::Sized(data) => Some(data@.len() as int),
        ResponseBody::Stream => None,
    }
}

/// Some header of that name is present.
pub open spec fn has_header(headers: Seq<(Seq<char>, Seq<char>)>, name: Seq<char>) -> bool {
    exists|i: int| 0 <= i < headers.len() && (#[trigger] headers[i]).0 == name
}

/// The decimal digits of `n`.
pub open spec fn dec_rep(n: nat) -> Seq<char>
    decreases n,
{
    if n < 10 {
        seq![digit_char(n)]
    } else {
        dec_rep(n / 10).push(digit_char(n % 10))
    }
}

pub open spec fn digit_char(d: nat) -> char {
    if d == 0 { '0' }
    else if d == 1 { '1' }
    else if d == 2 { '2' }
    else if d == 3 { '3' }
    else if d == 4 { '4' }
    else if d == 5 { '5' }
    else if d == 6 { '6' }
    else if d == 7 { '7' }
    else if d == 8 { '8' }
    else { '9' }
}

/// Renders a number in decimal.
pub fn dec_string(n: usize) -> (r: String)
    ensures
        r@ == dec_rep(n as nat),
    decreases n,
{
    let digit: &'static str = match n % 10 {
        0 => { proof { reveal_strlit("0"); assert("0"@ =~= seq![digit_char(n as nat % 10)]); } "0" },
        1 => { proof { reveal_strlit("1"); assert("1"@ =~= seq![digit_char(n as nat % 10)]); } "1" },
        2 => { proof { reveal_strlit("2"); assert("2"@ =~= seq![digit_char(n as nat % 10)]); } "2" },
        3 => { proof { reveal_strlit("3"); assert("3"@ =~= seq![digit_char(n as nat % 10)]); } "3" },
        4 => { proof { reveal_strlit("4"); assert("4"@ =~= seq![digit_char(n as nat % 10)]); } "4" },
        5 => { proof { reveal_strlit("5"); assert("5"@ =~= seq![digit_char(n as nat % 10)]); } "5" },
        6 => { proof { reveal_strlit("6"); assert("6"@ =~= seq![digit_char(n as nat % 10)]); } "6" },
        7 => { proof { reveal_strlit("7"); assert("7"@ =~= seq![digit_char(n as nat % 10)]); } "7" },
        8 => { proof { reveal_strlit("8"); assert("8"@ =~= seq![digit_char(n as nat % 10)]); } "8" },
        _ => { proof { reveal_strlit("9"); assert(n as nat % 10 == 9); assert("9"@ =~= seq![digit_char(n as nat % 10)]); } "9" },
    };
    if n < 10 {
        let r = String::from_str(digit);
        proof {
            assert(r@ =~= dec_rep(n as nat));
        }
        r
    } else {
        let mut r = dec_string(n / 10);
        r.append(digit);
        proof {
            assert(r@ =~= dec_rep(n as nat));
        }
        r
    }
}

/// The finalized header list: the response's own headers, then one
/// `Set-Cookie` per pending cookie change, then the supplemental headers,
/// then `Content-Length` where the body's length is known and the header
/// was absent.
pub open spec fn finalized_headers_match(
    base: Seq<(Seq<char>, Seq<char>)>,
    set_cookies: Seq<Seq<char>>,
    extra: Seq<(Seq<char>, Seq<char>)>,
    len: Option<int>,
    result: Seq<(Seq<char>, Seq<char>)>,
) -> bool {
    let with_cookies = base + set_cookies.map_values(|c: Seq<char>| ("set-cookie"@, c))
        + extra;
    match len {
        Some(n) => if has_header(with_cookies, "content-length"@) {
            result == with_cookies
        } else {
            n >= 0 && result == with_cookies.push(("content-length"@, dec_rep(n as nat)))
        },
        None => result == with_cookies,
    }
}

/// Finalizes a response in place: appends the pending `Set-Cookie`
/// values, the supplemental headers, and `Content-Length` where the body
/// declares its size and no such header stands yet.
pub fn finalize(
    resp: &mut Response,
    set_cookies: &Vec<String>,
    extra_headers: &Vec<(String, String)>,
)
    ensures
        final(resp).status == old(resp).status,
        final(resp).body == old(resp).body,
        finalized_headers_match(
            old(resp).headers@.map_values(|h: (String, String)| (h.0@, h.1@)),
            set_cookies@.map_values(|s: String| s@),
            extra_headers@.map_values(|h: (String, String)| (h.0@, h.1@)),
            body_len(old(resp).body),
            final(resp).headers@.map_values(|h: (String, String)| (h.0@, h.1@)),
        ),
{
    let ghost base = resp.headers@.map_values(|h: (String, String)| (h.0@, h.1@));
    let ghost cm = set_cookies@.map_values(|s: String| s@);
    let ghost em = extra_headers@.map_values(|h: (String, String)| (h.0@, h.1@));

    let mut k: usize = 0;
    proof {
        assert(base + cm.take(0).map_values(|c: Seq<char>| ("set-cookie"@, c)) =~= base);
    }
    while k < set_cookies.len()
        invariant
            k <= set_cookies@.len(),
            cm == set_cookies@.map_values(|s: String| s@),
            resp.headers@.map_values(|h: (String, String)| (h.0@, h.1@))
                =~= base + cm.take(k as int).map_values(|c: Seq<char>| ("set-cookie"@, c)),
            resp.status == old(resp).status,
            resp.body == old(resp).body,
        decreases set_cookies@.len() - k,
    {
        let ghost before = resp.headers@.map_values(|h: (String, String)| (h.0@, h.1@));
        let name = String::from_str("set-cookie");
        let value = set_cookies[k].clone();
        resp.headers.push((name, value));
        proof {
            reveal_strlit("set-cookie");
            assert(resp.headers@.map_values(|h: (String, String)| (h.0@, h.1@))
                =~= before.push(("set-cookie"@, cm[k as int])));
            assert(cm.take(k as int + 1).map_values(|c: Seq<char>| ("set-cookie"@, c))
                =~= cm.take(k as int).map_values(|c: Seq<char>| ("set-cookie"@, c)).push(
                    ("set-cookie"@, cm[k as int]),
                ));
        }
        k = k + 1;
    }
    proof {
        assert(cm.take(cm.len() as int) =~= cm);
    }

    let ghost with_cookies = base + cm.map_values(|c: Seq<char>| ("set-cookie"@, c));
    let mut k: usize = 0;
    proof {
        assert(resp.headers@.map_values(|h: (String, String)| (h.0@, h.1@))
            =~= with_cookies + em.take(0));
    }
    while k < extra_headers.len()
        invariant
            k <= extra_headers@.len(),
            em == extra_headers@.map_values(|h: (String, String)| (h.0@, h.1@)),
            resp.headers@.map_values(|h: (String, String)| (h.0@, h.1@))
                =~= with_cookies + em.take(k as int),
            resp.status == old(resp).status,
            resp.body == old(resp).body,
        decreases extra_headers@.len() - k,
    {
        let ghost before = resp.headers@.map_values(|h: (String, String)| (h.0@, h.1@));
        let name = extra_headers[k].0.clone();
        let value = extra_headers[k].1.clone();
        resp.headers.push((name, value));
        proof {
            assert(resp.headers@.map_values(|h: (String, String)| (h.0@, h.1@))
                =~= before.push((em[k as int].0, em[k as int].1)));
            assert(em.take(k as int + 1) =~= em.take(k as int).push(em[k as int]));
        }
        k = k + 1;
    }
    proof {
        assert(em.take(em.len() as int) =~= em);
    }

    let len = match &resp.body {
        ResponseBody::Sized(data) => Some(data.len()),
        ResponseBody::Stream => None,
    };
    match len {
        None => {},
        Some(n) => {
            let ghost current = resp.headers@.map_values(|h: (String, String)| (h.0@, h.1@));
            proof {
                reveal_strlit("content-length");
            }
            if !has_header_exec(&resp.headers, "content-length") {
                let ghost before = resp.headers@.map_values(
                    |h: (String, String)| (h.0@, h.1@),
                );
                let name = String::from_str("content-length");
                let value = dec_string(n);
                resp.headers.push((name, value));
                proof {
                    assert(resp.headers@.map_values(|h: (String, String)| (h.0@, h.1@))
                        =~= before.push(("content-length"@, dec_rep(n as nat))));
                }
            }
        },
    }
}

/// Whether some header of that exact name is present.
pub fn has_header_exec(headers: &Vec<(String, String)>, name: &str) -> (r: bool)
    ensures
        r == has_header(
            headers@.map_values(|h: (String, String)| (h.0@, h.1@)),
            name@,
        ),
{
    let ghost m = headers@.map_values(|h: (String, String)| (h.0@, h.1@));
    let mut k: usize = 0;
    while k < headers.len()
        invariant
            k <= headers@.len(),
            m == headers@.map_values(|h: (String, String)| (h.0@, h.1@)),
            forall|t: int| 0 <= t < k ==> (#[trigger] m[t]).0 != name@,
        decreases headers@.len() - k,
    {
        if crate::strutil::str_eq(headers[k].0.as_str(), name) {
            proof {
                assert(m[k as int].0 == name@);
            }
            return true;
        }
        k = k + 1;
    }
    proof {
        if has_header(m, name@) {
            let i = choose|i: int| 0 <= i < m.len() && (#[trigger] m[i]).0 == name@;
            assert(m[i].0 != name@);
        }
    }
    false
}

} // verus!
