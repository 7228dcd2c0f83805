//! The routing layer: an ordered route table with exact-match precedence
//! over prefix matching, a CGI escape hatch, and a not-found fallback.
use crate::handlers::{
    handle_api_catch_all, handle_download, handle_form_test, handle_health, handle_inspect,
    handle_login, handle_root, handle_users, page_resp, page_resp_extra, ErrorPages,
};
use crate::request::{HttpRequest, ReqView};
use crate::response::{HttpResponse, RespView};

use vstd::prelude::*;
use vstd::string::StringSliceAdditionalSpecFns;

verus! {

/// The built-in handlers a route can bind.
#[derive(Debug, Clone, Copy, PartialEq, Eq)]
pub enum HandlerKind {
    Root,
    Health,
    Inspect,
    FormTest,
    Users,
    Download,
    Login,
    StaticDemo,
    ApiCatchAll,
}

/// One registered route.
#[derive(Debug)]
pub struct Route {
    pub method: String,
    pub path: String,
    pub handler: HandlerKind,
}

/// The mathematical image of a [`Route`].
pub ghost struct RouteView {
    pub method: Seq<char>,
    pub path: Seq<char>,
    pub handler: HandlerKind,
}

impl View for Route {
    type V = RouteView;

    open spec fn view(&self) -> RouteView {
        RouteView { method: self.method@, path: self.path@, handler: self.handler }
    }
}

impl DeepView for Route {
    type V = RouteView;

    open spec fn deep_view(&self) -> RouteView {
        self.view()
    }
}

/// The route table, matched in registration order.
pub struct Router {
    pub routes: Vec<Route>,
}

impl View for Router {
    type V = Seq<RouteView>;

    open spec fn view(&self) -> Seq<RouteView> {
        self.routes.deep_view()
    }
}

/// What handling a request yields: a finished response, or work that needs
/// the world outside — a CGI script to run, or a file to read for the
/// static-file demo.
pub enum Dispatch {
    Response(HttpResponse),
    Cgi(String),
    StaticFile(String),
}

/// The mathematical image of a [`Dispatch`].
pub ghost enum DispatchView {
    Response(RespView),
    Cgi(Seq<char>),
    StaticFile(Seq<char>),
}

impl View for Dispatch {
    type V = DispatchView;

    open spec fn view(&self) -> DispatchView {
        match self {
            Dispatch::Response(resp) => DispatchView::Response(resp@),
            Dispatch::Cgi(p) => DispatchView::Cgi(p@),
            Dispatch::StaticFile(p) => DispatchView::StaticFile(p@),
        }
    }
}

/// Index of the first route that matches method and path exactly, at or
/// after `i`.
pub open spec fn find_exact(routes: Seq<RouteView>, m: Seq<char>, p: Seq<char>, i: int) -> Option<
    int,
>
    decreases routes.len() - i when 0 <= i
{
    if i >= routes.len() {
        None
    } else if routes[i].method == m && routes[i].path == p {
        Some(i)
    } else {
        find_exact(routes, m, p, i + 1)
    }
}

/// A route path is a prefix of the request path, character by character.
pub open spec fn chars_prefix(p: Seq<char>, route_path: Seq<char>) -> bool {
    route_path.len() <= p.len() && p.take(route_path.len() as int) == route_path
}

/// Index of the first route whose method matches and whose path is a
/// non-root prefix of the request path, at or after `i`.
pub open spec fn find_prefix(routes: Seq<RouteView>, m: Seq<char>, p: Seq<char>, i: int) -> Option<
    int,
>
    decreases routes.len() - i when 0 <= i
{
    if i >= routes.len() {
        None
    } else if routes[i].method == m && routes[i].path != "/"@ && chars_prefix(p, routes[i].path) {
        Some(i)
    } else {
        find_prefix(routes, m, p, i + 1)
    }
}

/// The request path names a CGI script.
pub open spec fn is_cgi_path(p: Seq<char>) -> bool {
    chars_prefix(p, "/cgi-bin/"@)
}

/// The script path the CGI bridge runs for a request path: `cgi-bin/`
/// followed by the path with every leading `/cgi-bin/` stripped.
pub open spec fn strip_cgi_rep(p: Seq<char>) -> Seq<char>
    decreases p.len(),
{
    if chars_prefix(p, "/cgi-bin/"@) && "/cgi-bin/"@.len() >= 1 {
        strip_cgi_rep(p.skip("/cgi-bin/"@.len() as int))
    } else {
        p
    }
}

pub open spec fn cgi_script_spec(p: Seq<char>) -> Seq<char> {
    "cgi-bin/"@ + strip_cgi_rep(p)
}

/// The dispatch a matched handler produces for the request.
pub open spec fn handler_dispatch(k: HandlerKind, req: ReqView, d: DispatchView) -> bool {
    match k {
        HandlerKind::StaticDemo => d == DispatchView::StaticFile("static/example.html"@),
        HandlerKind::Root => d is Response && page_resp(
            d->Response_0,
            200,
            "OK"@,
            "text/html; charset=utf-8"@,
        ),
        HandlerKind::Health => d is Response && page_resp_extra(
            d->Response_0,
            200,
            "OK"@,
            "application/json"@,
            "Cache-Control"@,
            "no-cache"@,
        ) && d->Response_0.body
            == "{\"status\": \"healthy\", \"timestamp\": \"2025-12-09T20:00:00Z\"}".spec_bytes(),
        HandlerKind::Inspect => d is Response && page_resp_extra(
            d->Response_0,
            200,
            "OK"@,
            "text/html; charset=utf-8"@,
            "X-Inspector"@,
            "true"@,
        ) && d->Response_0.body == vstd::utf8::encode_utf8(
            crate::handlers::inspect_body(req),
        ),
        HandlerKind::FormTest => d is Response && page_resp_extra(
            d->Response_0,
            200,
            "OK"@,
            "text/html; charset=utf-8"@,
            "X-Form-Parser"@,
            "enabled"@,
        ) && d->Response_0.body == vstd::utf8::encode_utf8(
            crate::handlers::form_test_body(req),
        ),
        HandlerKind::Users => d is Response && d->Response_0.status == 200
            && d->Response_0.body == vstd::utf8::encode_utf8(
            crate::handlers::users_body(req.path, req.method),
        ),
        HandlerKind::Download => d is Response && d->Response_0.status == 200
            && d->Response_0.status_text == "OK"@ && d->Response_0.is_chunked == true
            && d->Response_0.headers == seq![
            ("Content-Type"@, "text/html; charset=utf-8"@),
            ("Transfer-Encoding"@, "chunked"@),
            ("Cache-Control"@, "no-store"@),
        ] && d->Response_0.body.len() > 0,
        HandlerKind::Login => d is Response && d->Response_0.status == 200
            && d->Response_0.status_text == "OK"@ && d->Response_0.is_chunked == false
            && d->Response_0.headers == seq![
            ("Content-Type"@, "text/html; charset=utf-8"@),
            (
                "Set-Cookie"@,
                "preferences=theme=dark&lang=en; Max-Age=2592000; Path=/; HttpOnly"@,
            ),
            ("X-Session-Demo"@, "true"@),
            (
                "Content-Length"@,
                crate::text::latin1(crate::text::dec_rep(d->Response_0.body.len() as int)),
            ),
        ] && d->Response_0.body.len() > 0,
        HandlerKind::ApiCatchAll => d is Response && d->Response_0.status == 200
            && d->Response_0.body == vstd::utf8::encode_utf8(
            crate::handlers::api_body(req.path, req.method),
        ),
    }
}

/// The not-found fallback.
pub open spec fn not_found_dispatch(d: DispatchView) -> bool {
    &&& d is Response
    &&& d->Response_0.status == 404
    &&& d->Response_0.status_text == "Not Found"@
    &&& d->Response_0.is_chunked == false
    &&& d->Response_0.body.len() > 0
}

/// What [`Router::handle`] yields for a request: the CGI bridge for CGI
/// paths; else the first exact route match; else the first non-root prefix
/// match; else the not-found response.
pub open spec fn routed(routes: Seq<RouteView>, req: ReqView, d: DispatchView) -> bool {
    if is_cgi_path(req.path) {
        d == DispatchView::Cgi(cgi_script_spec(req.path))
    } else {
        match find_exact(routes, req.method, req.path, 0) {
            Some(i) => handler_dispatch(routes[i].handler, req, d),
            None => match find_prefix(routes, req.method, req.path, 0) {
                Some(i) => handler_dispatch(routes[i].handler, req, d),
                None => not_found_dispatch(d),
            },
        }
    }
}

impl Router {
    /// An empty route table.
    pub fn new() -> (r: Router)
        ensures
            r@ == Seq::<RouteView>::empty(),
    {
        let r = Router { routes: Vec::new() };
        proof {
            assert(r@ =~~= Seq::<RouteView>::empty());
        }
        r
    }

    /// Appends a route; later routes yield to earlier ones.
    pub fn register(&mut self, method: &str, path: &str, handler: HandlerKind)
        ensures
            final(self)@ == old(self)@.push(
                RouteView { method: method@, path: path@, handler },
            ),
    {
        self.routes.push(
            Route { method: method.to_owned(), path: path.to_owned(), handler },
        );
        proof {
            assert(self@ =~~= old(self)@.push(RouteView { method: method@, path: path@, handler }));
        }
    }

    /// Runs the handler a kind names.
    fn dispatch_to(k: HandlerKind, request: &HttpRequest) -> (d: Dispatch)
        ensures
            handler_dispatch(k, request@, d@),
    {
        match k {
            HandlerKind::Root => Dispatch::Response(handle_root(request)),
            HandlerKind::Health => Dispatch::Response(handle_health(request)),
            HandlerKind::Inspect => Dispatch::Response(handle_inspect(request)),
            HandlerKind::FormTest => Dispatch::Response(handle_form_test(request)),
            HandlerKind::Users => Dispatch::Response(handle_users(request)),
            HandlerKind::Download => Dispatch::Response(handle_download(request)),
            HandlerKind::Login => Dispatch::Response(handle_login(request)),
            HandlerKind::ApiCatchAll => Dispatch::Response(handle_api_catch_all(request)),
            HandlerKind::StaticDemo => {
                let d = Dispatch::StaticFile("static/example.html".to_owned());
                proof {
                    assert(d@ == DispatchView::StaticFile("static/example.html"@));
                }
                d
            },
        }
    }

    /// Routes a request: CGI paths go to the bridge; otherwise the first
    /// exactly matching route wins, then the first non-root prefix match,
    /// and finally the not-found response.
    pub fn handle(&self, request: &HttpRequest) -> (d: Dispatch)
        ensures
            routed(self@, request@, d@),
    {
        let path_str = request.path.as_str();
        if Self::path_has_prefix(path_str, "/cgi-bin/") {
            let script = Self::cgi_script_path(path_str);
            return Dispatch::Cgi(script);
        }
        let ghost rv = self@;
        let ghost m = request@.method;
        let ghost p = request@.path;
        // first pass: exact matches
        let mut i: usize = 0;
        while i < self.routes.len()
            invariant
                i <= rv.len(),
                rv == self@,
                find_exact(rv, m, p, 0) == find_exact(rv, m, p, i as int),
                m == request@.method,
                p == request@.path,
                !is_cgi_path(p),
            decreases rv.len() - i,
        {
            let route = &self.routes[i];
            proof {
                assert(route@ == rv[i as int]);
            }
            if crate::text::str_eq(route.method.as_str(), request.method.as_str())
                && crate::text::str_eq(route.path.as_str(), request.path.as_str()) {
                return Self::dispatch_to(route.handler, request);
            }
            i = i + 1;
        }
        // second pass: non-root prefix matches
        let mut j: usize = 0;
        while j < self.routes.len()
            invariant
                j <= rv.len(),
                rv == self@,
                find_exact(rv, m, p, 0) is None,
                find_prefix(rv, m, p, 0) == find_prefix(rv, m, p, j as int),
                m == request@.method,
                p == request@.path,
                !is_cgi_path(p),
            decreases rv.len() - j,
        {
            let route = &self.routes[j];
            proof {
                assert(route@ == rv[j as int]);
            }
            if crate::text::str_eq(route.method.as_str(), request.method.as_str()) && !crate::text::str_eq(
                route.path.as_str(),
                "/",
            ) && Self::path_has_prefix(request.path.as_str(), route.path.as_str()) {
                return Self::dispatch_to(route.handler, request);
            }
            j = j + 1;
        }
        let page = ErrorPages::not_found();
        let resp = HttpResponse::new(404, "Not Found", page.as_str());
        proof {
            crate::handlers::lemma_encode_nonempty(page@);
        }
        Dispatch::Response(resp)
    }

    /// The route path is a character-for-character prefix of the request
    /// path.
    fn path_has_prefix(p: &str, route_path: &str) -> (r: bool)
        ensures
            r == chars_prefix(p@, route_path@),
    {
        let n = route_path.unicode_len();
        let m = p.unicode_len();
        if n > m {
            return false;
        }
        let pre = p.substring_char(0, n);
        let r = crate::text::str_eq(pre, route_path);
        proof {
            assert(p@.subrange(0, n as int) =~= p@.take(n as int));
        }
        r
    }

    /// The script path the CGI bridge runs for a request path.
    pub fn cgi_script_path(path: &str) -> (r: String)
        ensures
            r@ == cgi_script_spec(path@),
    {
        let mut rest: &str = path;
        let ghost full = path@;
        loop
            invariant
                strip_cgi_rep(full) == strip_cgi_rep(rest@),
            ensures
                strip_cgi_rep(full) == strip_cgi_rep(rest@),
                !chars_prefix(rest@, "/cgi-bin/"@),
            decreases rest@.len(),
        {
            proof {
                reveal_strlit("/cgi-bin/");
                assert("/cgi-bin/"@.len() == 9);
            }
            if Self::path_has_prefix(rest, "/cgi-bin/") {
                let ghost before = rest@;
                let n = rest.unicode_len();
                rest = rest.substring_char(9, n);
                proof {
                    assert(rest@ =~= before.skip(9));
                }
            } else {
                break ;
            }
        }
        let mut out = "cgi-bin/".to_owned();
        out.append(rest);
        proof {
            assert(out@ =~= cgi_script_spec(full));
        }
        out
    }
}

/// Law: an exact route match always wins over a prefix route.  When some
/// route matches the request's method and path exactly, the routing
/// decision is that of the first such route, whatever prefix routes stand
/// anywhere in the table.
pub proof fn exact_match_beats_prefix(routes: Seq<RouteView>, req: ReqView, d: DispatchView, i: int)
    requires
        !is_cgi_path(req.path),
        0 <= i < routes.len(),
        routes[i].method == req.method,
        routes[i].path == req.path,
        forall|j: int|
            0 <= j < i ==> (#[trigger] routes[j]).method != req.method || routes[j].path
                != req.path,
        routed(routes, req, d),
    ensures
        handler_dispatch(routes[i].handler, req, d),
{
    lemma_find_first(routes, req.method, req.path, 0, i);
}

proof fn lemma_find_first(routes: Seq<RouteView>, m: Seq<char>, p: Seq<char>, k: int, i: int)
    requires
        0 <= k <= i < routes.len(),
        routes[i].method == m,
        routes[i].path == p,
        forall|j: int| k <= j < i ==> (#[trigger] routes[j]).method != m || routes[j].path != p,
    ensures
        find_exact(routes, m, p, k) is Some,
        0 <= find_exact(routes, m, p, k)->0 <= i,
        routes[find_exact(routes, m, p, k)->0].method == m,
        routes[find_exact(routes, m, p, k)->0].path == p,
    decreases i - k,
{
    if routes[k].method == m && routes[k].path == p {
    } else {
        lemma_find_first(routes, m, p, k + 1, i);
    }
}

/// Law: prefix matching never selects the root route.  Whatever the table
/// holds, when routing falls through to a prefix match, the matched route's
/// path is never `/`; the root route can only serve its own path exactly.
pub proof fn prefix_match_skips_root(routes: Seq<RouteView>, m: Seq<char>, p: Seq<char>, i: int)
    requires
        0 <= i,
        find_prefix(routes, m, p, i) is Some,
    ensures
        routes[find_prefix(routes, m, p, i)->0].path != "/"@,
    decreases routes.len() - i,
{
    if i < routes.len() && !(routes[i].method == m && routes[i].path != "/"@ && chars_prefix(
        p,
        routes[i].path,
    )) {
        prefix_match_skips_root(routes, m, p, i + 1);
    }
}

} // verus!
