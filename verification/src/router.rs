//! An extremely simple HTTP router: handlers are registered per path and
//! method; other paths are looked up among the frontend files.
use vstd::prelude::*;
use vstd::string::*;

use crate::http::{
    ascii_lower, bare_response, method_not_allowed, not_found, Method, Request, Response,
    ResponseView, StatusCode,
};
use crate::text::{chars_of, find_from, owned, string_from_chars};
use crate::ui_assets::{self, asset_lookup, AssetTable};

verus! {

/// The handlers of one path, by method.
pub struct Route<H> {
    pub get: Option<H>,
    pub post: Option<H>,
}

impl<H> Route<H> {
    /// The handler for a method, if one is registered.
    pub open spec fn handler(&self, m: Method) -> Option<H> {
        match m {
            Method::Get => self.get,
            Method::Post => self.post,
        }
    }
}

/// The routes as a map from path to route: a later entry for a path
/// replaces an earlier one.
pub open spec fn route_map<H>(r: Seq<(String, Route<H>)>) -> Map<Seq<char>, Route<H>>
    decreases r.len(),
{
    if r.len() == 0 {
        Map::empty()
    } else {
        route_map(r.drop_last()).insert(r.last().0@, r.last().1)
    }
}

/// A router: the state handed to every handler, and the routes.
pub struct Router<S, H> {
    state: S,
    routes: Vec<(String, Route<H>)>,
}

impl<S, H> View for Router<S, H> {
    type V = Map<Seq<char>, Route<H>>;

    closed spec fn view(&self) -> Map<Seq<char>, Route<H>> {
        route_map(self.routes@)
    }
}

impl<S, H> Router<S, H> {
    /// The state handed to the handlers.
    pub closed spec fn state(&self) -> S {
        self.state
    }

    /// Whether `path` has a handler for `m`.
    pub open spec fn has_handler(&self, path: Seq<char>, m: Method) -> bool {
        self@.contains_key(path) && self@[path].handler(m) is Some
    }

    /// The routes after registering `handler` for `path` and `m`.
    pub open spec fn with_handler(&self, path: Seq<char>, m: Method, handler: H) -> Map<
        Seq<char>,
        Route<H>,
    > {
        let old_route = if self@.contains_key(path) {
            self@[path]
        } else {
            Route { get: None, post: None }
        };
        let route = match m {
            Method::Get => Route { get: Some(handler), post: old_route.post },
            Method::Post => Route { get: old_route.get, post: Some(handler) },
        };
        self@.insert(path, route)
    }
}

/// A router without routes.
pub fn new<S, H>(state: S) -> (r: Router<S, H>)
    ensures
        r@ == Map::<Seq<char>, Route<H>>::empty(),
        r.state() == state,
{
    Router { state, routes: Vec::new() }
}

proof fn lemma_route_map_suffix<H>(r: Seq<(String, Route<H>)>, i: int, k: Seq<char>)
    requires
        0 <= i <= r.len(),
        forall|j: int| i <= j < r.len() ==> #[trigger] r[j].0@ != k,
    ensures
        route_map(r).contains_key(k) == route_map(r.take(i)).contains_key(k),
        route_map(r).contains_key(k) ==> route_map(r)[k] == route_map(r.take(i))[k],
    decreases r.len() - i,
{
    if i < r.len() {
        lemma_route_map_suffix(r.drop_last(), i, k);
        assert(r.drop_last().take(i) =~= r.take(i));
    } else {
        assert(r.take(i) =~= r);
    }
}

proof fn lemma_route_map_last<H>(r: Seq<(String, Route<H>)>, i: int)
    requires
        0 <= i < r.len(),
        forall|j: int| i < j < r.len() ==> #[trigger] r[j].0@ != r[i].0@,
    ensures
        route_map(r).contains_key(r[i].0@),
        route_map(r)[r[i].0@] == r[i].1,
{
    lemma_route_map_suffix(r, i + 1, r[i].0@);
    assert(r.take(i + 1).drop_last() =~= r.take(i));
}

proof fn lemma_route_map_update<H>(r: Seq<(String, Route<H>)>, i: int, v: Route<H>)
    requires
        0 <= i < r.len(),
        forall|j: int| i < j < r.len() ==> #[trigger] r[j].0@ != r[i].0@,
    ensures
        route_map(r.update(i, (r[i].0, v))) == route_map(r).insert(r[i].0@, v),
    decreases r.len(),
{
    let t = r.update(i, (r[i].0, v));
    if i == r.len() - 1 {
        assert(t.drop_last() =~= r.drop_last());
        assert(route_map(t) =~= route_map(r).insert(r[i].0@, v));
    } else {
        lemma_route_map_update(r.drop_last(), i, v);
        assert(t.drop_last() =~= r.drop_last().update(i, (r[i].0, v)));
        assert(route_map(t) =~= route_map(r).insert(r[i].0@, v));
    }
}

impl<S, H> Router<S, H> {
    /// The position of the entry that holds the route of `path`.
    fn find_route(&self, path: &String) -> (r: Option<usize>)
        ensures
            match r {
                Some(i) => i < self.routes@.len() && self.routes@[i as int].0@ == path@ && forall|
                    j: int,
                | i < j < self.routes@.len() ==> #[trigger] self.routes@[j].0@ != path@,
                None => !self@.contains_key(path@),
            },
    {
        let mut i = self.routes.len();
        while i > 0
            invariant
                i <= self.routes@.len(),
                forall|j: int| i <= j < self.routes@.len() ==> #[trigger] self.routes@[j].0@ != path@,
            decreases i,
        {
            if self.routes[i - 1].0 == *path {
                return Some(i - 1);
            }
            i = i - 1;
        }
        proof {
            lemma_route_map_suffix(self.routes@, 0, path@);
            assert(self.routes@.take(0) =~= Seq::<(String, Route<H>)>::empty());
        }
        None
    }

    fn add(self, path: &str, m: Method, handler: H) -> (r: Self)
        requires
            !self.has_handler(path@, m),
        ensures
            r@ == self.with_handler(path@, m, handler),
            r.state() == self.state(),
    {
        let key = owned(path);
        let pos = self.find_route(&key);
        let Router { state, mut routes } = self;
        let ghost before = routes@;
        match pos {
            Some(i) => {
                let (k, route) = routes.remove(i);
                let Route { get, post } = route;
                let route = match m {
                    Method::Get => Route { get: Some(handler), post },
                    Method::Post => Route { get, post: Some(handler) },
                };
                let ghost nr = route;
                routes.insert(i, (k, route));
                proof {
                    assert(routes@ =~= before.update(i as int, (before[i as int].0, nr)));
                    lemma_route_map_update(before, i as int, nr);
                    lemma_route_map_last(before, i as int);
                }
                Router { state, routes }
            },
            None => {
                let route = match m {
                    Method::Get => Route { get: Some(handler), post: None },
                    Method::Post => Route { get: None, post: Some(handler) },
                };
                routes.push((key, route));
                proof {
                    assert(routes@.drop_last() =~= before);
                }
                Router { state, routes }
            },
        }
    }

    /// Registers a handler for POST requests to `path`. A path has at most
    /// one POST handler.
    pub fn post(self, path: &str, handler: H) -> (r: Self)
        requires
            !self.has_handler(path@, Method::Post),
        ensures
            r@ == self.with_handler(path@, Method::Post, handler),
            r.state() == self.state(),
    {
        self.add(path, Method::Post, handler)
    }

    /// Registers a handler for GET requests to `path`. A path has at most
    /// one GET handler.
    pub fn get(self, path: &str, handler: H) -> (r: Self)
        requires
            !self.has_handler(path@, Method::Get),
        ensures
            r@ == self.with_handler(path@, Method::Get, handler),
            r.state() == self.state(),
    {
        self.add(path, Method::Get, handler)
    }
}

} // verus!

verus! {

/// The position of the last `.` in a path, or -1 when there is none.
pub open spec fn last_dot(p: Seq<char>) -> int
    decreases p.len(),
{
    if p.len() == 0 {
        -1
    } else if p.last() == '.' {
        p.len() - 1
    } else {
        last_dot(p.drop_last())
    }
}

/// The extension of a path: what follows its last `.` (the whole path when
/// it has none), in ASCII lower case.
pub open spec fn extension(p: Seq<char>) -> Seq<char> {
    p.skip(last_dot(p) + 1).map_values(|c: char| ascii_lower(c))
}

/// The content type served for a file extension.
pub open spec fn content_type_for_ext(e: Seq<char>) -> Seq<char> {
    if e == "html"@ {
        "text/html; charset=utf-8"@
    } else if e == "css"@ {
        "text/css; charset=utf-8"@
    } else if e == "js"@ || e == "mjs"@ {
        "application/javascript; charset=utf-8"@
    } else if e == "json"@ {
        "application/json; charset=utf-8"@
    } else if e == "svg"@ {
        "image/svg+xml"@
    } else if e == "png"@ {
        "image/png"@
    } else if e == "jpg"@ || e == "jpeg"@ {
        "image/jpeg"@
    } else if e == "gif"@ {
        "image/gif"@
    } else if e == "webp"@ {
        "image/webp"@
    } else if e == "ico"@ {
        "image/x-icon"@
    } else if e == "wasm"@ {
        "application/wasm"@
    } else if e == "txt"@ {
        "text/plain; charset=utf-8"@
    } else if e == "map"@ {
        "application/json; charset=utf-8"@
    } else {
        "application/octet-stream"@
    }
}

proof fn lemma_last_dot_bounds(p: Seq<char>)
    ensures
        -1 <= last_dot(p) < p.len(),
        last_dot(p) >= 0 ==> p[last_dot(p)] == '.',
        forall|k: int| last_dot(p) < k < p.len() ==> p[k] != '.',
    decreases p.len(),
{
    if p.len() > 0 && p.last() != '.' {
        lemma_last_dot_bounds(p.drop_last());
        assert forall|k: int| last_dot(p) < k < p.len() implies p[k] != '.' by {
            if k < p.len() - 1 {
                assert(p[k] == p.drop_last()[k]);
            }
        }
    }
}

/// The content type served for a file path, chosen by its extension.
pub fn content_type_for_path(path: &str) -> (r: &'static str)
    ensures
        r@ == content_type_for_ext(extension(path@)),
{
    let cs = chars_of(path);
    let mut start = cs.len();
    while start > 0 && cs[start - 1] != '.'
        invariant
            start <= cs@.len(),
            forall|k: int| start <= k < cs@.len() ==> cs@[k] != '.',
        decreases start,
    {
        start = start - 1;
    }
    proof {
        lemma_last_dot_bounds(cs@);
        if start > 0 {
            assert(last_dot(cs@) == start - 1) by {
                if last_dot(cs@) > start - 1 {
                    assert(cs@[last_dot(cs@)] == '.');
                }
            }
        } else {
            assert(last_dot(cs@) == -1) by {
                if last_dot(cs@) >= 0 {
                    assert(cs@[last_dot(cs@)] == '.');
                }
            }
        }
    }
    let mut lowered: Vec<char> = Vec::new();
    let mut i = start;
    while i < cs.len()
        invariant
            start <= i <= cs@.len(),
            lowered@ =~= cs@.subrange(start as int, i as int).map_values(|c: char| ascii_lower(c)),
        decreases cs@.len() - i,
    {
        lowered.push(crate::http::lower_ascii(cs[i]));
        i = i + 1;
    }
    assert(cs@.subrange(start as int, cs@.len() as int) =~= cs@.skip(start as int));
    let e = string_from_chars(lowered.as_slice());
    if e == owned("html") {
        "text/html; charset=utf-8"
    } else if e == owned("css") {
        "text/css; charset=utf-8"
    } else if e == owned("js") || e == owned("mjs") {
        "application/javascript; charset=utf-8"
    } else if e == owned("json") {
        "application/json; charset=utf-8"
    } else if e == owned("svg") {
        "image/svg+xml"
    } else if e == owned("png") {
        "image/png"
    } else if e == owned("jpg") || e == owned("jpeg") {
        "image/jpeg"
    } else if e == owned("gif") {
        "image/gif"
    } else if e == owned("webp") {
        "image/webp"
    } else if e == owned("ico") {
        "image/x-icon"
    } else if e == owned("wasm") {
        "application/wasm"
    } else if e == owned("txt") {
        "text/plain; charset=utf-8"
    } else if e == owned("map") {
        "application/json; charset=utf-8"
    } else {
        "application/octet-stream"
    }
}

/// The file looked up for a path that has no route: `/` stands for
/// `/index.html`.
pub open spec fn asset_path(path: Seq<char>) -> Seq<char> {
    if path == "/"@ {
        "/index.html"@
    } else {
        path
    }
}

/// The answer to a request for a path that has no route: the frontend file
/// of `files` with its content type, or 404.
pub open spec fn asset_response(files: Seq<(Seq<char>, Seq<u8>)>, asset: Seq<char>) -> ResponseView {
    match asset_lookup(files, asset) {
        Some(body) => ResponseView {
            status: 200,
            headers: map!["Content-Type"@ => content_type_for_ext(extension(asset))],
            body: Some(body),
        },
        None => bare_response(404),
    }
}

impl<S: Clone, H> Router<S, H> {
    /// Answers a request for `path`: its handler, called with a clone of the
    /// state; 405 when the path has handlers but none for the method; for
    /// any other path, the frontend file of `assets` or 404.
    pub fn handle<E>(&self, path: String, req: Request, assets: &AssetTable) -> (r: Result<
        Response,
        E,
    >) where
        H: Fn(Request, S) -> Result<Response, E>,

        requires
            forall|p: Seq<char>, m: Method, rq: Request, st: S|
                self.has_handler(p, m) ==> #[trigger] self@[p].handler(m)->0.requires((rq, st)),
        ensures
            self.has_handler(path@, req.method) ==> exists|st: S|
                cloned(self.state(), st) && self@[path@].handler(req.method)->0.ensures((req, st), r),
            self@.contains_key(path@) && !self.has_handler(path@, req.method) ==> (r matches Ok(
                resp,
            ) && resp@ == bare_response(405)),
            !self@.contains_key(path@) ==> (r matches Ok(resp) && resp@ == asset_response(
                assets@,
                asset_path(path@),
            )),
    {
        match self.find_route(&path) {
            Some(i) => {
                proof {
                    lemma_route_map_last(self.routes@, i as int);
                }
                let route = &self.routes[i].1;
                let handler = match req.method {
                    Method::Get => &route.get,
                    Method::Post => &route.post,
                };
                match handler {
                    Some(handle) => {
                        let st = self.state.clone();
                        proof {
                            assert(self.has_handler(path@, req.method));
                        }
                        let ghost rq = req;
                        let r = handle(req, st);
                        proof {
                            assert(cloned(self.state(), st));
                            assert(self@[path@].handler(rq.method)->0.ensures((rq, st), r));
                        }
                        r
                    },
                    None => Ok(method_not_allowed()),
                }
            },
            None => {
                let asset = if path == owned("/") {
                    owned("/index.html")
                } else {
                    path
                };
                match ui_assets::get(assets, asset.as_str()) {
                    Some(body) => {
                        let resp = Response::builder(StatusCode::ok()).header(
                            owned("Content-Type"),
                            owned(content_type_for_path(asset.as_str())),
                        ).body(body);
                        Ok(resp)
                    },
                    None => Ok(not_found()),
                }
            },
        }
    }
}

} // verus!

verus! {

/// Registering a handler for a path and a method installs it there and
/// leaves every other path, and the other method of the same path, as they
/// were.
pub proof fn law_registration_frame<S, H>(
    r: Router<S, H>,
    path: Seq<char>,
    m: Method,
    h: H,
    other: Seq<char>,
    m2: Method,
)
    ensures
        r.with_handler(path, m, h)[path].handler(m) == Some(h),
        m2 != m ==> r.with_handler(path, m, h)[path].handler(m2) == (if r@.contains_key(path) {
            r@[path].handler(m2)
        } else {
            None
        }),
        other != path ==> (r.with_handler(path, m, h).contains_key(other) == r@.contains_key(other)
            && (r@.contains_key(other) ==> r.with_handler(path, m, h)[other] == r@[other])),
{
}

} // verus!
