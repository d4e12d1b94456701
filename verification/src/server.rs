//! The route table and the decisions of the connection pipeline:
//! registration, the ordering of the routes at start, admission of a
//! request, and its resolution to a handler, a static file or a refusal.

use crate::request::Request;
use crate::seqs::{count_of, count_symbol, matches_at, starts_with};
use crate::strmap::StringMap;
use crate::structs::{HttpServerError, RequestType, RequestTypeView, ResponseCode};
use crate::text::{chars_of, string_of, string_of_range};
use crate::url::{has_param, path_params, pattern_has_param, shape_matches, Url};
use vstd::prelude::*;
use vstd::string::StringExecFns;

verus! {

/// A pattern has as many opening as closing brackets.
pub open spec fn balanced(path: Seq<char>) -> bool {
    count_of(path, '[') == count_of(path, ']')
}

/// Whether the pattern `path` has as many opening as closing brackets.
pub fn is_balanced(path: &str) -> (r: bool)
    ensures
        r == balanced(path@),
{
    let chars = chars_of(path);
    count_symbol(chars.as_slice(), '[') == count_symbol(chars.as_slice(), ']')
}

/// A registered route: a pattern, a method and the handler to call.
pub struct EndPoint<H> {
    pub path: String,
    pub req_type: RequestType,
    pub handle: H,
}

/// The mathematical value of an [`EndPoint`].
pub struct EndPointView<H> {
    pub path: Seq<char>,
    pub req_type: RequestTypeView,
    pub handle: H,
}

impl<H> View for EndPoint<H> {
    type V = EndPointView<H>;

    open spec fn view(&self) -> EndPointView<H> {
        EndPointView { path: self.path@, req_type: self.req_type@, handle: self.handle }
    }
}

impl<H> DeepView for EndPoint<H> {
    type V = EndPointView<H>;

    open spec fn deep_view(&self) -> EndPointView<H> {
        self@
    }
}

impl<H> EndPoint<H> {
    /// A route for a pattern with balanced brackets.
    pub fn new(path: String, req_type: RequestType, handle: H) -> (e: EndPoint<H>)
        requires
            balanced(path@),
        ensures
            e@ == (EndPointView { path: path@, req_type: req_type@, handle }),
    {
        EndPoint { path, req_type, handle }
    }
}

/// A pattern with a parameter in it: one of its segments has the form
/// `[name]`.
pub open spec fn patterned(path: Seq<char>) -> bool {
    has_param(path)
}

/// The pattern `a` may stand before the pattern `b`: patterns without
/// parameters come before those with, and within each kind the shorter
/// comes first.
pub open spec fn before_or_same(a: Seq<char>, b: Seq<char>) -> bool {
    if patterned(a) == patterned(b) {
        a.len() <= b.len()
    } else {
        !patterned(a)
    }
}

/// The place of a route with the pattern `path` in the ordered routes
/// `sorted`, looked for from `from` on: before the first route that may not
/// stand before it, and so after every route of the same rank.
pub open spec fn slot<H>(sorted: Seq<EndPointView<H>>, path: Seq<char>, from: int) -> int
    decreases sorted.len() - from,
{
    if from < 0 || from >= sorted.len() {
        sorted.len() as int
    } else if !before_or_same(sorted[from].path, path) {
        from
    } else {
        slot(sorted, path, from + 1)
    }
}

/// The routes in the order of dispatch: each route, in the order of
/// registration, is put at its place among those before it.
pub open spec fn ordered<H>(routes: Seq<EndPointView<H>>) -> Seq<EndPointView<H>>
    decreases routes.len(),
{
    if routes.len() == 0 {
        routes
    } else {
        let front = ordered(routes.drop_last());
        front.insert(slot(front, routes.last().path, 0), routes.last())
    }
}

/// Each route may stand before the next.
pub open spec fn in_order<H>(routes: Seq<EndPointView<H>>) -> bool {
    forall|i: int, j: int|
        0 <= i < j < routes.len() ==> before_or_same(
            (#[trigger] routes[i]).path,
            (#[trigger] routes[j]).path,
        )
}

/// Whether the pattern `a` may stand before the pattern `b`.
pub fn may_precede(a: &str, b: &str) -> (r: bool)
    ensures
        r == before_or_same(a@, b@),
{
    let x = chars_of(a);
    let y = chars_of(b);
    let px = pattern_has_param(x.as_slice());
    let py = pattern_has_param(y.as_slice());
    if px == py {
        x.len() <= y.len()
    } else {
        !px
    }
}

/// Puts the routes in the order of dispatch: those without parameters
/// first, the shorter first within each kind, and the rest as registered.
pub fn order_routes<H>(routes: &mut Vec<EndPoint<H>>)
    ensures
        final(routes).deep_view() == ordered(old(routes).deep_view()),
{
    let n = routes.len();
    let ghost start = routes.deep_view();
    let mut i: usize = 0;
    assert(start.take(0) =~= Seq::<EndPointView<H>>::empty());
    assert(ordered(start.take(0)) + start.skip(0) =~= start);
    while i < n
        invariant
            i <= n == start.len(),
            routes@.len() == n,
            start == old(routes).deep_view(),
            routes.deep_view() == ordered(start.take(i as int)) + start.skip(i as int),
            ordered(start.take(i as int)).len() == i,
        decreases n - i,
    {
        let ghost front = ordered(start.take(i as int));
        let ghost before = routes.deep_view();
        assert(before[i as int] == routes@[i as int]@);
        assert(before[i as int] == start[i as int]);
        let item = routes.remove(i);
        assert(routes.deep_view() =~= before.remove(i as int));
        assert(routes.deep_view() =~= front + start.skip(i + 1));
        assert(item@ == start[i as int]);
        let mut j: usize = 0;
        while j < i && may_precede(routes[j].path.as_str(), item.path.as_str())
            invariant
                j <= i == front.len(),
                i < n,
                routes.deep_view() == front + start.skip(i + 1),
                routes@.len() == n - 1,
                slot(front, item@.path, 0) == slot(front, item@.path, j as int),
            decreases i - j,
        {
            assert(routes.deep_view()[j as int] == front[j as int]);
            j += 1;
        }
        proof {
            if j < i {
                assert(routes.deep_view()[j as int] == front[j as int]);
            }
            assert(slot(front, item@.path, 0) == j);
            assert(start.take(i + 1).drop_last() =~= start.take(i as int));
            assert(start.take(i + 1).last() == item@);
        }
        let ghost middle = routes.deep_view();
        routes.insert(j, item);
        assert(routes.deep_view() =~= middle.insert(j as int, item@));
        assert(routes.deep_view() =~= front.insert(j as int, item@) + start.skip(i + 1));
        i += 1;
    }
    assert(start.take(n as int) =~= start);
    assert(routes.deep_view() =~= ordered(start));
}

/// A pattern as it is stored: without a slash at its end, unless it is the
/// root.
pub open spec fn normal_path(path: Seq<char>) -> Seq<char> {
    if path.len() > 1 && path.last() == '/' {
        path.drop_last()
    } else {
        path
    }
}

/// A route with the pattern `path` and the method `method` is registered.
pub open spec fn has_route<H>(
    routes: Seq<EndPointView<H>>,
    path: Seq<char>,
    method: RequestTypeView,
) -> bool {
    exists|i: int|
        0 <= i < routes.len() && (#[trigger] routes[i]).path == path && routes[i].req_type
            == method
}

/// A static prefix `path` is registered.
pub open spec fn has_static(statics: Seq<(Seq<char>, Seq<char>)>, path: Seq<char>) -> bool {
    exists|i: int| 0 <= i < statics.len() && (#[trigger] statics[i]).0 == path
}

/// What a successful start hands to the dispatcher: where to bind, and how
/// many workers to run.
pub struct Listening {
    pub address: String,
    pub port: u32,
    pub workers: usize,
}

/// A refusal of a request before it is routed: the status to reply with and
/// the error to report. The declared body is drained first.
pub struct Rejection {
    pub code: ResponseCode,
    pub error: HttpServerError,
}

/// The status that refuses a request before it is routed, if any: 400 for a
/// GET or HEAD that declares a body, else 413 for a declared length above a
/// maximum that is set. A maximum of 0 sets none.
pub open spec fn admission(
    max_content_length: usize,
    method: RequestTypeView,
    content_length: usize,
) -> Option<ResponseCode> {
    if content_length > 0 && (method == RequestTypeView::Get || method == RequestTypeView::Head) {
        Some(ResponseCode::BadRequest)
    } else if max_content_length > 0 && content_length > max_content_length {
        Some(ResponseCode::ContentTooLarge)
    } else {
        None
    }
}

/// The first route at or after `from` whose pattern has the shape of
/// `path`, or -1.
pub open spec fn first_shape<H>(routes: Seq<EndPointView<H>>, path: Seq<char>, from: int) -> int
    decreases routes.len() - from,
{
    if from < 0 || from >= routes.len() {
        -1
    } else if shape_matches(path, routes[from].path) {
        from
    } else {
        first_shape(routes, path, from + 1)
    }
}

/// The first route at or after `from` whose pattern has the shape of `path`
/// and whose method is `method`, or -1.
pub open spec fn first_route<H>(
    routes: Seq<EndPointView<H>>,
    path: Seq<char>,
    method: RequestTypeView,
    from: int,
) -> int
    decreases routes.len() - from,
{
    if from < 0 || from >= routes.len() {
        -1
    } else if shape_matches(path, routes[from].path) && routes[from].req_type == method {
        from
    } else {
        first_route(routes, path, method, from + 1)
    }
}

/// The first static prefix at or after `from` that `path` begins with, or -1.
pub open spec fn first_static(statics: Seq<(Seq<char>, Seq<char>)>, path: Seq<char>, from: int) -> int
    decreases statics.len() - from,
{
    if from < 0 || from >= statics.len() {
        -1
    } else if starts_with(path, statics[from].0) {
        from
    } else {
        first_static(statics, path, from + 1)
    }
}

/// Where a request goes, in the model.
pub enum RouteView {
    /// Nowhere: it is refused with the status `code` before it is routed.
    Refused { code: ResponseCode, error: Seq<char> },
    /// To the handler of the route at `index`, with the path parameters.
    Handler { index: int, params: Map<Seq<char>, Seq<char>> },
    /// Nowhere: routes have the shape of the path, but none has the method.
    MethodNotAllowed,
    /// To the file `file` under a static folder.
    Static { file: Seq<char> },
    /// Nowhere.
    NotFound,
}

/// Where a request for `path` with the method `method` goes, past the
/// admission.
///
/// Where a route has the shape of the path, the first such route with the
/// method handles it, with the parameters that its pattern binds, and none
/// with the method refuses it. Without such a route the first static prefix
/// that the path begins with serves it: the file is the folder with what
/// follows the prefix in the path.
pub open spec fn lookup<H>(
    routes: Seq<EndPointView<H>>,
    statics: Seq<(Seq<char>, Seq<char>)>,
    path: Seq<char>,
    method: RequestTypeView,
) -> RouteView {
    if first_shape(routes, path, 0) >= 0 {
        if first_route(routes, path, method, 0) >= 0 {
            RouteView::Handler {
                index: first_route(routes, path, method, 0),
                params: path_params(path, routes[first_route(routes, path, method, 0)].path),
            }
        } else {
            RouteView::MethodNotAllowed
        }
    } else {
        let k = first_static(statics, path, 0);
        if k >= 0 {
            RouteView::Static {
                file: statics[k].1 + path.subrange(statics[k].0.len() as int, path.len() as int),
            }
        } else {
            RouteView::NotFound
        }
    }
}

/// Where a request goes: a request that the admission refuses goes
/// nowhere, whatever the routes; any other goes where the routes send it.
pub open spec fn resolution<H>(
    max_content_length: usize,
    routes: Seq<EndPointView<H>>,
    statics: Seq<(Seq<char>, Seq<char>)>,
    path: Seq<char>,
    method: RequestTypeView,
    content_length: usize,
) -> RouteView {
    match admission(max_content_length, method, content_length) {
        Some(code) => RouteView::Refused { code, error: refusal_reason(code) },
        None => lookup(routes, statics, path, method),
    }
}

/// The error that goes with a refusal before routing.
pub open spec fn refusal_reason(code: ResponseCode) -> Seq<char> {
    if code == ResponseCode::BadRequest {
        "Bad request!"@
    } else {
        "Content too large!"@
    }
}

/// Where a request goes.
pub enum Route {
    Refused { code: ResponseCode, error: HttpServerError },
    Handler { index: usize, params: StringMap },
    MethodNotAllowed,
    Static { file: String },
    NotFound,
}

impl View for Route {
    type V = RouteView;

    open spec fn view(&self) -> RouteView {
        match self {
            Route::Refused { code, error } => RouteView::Refused { code: *code, error: error@ },
            Route::Handler { index, params } => RouteView::Handler {
                index: *index as int,
                params: params@,
            },
            Route::MethodNotAllowed => RouteView::MethodNotAllowed,
            Route::Static { file } => RouteView::Static { file: file@ },
            Route::NotFound => RouteView::NotFound,
        }
    }
}

/// The route table and the limits of a server, before and after its start.
/// Routes come in by registration only, and the start is final.
pub struct Server<H> {
    active: bool,
    max_content_length: usize,
    endpoints: Vec<EndPoint<H>>,
    static_endpoints: Vec<(String, String)>,
}

/// The mathematical value of a [`Server`]: whether it has been started, the
/// largest declared body it takes (0 for any), its routes in order, and its
/// static prefixes with their folders in order.
pub struct ServerView<H> {
    pub active: bool,
    pub max_content_length: usize,
    pub routes: Seq<EndPointView<H>>,
    pub statics: Seq<(Seq<char>, Seq<char>)>,
}

impl<H> View for Server<H> {
    type V = ServerView<H>;

    closed spec fn view(&self) -> ServerView<H> {
        ServerView {
            active: self.active,
            max_content_length: self.max_content_length,
            routes: self.endpoints.deep_view(),
            statics: self.static_endpoints.deep_view(),
        }
    }
}

impl<H> ServerView<H> {
    /// What holds of every server: the pattern of every route has balanced
    /// brackets, no two routes have the same pattern and method, and no two
    /// static prefixes are the same.
    pub open spec fn wf(self) -> bool {
        &&& forall|i: int| 0 <= i < self.routes.len() ==> balanced((#[trigger] self.routes[i]).path)
        &&& forall|i: int, j: int|
            0 <= i < j < self.routes.len() ==> !((#[trigger] self.routes[i]).path == (
            #[trigger] self.routes[j]).path && self.routes[i].req_type == self.routes[j].req_type)
        &&& forall|i: int, j: int|
            0 <= i < j < self.statics.len() ==> (#[trigger] self.statics[i]).0 != (
            #[trigger] self.statics[j]).0
    }

    /// A route for `path` and `method` can be registered: the server is not
    /// started, and the stored pattern is neither taken with this method
    /// nor a static prefix.
    pub open spec fn accepts(self, path: Seq<char>, method: RequestTypeView) -> bool {
        &&& !self.active
        &&& !has_route(self.routes, normal_path(path), method)
        &&& !has_static(self.statics, normal_path(path))
    }

    /// The outcome `r` of registering a route for `path` and `method` with
    /// the handler `handle` on the server `self`, which it turns into
    /// `after`. After the start, and for a pattern and method that are
    /// taken, or a pattern that is a static prefix, it fails and changes
    /// nothing; else it adds the route at the end.
    pub open spec fn registers(
        self,
        after: ServerView<H>,
        path: Seq<char>,
        method: RequestTypeView,
        handle: H,
        r: Result<(), HttpServerError>,
    ) -> bool {
        let stored = normal_path(path);
        match r {
            Ok(_) => {
                &&& self.accepts(path, method)
                &&& after.active == self.active
                &&& after.max_content_length == self.max_content_length
                &&& after.statics == self.statics
                &&& after.routes.len() == self.routes.len() + 1
                &&& after.routes.drop_last() == self.routes
                &&& after.routes.last() == (EndPointView { path: stored, req_type: method, handle })
            },
            Err(e) => {
                &&& after == self
                &&& !self.accepts(path, method)
                &&& e@ == if self.active {
                    "Server is already running!"@
                } else {
                    "Endpoint already exists!"@
                }
            },
        }
    }

    /// The outcome `r` of registering the static prefix `path` for the
    /// folder `folder`.
    pub open spec fn registers_static(
        self,
        after: ServerView<H>,
        path: Seq<char>,
        folder: Seq<char>,
        folder_is_dir: bool,
        r: Result<(), HttpServerError>,
    ) -> bool {
        let stored = normal_path(path);
        match r {
            Ok(_) => {
                &&& !self.active
                &&& folder_is_dir
                &&& !has_route(self.routes, stored, RequestTypeView::Get)
                &&& !has_static(self.statics, stored)
                &&& after.active == self.active
                &&& after.max_content_length == self.max_content_length
                &&& after.routes == self.routes
                &&& after.statics.len() == self.statics.len() + 1
                &&& after.statics.drop_last() == self.statics
                &&& after.statics.last() == (stored, folder)
            },
            Err(e) => {
                &&& after == self
                &&& if self.active {
                    e@ == "Server is already running!"@
                } else if !folder_is_dir {
                    e@ == "Folder does not exist or the path provided is a file!"@
                } else {
                    &&& has_route(self.routes, stored, RequestTypeView::Get) || has_static(
                        self.statics,
                        stored,
                    )
                    &&& e@ == "Endpoint already exists!"@
                }
            },
        }
    }

    /// The outcome `r` of starting the server on `port`. A port above 65535
    /// and a second start fail and change nothing; else the server is
    /// active and its routes are in the order of dispatch.
    pub open spec fn starts(
        self,
        after: ServerView<H>,
        port: u32,
        address: Option<&str>,
        r: Result<Listening, HttpServerError>,
    ) -> bool {
        match r {
            Ok(listening) => {
                &&& port <= 65535
                &&& !self.active
                &&& after.active
                &&& after.max_content_length == self.max_content_length
                &&& after.statics == self.statics
                &&& after.routes == ordered(self.routes)
                &&& listening.port == port
                &&& listening.address@ == match address {
                    Some(a) => a@,
                    None => "0.0.0.0"@,
                }
            },
            Err(e) => {
                &&& after == self
                &&& if port > 65535 {
                    e@ == "Invalid port: port must be 0-65,535"@
                } else {
                    self.active && e@ == "The server is already running!"@
                }
            },
        }
    }
}

impl<H> Server<H> {
    /// Balanced patterns, and no route or static prefix twice.
    #[verifier::type_invariant]
    spec fn well_formed(&self) -> bool {
        self@.wf()
    }

    /// A server that is not started, with no route. A maximum content
    /// length of 0, or none, sets no limit.
    pub fn new(max_content_length: Option<usize>) -> (server: Server<H>)
        ensures
            server@ == (ServerView::<H> {
                active: false,
                max_content_length: match max_content_length {
                    Some(n) => n,
                    None => 0,
                },
                routes: Seq::empty(),
                statics: Seq::empty(),
            }),
    {
        let server = Server {
            active: false,
            max_content_length: match max_content_length {
                Some(n) => n,
                None => 0,
            },
            endpoints: Vec::new(),
            static_endpoints: Vec::new(),
        };
        assert(server.endpoints.deep_view() =~= Seq::<EndPointView<H>>::empty());
        assert(server.static_endpoints.deep_view() =~= Seq::<(Seq<char>, Seq<char>)>::empty());
        server
    }

    /// Whether the server has been started.
    pub fn is_active(&self) -> (r: bool)
        ensures
            r == self@.active,
            self@.wf(),
    {
        proof {
            use_type_invariant(self);
        }
        self.active
    }

    /// The largest declared body that a request may have; 0 for any.
    pub fn max_content_length(&self) -> (n: usize)
        ensures
            n == self@.max_content_length,
    {
        self.max_content_length
    }

    /// The routes: in the order of registration before the start, in the
    /// order of dispatch after it.
    pub fn endpoints(&self) -> (routes: &Vec<EndPoint<H>>)
        ensures
            routes.deep_view() == self@.routes,
            self@.wf(),
    {
        proof {
            use_type_invariant(self);
        }
        &self.endpoints
    }

    /// The static prefixes with their folders, in the order of registration.
    pub fn static_endpoints(&self) -> (statics: &Vec<(String, String)>)
        ensures
            statics.deep_view() == self@.statics,
            self@.wf(),
    {
        proof {
            use_type_invariant(self);
        }
        &self.static_endpoints
    }

    /// A copy of the server for a worker.
    pub fn snapshot(&self) -> (copy: Server<H>) where H: Copy
        ensures
            copy@ == self@,
    {
        let mut endpoints: Vec<EndPoint<H>> = Vec::new();
        let mut i: usize = 0;
        while i < self.endpoints.len()
            invariant
                i <= self.endpoints@.len(),
                endpoints@.len() == i,
                forall|k: int| 0 <= k < i ==> (#[trigger] endpoints@[k])@ == self.endpoints@[k]@,
            decreases self.endpoints.len() - i,
        {
            let route = &self.endpoints[i];
            endpoints.push(
                EndPoint {
                    path: route.path.clone(),
                    req_type: route.req_type.clone(),
                    handle: route.handle,
                },
            );
            i += 1;
        }
        let mut static_endpoints: Vec<(String, String)> = Vec::new();
        let mut k: usize = 0;
        while k < self.static_endpoints.len()
            invariant
                k <= self.static_endpoints@.len(),
                static_endpoints@.len() == k,
                forall|j: int|
                    0 <= j < k ==> (#[trigger] static_endpoints@[j]).0@
                        == self.static_endpoints@[j].0@ && static_endpoints@[j].1@
                        == self.static_endpoints@[j].1@,
            decreases self.static_endpoints.len() - k,
        {
            let prefix = self.static_endpoints[k].0.clone();
            let folder = self.static_endpoints[k].1.clone();
            static_endpoints.push((prefix, folder));
            k += 1;
        }
        proof {
            use_type_invariant(self);
        }
        assert(endpoints.deep_view() =~= self.endpoints.deep_view());
        assert(static_endpoints.deep_view() =~= self.static_endpoints.deep_view());
        Server {
            active: self.active,
            max_content_length: self.max_content_length,
            endpoints,
            static_endpoints,
        }
    }

    /// The pattern as it is stored.
    fn stored_path(path: &str) -> (out: String)
        ensures
            out@ == normal_path(path@),
    {
        let chars = chars_of(path);
        let n = chars.len();
        if n > 1 && chars[n - 1] == '/' {
            assert(chars@.drop_last() =~= chars@.subrange(0, n - 1));
            string_of_range(chars.as_slice(), 0, n - 1)
        } else {
            string_of(chars.as_slice())
        }
    }

    /// Whether a route with this pattern and method is registered.
    fn route_exists(&self, path: &String, method: &RequestType) -> (r: bool)
        ensures
            r == has_route(self@.routes, path@, method@),
    {
        let mut i: usize = 0;
        while i < self.endpoints.len()
            invariant
                i <= self.endpoints@.len(),
                forall|j: int|
                    0 <= j < i ==> !((#[trigger] self.endpoints.deep_view()[j]).path == path@
                        && self.endpoints.deep_view()[j].req_type == method@),
            decreases self.endpoints.len() - i,
        {
            assert(self.endpoints.deep_view()[i as int] == self.endpoints@[i as int]@);
            if self.endpoints[i].path == *path && self.endpoints[i].req_type.same(method) {
                return true;
            }
            i += 1;
        }
        false
    }

    /// Whether this static prefix is registered.
    fn static_exists(&self, path: &String) -> (r: bool)
        ensures
            r == has_static(self@.statics, path@),
    {
        let mut i: usize = 0;
        while i < self.static_endpoints.len()
            invariant
                i <= self.static_endpoints@.len(),
                forall|j: int|
                    0 <= j < i ==> (#[trigger] self.static_endpoints.deep_view()[j]).0 != path@,
            decreases self.static_endpoints.len() - i,
        {
            assert(self.static_endpoints.deep_view()[i as int].0 == self.static_endpoints@[i as int].0@);
            if self.static_endpoints[i].0 == *path {
                return true;
            }
            i += 1;
        }
        false
    }

    /// Registers a static prefix: requests below `path` are served from
    /// `folder`. Whether the folder is there is for the caller to find out.
    pub fn new_static(&mut self, path: &str, folder: &str, folder_is_dir: bool) -> (r: Result<
        (),
        HttpServerError,
    >)
        ensures
            old(self)@.registers_static(final(self)@, path@, folder@, folder_is_dir, r),
    {
        if self.active {
            return Err(HttpServerError::new("Server is already running!"));
        }
        if !folder_is_dir {
            return Err(
                HttpServerError::new("Folder does not exist or the path provided is a file!"),
            );
        }
        let stored = Self::stored_path(path);
        if self.route_exists(&stored, &RequestType::Get) || self.static_exists(&stored) {
            return Err(HttpServerError::new("Endpoint already exists!"));
        }
        proof {
            use_type_invariant(&*self);
        }
        let ghost before = self.static_endpoints.deep_view();
        let mut statics: Vec<(String, String)> = Vec::new();
        std::mem::swap(&mut self.static_endpoints, &mut statics);
        statics.push((stored, folder.to_owned()));
        assert(statics.deep_view().drop_last() =~= before);
        assert forall|i: int, j: int| 0 <= i < j < statics.deep_view().len() implies (
        #[trigger] statics.deep_view()[i]).0 != (#[trigger] statics.deep_view()[j]).0 by {
            assert(statics.deep_view()[i] == before[i]);
            if j < before.len() {
                assert(statics.deep_view()[j] == before[j]);
            }
        }
        std::mem::swap(&mut self.static_endpoints, &mut statics);
        Ok(())
    }

    /// Whether a route for `path` and `req_type` can be registered. A
    /// pattern that can be registered has to have balanced brackets.
    pub fn can_register(&self, path: &str, req_type: &RequestType) -> (r: bool)
        ensures
            r == self@.accepts(path@, req_type@),
    {
        if self.active {
            return false;
        }
        let stored = Self::stored_path(path);
        !self.route_exists(&stored, req_type) && !self.static_exists(&stored)
    }

    /// Registers a route for the pattern `path` and the method `req_type`.
    /// The brackets of a pattern that can be registered must be balanced.
    pub fn new_endpoint(&mut self, path: &str, req_type: RequestType, handle: H) -> (r: Result<
        (),
        HttpServerError,
    >)
        requires
            old(self)@.accepts(path@, req_type@) ==> balanced(path@),
        ensures
            old(self)@.registers(final(self)@, path@, req_type@, handle, r),
    {
        if self.active {
            return Err(HttpServerError::new("Server is already running!"));
        }
        let stored = Self::stored_path(path);
        if self.route_exists(&stored, &req_type) || self.static_exists(&stored) {
            return Err(HttpServerError::new("Endpoint already exists!"));
        }
        proof {
            use_type_invariant(&*self);
            lemma_normal_balanced(path@);
        }
        let ghost before = self.endpoints.deep_view();
        let mut routes: Vec<EndPoint<H>> = Vec::new();
        std::mem::swap(&mut self.endpoints, &mut routes);
        routes.push(EndPoint::new(stored, req_type, handle));
        assert(routes.deep_view().drop_last() =~= before);
        assert forall|i: int| 0 <= i < routes.deep_view().len() implies balanced(
            (#[trigger] routes.deep_view()[i]).path,
        ) by {
            if i < before.len() {
                assert(routes.deep_view()[i] == before[i]);
            }
        }
        assert forall|i: int, j: int| 0 <= i < j < routes.deep_view().len() implies !((
        #[trigger] routes.deep_view()[i]).path == (#[trigger] routes.deep_view()[j]).path
            && routes.deep_view()[i].req_type == routes.deep_view()[j].req_type) by {
            assert(routes.deep_view()[i] == before[i]);
            if j < before.len() {
                assert(routes.deep_view()[j] == before[j]);
            }
        }
        std::mem::swap(&mut self.endpoints, &mut routes);
        Ok(())
    }

    /// Registers a GET route.
    pub fn get(&mut self, path: &str, handle: H) -> (r: Result<(), HttpServerError>)
        requires
            old(self)@.accepts(path@, RequestTypeView::Get) ==> balanced(path@),
        ensures
            old(self)@.registers(final(self)@, path@, RequestTypeView::Get, handle, r),
    {
        self.new_endpoint(path, RequestType::Get, handle)
    }

    /// Registers a POST route.
    pub fn post(&mut self, path: &str, handle: H) -> (r: Result<(), HttpServerError>)
        requires
            old(self)@.accepts(path@, RequestTypeView::Post) ==> balanced(path@),
        ensures
            old(self)@.registers(final(self)@, path@, RequestTypeView::Post, handle, r),
    {
        self.new_endpoint(path, RequestType::Post, handle)
    }

    /// Registers a PUT route.
    pub fn put(&mut self, path: &str, handle: H) -> (r: Result<(), HttpServerError>)
        requires
            old(self)@.accepts(path@, RequestTypeView::Put) ==> balanced(path@),
        ensures
            old(self)@.registers(final(self)@, path@, RequestTypeView::Put, handle, r),
    {
        self.new_endpoint(path, RequestType::Put, handle)
    }

    /// Registers a DELETE route.
    pub fn delete(&mut self, path: &str, handle: H) -> (r: Result<(), HttpServerError>)
        requires
            old(self)@.accepts(path@, RequestTypeView::Delete) ==> balanced(path@),
        ensures
            old(self)@.registers(final(self)@, path@, RequestTypeView::Delete, handle, r),
    {
        self.new_endpoint(path, RequestType::Delete, handle)
    }

    /// Registers a route for any method.
    pub fn on(&mut self, req_type: RequestType, path: &str, handle: H) -> (r: Result<
        (),
        HttpServerError,
    >)
        requires
            old(self)@.accepts(path@, req_type@) ==> balanced(path@),
        ensures
            old(self)@.registers(final(self)@, path@, req_type@, handle, r),
    {
        self.new_endpoint(path, req_type, handle)
    }

    /// Starts the server with `workers` workers: checks the port, marks the
    /// server active and puts the routes in the order of dispatch.
    pub fn start(&mut self, port: u32, address: Option<&str>, workers: usize) -> (r: Result<
        Listening,
        HttpServerError,
    >)
        ensures
            old(self)@.starts(final(self)@, port, address, r),
            r matches Ok(listening) ==> listening.workers == workers,
    {
        if port > 65535 {
            return Err(HttpServerError::new("Invalid port: port must be 0-65,535"));
        }
        if self.active {
            return Err(HttpServerError::new("The server is already running!"));
        }
        proof {
            use_type_invariant(&*self);
            lemma_ordered_wf(self@);
        }
        self.active = true;
        let mut routes: Vec<EndPoint<H>> = Vec::new();
        std::mem::swap(&mut self.endpoints, &mut routes);
        order_routes(&mut routes);
        std::mem::swap(&mut self.endpoints, &mut routes);
        let address = match address {
            Some(a) => a.to_owned(),
            None => "0.0.0.0".to_owned(),
        };
        Ok(Listening { address, port, workers })
    }

    /// Starts the server with as many workers as `threads` says, or as the
    /// machine has logical cores.
    pub fn listen(&mut self, port: u32, address: Option<&str>, threads: Option<usize>) -> (r:
        Result<Listening, HttpServerError>)
        ensures
            old(self)@.starts(final(self)@, port, address, r),
            r matches Ok(listening) ==> match threads {
                Some(n) => listening.workers == n,
                None => listening.workers >= 1,
            },
    {
        let workers = match threads {
            Some(n) => n,
            None => logical_cores(),
        };
        self.start(port, address, workers)
    }

    /// Whether a request is refused before it is routed, and how.
    pub fn check_policy(&self, url: &Url, req: &Request) -> (r: Option<Rejection>)
        ensures
            match r {
                Some(rejection) => {
                    &&& admission(self@.max_content_length, url.req_type@, req.content_length)
                        == Some(rejection.code)
                    &&& rejection.error@ == refusal_reason(rejection.code)
                },
                None => admission(self@.max_content_length, url.req_type@, req.content_length)
                    is None,
            },
    {
        let has_body = req.content_length > 0;
        let bodiless = match url.req_type {
            RequestType::Get => true,
            RequestType::Head => true,
            _ => false,
        };
        if has_body && bodiless {
            return Some(
                Rejection {
                    code: ResponseCode::BadRequest,
                    error: HttpServerError::new("Bad request!"),
                },
            );
        }
        if self.max_content_length > 0 && req.content_length > self.max_content_length {
            return Some(
                Rejection {
                    code: ResponseCode::ContentTooLarge,
                    error: HttpServerError::new("Content too large!"),
                },
            );
        }
        None
    }

    /// Where the request goes. A request that the admission refuses reaches
    /// no handler and no file.
    pub fn resolve(&self, url: &Url, req: &Request) -> (r: Route)
        ensures
            r@ == resolution(
                self@.max_content_length,
                self@.routes,
                self@.statics,
                url.path@,
                url.req_type@,
                req.content_length,
            ),
            r matches Route::Handler { index, .. } ==> index < self@.routes.len(),
    {
        match self.check_policy(url, req) {
            Some(rejection) => {
                return Route::Refused { code: rejection.code, error: rejection.error };
            },
            None => {},
        }
        self.find_route(url)
    }

    /// Where the routes send the request `url`.
    fn find_route(&self, url: &Url) -> (r: Route)
        ensures
            r@ == lookup(self@.routes, self@.statics, url.path@, url.req_type@),
            r matches Route::Handler { index, .. } ==> index < self@.routes.len(),
    {
        let mut shaped = false;
        let mut chosen: Option<usize> = None;
        let mut params = StringMap::new();
        let n = self.endpoints.len();
        let mut i: usize = n;
        while i > 0
            invariant
                i <= n == self.endpoints@.len(),
                shaped == (first_shape(self.endpoints.deep_view(), url.path@, i as int) >= 0),
                match chosen {
                    Some(k) => k < n && first_route(
                        self.endpoints.deep_view(),
                        url.path@,
                        url.req_type@,
                        i as int,
                    ) == k,
                    None => first_route(
                        self.endpoints.deep_view(),
                        url.path@,
                        url.req_type@,
                        i as int,
                    ) == -1,
                },
                chosen matches Some(k) ==> params@ == path_params(
                    url.path@,
                    self.endpoints.deep_view()[k as int].path,
                ),
            decreases i,
        {
            i -= 1;
            let route = &self.endpoints[i];
            assert(self.endpoints.deep_view()[i as int] == route@);
            let (matched, bound) = Url::match_patern(url.path.as_str(), route.path.as_str());
            if matched {
                shaped = true;
                if route.req_type.same(&url.req_type) {
                    chosen = Some(i);
                    params = bound;
                }
            }
        }
        if shaped {
            return match chosen {
                Some(index) => Route::Handler { index, params },
                None => Route::MethodNotAllowed,
            };
        }
        let path = chars_of(url.path.as_str());
        let mut k: usize = 0;
        while k < self.static_endpoints.len()
            invariant
                k <= self.static_endpoints@.len(),
                path@ == url.path@,
                !(first_shape(self.endpoints.deep_view(), url.path@, 0) >= 0),
                first_static(self.static_endpoints.deep_view(), url.path@, 0) == first_static(
                    self.static_endpoints.deep_view(),
                    url.path@,
                    k as int,
                ),
            decreases self.static_endpoints.len() - k,
        {
            let prefix = chars_of(self.static_endpoints[k].0.as_str());
            assert(self.static_endpoints.deep_view()[k as int] == (
                self.static_endpoints@[k as int].0@,
                self.static_endpoints@[k as int].1@,
            ));
            if matches_at(path.as_slice(), prefix.as_slice(), 0) {
                let mut file = self.static_endpoints[k].1.clone();
                let rest = string_of_range(path.as_slice(), prefix.len(), path.len());
                file.append(rest.as_str());
                return Route::Static { file };
            }
            k += 1;
        }
        Route::NotFound
    }

    /// Decodes the head of a request from its lines: the request line, then
    /// the header lines.
    pub fn decode_head(lines: &Vec<&str>) -> (r: Result<(Url, Request), HttpServerError>)
        ensures
            lines@.len() == 0 ==> r is Err && r->Err_0@ == "No headers!"@,
            lines@.len() > 0 ==> match r {
                Ok((url, req)) => {
                    &&& Url::parse_result(lines@[0]@) == Ok::<crate::url::UrlView, Seq<char>>(url@)
                    &&& crate::request::apply_lines(
                        crate::request::blank_request(url@.query, Map::empty()),
                        crate::request::line_views(lines@),
                    ) == Ok::<crate::request::RequestView, ()>(req@)
                },
                Err(e) => {
                    ||| Url::parse_result(lines@[0]@) == Err::<crate::url::UrlView, Seq<char>>(e@)
                    ||| {
                        &&& Url::parse_result(lines@[0]@) matches Ok(url)
                        &&& crate::request::apply_lines(
                            crate::request::blank_request(url.query, Map::empty()),
                            crate::request::line_views(lines@),
                        ) is Err
                        &&& e@ == "Content Type can't contain blank spaces."@
                    }
                },
            },
    {
        if lines.len() == 0 {
            return Err(HttpServerError::new("No headers!"));
        }
        let url = match Url::parse(lines[0]) {
            Ok(url) => url,
            Err(e) => {
                return Err(e);
            },
        };
        let query = url.query.clone();
        let req = match Request::parse(lines, Some(query), None) {
            Ok(req) => req,
            Err(e) => {
                return Err(e);
            },
        };
        Ok((url, req))
    }
}

/// A normalized pattern is balanced where the pattern is.
proof fn lemma_normal_balanced(path: Seq<char>)
    requires
        balanced(path),
    ensures
        balanced(normal_path(path)),
{
}

/// The number of logical cores of the machine; this is `num_cpus::get`,
/// whose result depends on the machine and on the limits that the process
/// runs under, and is said to be at least 1 always.
#[verifier::external_body]
fn logical_cores() -> (n: usize)
    ensures
        n >= 1,
{
    num_cpus::get()
}

/// The order of patterns is total: of two patterns one may stand before
/// the other.
pub proof fn lemma_order_total(a: Seq<char>, b: Seq<char>)
    ensures
        before_or_same(a, b) || before_or_same(b, a),
{
}

/// In routes that are in order, every route from the place of a pattern on
/// may not stand before it, and every route before that place may.
proof fn lemma_slot<H>(sorted: Seq<EndPointView<H>>, path: Seq<char>, from: int)
    requires
        in_order(sorted),
        0 <= from <= sorted.len(),
    ensures
        from <= slot(sorted, path, from) <= sorted.len(),
        forall|k: int|
            from <= k < slot(sorted, path, from) ==> before_or_same(
                (#[trigger] sorted[k]).path,
                path,
            ),
        forall|k: int|
            slot(sorted, path, from) <= k < sorted.len() ==> !before_or_same(
                (#[trigger] sorted[k]).path,
                path,
            ),
    decreases sorted.len() - from,
{
    if from < sorted.len() {
        if !before_or_same(sorted[from].path, path) {
            assert forall|k: int| from <= k < sorted.len() implies !before_or_same(
                (#[trigger] sorted[k]).path,
                path,
            ) by {
                if k > from {
                    assert(before_or_same(sorted[from].path, sorted[k].path));
                }
            }
        } else {
            lemma_slot(sorted, path, from + 1);
        }
    }
}

/// The routes in the order of dispatch are in order: no route with a
/// parameter stands before one without, and within each kind no longer
/// pattern stands before a shorter one. They are the registered routes, each
/// as often as it was registered.
pub proof fn lemma_ordered<H>(routes: Seq<EndPointView<H>>)
    ensures
        in_order(ordered(routes)),
        ordered(routes).len() == routes.len(),
        ordered(routes).to_multiset() == routes.to_multiset(),
    decreases routes.len(),
{
    broadcast use vstd::seq_lib::group_to_multiset_ensures;

    if routes.len() > 0 {
        let front = ordered(routes.drop_last());
        let item = routes.last();
        lemma_ordered(routes.drop_last());
        lemma_slot(front, item.path, 0);
        let at = slot(front, item.path, 0);
        let out = front.insert(at, item);
        assert forall|i: int, j: int| 0 <= i < j < out.len() implies before_or_same(
            (#[trigger] out[i]).path,
            (#[trigger] out[j]).path,
        ) by {
            if j < at {
                assert(out[i] == front[i] && out[j] == front[j]);
            } else if j == at {
                assert(out[i] == front[i]);
            } else if i < at {
                assert(out[i] == front[i] && out[j] == front[j - 1]);
            } else if i == at {
                assert(out[j] == front[j - 1]);
                lemma_order_total(front[j - 1].path, item.path);
            } else {
                assert(out[i] == front[i - 1] && out[j] == front[j - 1]);
            }
        }
        assert(routes =~= routes.drop_last().push(item));
        vstd::seq_lib::lemma_multiset_commutative(front.subrange(0, at), seq![item]);
        assert(out =~= front.subrange(0, at) + seq![item] + front.subrange(at, front.len() as int));
        assert(front =~= front.subrange(0, at) + front.subrange(at, front.len() as int));
        vstd::seq_lib::lemma_multiset_commutative(
            front.subrange(0, at),
            front.subrange(at, front.len() as int),
        );
        vstd::seq_lib::lemma_multiset_commutative(
            front.subrange(0, at) + seq![item],
            front.subrange(at, front.len() as int),
        );
        assert(seq![item].to_multiset() =~= vstd::multiset::Multiset::singleton(item)) by {
            assert(seq![item] =~= Seq::<EndPointView<H>>::empty().push(item));
        }
        assert(out.to_multiset() =~= front.to_multiset().insert(item));
        assert(routes.to_multiset() =~= routes.drop_last().to_multiset().insert(item));
    }
}

/// The place in the order of dispatch of the route that was registered as
/// the `k`-th.
pub open spec fn place<H>(routes: Seq<EndPointView<H>>, k: int) -> int
    decreases routes.len(),
{
    if routes.len() == 0 || k < 0 || k >= routes.len() {
        0
    } else {
        let at = slot(ordered(routes.drop_last()), routes.last().path, 0);
        if k == routes.len() - 1 {
            at
        } else if place(routes.drop_last(), k) < at {
            place(routes.drop_last(), k)
        } else {
            place(routes.drop_last(), k) + 1
        }
    }
}

/// Each registered route stands at its place in the order of dispatch.
pub proof fn lemma_place<H>(routes: Seq<EndPointView<H>>, k: int)
    requires
        0 <= k < routes.len(),
    ensures
        0 <= place(routes, k) < routes.len(),
        ordered(routes).len() == routes.len(),
        ordered(routes)[place(routes, k)] == routes[k],
    decreases routes.len(),
{
    let front = ordered(routes.drop_last());
    lemma_ordered(routes.drop_last());
    lemma_slot(front, routes.last().path, 0);
    if k < routes.len() - 1 {
        lemma_place(routes.drop_last(), k);
        assert(routes.drop_last()[k] == routes[k]);
    }
}

/// The order of dispatch is stable: of two routes of which the one
/// registered first may stand before the other, the first stands before the
/// other. So routes of the same rank stay in the order of registration.
pub proof fn lemma_ordered_stable<H>(routes: Seq<EndPointView<H>>, k: int, l: int)
    requires
        0 <= k < l < routes.len(),
        before_or_same(routes[k].path, routes[l].path),
    ensures
        0 <= place(routes, k) < place(routes, l) < routes.len(),
        ordered(routes)[place(routes, k)] == routes[k],
        ordered(routes)[place(routes, l)] == routes[l],
    decreases routes.len(),
{
    lemma_place(routes, k);
    lemma_place(routes, l);
    let shorter = routes.drop_last();
    let front = ordered(shorter);
    lemma_ordered(shorter);
    lemma_slot(front, routes.last().path, 0);
    lemma_place(shorter, k);
    assert(shorter[k] == routes[k]);
    if l < routes.len() - 1 {
        assert(shorter[l] == routes[l]);
        lemma_ordered_stable(shorter, k, l);
    } else {
        assert(front[place(shorter, k)] == routes[k]);
    }
}

/// Every route in the order of dispatch is one of the registered routes.
proof fn lemma_ordered_member<H>(routes: Seq<EndPointView<H>>, k: int)
    requires
        0 <= k < ordered(routes).len(),
    ensures
        exists|m: int| 0 <= m < routes.len() && routes[m] == ordered(routes)[k],
    decreases routes.len(),
{
    if routes.len() > 0 {
        let front = ordered(routes.drop_last());
        let item = routes.last();
        lemma_ordered(routes.drop_last());
        lemma_slot(front, item.path, 0);
        let at = slot(front, item.path, 0);
        if k == at {
            assert(routes[routes.len() - 1] == ordered(routes)[k]);
        } else {
            let inner = if k < at {
                k
            } else {
                k - 1
            };
            lemma_ordered_member(routes.drop_last(), inner);
            let m = choose|m: int|
                0 <= m < routes.drop_last().len() && routes.drop_last()[m] == front[inner];
            assert(routes[m] == ordered(routes)[k]);
        }
    }
}

/// Putting the routes in the order of dispatch keeps what holds of every
/// server.
pub proof fn lemma_ordered_wf<H>(server: ServerView<H>)
    requires
        server.wf(),
    ensures
        (ServerView { routes: ordered(server.routes), ..server }).wf(),
        (ServerView { active: true, routes: ordered(server.routes), ..server }).wf(),
    decreases server.routes.len(),
{
    let routes = server.routes;
    let out = ordered(routes);
    lemma_ordered(routes);
    assert forall|i: int| 0 <= i < out.len() implies balanced((#[trigger] out[i]).path) by {
        lemma_ordered_member(routes, i);
    }
    if routes.len() > 0 {
        let shorter = ServerView { routes: routes.drop_last(), ..server };
        assert forall|i: int, j: int| 0 <= i < j < shorter.routes.len() implies !((
        #[trigger] shorter.routes[i]).path == (#[trigger] shorter.routes[j]).path
            && shorter.routes[i].req_type == shorter.routes[j].req_type) by {
            assert(shorter.routes[i] == routes[i] && shorter.routes[j] == routes[j]);
        }
        assert forall|i: int| 0 <= i < shorter.routes.len() implies balanced(
            (#[trigger] shorter.routes[i]).path,
        ) by {
            assert(shorter.routes[i] == routes[i]);
        }
        lemma_ordered_wf(shorter);
        let front = ordered(routes.drop_last());
        let item = routes.last();
        lemma_ordered(routes.drop_last());
        lemma_slot(front, item.path, 0);
        let at = slot(front, item.path, 0);
        assert forall|i: int, j: int| 0 <= i < j < out.len() implies !((#[trigger] out[i]).path
            == (#[trigger] out[j]).path && out[i].req_type == out[j].req_type) by {
            if i == at || j == at {
                let other = if i == at {
                    j - 1
                } else {
                    i
                };
                lemma_ordered_member(routes.drop_last(), other);
                let m = choose|m: int|
                    0 <= m < routes.drop_last().len() && routes.drop_last()[m] == front[other];
                assert(routes[m] == front[other]);
                assert(routes[routes.len() - 1] == item);
            } else {
                let a = if i < at {
                    i
                } else {
                    i - 1
                };
                let b = if j < at {
                    j
                } else {
                    j - 1
                };
                assert(out[i] == front[a] && out[j] == front[b]);
            }
        }
    }
}

/// Where routes in order hold a route without a parameter that has the
/// shape of the path and the method of the request, the request goes to a
/// route without a parameter, never to one with.
pub proof fn lemma_literal_route_wins<H>(
    routes: Seq<EndPointView<H>>,
    statics: Seq<(Seq<char>, Seq<char>)>,
    path: Seq<char>,
    method: RequestTypeView,
    literal: int,
)
    requires
        in_order(routes),
        0 <= literal < routes.len(),
        !patterned(routes[literal].path),
        shape_matches(path, routes[literal].path),
        routes[literal].req_type == method,
    ensures
        lookup(routes, statics, path, method) matches RouteView::Handler { index, .. }
            && 0 <= index <= literal && !patterned(routes[index].path) && shape_matches(
            path,
            routes[index].path,
        ) && routes[index].req_type == method,
{
    lemma_first_route(routes, path, method, 0, literal);
    lemma_first_shape(routes, path, 0, literal);
    let index = first_route(routes, path, method, 0);
    if index < literal {
        assert(before_or_same(routes[index].path, routes[literal].path));
    }
}

/// A route with the shape and the method at `hit` makes the first such
/// route one at or before `hit`.
proof fn lemma_first_route<H>(
    routes: Seq<EndPointView<H>>,
    path: Seq<char>,
    method: RequestTypeView,
    from: int,
    hit: int,
)
    requires
        0 <= from <= hit < routes.len(),
        shape_matches(path, routes[hit].path),
        routes[hit].req_type == method,
    ensures
        from <= first_route(routes, path, method, from) <= hit,
        shape_matches(path, routes[first_route(routes, path, method, from)].path),
        routes[first_route(routes, path, method, from)].req_type == method,
    decreases hit - from,
{
    if from < hit && !(shape_matches(path, routes[from].path) && routes[from].req_type
        == method) {
        lemma_first_route(routes, path, method, from + 1, hit);
    }
}

/// A route with the shape at `hit` makes the first such route one at or
/// before `hit`.
proof fn lemma_first_shape<H>(routes: Seq<EndPointView<H>>, path: Seq<char>, from: int, hit: int)
    requires
        0 <= from <= hit < routes.len(),
        shape_matches(path, routes[hit].path),
    ensures
        from <= first_shape(routes, path, from) <= hit,
    decreases hit - from,
{
    if from < hit && !shape_matches(path, routes[from].path) {
        lemma_first_shape(routes, path, from + 1, hit);
    }
}

/// After the start a route without a parameter wins over those with: where
/// a registered route without a parameter has the shape of the path and the
/// method of the request, the request goes to such a route.
pub proof fn lemma_literal_route_wins_after_start<H>(
    before: ServerView<H>,
    running: ServerView<H>,
    port: u32,
    address: Option<&str>,
    started: Result<Listening, HttpServerError>,
    path: Seq<char>,
    method: RequestTypeView,
    literal: int,
)
    requires
        before.starts(running, port, address, started),
        started is Ok,
        0 <= literal < running.routes.len(),
        !patterned(running.routes[literal].path),
        shape_matches(path, running.routes[literal].path),
        running.routes[literal].req_type == method,
    ensures
        lookup(running.routes, running.statics, path, method) matches RouteView::Handler {
            index,
            ..
        } && 0 <= index < running.routes.len() && !patterned(running.routes[index].path),
{
    lemma_ordered(before.routes);
    lemma_literal_route_wins(running.routes, running.statics, path, method, literal);
}

/// Registering the same pattern and method a second time fails.
pub proof fn lemma_second_registration_fails<H>(
    before: ServerView<H>,
    between: ServerView<H>,
    after: ServerView<H>,
    path: Seq<char>,
    method: RequestTypeView,
    first_handle: H,
    second_handle: H,
    first: Result<(), HttpServerError>,
    second: Result<(), HttpServerError>,
)
    requires
        before.registers(between, path, method, first_handle, first),
        first is Ok,
        between.registers(after, path, method, second_handle, second),
    ensures
        second is Err,
        after == between,
{
    let stored = normal_path(path);
    let last = between.routes.len() - 1;
    assert(between.routes[last].path == stored && between.routes[last].req_type
        == method);
    assert(has_route(between.routes, stored, method));
}

/// Registering a route after the start fails.
pub proof fn lemma_registration_after_start_fails<H>(
    before: ServerView<H>,
    running: ServerView<H>,
    after: ServerView<H>,
    port: u32,
    address: Option<&str>,
    started: Result<Listening, HttpServerError>,
    path: Seq<char>,
    method: RequestTypeView,
    handle: H,
    r: Result<(), HttpServerError>,
)
    requires
        before.starts(running, port, address, started),
        started is Ok,
        running.registers(after, path, method, handle, r),
    ensures
        r is Err,
        r->Err_0@ == "Server is already running!"@,
        after == running,
{
}

/// Registering a static prefix after the start fails.
pub proof fn lemma_static_after_start_fails<H>(
    before: ServerView<H>,
    running: ServerView<H>,
    after: ServerView<H>,
    port: u32,
    address: Option<&str>,
    started: Result<Listening, HttpServerError>,
    path: Seq<char>,
    folder: Seq<char>,
    folder_is_dir: bool,
    r: Result<(), HttpServerError>,
)
    requires
        before.starts(running, port, address, started),
        started is Ok,
        running.registers_static(after, path, folder, folder_is_dir, r),
    ensures
        r is Err,
        after == running,
{
}

/// Registering the same static prefix a second time fails.
pub proof fn lemma_second_static_fails<H>(
    before: ServerView<H>,
    between: ServerView<H>,
    after: ServerView<H>,
    path: Seq<char>,
    first_folder: Seq<char>,
    second_folder: Seq<char>,
    first: Result<(), HttpServerError>,
    second: Result<(), HttpServerError>,
)
    requires
        before.registers_static(between, path, first_folder, true, first),
        first is Ok,
        between.registers_static(after, path, second_folder, true, second),
    ensures
        second is Err,
        after == between,
{
    let stored = normal_path(path);
    let last = between.statics.len() - 1;
    assert(between.statics[last].0 == stored);
    assert(has_static(between.statics, stored));
}

/// A request that is no GET and no HEAD and declares more than a maximum
/// that is set is refused with 413, whatever the routes: no handler runs.
pub proof fn lemma_oversized_is_refused<H>(
    max_content_length: usize,
    routes: Seq<EndPointView<H>>,
    statics: Seq<(Seq<char>, Seq<char>)>,
    path: Seq<char>,
    method: RequestTypeView,
    content_length: usize,
)
    requires
        max_content_length > 0,
        content_length > max_content_length,
        method != RequestTypeView::Get,
        method != RequestTypeView::Head,
    ensures
        resolution(max_content_length, routes, statics, path, method, content_length)
            == (RouteView::Refused {
            code: ResponseCode::ContentTooLarge,
            error: "Content too large!"@,
        }),
{
}

/// A GET or a HEAD that declares a body is refused with 400, whatever the
/// maximum and the routes: no handler runs.
pub proof fn lemma_body_on_get_is_refused<H>(
    max_content_length: usize,
    routes: Seq<EndPointView<H>>,
    statics: Seq<(Seq<char>, Seq<char>)>,
    path: Seq<char>,
    method: RequestTypeView,
    content_length: usize,
)
    requires
        content_length > 0,
        method == RequestTypeView::Get || method == RequestTypeView::Head,
    ensures
        resolution(max_content_length, routes, statics, path, method, content_length)
            == (RouteView::Refused { code: ResponseCode::BadRequest, error: "Bad request!"@ }),
{
}

} // verus!
