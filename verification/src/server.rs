//! The application: its configuration, its route table, and the plan the
//! server is started from.
use vstd::prelude::*;
use crate::foreign::{ascii_upper, is_ascii_text, to_uppercase, unicode_upper};
use crate::text::{chars_of, decimal, first_index_of, lemma_first_index_of, push_char, push_decimal, str_eq};

verus! {

/// A registered route: its path as written (with `{name}` parameters) and
/// its HTTP method in upper case. The handler and schema stay with the
/// caller, at the same position.
pub struct Route {
    pub path: String,
    pub method: String,
}

/// An application under construction.
pub struct App {
    host: String,
    port: u16,
    workers: usize,
    routes: Vec<Route>,
    middlewares: usize,
}

pub open spec fn routes_view(r: Seq<Route>) -> Seq<(Seq<char>, Seq<char>)> {
    r.map_values(|x: Route| (x.path@, x.method@))
}

/// How the server runs: in this process, or in forked worker processes.
pub enum ServeMode {
    Single,
    Forked(usize),
}

impl App {
    pub closed spec fn host(&self) -> Seq<char> {
        self.host@
    }

    pub closed spec fn port(&self) -> u16 {
        self.port
    }

    pub closed spec fn workers(&self) -> usize {
        self.workers
    }

    /// The routes as `(path, method)`, in registration order.
    pub closed spec fn routes(&self) -> Seq<(Seq<char>, Seq<char>)> {
        routes_view(self.routes@)
    }

    pub closed spec fn middlewares(&self) -> nat {
        self.middlewares as nat
    }

    /// An application serving on `0.0.0.0:8080` with one worker, no routes
    /// and no middleware.
    pub fn new() -> (a: App)
        ensures
            a.host() == "0.0.0.0"@,
            a.port() == 8080,
            a.workers() == 1,
            a.routes() == Seq::<(Seq<char>, Seq<char>)>::empty(),
            a.middlewares() == 0,
    {
        let a = App {
            host: String::from_str("0.0.0.0"),
            port: 8080,
            workers: 1,
            routes: Vec::new(),
            middlewares: 0,
        };
        assert(a.routes() =~= Seq::<(Seq<char>, Seq<char>)>::empty());
        a
    }

    /// Registers one more middleware; middlewares wrap the routes in
    /// registration order, the last one outermost.
    pub fn add_middleware_instance(&mut self)
        requires
            old(self).middlewares() < usize::MAX,
        ensures
            final(self).middlewares() == old(self).middlewares() + 1,
            final(self).routes() == old(self).routes(),
            final(self).host() == old(self).host(),
            final(self).port() == old(self).port(),
            final(self).workers() == old(self).workers(),
    {
        self.middlewares = self.middlewares + 1;
    }

    pub fn set_host(&mut self, host: &str)
        ensures
            final(self).host() == host@,
            final(self).port() == old(self).port(),
            final(self).workers() == old(self).workers(),
            final(self).routes() == old(self).routes(),
            final(self).middlewares() == old(self).middlewares(),
    {
        self.host = String::from_str(host);
    }

    pub fn set_port(&mut self, port: u16)
        ensures
            final(self).port() == port,
            final(self).host() == old(self).host(),
            final(self).workers() == old(self).workers(),
            final(self).routes() == old(self).routes(),
            final(self).middlewares() == old(self).middlewares(),
    {
        self.port = port;
    }

    pub fn set_workers(&mut self, workers: usize)
        ensures
            final(self).workers() == workers,
            final(self).host() == old(self).host(),
            final(self).port() == old(self).port(),
            final(self).routes() == old(self).routes(),
            final(self).middlewares() == old(self).middlewares(),
    {
        self.workers = workers;
    }

    /// Appends a route with the method upper-cased.
    pub fn route(&mut self, method: &str, path: String)
        ensures
            final(self).routes() == old(self).routes().push((path@, unicode_upper(method@))),
            is_ascii_text(method@) ==> final(self).routes() == old(self).routes().push((path@, ascii_upper(method@))),
            final(self).host() == old(self).host(),
            final(self).port() == old(self).port(),
            final(self).workers() == old(self).workers(),
            final(self).middlewares() == old(self).middlewares(),
    {
        let m = to_uppercase(method);
        self.routes.push(Route { path, method: m });
        assert(self.routes() =~= old(self).routes().push((path@, unicode_upper(method@))));
    }

    /// `route("GET", path)`.
    pub fn get(&mut self, path: String)
        ensures
            final(self).routes() == old(self).routes().push((path@, "GET"@)),
            final(self).host() == old(self).host(),
            final(self).port() == old(self).port(),
            final(self).workers() == old(self).workers(),
            final(self).middlewares() == old(self).middlewares(),
    {
        proof {
            reveal_strlit("GET");
            assert(ascii_upper("GET"@) =~= "GET"@);
        }
        self.route("GET", path);
    }

    /// `route("POST", path)`.
    pub fn post(&mut self, path: String)
        ensures
            final(self).routes() == old(self).routes().push((path@, "POST"@)),
            final(self).host() == old(self).host(),
            final(self).port() == old(self).port(),
            final(self).workers() == old(self).workers(),
            final(self).middlewares() == old(self).middlewares(),
    {
        proof {
            reveal_strlit("POST");
            assert(ascii_upper("POST"@) =~= "POST"@);
        }
        self.route("POST", path);
    }

    /// `route("PUT", path)`.
    pub fn put(&mut self, path: String)
        ensures
            final(self).routes() == old(self).routes().push((path@, "PUT"@)),
            final(self).host() == old(self).host(),
            final(self).port() == old(self).port(),
            final(self).workers() == old(self).workers(),
            final(self).middlewares() == old(self).middlewares(),
    {
        proof {
            reveal_strlit("PUT");
            assert(ascii_upper("PUT"@) =~= "PUT"@);
        }
        self.route("PUT", path);
    }

    /// `route("DELETE", path)`.
    pub fn delete(&mut self, path: String)
        ensures
            final(self).routes() == old(self).routes().push((path@, "DELETE"@)),
            final(self).host() == old(self).host(),
            final(self).port() == old(self).port(),
            final(self).workers() == old(self).workers(),
            final(self).middlewares() == old(self).middlewares(),
    {
        proof {
            reveal_strlit("DELETE");
            assert(ascii_upper("DELETE"@) =~= "DELETE"@);
        }
        self.route("DELETE", path);
    }

    /// More than one worker forks that many worker processes; otherwise the
    /// server runs in this process.
    pub fn serve(&self) -> (m: ServeMode)
        ensures
            m == (if self.workers() > 1 {
                ServeMode::Forked(self.workers())
            } else {
                ServeMode::Single
            }),
    {
        if self.workers > 1 {
            ServeMode::Forked(self.workers)
        } else {
            ServeMode::Single
        }
    }

    /// `serve`.
    pub fn serve_default(&self) -> (m: ServeMode)
        ensures
            m == (if self.workers() > 1 {
                ServeMode::Forked(self.workers())
            } else {
                ServeMode::Single
            }),
    {
        self.serve()
    }

    /// The plan the server starts from: every route, in order, at its router
    /// path and method; the number of middleware layers; a default route when
    /// there is none; the listening address and its socket family.
    pub fn setup_and_run(&self) -> (p: ServerPlan)
        ensures
            plan_routes_view(p.routes@) == planned_routes(self.routes()),
            p.middleware_layers == self.middlewares(),
            p.default_route == (self.routes().len() == 0),
            p.address@ == listen_address(self.host(), self.port()),
            p.ipv4 == is_ipv4_address(listen_address(self.host(), self.port())),
    {
        let n = self.routes.len();
        let mut plans: Vec<RoutePlan> = Vec::new();
        let mut i: usize = 0;
        while i < n
            invariant
                i <= n == self.routes@.len(),
                plan_routes_view(plans@) == planned_routes(self.routes().take(i as int)),
            decreases n - i,
        {
            let r = &self.routes[i];
            let ghost before = plans@;
            let rp = RoutePlan { router_path: to_router_path(r.path.as_str()), method: http_method(r.method.as_str()) };
            plans.push(rp);
            assert(self.routes()[i as int] == (r.path@, r.method@));
            assert(self.routes().take(i + 1) =~= self.routes().take(i as int).push((r.path@, r.method@)));
            assert(plans@ == before.push(rp));
            assert(plan_routes_view(plans@) =~= plan_routes_view(before).push((rp.router_path@, rp.method)));
            assert(planned_routes(self.routes().take(i + 1)) =~= planned_routes(self.routes().take(i as int)).push(
                (router_path(r.path@), method_of(r.method@)),
            ));
            assert(plan_routes_view(plans@) =~= planned_routes(self.routes().take(i + 1)));
            i = i + 1;
        }
        assert(self.routes().take(n as int) =~= self.routes());
        let address = address_of(self.host.as_str(), self.port);
        let ipv4 = ipv4_address(address.as_str());
        ServerPlan { routes: plans, middleware_layers: self.middlewares, default_route: n == 0, address, ipv4 }
    }
}

/// Router path and router method of each `(path, method)` route.
pub open spec fn planned_routes(rs: Seq<(Seq<char>, Seq<char>)>) -> Seq<(Seq<char>, HttpMethod)> {
    rs.map_values(|r: (Seq<char>, Seq<char>)| (router_path(r.0), method_of(r.1)))
}

/// The HTTP methods the router registers handlers for.
pub enum HttpMethod {
    Get,
    Post,
    Put,
    Delete,
}

/// The router method for a route's method: `GET`, `POST`, `PUT` and
/// `DELETE` as themselves, anything else as `GET`.
pub open spec fn method_of(m: Seq<char>) -> HttpMethod {
    if m == "POST"@ {
        HttpMethod::Post
    } else if m == "PUT"@ {
        HttpMethod::Put
    } else if m == "DELETE"@ {
        HttpMethod::Delete
    } else {
        HttpMethod::Get
    }
}

pub fn http_method(m: &str) -> (r: HttpMethod)
    ensures
        r == method_of(m@),
{
    if str_eq(m, "GET") {
        proof {
            reveal_strlit("GET");
            reveal_strlit("POST");
            reveal_strlit("PUT");
            reveal_strlit("DELETE");
            assert("GET"@ != "POST"@ && "GET"@ != "PUT"@ && "GET"@ != "DELETE"@) by {
                assert("GET"@.len() != "POST"@.len());
                assert("GET"@[0] != "PUT"@[0]);
                assert("GET"@.len() != "DELETE"@.len());
            }
        }
        HttpMethod::Get
    } else if str_eq(m, "POST") {
        HttpMethod::Post
    } else if str_eq(m, "PUT") {
        HttpMethod::Put
    } else if str_eq(m, "DELETE") {
        HttpMethod::Delete
    } else {
        HttpMethod::Get
    }
}

/// A route path as the router writes it: `{name}` becomes `:name`.
pub open spec fn router_path(p: Seq<char>) -> Seq<char>
    decreases p.len(),
{
    if p.len() == 0 {
        Seq::empty()
    } else {
        let rest = router_path(p.drop_last());
        let c = p.last();
        if c == '{' {
            rest.push(':')
        } else if c == '}' {
            rest
        } else {
            rest.push(c)
        }
    }
}

pub fn to_router_path(p: &str) -> (r: String)
    ensures
        r@ == router_path(p@),
{
    let cs = chars_of(p);
    let n = cs.len();
    let mut out = String::new();
    let mut i: usize = 0;
    while i < n
        invariant
            i <= n == cs@.len(),
            out@ == router_path(cs@.take(i as int)),
        decreases n - i,
    {
        let c = cs[i];
        assert(cs@.take(i + 1).drop_last() =~= cs@.take(i as int));
        if c == '{' {
            push_char(&mut out, ':');
        } else if c != '}' {
            push_char(&mut out, c);
        }
        i = i + 1;
    }
    assert(cs@.take(n as int) =~= p@);
    out
}

/// The address the server listens on: host, `:`, port in decimal.
pub open spec fn listen_address(host: Seq<char>, port: u16) -> Seq<char> {
    host + seq![':'] + decimal(port as nat)
}

pub fn address_of(host: &str, port: u16) -> (r: String)
    ensures
        r@ == listen_address(host@, port),
{
    let mut s = String::from_str(host);
    push_char(&mut s, ':');
    push_decimal(&mut s, port as u64);
    assert(s@ =~= listen_address(host@, port));
    s
}

/// The socket family for an address: IPv4 when it has a `:` and the part
/// before the first `:` has a `.`, IPv6 otherwise.
pub open spec fn is_ipv4_address(a: Seq<char>) -> bool {
    let k = first_index_of(a, ':');
    k >= 0 && first_index_of(a.take(k), '.') >= 0
}

pub fn ipv4_address(a: &str) -> (r: bool)
    ensures
        r == is_ipv4_address(a@),
{
    let cs = chars_of(a);
    let n = cs.len();
    let mut k: usize = 0;
    while k < n && cs[k] != ':'
        invariant
            k <= n == cs@.len(),
            forall|j: int| 0 <= j < k ==> cs@[j] != ':',
        decreases n - k,
    {
        k = k + 1;
    }
    proof {
        lemma_first_index_of(a@, ':');
        let f = first_index_of(a@, ':');
        if k < n {
            assert(f >= 0 && f <= k) by {
                if f < 0 {
                    assert(a@[k as int] != ':');
                }
            }
            assert(f == k) by {
                if f < k {
                    assert(cs@[f] != ':');
                }
            }
        } else {
            assert(f < 0) by {
                if f >= 0 {
                    assert(cs@[f] != ':');
                }
            }
        }
    }
    if k == n {
        return false;
    }
    let mut j: usize = 0;
    while j < k && cs[j] != '.'
        invariant
            j <= k < n == cs@.len(),
            forall|q: int| 0 <= q < j ==> cs@[q] != '.',
        decreases k - j,
    {
        j = j + 1;
    }
    proof {
        let pre = a@.take(k as int);
        lemma_first_index_of(pre, '.');
        let f = first_index_of(pre, '.');
        if j < k {
            assert(pre[j as int] == '.');
            assert(f >= 0);
        } else {
            assert(f < 0) by {
                if f >= 0 {
                    assert(pre[f] == cs@[f]);
                }
            }
        }
    }
    j < k
}

/// Where and how one route is registered with the router.
pub struct RoutePlan {
    pub router_path: String,
    pub method: HttpMethod,
}

pub open spec fn plan_routes_view(p: Seq<RoutePlan>) -> Seq<(Seq<char>, HttpMethod)> {
    p.map_values(|r: RoutePlan| (r.router_path@, r.method))
}

/// How the server is set up.
pub struct ServerPlan {
    /// One entry per registered route, in the same order.
    pub routes: Vec<RoutePlan>,
    /// How many middleware layers wrap the router.
    pub middleware_layers: usize,
    /// Whether `GET /` answers with a greeting because no route was given.
    pub default_route: bool,
    pub address: String,
    /// Whether the listening socket is IPv4 (else IPv6).
    pub ipv4: bool,
}

/// Where the shutdown of a running server stands.
pub enum ShutdownPhase {
    Serving,
    Draining,
    Stopped,
}

/// What happens while the server runs.
pub enum ServerEvent {
    /// The server task finished, with or without an error.
    Finished { failed: bool },
    /// An interrupt (Ctrl+C) arrived.
    Interrupt,
    /// The grace period after a shutdown request ran out.
    GraceExpired,
}

/// What to do after an event.
pub struct Reaction {
    pub next: ShutdownPhase,
    /// Report the server's error.
    pub report_error: bool,
    /// Ask the server to shut down gracefully and wait at most the grace period.
    pub begin_shutdown: bool,
    /// The server stopped within the grace period.
    pub stopped_gracefully: bool,
    /// The grace period ran out: stop without waiting longer.
    pub force_stop: bool,
    /// End the process at once with this code.
    pub exit_code: Option<i32>,
}

/// The reaction of the serving loop to an event: an interrupt while serving
/// starts a graceful shutdown; while draining, the server finishing stops it
/// gracefully, the grace period running out forces the stop, and a second
/// interrupt ends the process with code 130. Events after the stop change
/// nothing.
pub open spec fn react_spec(phase: ShutdownPhase, e: ServerEvent) -> Reaction {
    let none = Reaction {
        next: phase,
        report_error: false,
        begin_shutdown: false,
        stopped_gracefully: false,
        force_stop: false,
        exit_code: None,
    };
    match phase {
        ShutdownPhase::Serving => match e {
            ServerEvent::Finished { failed } => Reaction { next: ShutdownPhase::Stopped, report_error: failed, ..none },
            ServerEvent::Interrupt => Reaction { next: ShutdownPhase::Draining, begin_shutdown: true, ..none },
            ServerEvent::GraceExpired => none,
        },
        ShutdownPhase::Draining => match e {
            ServerEvent::Finished { failed } => Reaction {
                next: ShutdownPhase::Stopped,
                report_error: failed,
                stopped_gracefully: true,
                ..none
            },
            ServerEvent::GraceExpired => Reaction { next: ShutdownPhase::Stopped, force_stop: true, ..none },
            ServerEvent::Interrupt => Reaction { next: ShutdownPhase::Stopped, exit_code: Some(130), ..none },
        },
        ShutdownPhase::Stopped => none,
    }
}

pub fn react(phase: ShutdownPhase, e: ServerEvent) -> (r: Reaction)
    ensures
        r == react_spec(phase, e),
{
    match phase {
        ShutdownPhase::Serving => match e {
            ServerEvent::Finished { failed } => Reaction {
                next: ShutdownPhase::Stopped,
                report_error: failed,
                begin_shutdown: false,
                stopped_gracefully: false,
                force_stop: false,
                exit_code: None,
            },
            ServerEvent::Interrupt => Reaction {
                next: ShutdownPhase::Draining,
                report_error: false,
                begin_shutdown: true,
                stopped_gracefully: false,
                force_stop: false,
                exit_code: None,
            },
            ServerEvent::GraceExpired => Reaction {
                next: ShutdownPhase::Serving,
                report_error: false,
                begin_shutdown: false,
                stopped_gracefully: false,
                force_stop: false,
                exit_code: None,
            },
        },
        ShutdownPhase::Draining => match e {
            ServerEvent::Finished { failed } => Reaction {
                next: ShutdownPhase::Stopped,
                report_error: failed,
                begin_shutdown: false,
                stopped_gracefully: true,
                force_stop: false,
                exit_code: None,
            },
            ServerEvent::GraceExpired => Reaction {
                next: ShutdownPhase::Stopped,
                report_error: false,
                begin_shutdown: false,
                stopped_gracefully: false,
                force_stop: true,
                exit_code: None,
            },
            ServerEvent::Interrupt => Reaction {
                next: ShutdownPhase::Stopped,
                report_error: false,
                begin_shutdown: false,
                stopped_gracefully: false,
                force_stop: false,
                exit_code: Some(130),
            },
        },
        ShutdownPhase::Stopped => Reaction {
            next: ShutdownPhase::Stopped,
            report_error: false,
            begin_shutdown: false,
            stopped_gracefully: false,
            force_stop: false,
            exit_code: None,
        },
    }
}

} // verus!

verus! {

/// Law: a router path holds no braces; every `{` became `:`.
pub proof fn lemma_router_path_has_no_braces(p: Seq<char>)
    ensures
        forall|i: int| 0 <= i < router_path(p).len() ==> #[trigger] router_path(p)[i] != '{' && router_path(p)[i] != '}',
    decreases p.len(),
{
    if p.len() > 0 {
        lemma_router_path_has_no_braces(p.drop_last());
        let rest = router_path(p.drop_last());
        assert forall|i: int| 0 <= i < router_path(p).len() implies #[trigger] router_path(p)[i] != '{'
            && router_path(p)[i] != '}' by {
            if i < rest.len() {
                assert(router_path(p)[i] == rest[i]);
            }
        }
    }
}

/// Law: the router path of a concatenation is the concatenation of the
/// router paths: the rewriting goes character by character.
pub proof fn lemma_router_path_concat(a: Seq<char>, b: Seq<char>)
    ensures
        router_path(a + b) == router_path(a) + router_path(b),
    decreases b.len(),
{
    if b.len() == 0 {
        assert(a + b =~= a);
        assert(router_path(a) + router_path(b) =~= router_path(a));
    } else {
        lemma_router_path_concat(a, b.drop_last());
        assert((a + b).drop_last() =~= a + b.drop_last());
        assert((a + b).last() == b.last());
        let c = b.last();
        if c == '{' {
            assert(router_path(a) + router_path(b.drop_last()).push(':') =~= (router_path(a)
                + router_path(b.drop_last())).push(':'));
        } else if c != '}' {
            assert(router_path(a) + router_path(b.drop_last()).push(c) =~= (router_path(a)
                + router_path(b.drop_last())).push(c));
        }
    }
}

/// Law: each character's own router path: `{` becomes `:`, `}` is dropped,
/// every other character stays as it is.
pub proof fn lemma_router_path_char(c: char)
    ensures
        c == '{' ==> router_path(seq![c]) == seq![':'],
        c == '}' ==> router_path(seq![c]) == Seq::<char>::empty(),
        c != '{' && c != '}' ==> router_path(seq![c]) == seq![c],
{
    assert(seq![c].drop_last() =~= Seq::<char>::empty());
    assert(seq![c].last() == c);
    assert(router_path(Seq::<char>::empty()) == Seq::<char>::empty());
    assert(Seq::<char>::empty().push(':') =~= seq![':']);
    assert(Seq::<char>::empty().push(c) =~= seq![c]);
}

/// Law: a path without braces is its own router path: every other
/// character (`-`, `_`, `:` among them) is kept, in order.
pub proof fn lemma_router_path_without_braces(p: Seq<char>)
    requires
        forall|i: int| 0 <= i < p.len() ==> p[i] != '{' && p[i] != '}',
    ensures
        router_path(p) == p,
    decreases p.len(),
{
    if p.len() > 0 {
        lemma_router_path_without_braces(p.drop_last());
        assert(p.drop_last().push(p.last()) =~= p);
    }
}

/// Law: where the host holds no `:`, the listening address `host:port` is
/// an IPv4 address exactly when the host contains a `.`, wherever it stands.
pub proof fn lemma_ipv4_when_host_has_a_dot(host: Seq<char>, port: u16)
    requires
        !host.contains(':'),
    ensures
        is_ipv4_address(listen_address(host, port)) <==> host.contains('.'),
{
    let a = listen_address(host, port);
    lemma_first_index_of(a, ':');
    let k = first_index_of(a, ':');
    assert(a[host.len() as int] == ':');
    assert forall|j: int| 0 <= j < host.len() implies a[j] == host[j] by {}
    if k != host.len() {
        if 0 <= k < host.len() {
            assert(host[k] == ':');
            assert(host.contains(':'));
        } else {
            assert(a[host.len() as int] != ':');
        }
    }
    assert(k == host.len());
    assert(a.take(k) =~= host);
    lemma_first_index_of(host, '.');
    if host.contains('.') {
        let j = choose|j: int| 0 <= j < host.len() && host[j] == '.';
        assert(first_index_of(host, '.') >= 0);
    }
}

/// Law: once stopped, the serving loop stays stopped and does nothing more,
/// whatever happens.
pub proof fn lemma_stopped_is_final(e: ServerEvent)
    ensures
        react_spec(ShutdownPhase::Stopped, e).next == ShutdownPhase::Stopped,
        !react_spec(ShutdownPhase::Stopped, e).report_error,
        !react_spec(ShutdownPhase::Stopped, e).begin_shutdown,
        !react_spec(ShutdownPhase::Stopped, e).stopped_gracefully,
        !react_spec(ShutdownPhase::Stopped, e).force_stop,
        react_spec(ShutdownPhase::Stopped, e).exit_code is None,
{
}

/// Law: a first interrupt while serving starts a graceful shutdown, and a
/// second one ends the process with exit code 130; an interrupt is the only
/// event that ends the process, and only while draining.
pub proof fn lemma_interrupts(phase: ShutdownPhase, e: ServerEvent)
    ensures
        react_spec(ShutdownPhase::Serving, ServerEvent::Interrupt).begin_shutdown,
        react_spec(ShutdownPhase::Serving, ServerEvent::Interrupt).next == ShutdownPhase::Draining,
        react_spec(ShutdownPhase::Serving, ServerEvent::Interrupt).exit_code is None,
        react_spec(react_spec(ShutdownPhase::Serving, ServerEvent::Interrupt).next, ServerEvent::Interrupt).exit_code
            == Some(130i32),
        react_spec(phase, e).exit_code is Some <==> (phase == ShutdownPhase::Draining && e == ServerEvent::Interrupt),
{
}

/// Law: when the server task finishes before the process is stopped, the
/// loop stops, reporting the error exactly when the task failed, and counts
/// the stop as graceful exactly when a shutdown had begun; the grace period
/// running out while draining forces the stop.
pub proof fn lemma_finishing(phase: ShutdownPhase, failed: bool)
    requires
        phase != ShutdownPhase::Stopped,
    ensures
        react_spec(phase, ServerEvent::Finished { failed }).next == ShutdownPhase::Stopped,
        react_spec(phase, ServerEvent::Finished { failed }).report_error == failed,
        react_spec(phase, ServerEvent::Finished { failed }).stopped_gracefully == (phase == ShutdownPhase::Draining),
        !react_spec(phase, ServerEvent::Finished { failed }).force_stop,
        react_spec(ShutdownPhase::Draining, ServerEvent::GraceExpired).force_stop,
        react_spec(ShutdownPhase::Draining, ServerEvent::GraceExpired).next == ShutdownPhase::Stopped,
        !react_spec(ShutdownPhase::Serving, ServerEvent::GraceExpired).force_stop,
{
}

} // verus!
