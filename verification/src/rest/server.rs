//! The server builder: routes registered under a chain of prefixes, global
//! middlewares, custom fallback handlers and the table of registered routes.
use vstd::prelude::*;

use crate::rest::config::{Mode, RestConf};
use crate::rest::routing::{all_fresh_static, distinct_methods, refused_with, registered, static_wf, tree_safe, RestRouter, RouteError};
use crate::rest::route::{join_path_spec, method_name, normalize_path_spec, with_prefix, Method, Route};
use crate::rest::route_table::{
    cells_fit, law_sorted_rows, utf8_fits, render_table, rows_view, sort_rows, sorted_rows, table_lines,
};
use crate::text::{chars_of, concat3, concat_all, owned, string_of, views};

verus! {

/// `s` with every run of slashes squeezed to one slash (what repeated
/// `replace("//", "/")` leaves).
pub open spec fn squeeze_slashes(s: Seq<char>) -> Seq<char>
    decreases s.len(),
{
    if s.len() == 0 {
        s
    } else if s.len() >= 2 && s[0] == '/' && s[1] == '/' {
        squeeze_slashes(s.drop_first())
    } else {
        seq![s[0]] + squeeze_slashes(s.drop_first())
    }
}

/// The path a route gets under a prefix chain: the last prefix is joined
/// first, the root prefix last.
pub open spec fn prefixed_path(chain: Seq<Seq<char>>, path: Seq<char>) -> Seq<char>
    decreases chain.len(),
{
    if chain.len() == 0 {
        path
    } else {
        join_path_spec(normalize_path_spec(chain[0]), prefixed_path(chain.drop_first(), path))
    }
}

/// The group shown for routes registered now: the debug group when set;
/// otherwise the joined prefix chain, rooted and with slash runs squeezed,
/// and `-` for an empty chain or a bare `/`.
pub open spec fn group_label(group: Option<Seq<char>>, chain: Seq<Seq<char>>) -> Seq<char> {
    match group {
        Some(g) => g,
        None => if chain.len() == 0 {
            seq!['-']
        } else {
            let joined = concat_all(chain);
            let rooted = if joined.len() > 0 && joined[0] == '/' {
                joined
            } else {
                seq!['/'] + joined
            };
            let s = squeeze_slashes(rooted);
            if s == seq!['/'] {
                seq!['-']
            } else {
                s
            }
        },
    }
}

/// The chain after a registration: only the root prefix stays.
pub open spec fn root_only(chain: Seq<Seq<char>>) -> Seq<Seq<char>> {
    if chain.len() == 0 {
        chain
    } else {
        seq![chain[0]]
    }
}

/// `out` is `routes` with every path put under `chain`.
pub open spec fn prefixed_routes<H>(chain: Seq<Seq<char>>, routes: Seq<Route<H>>, out: Seq<Route<H>>) -> bool {
    &&& out.len() == routes.len()
    &&& forall|i: int|
        0 <= i < out.len() ==> {
            &&& (#[trigger] out[i]).method == routes[i].method
            &&& out[i].handler == routes[i].handler
            &&& out[i].path@ == prefixed_path(chain, routes[i].path@)
        }
}

/// The name a mode prints with.
pub open spec fn mode_name(m: Mode) -> Seq<char> {
    match m {
        Mode::Dev => "Dev"@,
        Mode::Test => "Test"@,
        Mode::Rt => "Rt"@,
        Mode::Pre => "Pre"@,
        Mode::Pro => "Pro"@,
    }
}

/// Modes in which the registered routes are listed at start.
pub open spec fn lists_routes(m: Mode) -> bool {
    m is Dev || m is Test
}

pub open spec fn table_title(m: Mode) -> Seq<char> {
    "Registered routes (mode "@ + mode_name(m) + "):"@
}

/// A built-in middleware that the configuration switches on.
#[derive(Clone, Copy, Debug, PartialEq, Eq, Structural)]
pub enum AutoMiddleware {
    /// Rejects bodies over this many bytes.
    MaxBytes(u64),
    /// Token bucket: permits per second and burst.
    RateLimit(u64, u64),
    /// At most this many requests in flight.
    ConcurrencyLimit(usize),
    /// Per-request timeout in milliseconds.
    Timeout(u64),
    /// Gzip request decoding and response encoding.
    Gzip,
}

/// The built-in middlewares, outermost first: body limit, rate limit,
/// concurrency limit, timeout, gzip.
pub open spec fn auto_plan(c: RestConf) -> Seq<AutoMiddleware> {
    let a: Seq<AutoMiddleware> = if c.middlewares.max_bytes {
        seq![AutoMiddleware::MaxBytes(c.max_bytes as u64)]
    } else {
        Seq::empty()
    };
    let b = match c.rate_limit {
        Some(rl) => a.push(AutoMiddleware::RateLimit(rl.permits_per_second, rl.burst)),
        None => a,
    };
    let d = match c.concurrency_limit {
        Some(n) => b.push(AutoMiddleware::ConcurrencyLimit(n)),
        None => b,
    };
    let e = match c.timeout {
        Some(ms) => d.push(AutoMiddleware::Timeout(ms)),
        None => d,
    };
    if c.middlewares.gzip {
        e.push(AutoMiddleware::Gzip)
    } else {
        e
    }
}

/// Where a built-in middleware stands, outermost first.
pub open spec fn auto_rank(m: AutoMiddleware) -> int {
    match m {
        AutoMiddleware::MaxBytes(_) => 0,
        AutoMiddleware::RateLimit(_, _) => 1,
        AutoMiddleware::ConcurrencyLimit(_) => 2,
        AutoMiddleware::Timeout(_) => 3,
        AutoMiddleware::Gzip => 4,
    }
}

/// The built-in middlewares follow the configuration: the body limit when
/// switched on, with the configured size; the rate limit exactly when one is
/// configured, with its permits per second and burst; the concurrency limit
/// and the timeout exactly when configured, with their values; gzip when
/// switched on; nothing else, at most one of each, outermost first in the
/// order body limit, rate limit, concurrency limit, timeout, gzip.
pub proof fn law_auto_middlewares(c: RestConf)
    ensures
        forall|i: int, j: int|
            0 <= i < j < auto_plan(c).len() ==> auto_rank(#[trigger] auto_plan(c)[i]) < auto_rank(#[trigger] auto_plan(c)[j]),
        forall|n: u64| #[trigger] auto_plan(c).contains(AutoMiddleware::MaxBytes(n)) <==> c.middlewares.max_bytes && n == c.max_bytes as u64,
        forall|p: u64, b: u64|
            #[trigger] auto_plan(c).contains(AutoMiddleware::RateLimit(p, b)) <==> (c.rate_limit matches Some(rl)
                && rl.permits_per_second == p && rl.burst == b),
        forall|n: usize| #[trigger] auto_plan(c).contains(AutoMiddleware::ConcurrencyLimit(n)) <==> c.concurrency_limit == Some(n),
        forall|ms: u64| #[trigger] auto_plan(c).contains(AutoMiddleware::Timeout(ms)) <==> c.timeout == Some(ms),
        auto_plan(c).contains(AutoMiddleware::Gzip) <==> c.middlewares.gzip,
{
    broadcast use vstd::seq_lib::group_seq_properties;
    let a: Seq<AutoMiddleware> = if c.middlewares.max_bytes {
        seq![AutoMiddleware::MaxBytes(c.max_bytes as u64)]
    } else {
        Seq::empty()
    };
    assert(a.len() <= 1);
    let b = match c.rate_limit {
        Some(rl) => a.push(AutoMiddleware::RateLimit(rl.permits_per_second, rl.burst)),
        None => a,
    };
    let d = match c.concurrency_limit {
        Some(n) => b.push(AutoMiddleware::ConcurrencyLimit(n)),
        None => b,
    };
    let e = match c.timeout {
        Some(ms) => d.push(AutoMiddleware::Timeout(ms)),
        None => d,
    };
    let f = auto_plan(c);
    assert(forall|i: int| 0 <= i < a.len() ==> auto_rank(#[trigger] a[i]) == 0);
    assert(forall|i: int| 0 <= i < b.len() ==> auto_rank(#[trigger] b[i]) <= 1);
    assert(forall|i: int, j: int| 0 <= i < j < b.len() ==> auto_rank(#[trigger] b[i]) < auto_rank(#[trigger] b[j]));
    assert(forall|i: int| 0 <= i < d.len() ==> auto_rank(#[trigger] d[i]) <= 2);
    assert(forall|i: int, j: int| 0 <= i < j < d.len() ==> auto_rank(#[trigger] d[i]) < auto_rank(#[trigger] d[j]));
    assert(forall|i: int| 0 <= i < e.len() ==> auto_rank(#[trigger] e[i]) <= 3);
    assert(forall|i: int, j: int| 0 <= i < j < e.len() ==> auto_rank(#[trigger] e[i]) < auto_rank(#[trigger] e[j]));
}

/// The built-in middlewares that `conf` switches on (see [`auto_plan`]).
pub fn auto_middlewares(conf: &RestConf) -> (r: Vec<AutoMiddleware>)
    ensures
        r@ == auto_plan(*conf),
{
    let mut v: Vec<AutoMiddleware> = Vec::new();
    if conf.middlewares.max_bytes {
        v.push(AutoMiddleware::MaxBytes(conf.max_bytes as u64));
    }
    match &conf.rate_limit {
        Some(rl) => v.push(AutoMiddleware::RateLimit(rl.permits_per_second, rl.burst)),
        None => {},
    }
    match conf.concurrency_limit {
        Some(n) => v.push(AutoMiddleware::ConcurrencyLimit(n)),
        None => {},
    }
    match conf.timeout {
        Some(ms) => v.push(AutoMiddleware::Timeout(ms)),
        None => {},
    }
    if conf.middlewares.gzip {
        v.push(AutoMiddleware::Gzip);
    }
    assert(v@ =~= auto_plan(*conf));
    v
}

/// A web server under construction. `H` is the handler type and `M` the
/// middleware type.
pub struct Server<H, M> {
    conf: RestConf,
    routes: Vec<Route<H>>,
    debug_routes: Vec<(String, String, String)>,
    debug_group: Option<String>,
    middlewares: Vec<M>,
    not_found: Option<H>,
    not_allowed: Option<H>,
    prefix_chain: Vec<String>,
}

fn squeeze_slashes_exec(s: &Vec<char>) -> (r: Vec<char>)
    ensures
        r@ == squeeze_slashes(s@),
{
    let n = s.len();
    let mut out: Vec<char> = Vec::new();
    let mut i: usize = 0;
    assert(s@.subrange(0, n as int) =~= s@);
    while i < n
        invariant
            i <= n == s@.len(),
            out@ + squeeze_slashes(s@.subrange(i as int, n as int)) == squeeze_slashes(s@),
        decreases n - i,
    {
        let ghost rest = s@.subrange(i as int, n as int);
        let ghost before = out@;
        assert(rest.drop_first() =~= s@.subrange(i + 1, n as int));
        if i + 1 < n && s[i] == '/' && s[i + 1] == '/' {
        } else {
            out.push(s[i]);
            assert(before + (seq![s@[i as int]] + squeeze_slashes(s@.subrange(i + 1, n as int)))
                =~= out@ + squeeze_slashes(s@.subrange(i + 1, n as int)));
        }
        i = i + 1;
    }
    assert(out@ + squeeze_slashes(Seq::<char>::empty()) =~= out@);
    assert(s@.subrange(n as int, n as int) =~= Seq::<char>::empty());
    out
}

fn concat_exec(parts: &Vec<String>) -> (r: Vec<char>)
    ensures
        r@ == concat_all(views(parts@)),
{
    let mut out: Vec<char> = Vec::new();
    let mut i: usize = 0;
    while i < parts.len()
        invariant
            i <= parts@.len(),
            out@ == concat_all(views(parts@).subrange(0, i as int)),
        decreases parts@.len() - i,
    {
        let cs = chars_of(parts[i].as_str());
        let mut j: usize = 0;
        let ghost before = out@;
        while j < cs.len()
            invariant
                j <= cs@.len(),
                out@ == before + cs@.subrange(0, j as int),
            decreases cs@.len() - j,
        {
            out.push(cs[j]);
            assert(cs@.subrange(0, j + 1) =~= cs@.subrange(0, j as int).push(cs@[j as int]));
            j = j + 1;
        }
        assert(cs@.subrange(0, cs@.len() as int) =~= cs@);
        assert(views(parts@).subrange(0, i + 1).drop_last() =~= views(parts@).subrange(0, i as int));
        i = i + 1;
    }
    assert(views(parts@).subrange(0, parts@.len() as int) =~= views(parts@));
    out
}

impl<H, M> Server<H, M> {
    pub closed spec fn conf_view(&self) -> RestConf {
        self.conf
    }

    pub closed spec fn route_seq(&self) -> Seq<Route<H>> {
        self.routes@
    }

    pub closed spec fn debug_rows(&self) -> Seq<(Seq<char>, Seq<char>, Seq<char>)> {
        rows_view(self.debug_routes@)
    }

    pub closed spec fn debug_group_view(&self) -> Option<Seq<char>> {
        match self.debug_group {
            Some(g) => Some(g@),
            None => None,
        }
    }

    pub closed spec fn middleware_seq(&self) -> Seq<M> {
        self.middlewares@
    }

    pub closed spec fn not_found_handler(&self) -> Option<H> {
        self.not_found
    }

    pub closed spec fn not_allowed_handler(&self) -> Option<H> {
        self.not_allowed
    }

    pub closed spec fn chain(&self) -> Seq<Seq<char>> {
        views(self.prefix_chain@)
    }

    /// The server state other than the prefix chain and the debug group is
    /// that of `other`.
    pub open spec fn same_routing(&self, other: &Self) -> bool {
        &&& self.conf_view() == other.conf_view()
        &&& self.route_seq() == other.route_seq()
        &&& self.debug_rows() == other.debug_rows()
        &&& self.middleware_seq() == other.middleware_seq()
        &&& self.not_found_handler() == other.not_found_handler()
        &&& self.not_allowed_handler() == other.not_allowed_handler()
    }

    /// A server with the given configuration and nothing registered.
    pub fn new(conf: RestConf) -> (s: Self)
        ensures
            s.conf_view() == conf,
            s.route_seq().len() == 0,
            s.debug_rows().len() == 0,
            s.debug_group_view() is None,
            s.middleware_seq().len() == 0,
            s.not_found_handler() is None,
            s.not_allowed_handler() is None,
            s.chain().len() == 0,
    {
        let s = Server {
            conf,
            routes: Vec::new(),
            debug_routes: Vec::new(),
            debug_group: None,
            middlewares: Vec::new(),
            not_found: None,
            not_allowed: None,
            prefix_chain: Vec::new(),
        };
        assert(s.debug_rows() =~= Seq::empty());
        assert(s.chain() =~= Seq::empty());
        s
    }

    /// The server configuration.
    pub fn conf(&self) -> (c: &RestConf)
        ensures
            *c == self.conf_view(),
    {
        &self.conf
    }

    /// The routes registered so far, with their prefixes applied.
    pub fn routes(&self) -> (r: &Vec<Route<H>>)
        ensures
            r@ == self.route_seq(),
    {
        &self.routes
    }

    fn current_group_label(&self) -> (r: String)
        ensures
            r@ == group_label(self.debug_group_view(), self.chain()),
    {
        match &self.debug_group {
            Some(g) => {
                return owned(g.as_str());
            },
            None => {},
        }
        if self.prefix_chain.len() == 0 {
            let r = owned("-");
            proof {
                reveal_strlit("-");
                assert(r@ =~= seq!['-']);
            }
            return r;
        }
        let joined = concat_exec(&self.prefix_chain);
        let mut rooted: Vec<char> = Vec::new();
        if !(joined.len() > 0 && joined[0] == '/') {
            rooted.push('/');
        }
        let ghost lead = rooted@;
        let mut i: usize = 0;
        while i < joined.len()
            invariant
                i <= joined@.len(),
                rooted@ == lead + joined@.subrange(0, i as int),
            decreases joined@.len() - i,
        {
            rooted.push(joined[i]);
            assert(joined@.subrange(0, i + 1) =~= joined@.subrange(0, i as int).push(joined@[i as int]));
            i = i + 1;
        }
        assert(joined@.subrange(0, joined@.len() as int) =~= joined@);
        proof {
            if joined@.len() > 0 && joined@[0] == '/' {
                assert(rooted@ =~= joined@);
            } else {
                assert(rooted@ =~= seq!['/'] + joined@);
            }
        }
        let s = squeeze_slashes_exec(&rooted);
        if s.len() == 1 && s[0] == '/' {
            assert(s@ =~= seq!['/']);
            let r = owned("-");
            proof {
                reveal_strlit("-");
                assert(r@ =~= seq!['-']);
            }
            r
        } else {
            assert(s@ != seq!['/']);
            string_of(s.as_slice())
        }
    }
}

/// The routes with every path put under the prefix chain.
fn apply_prefixes<H>(chain: &Vec<String>, routes: Vec<Route<H>>) -> (r: Vec<Route<H>>)
    ensures
        prefixed_routes(views(chain@), routes@, r@),
{
    let ghost orig = routes@;
    let ghost cv = views(chain@);
    let n = chain.len();
    let mut acc = routes;
    let mut i: usize = n;
    assert(cv.subrange(n as int, n as int) =~= Seq::<Seq<char>>::empty());
    while i > 0
        invariant
            i <= n == chain@.len(),
            cv == views(chain@),
            prefixed_routes(cv.subrange(i as int, n as int), orig, acc@),
        decreases i,
    {
        i = i - 1;
        let ghost before = acc@;
        acc = with_prefix(chain[i].as_str(), acc);
        proof {
            let sub = cv.subrange(i as int, n as int);
            assert(sub.drop_first() =~= cv.subrange(i + 1, n as int));
            assert(sub[0] == chain@[i as int]@);
            assert forall|k: int| 0 <= k < acc@.len() implies (#[trigger] acc@[k]).path@ == prefixed_path(sub, orig[k].path@) by {
                assert(before[k].path@ == prefixed_path(cv.subrange(i + 1, n as int), orig[k].path@));
            }
        }
    }
    assert(cv.subrange(0, n as int) =~= cv);
    acc
}

impl<H, M> Server<H, M> {
    /// Registers the routes under the current prefix chain, records their
    /// debug rows and keeps only the root prefix afterwards.
    pub fn add_routes(&mut self, routes: Vec<Route<H>>)
        ensures
            final(self).conf_view() == old(self).conf_view(),
            final(self).route_seq().len() == old(self).route_seq().len() + routes@.len(),
            final(self).route_seq().subrange(0, old(self).route_seq().len() as int) == old(self).route_seq(),
            prefixed_routes(old(self).chain(), routes@,
                final(self).route_seq().subrange(old(self).route_seq().len() as int, final(self).route_seq().len() as int)),
            final(self).debug_rows() == old(self).debug_rows() + Seq::new(routes@.len(), |i: int|
                (group_label(old(self).debug_group_view(), old(self).chain()), method_name(routes@[i].method),
                prefixed_path(old(self).chain(), routes@[i].path@))),
            final(self).debug_group_view() == old(self).debug_group_view(),
            final(self).middleware_seq() == old(self).middleware_seq(),
            final(self).not_found_handler() == old(self).not_found_handler(),
            final(self).not_allowed_handler() == old(self).not_allowed_handler(),
            final(self).chain() == root_only(old(self).chain()),
    {
        let ghost old_routes = self.routes@;
        let ghost old_rows = self.debug_rows();
        let ghost chain = self.chain();
        let label = self.current_group_label();
        let mut prefixed = apply_prefixes(&self.prefix_chain, routes);
        let ghost pre = prefixed@;
        let mut i: usize = 0;
        while i < prefixed.len()
            invariant
                i <= prefixed@.len(),
                prefixed@ == pre,
                prefixed_routes(chain, routes@, pre),
                label@ == group_label(self.debug_group_view(), chain),
                self.debug_rows() == old_rows + Seq::new(i as nat, |k: int|
                    (label@, method_name(routes@[k].method), prefixed_path(chain, routes@[k].path@))),
                self.routes@ == old_routes,
                self.chain() == chain,
                self.debug_group_view() == old(self).debug_group_view(),
                self.middleware_seq() == old(self).middleware_seq(),
                self.not_found_handler() == old(self).not_found_handler(),
                self.not_allowed_handler() == old(self).not_allowed_handler(),
                self.conf_view() == old(self).conf_view(),
            decreases prefixed@.len() - i,
        {
            let g = owned(label.as_str());
            let m = owned(prefixed[i].method.as_str());
            let p = owned(prefixed[i].path.as_str());
            let ghost rows_before = self.debug_rows();
            self.debug_routes.push((g, m, p));
            assert(self.debug_rows() =~= rows_before.push((label@, method_name(routes@[i as int].method),
                prefixed_path(chain, routes@[i as int].path@))));
            assert(old_rows + Seq::new((i + 1) as nat, |k: int|
                    (label@, method_name(routes@[k].method), prefixed_path(chain, routes@[k].path@)))
                =~= (old_rows + Seq::new(i as nat, |k: int|
                    (label@, method_name(routes@[k].method), prefixed_path(chain, routes@[k].path@)))).push(
                    (label@, method_name(routes@[i as int].method), prefixed_path(chain, routes@[i as int].path@))));
            i = i + 1;
        }
        self.routes.append(&mut prefixed);
        assert(self.routes@.subrange(0, old_routes.len() as int) =~= old_routes);
        assert(self.routes@.subrange(old_routes.len() as int, self.routes@.len() as int) =~= pre);
        self.reset_to_root();
    }

    /// Registers one route (see [`Server::add_routes`]).
    pub fn add_route(&mut self, route: Route<H>)
        ensures
            final(self).conf_view() == old(self).conf_view(),
            final(self).route_seq().len() == old(self).route_seq().len() + 1,
            final(self).route_seq().subrange(0, old(self).route_seq().len() as int) == old(self).route_seq(),
            final(self).route_seq().last().method == route.method,
            final(self).route_seq().last().handler == route.handler,
            final(self).route_seq().last().path@ == prefixed_path(old(self).chain(), route.path@),
            final(self).debug_rows() == old(self).debug_rows().push(
                (group_label(old(self).debug_group_view(), old(self).chain()), method_name(route.method),
                prefixed_path(old(self).chain(), route.path@))),
            final(self).debug_group_view() == old(self).debug_group_view(),
            final(self).middleware_seq() == old(self).middleware_seq(),
            final(self).not_found_handler() == old(self).not_found_handler(),
            final(self).not_allowed_handler() == old(self).not_allowed_handler(),
            final(self).chain() == root_only(old(self).chain()),
    {
        let ghost r0 = route;
        let mut v: Vec<Route<H>> = Vec::new();
        v.push(route);
        let ghost n0 = self.route_seq().len();
        self.add_routes(v);
        proof {
            let tail = self.route_seq().subrange(n0 as int, self.route_seq().len() as int);
            assert(tail[0] == self.route_seq().last());
            assert(v@[0] == r0);
            assert(Seq::new(1, |i: int| (group_label(old(self).debug_group_view(), old(self).chain()),
                method_name(v@[i].method), prefixed_path(old(self).chain(), v@[i].path@)))
                =~= seq![(group_label(old(self).debug_group_view(), old(self).chain()), method_name(r0.method),
                prefixed_path(old(self).chain(), r0.path@))]);
        }
    }

    fn reset_to_root(&mut self)
        ensures
            final(self).chain() == root_only(old(self).chain()),
            final(self).same_routing(old(self)),
            final(self).debug_group_view() == old(self).debug_group_view(),
    {
        self.prefix_chain.truncate(1);
        assert(self.chain() =~= root_only(old(self).chain()));
    }

    /// Names the group shown for the routes registered from now on.
    pub fn set_debug_group(&mut self, name: String)
        ensures
            final(self).debug_group_view() == Some(name@),
            final(self).chain() == old(self).chain(),
            final(self).same_routing(old(self)),
    {
        self.debug_group = Some(name);
    }

    /// Goes back to showing the prefix chain as the group.
    pub fn clear_debug_group(&mut self)
        ensures
            final(self).debug_group_view() is None,
            final(self).chain() == old(self).chain(),
            final(self).same_routing(old(self)),
    {
        self.debug_group = None;
    }

    /// Adds a global middleware, applied to all routes.
    pub fn use_middleware(&mut self, middleware: M)
        ensures
            final(self).middleware_seq() == old(self).middleware_seq().push(middleware),
            final(self).conf_view() == old(self).conf_view(),
            final(self).route_seq() == old(self).route_seq(),
            final(self).debug_rows() == old(self).debug_rows(),
            final(self).not_found_handler() == old(self).not_found_handler(),
            final(self).not_allowed_handler() == old(self).not_allowed_handler(),
            final(self).debug_group_view() == old(self).debug_group_view(),
            final(self).chain() == old(self).chain(),
    {
        self.middlewares.push(middleware);
    }

    /// Adds global middlewares, in order.
    pub fn with_middlewares(&mut self, middlewares: Vec<M>)
        ensures
            final(self).middleware_seq() == old(self).middleware_seq() + middlewares@,
            final(self).conf_view() == old(self).conf_view(),
            final(self).route_seq() == old(self).route_seq(),
            final(self).debug_rows() == old(self).debug_rows(),
            final(self).not_found_handler() == old(self).not_found_handler(),
            final(self).not_allowed_handler() == old(self).not_allowed_handler(),
            final(self).debug_group_view() == old(self).debug_group_view(),
            final(self).chain() == old(self).chain(),
    {
        let mut ms = middlewares;
        self.middlewares.append(&mut ms);
    }

    /// Adds one global middleware.
    pub fn with_middleware(&mut self, middleware: M)
        ensures
            final(self).middleware_seq() == old(self).middleware_seq().push(middleware),
            final(self).conf_view() == old(self).conf_view(),
            final(self).route_seq() == old(self).route_seq(),
            final(self).debug_rows() == old(self).debug_rows(),
            final(self).not_found_handler() == old(self).not_found_handler(),
            final(self).not_allowed_handler() == old(self).not_allowed_handler(),
            final(self).debug_group_view() == old(self).debug_group_view(),
            final(self).chain() == old(self).chain(),
    {
        let mut v: Vec<M> = Vec::new();
        v.push(middleware);
        self.with_middlewares(v);
        assert(old(self).middleware_seq() + v@ =~= old(self).middleware_seq().push(middleware));
    }

    /// Sets the handler of requests that match no route.
    pub fn set_not_found_handler(&mut self, handler: H)
        ensures
            final(self).not_found_handler() == Some(handler),
            final(self).not_allowed_handler() == old(self).not_allowed_handler(),
            final(self).conf_view() == old(self).conf_view(),
            final(self).route_seq() == old(self).route_seq(),
            final(self).debug_rows() == old(self).debug_rows(),
            final(self).middleware_seq() == old(self).middleware_seq(),
            final(self).debug_group_view() == old(self).debug_group_view(),
            final(self).chain() == old(self).chain(),
    {
        self.not_found = Some(handler);
    }

    /// Sets the handler of requests whose path exists for other methods only.
    pub fn set_not_allowed_handler(&mut self, handler: H)
        ensures
            final(self).not_allowed_handler() == Some(handler),
            final(self).not_found_handler() == old(self).not_found_handler(),
            final(self).conf_view() == old(self).conf_view(),
            final(self).route_seq() == old(self).route_seq(),
            final(self).debug_rows() == old(self).debug_rows(),
            final(self).middleware_seq() == old(self).middleware_seq(),
            final(self).debug_group_view() == old(self).debug_group_view(),
            final(self).chain() == old(self).chain(),
    {
        self.not_allowed = Some(handler);
    }

    /// Replaces the prefix chain by a single root prefix.
    pub fn with_root_prefix(&mut self, prefix: String)
        ensures
            final(self).chain() == seq![prefix@],
            final(self).debug_group_view() == old(self).debug_group_view(),
            final(self).same_routing(old(self)),
    {
        let ghost p = prefix@;
        self.prefix_chain.clear();
        self.prefix_chain.push(prefix);
        assert(self.chain() =~= seq![p]);
    }

    /// Appends a prefix to the chain.
    pub fn with_prefix(&mut self, prefix: String)
        ensures
            final(self).chain() == old(self).chain().push(prefix@),
            final(self).debug_group_view() == old(self).debug_group_view(),
            final(self).same_routing(old(self)),
    {
        let ghost p = prefix@;
        self.prefix_chain.push(prefix);
        assert(self.chain() =~= old(self).chain().push(p));
    }
}

impl<H, M> Server<H, M> {
    /// The table of registered routes printed at start, in the modes that
    /// list them: rows sorted by group, path and method, each once.
    pub fn route_table(&self) -> (r: Option<Vec<String>>)
        requires
            cells_fit(self.debug_rows()),
        ensures
            !lists_routes(self.conf_view().service.mode) ==> r is None,
            lists_routes(self.conf_view().service.mode) ==> (r matches Some(lines) && views(lines@) == table_lines(
                table_title(self.conf_view().service.mode),
                sorted_rows(self.debug_rows()),
            )),
    {
        let title = match self.conf.service.mode {
            Mode::Dev => concat3("Registered routes (mode ", "Dev", "):"),
            Mode::Test => concat3("Registered routes (mode ", "Test", "):"),
            _ => {
                return None;
            },
        };
        let rows = sort_rows(&self.debug_routes);
        proof {
            law_sorted_rows(self.debug_rows());
            let sr = sorted_rows(self.debug_rows());
            assert forall|k: int| 0 <= k < sr.len() implies utf8_fits(#[trigger] sr[k]) by {
                assert(sr.to_set().contains(sr[k]));
                assert(self.debug_rows().to_set().contains(sr[k]));
                let m = choose|m: int| 0 <= m < self.debug_rows().len() && self.debug_rows()[m] == sr[k];
                assert(utf8_fits(self.debug_rows()[m]));
            }
        }
        Some(render_table(title.as_str(), &rows))
    }
}

impl<H, M> Server<H, M> {
    /// The router serving the registered routes, with the custom fallback
    /// handlers, and the global middlewares in the order they were added.
    pub fn build_router(self) -> (r: Result<(RestRouter<H>, Vec<M>), RouteError>)
        requires
            forall|k: int| 0 <= k < self.route_seq().len() ==> tree_safe(#[trigger] self.route_seq()[k].path@),
        ensures
            r matches Ok((router, mws)) ==> {
                &&& router.routes@ == self.route_seq()
                &&& router.not_found == self.not_found_handler()
                &&& router.not_allowed == self.not_allowed_handler()
                &&& mws@ == self.middleware_seq()
                &&& static_wf(router.buckets())
                &&& distinct_methods(router.buckets())
                &&& forall|k: int|
                    0 <= k < self.route_seq().len() ==> registered(router.buckets(), #[trigger] self.route_seq()[k], k)
            },
            r matches Err(e) ==> exists|k: int|
                0 <= k < self.route_seq().len() && #[trigger] refused_with(self.route_seq()[k], e),
            all_fresh_static(Seq::<(Method, matchit::Router<usize>)>::empty(), self.route_seq()) ==> r is Ok,
    {
        let mut router: RestRouter<H> = RestRouter::new();
        match self.not_found {
            Some(h) => router.set_not_found_handler(h),
            None => {},
        }
        match self.not_allowed {
            Some(h) => router.set_not_allowed_handler(h),
            None => {},
        }
        assert(router.routes@ =~= Seq::<Route<H>>::empty());
        let ghost rs = self.route_seq();
        assert(router.buckets() =~= Seq::<(Method, matchit::Router<usize>)>::empty());
        match router.add_routes(self.routes) {
            Ok(()) => {
                assert(router.routes@ =~= self.routes@);
                assert forall|k: int| 0 <= k < rs.len() implies registered(router.buckets(), #[trigger] rs[k], k) by {
                    assert(registered(router.buckets(), rs[k], 0 + k));
                }
                Ok((router, self.middlewares))
            },
            Err(e) => {
                proof {
                    let k = choose|k: int| 0 <= k < rs.len() && #[trigger] refused_with(rs[k], e);
                    assert(refused_with(rs[k], e));
                }
                Err(e)
            },
        }
    }
}

} // verus!
