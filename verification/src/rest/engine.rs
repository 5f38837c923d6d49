//! The engine, which collects routes, middlewares and fallback handlers
//! before a server is made of them, and the middleware chain builder.
use vstd::prelude::*;

use crate::rest::config::{validate_conf, RestConf};
use crate::rest::route::{method_name, Route};
use crate::rest::server::{group_label, prefixed_path, prefixed_routes, root_only, Server};
use crate::text::{concat2, lex_lt, lemma_lex_asymmetric, lemma_lex_total, lemma_lex_transitive, owned, push_str, str_lt, views};

verus! {

/// `x` put into `xs` before the first element it is below (after the
/// elements equal to it).
pub open spec fn insert_keep(xs: Seq<Seq<char>>, x: Seq<char>) -> Seq<Seq<char>>
    decreases xs.len(),
{
    if xs.len() == 0 {
        seq![x]
    } else if lex_lt(x, xs[0]) {
        seq![x] + xs
    } else {
        seq![xs[0]] + insert_keep(xs.drop_first(), x)
    }
}

/// `xs` sorted ascending, duplicates kept (`slice::sort`).
pub open spec fn sort_all(xs: Seq<Seq<char>>) -> Seq<Seq<char>>
    decreases xs.len(),
{
    if xs.len() == 0 {
        Seq::empty()
    } else {
        insert_keep(sort_all(xs.drop_last()), xs.last())
    }
}

/// No element is below one before it.
pub open spec fn ascending(s: Seq<Seq<char>>) -> bool {
    forall|i: int, j: int| 0 <= i < j < s.len() ==> !lex_lt(#[trigger] s[j], #[trigger] s[i])
}

/// Where `insert_keep` puts `x`.
pub open spec fn keep_pos(xs: Seq<Seq<char>>, x: Seq<char>) -> int
    decreases xs.len(),
{
    if xs.len() == 0 || lex_lt(x, xs[0]) {
        0
    } else {
        1 + keep_pos(xs.drop_first(), x)
    }
}

proof fn lemma_insert_keep_pos(xs: Seq<Seq<char>>, x: Seq<char>)
    ensures
        0 <= keep_pos(xs, x) <= xs.len(),
        insert_keep(xs, x) == xs.insert(keep_pos(xs, x), x),
        forall|k: int| 0 <= k < keep_pos(xs, x) ==> !lex_lt(x, #[trigger] xs[k]),
        keep_pos(xs, x) < xs.len() ==> lex_lt(x, xs[keep_pos(xs, x)]),
    decreases xs.len(),
{
    if xs.len() == 0 {
        assert(xs.insert(0, x) =~= seq![x]);
    } else if lex_lt(x, xs[0]) {
        assert(xs.insert(0, x) =~= seq![x] + xs);
    } else {
        let t = xs.drop_first();
        lemma_insert_keep_pos(t, x);
        let p = keep_pos(t, x);
        assert(xs.insert(p + 1, x) =~= seq![xs[0]] + t.insert(p, x));
        assert forall|k: int| 0 <= k < p + 1 implies !lex_lt(x, #[trigger] xs[k]) by {
            if k > 0 {
                assert(xs[k] == t[k - 1]);
            }
        }
        if p < t.len() {
            assert(xs[p + 1] == t[p]);
        }
    }
}

proof fn lemma_insert_keep(xs: Seq<Seq<char>>, x: Seq<char>)
    requires
        ascending(xs),
    ensures
        ascending(insert_keep(xs, x)),
        insert_keep(xs, x).to_multiset() == xs.to_multiset().insert(x),
{
    lemma_insert_keep_pos(xs, x);
    let p = keep_pos(xs, x);
    let r = xs.insert(p, x);
    vstd::seq_lib::to_multiset_insert(xs, p, x);
    assert forall|i: int, j: int| 0 <= i < j < r.len() implies !lex_lt(#[trigger] r[j], #[trigger] r[i]) by {
        if i < p && j < p {
            assert(r[i] == xs[i] && r[j] == xs[j]);
        } else if i < p && j == p {
            assert(r[i] == xs[i]);
            if lex_lt(x, xs[i]) {
            }
        } else if i < p {
            assert(r[i] == xs[i] && r[j] == xs[j - 1]);
        } else if i == p {
            assert(r[j] == xs[j - 1]);
            assert(lex_lt(x, xs[p]));
            if j - 1 > p {
                assert(!lex_lt(xs[j - 1], xs[p]));
                if lex_lt(xs[j - 1], x) {
                    lemma_lex_transitive(xs[j - 1], x, xs[p]);
                }
            } else {
                lemma_lex_asymmetric(x, xs[p]);
            }
        } else {
            assert(r[i] == xs[i - 1] && r[j] == xs[j - 1]);
        }
    }
}

/// Sorting keeps every element as often as it occurs and leaves no element
/// below one before it.
pub proof fn law_sort_all(xs: Seq<Seq<char>>)
    ensures
        ascending(sort_all(xs)),
        sort_all(xs).to_multiset() == xs.to_multiset(),
    decreases xs.len(),
{
    if xs.len() == 0 {
        assert(sort_all(xs) =~= xs);
    } else {
        law_sort_all(xs.drop_last());
        lemma_insert_keep(sort_all(xs.drop_last()), xs.last());
        vstd::seq_lib::to_multiset_build(xs.drop_last(), xs.last());
        assert(xs.drop_last().push(xs.last()) =~= xs);
    }
}

fn insert_keep_exec(v: &mut Vec<String>, x: String)
    ensures
        views(final(v)@) == insert_keep(views(old(v)@), x@),
{
    let ghost xs = views(v@);
    proof {
        lemma_insert_keep_pos(xs, x@);
    }
    let mut i: usize = 0;
    while i < v.len() && !str_lt(x.as_str(), v[i].as_str())
        invariant
            i <= v@.len(),
            v@ == old(v)@,
            xs == views(v@),
            i <= keep_pos(xs, x@),
            0 <= keep_pos(xs, x@) <= xs.len(),
            keep_pos(xs, x@) < xs.len() ==> lex_lt(x@, xs[keep_pos(xs, x@)]),
            forall|k: int| 0 <= k < keep_pos(xs, x@) ==> !lex_lt(x@, #[trigger] xs[k]),
        decreases v@.len() - i,
    {
        assert(xs[i as int] == v@[i as int]@);
        i = i + 1;
    }
    proof {
        if i < v@.len() {
            assert(xs[i as int] == v@[i as int]@);
        }
    }
    assert(i == keep_pos(xs, x@));
    let ghost xv = x@;
    v.insert(i, x);
    assert(views(v@) =~= xs.insert(i as int, xv));
}

/// The engine's routes as listed: a title line, then `METHOD path` lines in
/// ascending order, each indented by two spaces.
pub open spec fn route_listing<H>(routes: Seq<Route<H>>) -> Seq<Seq<char>> {
    seq!["Routes:"@] + sort_all(routes.map_values(|r: Route<H>| method_name(r.method) + seq![' '] + r.path@)).map_values(
        |l: Seq<char>| seq![' ', ' '] + l,
    )
}

/// Collects routes, middlewares and fallback handlers; a server is made of
/// them at start.
pub struct Engine<H, M> {
    conf: RestConf,
    routes: Vec<Route<H>>,
    middlewares: Vec<M>,
    not_found: Option<H>,
    not_allowed: Option<H>,
}

impl<H, M> Engine<H, M> {
    pub closed spec fn conf_view(&self) -> RestConf {
        self.conf
    }

    pub closed spec fn route_seq(&self) -> Seq<Route<H>> {
        self.routes@
    }

    pub closed spec fn middleware_seq(&self) -> Seq<M> {
        self.middlewares@
    }

    pub closed spec fn not_found_handler(&self) -> Option<H> {
        self.not_found
    }

    pub closed spec fn not_allowed_handler(&self) -> Option<H> {
        self.not_allowed
    }

    /// An engine for a valid configuration; the configuration's first broken
    /// rule otherwise.
    pub fn new(conf: RestConf) -> (r: Result<Self, String>)
        ensures
            validate_conf(conf) is Ok <==> r is Ok,
            r matches Err(e) ==> validate_conf(conf) == Err::<(), Seq<char>>(e@),
            r matches Ok(eng) ==> {
                &&& eng.conf_view() == conf
                &&& eng.route_seq().len() == 0
                &&& eng.middleware_seq().len() == 0
                &&& eng.not_found_handler() is None
                &&& eng.not_allowed_handler() is None
            },
    {
        match conf.validate() {
            Ok(()) => Ok(Engine {
                conf,
                routes: Vec::new(),
                middlewares: Vec::new(),
                not_found: None,
                not_allowed: None,
            }),
            Err(e) => Err(e),
        }
    }

    /// [`Engine::new`] for a configuration known to be valid.
    pub fn must_new(conf: RestConf) -> (eng: Self)
        requires
            validate_conf(conf) is Ok,
        ensures
            eng.conf_view() == conf,
            eng.route_seq().len() == 0,
            eng.middleware_seq().len() == 0,
            eng.not_found_handler() is None,
            eng.not_allowed_handler() is None,
    {
        match Self::new(conf) {
            Ok(eng) => eng,
            Err(_) => {
                assert(false);
                Engine {
                    conf: RestConf::new(),
                    routes: Vec::new(),
                    middlewares: Vec::new(),
                    not_found: None,
                    not_allowed: None,
                }
            },
        }
    }

    /// The routes added so far.
    pub fn routes(&self) -> (r: &Vec<Route<H>>)
        ensures
            r@ == self.route_seq(),
    {
        &self.routes
    }

    /// Adds routes, in order.
    pub fn add_routes(&mut self, routes: Vec<Route<H>>)
        ensures
            final(self).route_seq() == old(self).route_seq() + routes@,
            final(self).conf_view() == old(self).conf_view(),
            final(self).middleware_seq() == old(self).middleware_seq(),
            final(self).not_found_handler() == old(self).not_found_handler(),
            final(self).not_allowed_handler() == old(self).not_allowed_handler(),
    {
        let mut rs = routes;
        self.routes.append(&mut rs);
    }

    /// Adds one route.
    pub fn add_route(&mut self, route: Route<H>)
        ensures
            final(self).route_seq() == old(self).route_seq().push(route),
            final(self).conf_view() == old(self).conf_view(),
            final(self).middleware_seq() == old(self).middleware_seq(),
            final(self).not_found_handler() == old(self).not_found_handler(),
            final(self).not_allowed_handler() == old(self).not_allowed_handler(),
    {
        self.routes.push(route);
    }

    /// Adds a global middleware.
    pub fn use_middleware(&mut self, middleware: M)
        ensures
            final(self).middleware_seq() == old(self).middleware_seq().push(middleware),
            final(self).conf_view() == old(self).conf_view(),
            final(self).route_seq() == old(self).route_seq(),
            final(self).not_found_handler() == old(self).not_found_handler(),
            final(self).not_allowed_handler() == old(self).not_allowed_handler(),
    {
        self.middlewares.push(middleware);
    }

    /// Sets the handler of requests that match no route.
    pub fn set_not_found_handler(&mut self, handler: H)
        ensures
            final(self).not_found_handler() == Some(handler),
            final(self).not_allowed_handler() == old(self).not_allowed_handler(),
            final(self).conf_view() == old(self).conf_view(),
            final(self).route_seq() == old(self).route_seq(),
            final(self).middleware_seq() == old(self).middleware_seq(),
    {
        self.not_found = Some(handler);
    }

    /// Sets the handler of requests whose path exists for other methods only.
    pub fn set_not_allowed_handler(&mut self, handler: H)
        ensures
            final(self).not_allowed_handler() == Some(handler),
            final(self).not_found_handler() == old(self).not_found_handler(),
            final(self).conf_view() == old(self).conf_view(),
            final(self).route_seq() == old(self).route_seq(),
            final(self).middleware_seq() == old(self).middleware_seq(),
    {
        self.not_allowed = Some(handler);
    }

    /// The server that starting the engine runs: same configuration, fallback
    /// handlers and middlewares, and the routes registered with no prefix.
    pub fn into_server(self) -> (s: Server<H, M>)
        ensures
            s.conf_view() == self.conf_view(),
            s.not_found_handler() == self.not_found_handler(),
            s.not_allowed_handler() == self.not_allowed_handler(),
            s.middleware_seq() == self.middleware_seq(),
            prefixed_routes(Seq::empty(), self.route_seq(), s.route_seq()),
            s.debug_rows() == Seq::new(self.route_seq().len(), |i: int|
                (seq!['-'], method_name(self.route_seq()[i].method), self.route_seq()[i].path@)),
            s.debug_group_view() is None,
            s.chain().len() == 0,
    {
        let ghost routes = self.routes@;
        let mut server: Server<H, M> = Server::new(self.conf);
        match self.not_found {
            Some(h) => server.set_not_found_handler(h),
            None => {},
        }
        match self.not_allowed {
            Some(h) => server.set_not_allowed_handler(h),
            None => {},
        }
        server.with_middlewares(self.middlewares);
        assert(server.middleware_seq() =~= self.middlewares@);
        server.add_routes(self.routes);
        proof {
            assert(server.route_seq().subrange(0, routes.len() as int) =~= server.route_seq());
            assert(Seq::<(Seq<char>, Seq<char>, Seq<char>)>::empty() + Seq::new(routes.len(), |i: int|
                (group_label(None, Seq::empty()), method_name(routes[i].method),
                prefixed_path(Seq::empty(), routes[i].path@))) =~= Seq::new(routes.len(), |i: int|
                (seq!['-'], method_name(routes[i].method), routes[i].path@)));
            assert(root_only(Seq::<Seq<char>>::empty()) =~= Seq::empty());
        }
        server
    }

    /// The listing of the routes printed by the engine (see [`route_listing`]).
    pub fn route_lines(&self) -> (r: Vec<String>)
        ensures
            views(r@) == route_listing(self.route_seq()),
    {
        let ghost keys = self.routes@.map_values(|r: Route<H>| method_name(r.method) + seq![' '] + r.path@);
        let mut sorted: Vec<String> = Vec::new();
        let mut i: usize = 0;
        assert(views(sorted@) =~= sort_all(keys.subrange(0, 0)));
        while i < self.routes.len()
            invariant
                i <= self.routes@.len(),
                keys == self.routes@.map_values(|r: Route<H>| method_name(r.method) + seq![' '] + r.path@),
                views(sorted@) == sort_all(keys.subrange(0, i as int)),
            decreases self.routes@.len() - i,
        {
            let mut line = owned(self.routes[i].method.as_str());
            push_str(&mut line, " ");
            push_str(&mut line, self.routes[i].path.as_str());
            proof {
                reveal_strlit(" ");
                assert(line@ =~= keys[i as int]);
            }
            insert_keep_exec(&mut sorted, line);
            assert(keys.subrange(0, i + 1).drop_last() =~= keys.subrange(0, i as int));
            i = i + 1;
        }
        assert(keys.subrange(0, self.routes@.len() as int) =~= keys);
        let mut out: Vec<String> = Vec::new();
        out.push(owned("Routes:"));
        let ghost sv = views(sorted@);
        let mut j: usize = 0;
        while j < sorted.len()
            invariant
                j <= sorted@.len(),
                sv == views(sorted@),
                views(out@) == seq!["Routes:"@] + sv.subrange(0, j as int).map_values(|l: Seq<char>| seq![' ', ' '] + l),
            decreases sorted@.len() - j,
        {
            let l = concat2("  ", sorted[j].as_str());
            proof {
                reveal_strlit("  ");
                assert(l@ =~= seq![' ', ' '] + sv[j as int]);
            }
            let ghost prev = out@;
            let ghost lv = l@;
            out.push(l);
            assert(views(out@) =~= views(prev).push(lv));
            assert(sv.subrange(0, j + 1).map_values(|l: Seq<char>| seq![' ', ' '] + l) =~= sv.subrange(0, j as int).map_values(
                |l: Seq<char>| seq![' ', ' '] + l).push(seq![' ', ' '] + sv[j as int]));
            j = j + 1;
        }
        assert(sv.subrange(0, sorted@.len() as int) =~= sv);
        out
    }
}

/// A list of middlewares, applied to a handler in the order they were appended.
pub struct Chain<M> {
    mws: Vec<M>,
}

impl<M> Chain<M> {
    pub closed spec fn middleware_seq(&self) -> Seq<M> {
        self.mws@
    }

    /// An empty chain.
    pub fn new() -> (c: Self)
        ensures
            c.middleware_seq().len() == 0,
    {
        Chain { mws: Vec::new() }
    }

    /// The chain with `mw` appended.
    pub fn append(self, mw: M) -> (c: Self)
        ensures
            c.middleware_seq() == self.middleware_seq().push(mw),
    {
        let mut me = self;
        me.mws.push(mw);
        me
    }

    /// Appends `mw` in place.
    pub fn append_mut(&mut self, mw: M)
        ensures
            final(self).middleware_seq() == old(self).middleware_seq().push(mw),
    {
        self.mws.push(mw);
    }

    /// The middlewares, outermost first.
    pub fn into_middlewares(self) -> (v: Vec<M>)
        ensures
            v@ == self.middleware_seq(),
    {
        self.mws
    }

    /// `handler` inside the chain's middlewares: the first one appended is
    /// the outermost, so it sees a request first and its response last.
    pub fn then<H>(self, handler: H) -> (r: Layered<H, M>)
        ensures
            r.layers() == self.middleware_seq(),
            r.center() == handler,
    {
        wrap_in(handler, self.mws)
    }
}

/// A handler inside layers of middlewares; a request passes the outer layer
/// first.
pub enum Layered<H, M> {
    Handler(H),
    Layer(M, Box<Layered<H, M>>),
}

impl<H, M> Layered<H, M> {
    /// The middlewares, from the outside in.
    pub open spec fn layers(self) -> Seq<M>
        decreases self,
    {
        match self {
            Layered::Handler(_) => Seq::empty(),
            Layered::Layer(m, inner) => seq![m] + inner.layers(),
        }
    }

    /// The handler at the centre.
    pub open spec fn center(self) -> H
        decreases self,
    {
        match self {
            Layered::Handler(h) => h,
            Layered::Layer(_, inner) => inner.center(),
        }
    }
}

/// `handler` wrapped in `mws`, the first middleware outermost.
pub fn wrap_in<H, M>(handler: H, mws: Vec<M>) -> (r: Layered<H, M>)
    ensures
        r.layers() == mws@,
        r.center() == handler,
{
    let ghost all = mws@;
    let mut rest = mws;
    let mut acc: Layered<H, M> = Layered::Handler(handler);
    assert(all.subrange(all.len() as int, all.len() as int) =~= Seq::<M>::empty());
    assert(all.subrange(0, all.len() as int) =~= all);
    while rest.len() > 0
        invariant
            rest@.len() <= all.len(),
            rest@ == all.subrange(0, rest@.len() as int),
            acc.layers() == all.subrange(rest@.len() as int, all.len() as int),
            acc.center() == handler,
        decreases rest@.len(),
    {
        let ghost n = rest@.len();
        let m = rest.pop().unwrap();
        assert(m == all[n - 1]);
        assert(rest@ =~= all.subrange(0, n - 1));
        let ghost inner = acc;
        acc = Layered::Layer(m, Box::new(acc));
        assert(acc.layers() == seq![m] + inner.layers());
        assert(seq![all[n - 1]] + all.subrange(n as int, all.len() as int) =~= all.subrange(n - 1, all.len() as int));
    }
    assert(all.subrange(0, all.len() as int) =~= all);
    acc
}

} // verus!
