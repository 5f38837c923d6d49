//! The request router: one path tree per method, matched by `matchit`.
use vstd::prelude::*;

use crate::rest::route::{join_path_spec, join_raw, method_name, normalize_path_spec, with_prefix, Method, Route};
use crate::text::{into_reversed, join_seqs, join_strings, views, chars_of, has_prefix, has_suffix, owned, push_all, push_char, push_str, split, split_chars, string_of, sub_vec, trim_start_char, trim_char_bounds};

verus! {

// ---------------------------------------------------------------------
// The outside path tree
// ---------------------------------------------------------------------
#[verifier::external_type_specification]
#[verifier::external_body]
#[verifier::reject_recursive_types(T)]
pub struct ExMatchRouter<T>(matchit::Router<T>);

/// The (pattern, value) pairs inserted into a `matchit` tree, in order.
pub uninterp spec fn tree_entries(t: matchit::Router<usize>) -> Seq<(Seq<char>, usize)>;

/// What `matchit::Router::at` finds for `path` in a tree holding `entries`:
/// the value and the captured parameters, in order.
pub uninterp spec fn tree_lookup(entries: Seq<(Seq<char>, usize)>, path: Seq<char>) -> Option<
    (usize, Seq<(Seq<char>, Seq<char>)>),
>;

/// `matchit::Router::new`: an empty tree, in which no path is found.
#[verifier::external_body]
fn tree_new() -> (t: matchit::Router<usize>)
    ensures
        tree_entries(t) == Seq::<(Seq<char>, usize)>::empty(),
        forall|p: Seq<char>| #[trigger] tree_lookup(tree_entries(t), p) is None,
{
    matchit::Router::new()
}

/// A pattern without parameters (no `:name` or `*name` segment).
pub open spec fn static_pattern(p: Seq<char>) -> bool {
    forall|i: int| 0 <= i < p.len() ==> p[i] != ':' && p[i] != '*'
}

/// How many times `c` occurs in `s`.
pub open spec fn count_of(s: Seq<char>, c: char) -> nat
    decreases s.len(),
{
    if s.len() == 0 {
        0
    } else {
        (if s[0] == c { 1nat } else { 0nat }) + count_of(s.drop_first(), c)
    }
}

/// The tree can take the pattern of `path`: it names fewer than 26
/// parameters (the tree renames parameters `a` to `z` and panics past that).
pub open spec fn tree_safe(path: Seq<char>) -> bool {
    matchit_path_spec(path) matches Ok(p) ==> count_of(p, ':') < 26
}

/// `matchit::Router::insert`. On success the pair is added, and every
/// pattern without parameters in the tree, the new one included, is found
/// at its own path with its value and no parameters (static segments take
/// priority over parameters, and inserting the same pattern again is a
/// conflict); on a conflict the tree's contents are left unsaid (the tree
/// may have been partly changed). A pattern without parameters that was not
/// inserted before is always accepted: its walk never enters a parameter
/// node, and the tree refuses it only where a node already holds a value
/// at exactly that path.
/// The tree renames a pattern's parameters `a` to `z` and panics on a
/// pattern with more; such patterns are left out. Patterns start with `/`:
/// the tree takes one whose root still has an empty prefix and no children
/// for empty, so an empty pattern would be lost on the next insert.
#[verifier::external_body]
fn tree_insert(t: &mut matchit::Router<usize>, pattern: &str, value: usize) -> (ok: bool)
    requires
        rooted(pattern@),
        count_of(pattern@, ':') < 26,
    ensures
        static_pattern(pattern@) && (forall|v: usize| !#[trigger] tree_entries(*old(t)).contains((pattern@, v))) ==> ok,
        ok ==> tree_entries(*final(t)) == tree_entries(*old(t)).push((pattern@, value)),
        ok && static_pattern(pattern@) ==> tree_lookup(tree_entries(*final(t)), pattern@) == Some(
            (value, Seq::<(Seq<char>, Seq<char>)>::empty()),
        ),
        ok ==> forall|p: Seq<char>, v: usize|
            static_pattern(p) && #[trigger] tree_entries(*old(t)).contains((p, v)) ==> tree_lookup(
                tree_entries(*final(t)),
                p,
            ) == Some((v, Seq::<(Seq<char>, Seq<char>)>::empty())),
{
    t.insert(pattern, value).is_ok()
}

/// `matchit::Router::at`, with the parameters copied out. A found value is
/// one that was inserted.
#[verifier::external_body]
fn tree_at(t: &matchit::Router<usize>, path: &str) -> (r: Option<(usize, Vec<(String, String)>)>)
    ensures
        match r {
            Some((v, ps)) => tree_lookup(tree_entries(*t), path@) == Some(
                (v, ps@.map_values(|p: (String, String)| (p.0@, p.1@))),
            ) && exists|i: int|
                0 <= i < tree_entries(*t).len() && #[trigger] tree_entries(*t)[i].1 == v,
            None => tree_lookup(tree_entries(*t), path@) is None,
        },
{
    match t.at(path) {
        Ok(m) => Some((*m.value, m.params.iter().map(|(k, v)| (k.to_string(), v.to_string())).collect())),
        Err(_) => None,
    }
}

// ---------------------------------------------------------------------
// Path checks and conversion to the tree's syntax
// ---------------------------------------------------------------------
/// Why a route could not be registered.
#[derive(Clone, Debug, PartialEq, Eq)]
pub enum RouteError {
    /// The path is empty or does not start with `/`.
    NotRooted,
    /// A `{*name}` segment that is not the last one; the whole path.
    WildcardNotLast(String),
    /// A `{*}` segment; the whole path.
    EmptyWildcardName(String),
    /// A `{}` segment; the whole path.
    EmptyParamName(String),
    /// The tree refused the pattern (it conflicts with an earlier one).
    Conflict(Method, String),
}

pub open spec fn route_error_text(e: RouteError) -> Seq<char> {
    match e {
        RouteError::NotRooted => "path must start with '/'"@,
        RouteError::WildcardNotLast(p) => "wildcard must be the last segment: "@ + p@,
        RouteError::EmptyWildcardName(p) => "wildcard name cannot be empty: "@ + p@,
        RouteError::EmptyParamName(p) => "param name cannot be empty: "@ + p@,
        RouteError::Conflict(m, p) => "register route "@ + method_name(m) + " "@ + p@,
    }
}

impl RouteError {
    pub fn message(&self) -> (s: String)
        ensures
            s@ == route_error_text(*self),
    {
        match self {
            RouteError::NotRooted => owned("path must start with '/'"),
            RouteError::WildcardNotLast(p) => {
                let mut s = owned("wildcard must be the last segment: ");
                push_str(&mut s, p.as_str());
                s
            },
            RouteError::EmptyWildcardName(p) => {
                let mut s = owned("wildcard name cannot be empty: ");
                push_str(&mut s, p.as_str());
                s
            },
            RouteError::EmptyParamName(p) => {
                let mut s = owned("param name cannot be empty: ");
                push_str(&mut s, p.as_str());
                s
            },
            RouteError::Conflict(m, p) => {
                let mut s = owned("register route ");
                push_str(&mut s, m.as_str());
                push_str(&mut s, " ");
                push_str(&mut s, p.as_str());
                s
            },
        }
    }
}

pub open spec fn rooted(p: Seq<char>) -> bool {
    p.len() > 0 && p[0] == '/'
}

/// A path must be non-empty and start with `/`.
pub fn validate_path(path: &str) -> (r: Result<(), RouteError>)
    ensures
        r is Ok <==> rooted(path@),
        r is Err ==> r == Err::<(), RouteError>(RouteError::NotRooted),
{
    let v = chars_of(path);
    if v.len() == 0 || v[0] != '/' {
        Err(RouteError::NotRooted)
    } else {
        Ok(())
    }
}

/// How one segment is written for the tree.
pub enum SegOut {
    Text(Seq<char>),
    WildcardNotLast,
    EmptyWildcardName,
    EmptyParamName,
}

/// `{name}` becomes `:name`, `{*name}` becomes `*name` (leading stars
/// dropped; only allowed in the last segment), anything else is kept.
pub open spec fn segment_out(seg: Seq<char>, is_last: bool) -> SegOut {
    if seg.len() > 0 && seg[0] == '{' && seg.last() == '}' && seg.len() >= 2 {
        let inner = seg.subrange(1, seg.len() - 1);
        if inner.len() > 0 && inner[0] == '*' {
            if !is_last {
                SegOut::WildcardNotLast
            } else if trim_start_char(inner, '*').len() == 0 {
                SegOut::EmptyWildcardName
            } else {
                SegOut::Text(seq!['*'] + trim_start_char(inner, '*'))
            }
        } else if inner.len() == 0 {
            SegOut::EmptyParamName
        } else {
            SegOut::Text(seq![':'] + inner)
        }
    } else {
        SegOut::Text(seg)
    }
}

/// The segments from `i` on, each non-empty one written and followed by
/// `/`; the first segment error stops the conversion.
pub open spec fn convert_segments(segs: Seq<Seq<char>>, i: int) -> Result<Seq<char>, SegOut>
    decreases segs.len() - i,
{
    if i < 0 || i >= segs.len() {
        Ok(Seq::empty())
    } else if segs[i].len() == 0 {
        convert_segments(segs, i + 1)
    } else {
        match segment_out(segs[i], i == segs.len() - 1) {
            SegOut::Text(t) => match convert_segments(segs, i + 1) {
                Ok(rest) => Ok(t + seq!['/'] + rest),
                Err(e) => Err(e),
            },
            e => Err(e),
        }
    }
}

/// The tree pattern for a route path, or the error the path gives.
pub open spec fn matchit_path_spec(path: Seq<char>) -> Result<Seq<char>, SegOut> {
    if !rooted(path) {
        Err(SegOut::Text(Seq::empty()))
    } else {
        match convert_segments(split(path, '/'), 1) {
            Ok(body) => {
                let out = seq!['/'] + body;
                if out.len() > 1 && out.last() == '/' {
                    Ok(out.drop_last())
                } else {
                    Ok(out)
                }
            },
            Err(e) => Err(e),
        }
    }
}

/// `e` is the error reported for the failed conversion `k` of `path`.
/// `e` is what registering `route` fails with: a path that is not rooted,
/// one that cannot be converted, or a conflict in its method's tree.
pub open spec fn refused_with<H>(route: Route<H>, e: RouteError) -> bool {
    if !rooted(route.path@) {
        e == RouteError::NotRooted
    } else {
        match matchit_path_spec(route.path@) {
            Err(k) => error_for(e, k, route.path@),
            Ok(_) => e == RouteError::Conflict(route.method, route.path),
        }
    }
}

/// `e` is what registering a route of `method` with the normalized path `p`
/// fails with: a path that cannot be converted, or a conflict.
pub open spec fn refused_path(method: Method, p: Seq<char>, e: RouteError) -> bool {
    match matchit_path_spec(p) {
        Err(k) => error_for(e, k, p),
        Ok(_) => e matches RouteError::Conflict(m, q) && m == method && q@ == p,
    }
}

pub open spec fn error_for(e: RouteError, k: SegOut, path: Seq<char>) -> bool {
    match k {
        SegOut::WildcardNotLast => e matches RouteError::WildcardNotLast(p) && p@ == path,
        SegOut::EmptyWildcardName => e matches RouteError::EmptyWildcardName(p) && p@ == path,
        SegOut::EmptyParamName => e matches RouteError::EmptyParamName(p) && p@ == path,
        SegOut::Text(_) => e == RouteError::NotRooted,
    }
}

fn segment_out_exec(seg: &Vec<char>, is_last: bool) -> (r: Result<Vec<char>, u8>)
    ensures
        match r {
            Ok(t) => segment_out(seg@, is_last) == SegOut::Text(t@),
            Err(k) => match segment_out(seg@, is_last) {
                SegOut::WildcardNotLast => k == 0,
                SegOut::EmptyWildcardName => k == 1,
                SegOut::EmptyParamName => k == 2,
                SegOut::Text(_) => false,
            },
        },
{
    let n = seg.len();
    if n >= 2 && seg[0] == '{' && seg[n - 1] == '}' {
        let inner = sub_vec(seg.as_slice(), 1, n - 1);
        if inner.len() > 0 && inner[0] == '*' {
            if !is_last {
                return Err(0);
            }
            let (a, _b) = trim_char_bounds(inner.as_slice(), '*');
            if a == inner.len() {
                return Err(1);
            }
            let mut t: Vec<char> = Vec::new();
            t.push('*');
            let name = sub_vec(inner.as_slice(), a, inner.len());
            let mut k: usize = 0;
            while k < name.len()
                invariant
                    k <= name@.len(),
                    t@ == seq!['*'] + name@.subrange(0, k as int),
                decreases name@.len() - k,
            {
                t.push(name[k]);
                assert(name@.subrange(0, k + 1) =~= name@.subrange(0, k as int).push(name@[k as int]));
                k = k + 1;
            }
            assert(name@.subrange(0, name@.len() as int) =~= name@);
            Ok(t)
        } else if inner.len() == 0 {
            Err(2)
        } else {
            let mut t: Vec<char> = Vec::new();
            t.push(':');
            let mut k: usize = 0;
            while k < inner.len()
                invariant
                    k <= inner@.len(),
                    t@ == seq![':'] + inner@.subrange(0, k as int),
                decreases inner@.len() - k,
            {
                t.push(inner[k]);
                assert(inner@.subrange(0, k + 1) =~= inner@.subrange(0, k as int).push(inner@[k as int]));
                k = k + 1;
            }
            assert(inner@.subrange(0, inner@.len() as int) =~= inner@);
            Ok(t)
        }
    } else {
        let mut t: Vec<char> = Vec::new();
        let mut k: usize = 0;
        while k < n
            invariant
                n == seg@.len(),
                k <= n,
                t@ == seg@.subrange(0, k as int),
            decreases n - k,
        {
            t.push(seg[k]);
            assert(seg@.subrange(0, k + 1) =~= seg@.subrange(0, k as int).push(seg@[k as int]));
            k = k + 1;
        }
        assert(seg@.subrange(0, n as int) =~= seg@);
        Ok(t)
    }
}

/// Can the tree take the route path `path` (see [`tree_safe`])? A route
/// failing this would make registration panic; callers test it first.
pub fn is_tree_safe(path: &str) -> (b: bool)
    ensures
        b == tree_safe(path@),
{
    match to_matchit_path(path) {
        Err(_) => true,
        Ok(p) => {
            let v = chars_of(p.as_str());
            let mut n: usize = 0;
            let mut i: usize = 0;
            assert(v@.subrange(0, v@.len() as int) =~= v@);
            while i < v.len()
                invariant
                    i <= v@.len(),
                    v@ == p@,
                    n as nat + count_of(v@.subrange(i as int, v@.len() as int), ':') == count_of(v@, ':'),
                    n <= i,
                decreases v@.len() - i,
            {
                let ghost rest = v@.subrange(i as int, v@.len() as int);
                assert(rest.drop_first() =~= v@.subrange(i + 1, v@.len() as int));
                if v[i] == ':' {
                    n = n + 1;
                }
                i = i + 1;
            }
            assert(v@.subrange(v@.len() as int, v@.len() as int) =~= Seq::<char>::empty());
            n < 26
        },
    }
}

/// Converts `{id}` / `{*rest}` segments to the tree's `:id` / `*rest`.
pub fn to_matchit_path(path: &str) -> (r: Result<String, RouteError>)
    ensures
        match r {
            Ok(p) => matchit_path_spec(path@) == Ok::<Seq<char>, SegOut>(p@),
            Err(e) => matchit_path_spec(path@) matches Err(k) && error_for(e, k, path@),
        },
{
    if validate_path(path).is_err() {
        return Err(RouteError::NotRooted);
    }
    let v = chars_of(path);
    let segs = split_chars(v.as_slice(), '/');
    let ghost ss = split(path@, '/');
    let n = segs.len();
    // Convert from the last segment back to the first, so that the
    // result of `convert_segments(ss, i)` is available at each step.
    let mut i = n;
    let mut acc: Vec<char> = Vec::new();
    let mut err: Option<u8> = None;
    assert(convert_segments(ss, n as int) == Ok::<Seq<char>, SegOut>(Seq::empty()));
    while i > 1
        invariant
            1 <= i <= n,
            n == segs@.len() == ss.len(),
            ss == split(path@, '/'),
            forall|j: int| 0 <= j < segs@.len() ==> #[trigger] segs@[j]@ == ss[j],
            match err {
                None => convert_segments(ss, i as int) == Ok::<Seq<char>, SegOut>(acc@),
                Some(k) => match convert_segments(ss, i as int) {
                    Err(SegOut::WildcardNotLast) => k == 0,
                    Err(SegOut::EmptyWildcardName) => k == 1,
                    Err(SegOut::EmptyParamName) => k == 2,
                    _ => false,
                },
            },
        decreases i,
    {
        let j = i - 1;
        let seg = &segs[j];
        if seg.len() == 0 {
            // convert_segments(ss, j) == convert_segments(ss, i)
        } else {
            match segment_out_exec(seg, j == n - 1) {
                Ok(t) => {
                    if err.is_none() {
                        let mut nacc: Vec<char> = Vec::new();
                        let mut k: usize = 0;
                        while k < t.len()
                            invariant
                                k <= t@.len(),
                                nacc@ == t@.subrange(0, k as int),
                            decreases t@.len() - k,
                        {
                            nacc.push(t[k]);
                            assert(t@.subrange(0, k + 1) =~= t@.subrange(0, k as int).push(t@[k as int]));
                            k = k + 1;
                        }
                        assert(t@.subrange(0, t@.len() as int) =~= t@);
                        nacc.push('/');
                        let mut k2: usize = 0;
                        let ghost base = nacc@;
                        while k2 < acc.len()
                            invariant
                                k2 <= acc@.len(),
                                nacc@ == base + acc@.subrange(0, k2 as int),
                            decreases acc@.len() - k2,
                        {
                            nacc.push(acc[k2]);
                            assert(acc@.subrange(0, k2 + 1) =~= acc@.subrange(0, k2 as int).push(acc@[k2 as int]));
                            k2 = k2 + 1;
                        }
                        assert(acc@.subrange(0, acc@.len() as int) =~= acc@);
                        assert(nacc@ =~= t@ + seq!['/'] + acc@);
                        acc = nacc;
                    }
                },
                Err(k) => {
                    err = Some(k);
                },
            }
        }
        i = j;
    }
    match err {
        Some(k) => {
            let p = owned(path);
            if k == 0 {
                Err(RouteError::WildcardNotLast(p))
            } else if k == 1 {
                Err(RouteError::EmptyWildcardName(p))
            } else {
                Err(RouteError::EmptyParamName(p))
            }
        },
        None => {
            let mut out: Vec<char> = Vec::new();
            out.push('/');
            let mut k: usize = 0;
            while k < acc.len()
                invariant
                    k <= acc@.len(),
                    out@ == seq!['/'] + acc@.subrange(0, k as int),
                decreases acc@.len() - k,
            {
                out.push(acc[k]);
                assert(acc@.subrange(0, k + 1) =~= acc@.subrange(0, k as int).push(acc@[k as int]));
                k = k + 1;
            }
            assert(acc@.subrange(0, acc@.len() as int) =~= acc@);
            if out.len() > 1 && out[out.len() - 1] == '/' {
                out.pop();
            }
            Ok(string_of(out.as_slice()))
        },
    }
}


// ---------------------------------------------------------------------
// The router
// ---------------------------------------------------------------------
/// Routes bucketed by method, each bucket a path tree whose values are
/// indices into `routes`.
pub struct RestRouter<H> {
    pub trees: Vec<(Method, matchit::Router<usize>)>,
    pub not_found: Option<H>,
    pub not_allowed: Option<H>,
    pub routes: Vec<Route<H>>,
}

/// The outcome of matching a request against the router.
#[derive(Clone, Debug, PartialEq, Eq)]
pub enum Resolution {
    /// The route at this index serves the request, with these parameters.
    Matched { route: usize, params: Vec<(String, String)> },
    /// The path exists for other methods, listed for the `Allow` header.
    NotAllowed { allow: String },
    NotFound,
}

/// Who answers a request, once it is resolved.
pub enum Answer {
    /// The handler of the route at this index, with these parameters.
    Route { route: usize, params: Vec<(String, String)> },
    /// The router's 405 handler; the `Allow` value goes on its response.
    NotAllowedHandler { allow: String },
    /// The router's 404 handler.
    NotFoundHandler,
    /// An empty response with this status and, for a 405, the `Allow` value.
    Empty { status: u16, allow: Option<String> },
}

/// Index of the first bucket of method `m` at or after `i`.
pub open spec fn bucket_from(trees: Seq<(Method, matchit::Router<usize>)>, m: Method, i: int) -> Option<int>
    decreases trees.len() - i,
{
    if i < 0 || i >= trees.len() {
        None
    } else if trees[i].0 == m {
        Some(i)
    } else {
        bucket_from(trees, m, i + 1)
    }
}

/// No two buckets are for the same method.
pub open spec fn distinct_methods(trees: Seq<(Method, matchit::Router<usize>)>) -> bool {
    forall|i: int, j: int| 0 <= i < j < trees.len() ==> #[trigger] trees[i].0 != #[trigger] trees[j].0
}

/// Index of the first bucket of method `m`.
pub open spec fn bucket_of(trees: Seq<(Method, matchit::Router<usize>)>, m: Method) -> Option<int> {
    bucket_from(trees, m, 0)
}

/// Names of the methods, other than `m`, whose bucket finds `path`; in bucket order.
pub open spec fn allow_list(trees: Seq<(Method, matchit::Router<usize>)>, m: Method, path: Seq<char>) -> Seq<Seq<char>>
    decreases trees.len(),
{
    if trees.len() == 0 {
        Seq::empty()
    } else {
        let rest = allow_list(trees.drop_last(), m, path);
        let (tm, t) = trees.last();
        if tm != m && tree_lookup(tree_entries(t), path) is Some {
            rest.push(method_name(tm))
        } else {
            rest
        }
    }
}

pub open spec fn params_view(ps: Seq<(String, String)>) -> Seq<(Seq<char>, Seq<char>)> {
    ps.map_values(|p: (String, String)| (p.0@, p.1@))
}

impl<H> RestRouter<H> {
    pub open spec fn buckets(&self) -> Seq<(Method, matchit::Router<usize>)> {
        self.trees@
    }

    /// The route index and parameters that the bucket of `m` finds for `path`.
    pub open spec fn found(&self, m: Method, path: Seq<char>) -> Option<(usize, Seq<(Seq<char>, Seq<char>)>)> {
        match bucket_of(self.buckets(), m) {
            Some(b) => match tree_lookup(tree_entries(self.buckets()[b].1), path) {
                Some((v, ps)) => if v < self.routes@.len() { Some((v, ps)) } else { None },
                None => None,
            },
            None => None,
        }
    }

    /// An empty router; `None` handlers stand for the default 404 and 405 responses.
    pub fn new() -> (r: Self)
        ensures
            static_wf(r.buckets()),
            distinct_methods(r.buckets()),
            r.buckets().len() == 0,
            r.routes@.len() == 0,
            r.not_found is None,
            r.not_allowed is None,
    {
        let r = RestRouter { trees: Vec::new(), not_found: None, not_allowed: None, routes: Vec::new() };
        assert forall|m: Method| bucket_entries(r.buckets(), m) =~= Seq::<(Seq<char>, usize)>::empty() by {
            lemma_bucket_from_none(r.buckets(), m, 0);
        }
        r
    }

    pub fn with_not_found(self, handler: H) -> (r: Self)
        ensures
            r.not_found == Some(handler),
            r.not_allowed == self.not_allowed,
            r.routes == self.routes,
            r.buckets() == self.buckets(),
    {
        RestRouter { not_found: Some(handler), ..self }
    }

    pub fn with_not_allowed(self, handler: H) -> (r: Self)
        ensures
            r.not_allowed == Some(handler),
            r.not_found == self.not_found,
            r.routes == self.routes,
            r.buckets() == self.buckets(),
    {
        RestRouter { not_allowed: Some(handler), ..self }
    }

    pub fn set_not_found_handler(&mut self, handler: H)
        ensures
            final(self).not_found == Some(handler),
            final(self).not_allowed == old(self).not_allowed,
            final(self).routes == old(self).routes,
            final(self).buckets() == old(self).buckets(),
    {
        self.not_found = Some(handler);
    }

    pub fn set_not_allowed_handler(&mut self, handler: H)
        ensures
            final(self).not_allowed == Some(handler),
            final(self).not_found == old(self).not_found,
            final(self).routes == old(self).routes,
            final(self).buckets() == old(self).buckets(),
    {
        self.not_allowed = Some(handler);
    }

    /// Registers a route: its path must be rooted and convertible, and its
    /// pattern must not conflict in its method's tree.
    #[verifier::rlimit(40)]
    pub fn add_route(&mut self, route: Route<H>) -> (r: Result<(), RouteError>)
        requires
            tree_safe(route.path@),
        ensures
            final(self).not_found == old(self).not_found,
            final(self).not_allowed == old(self).not_allowed,
            !rooted(route.path@) ==> r == Err::<(), RouteError>(RouteError::NotRooted)
                && *final(self) == *old(self),
            rooted(route.path@) && matchit_path_spec(route.path@) is Err ==> (r matches Err(e)
                && matchit_path_spec(route.path@) matches Err(k) && error_for(e, k, route.path@)
                && *final(self) == *old(self)),
            r is Ok ==> matchit_path_spec(route.path@) is Ok && final(self).routes@ == old(self).routes@.push(route)
                && final(self).not_found == old(self).not_found && final(self).not_allowed == old(self).not_allowed
                && final(self).buckets().len() >= old(self).buckets().len()
                && (forall|m: Method| m != route.method ==> bucket_entries(final(self).buckets(), m) == bucket_entries(old(self).buckets(), m))
                && bucket_entries(final(self).buckets(), route.method) == bucket_entries(old(self).buckets(), route.method).push(
                    (matchit_path_spec(route.path@)->Ok_0, old(self).routes@.len() as usize)),
            r is Err && rooted(route.path@) && matchit_path_spec(route.path@) is Ok ==> r == Err::<(), RouteError>(RouteError::Conflict(route.method, route.path))
                && final(self).routes@ == old(self).routes@.push(route),
            r is Ok && static_pattern(matchit_path_spec(route.path@)->Ok_0) ==> final(self).found(
                route.method,
                matchit_path_spec(route.path@)->Ok_0,
            ) == Some((old(self).routes@.len() as usize, Seq::<(Seq<char>, Seq<char>)>::empty())),
            r is Ok && static_wf(old(self).buckets()) ==> static_wf(final(self).buckets()),
            fresh_static(old(self).buckets(), route.method, route.path@) ==> r is Ok,
            same_buckets_but(old(self).buckets(), final(self).buckets(), route.method),
            distinct_methods(old(self).buckets()) ==> distinct_methods(final(self).buckets()),
    {
        if let Err(e) = validate_path(route.path.as_str()) {
            return Err(e);
        }
        let pattern = match to_matchit_path(route.path.as_str()) {
            Ok(p) => p,
            Err(e) => {
                return Err(e);
            },
        };
        let method = route.method;
        let path = route.path.clone();
        let idx = self.routes.len();
        self.routes.push(route);
        let ghost before = self.trees@;
        let mut b: usize = 0;
        let mut found = false;
        while b < self.trees.len() && !found
            invariant
                self.trees@ == before,
                b <= self.trees@.len(),
                found ==> b < self.trees@.len() && self.trees@[b as int].0 == method,
                forall|j: int| 0 <= j < b ==> self.trees@[j].0 != method,
            decreases self.trees@.len() - b, if found { 0int } else { 1int },
        {
            if self.trees[b].0 == method {
                found = true;
            } else {
                b = b + 1;
            }
        }
        if !found {
            self.trees.push((method, tree_new()));
            proof {
                assert forall|m: Method| m != method implies bucket_of(self.trees@, m) == bucket_of(before, m) by {
                    lemma_bucket_same_methods(before, self.trees@, m);
                }
            }
        }
        let ghost mid = self.trees@;
        proof {
            lemma_bucket_of_unique(self.trees@, method, b as int);
        }
        let (m0, mut tree) = self.trees.remove(b);
        let ghost t0 = tree;
        let ok = tree_insert(&mut tree, pattern.as_str(), idx);
        let ghost tv = tree;
        self.trees.insert(b, (m0, tree));
        proof {
            assert(self.trees@ =~= mid.update(b as int, (m0, tree)));
            assert forall|m: Method| bucket_of(self.trees@, m) == bucket_of(mid, m) by {
                lemma_bucket_same_methods(mid, self.trees@, m);
            }
            lemma_bucket_of_unique(self.trees@, method, b as int);
            if found {
                lemma_bucket_of_unique(before, method, b as int);
                assert(mid == before);
            } else {
                assert forall|j: int| 0 <= j < before.len() implies before[j].0 != method by {
                    assert(before[j].0 != method);
                }
                assert(bucket_of(before, method) is None) by {
                    assert forall|i: int| 0 <= i < before.len() implies before[i].0 != method by {}
                    lemma_bucket_from_none(before, method, 0);
                }
            }
            assert forall|m: Method| m != method implies bucket_entries(self.trees@, m) == bucket_entries(before, m) by {
                match bucket_of(before, m) {
                    Some(c) => {
                        assert(bucket_of(mid, m) == Some(c));
                        lemma_bucket_from_props(mid, m, 0);
                        lemma_bucket_from_props(before, m, 0);
                        assert(c != b);
                        assert(self.trees@[c] == mid[c]);
                    },
                    None => {},
                }
            }
            assert(self.trees@[b as int].1 == tv);
            assert(tree_entries(t0) == bucket_entries(before, method)) by {
                if !found {
                    assert(bucket_entries(before, method) =~= Seq::<(Seq<char>, usize)>::empty());
                }
            }
            if ok && static_wf(before) {
                lemma_static_wf_step(before, self.trees@, method, t0, tv, pattern@, idx);
            }
        }
        if ok {
            Ok(())
        } else {
            Err(RouteError::Conflict(method, path))
        }
    }
}

proof fn lemma_bucket_from_unique(trees: Seq<(Method, matchit::Router<usize>)>, m: Method, b: int, i: int)
    requires
        0 <= i <= b < trees.len(),
        trees[b].0 == m,
        forall|j: int| 0 <= j < b ==> trees[j].0 != m,
    ensures
        bucket_from(trees, m, i) == Some(b),
    decreases b - i,
{
    if i < b {
        lemma_bucket_from_unique(trees, m, b, i + 1);
    }
}

proof fn lemma_bucket_of_unique(trees: Seq<(Method, matchit::Router<usize>)>, m: Method, b: int)
    requires
        0 <= b < trees.len(),
        trees[b].0 == m,
        forall|j: int| 0 <= j < b ==> trees[j].0 != m,
    ensures
        bucket_of(trees, m) == Some(b),
{
    lemma_bucket_from_unique(trees, m, b, 0);
}

proof fn lemma_bucket_from_same(a: Seq<(Method, matchit::Router<usize>)>, b: Seq<(Method, matchit::Router<usize>)>, m: Method, i: int)
    requires
        0 <= i,
        a.len() <= b.len(),
        forall|k: int| 0 <= k < a.len() ==> b[k].0 == a[k].0,
        forall|k: int| a.len() <= k < b.len() ==> b[k].0 != m,
    ensures
        bucket_from(b, m, i) == bucket_from(a, m, i),
    decreases b.len() - i,
{
    if i < b.len() {
        lemma_bucket_from_same(a, b, m, i + 1);
    }
}

proof fn lemma_bucket_from_props(a: Seq<(Method, matchit::Router<usize>)>, m: Method, i: int)
    requires
        0 <= i,
    ensures
        bucket_from(a, m, i) matches Some(c) ==> i <= c < a.len() && a[c].0 == m,
    decreases a.len() - i,
{
    if i < a.len() {
        lemma_bucket_from_props(a, m, i + 1);
    }
}

proof fn lemma_bucket_from_none(a: Seq<(Method, matchit::Router<usize>)>, m: Method, i: int)
    requires
        0 <= i,
        forall|k: int| 0 <= k < a.len() ==> a[k].0 != m,
    ensures
        bucket_from(a, m, i) is None,
    decreases a.len() - i,
{
    if i < a.len() {
        lemma_bucket_from_none(a, m, i + 1);
    }
}

/// Buckets agree for `m` when the two sequences have the same methods,
/// extra buckets at the end not being of `m`.
proof fn lemma_bucket_same_methods(a: Seq<(Method, matchit::Router<usize>)>, b: Seq<(Method, matchit::Router<usize>)>, m: Method)
    requires
        a.len() <= b.len(),
        forall|i: int| 0 <= i < a.len() ==> b[i].0 == a[i].0,
        forall|i: int| a.len() <= i < b.len() ==> b[i].0 != m,
    ensures
        bucket_of(b, m) == bucket_of(a, m),
{
    lemma_bucket_from_same(a, b, m, 0);
}

/// The bucket of `m2` finds `path`.
pub open spec fn tree_finds(trees: Seq<(Method, matchit::Router<usize>)>, m2: Method, path: Seq<char>) -> bool {
    match bucket_of(trees, m2) {
        Some(b) => tree_lookup(tree_entries(trees[b].1), path) is Some,
        None => false,
    }
}

proof fn lemma_bucket_of_last(trees: Seq<(Method, matchit::Router<usize>)>, m: Method)
    requires
        trees.len() > 0,
        distinct_methods(trees),
    ensures
        trees.last().0 == m ==> bucket_of(trees, m) == Some(trees.len() - 1),
        trees.last().0 != m ==> bucket_of(trees, m) == bucket_of(trees.drop_last(), m),
{
    let init = trees.drop_last();
    let n = trees.len() - 1;
    if trees.last().0 == m {
        assert forall|j: int| 0 <= j < n implies trees[j].0 != m by {
            assert(trees[j].0 != trees[n].0);
        }
        lemma_bucket_of_unique(trees, m, n);
    } else {
        lemma_bucket_same_methods(init, trees, m);
    }
}

/// In buckets with distinct methods, the `Allow` list for a request with
/// method `m` and path `path` names each method other than `m` whose tree
/// finds `path`, and each only once.
pub proof fn law_allow_list(trees: Seq<(Method, matchit::Router<usize>)>, m: Method, path: Seq<char>)
    requires
        distinct_methods(trees),
    ensures
        allow_list(trees, m, path).no_duplicates(),
        forall|m2: Method|
            #[trigger] allow_list(trees, m, path).contains(method_name(m2)) <==> (m2 != m && tree_finds(trees, m2, path)),
    decreases trees.len(),
{
    if trees.len() == 0 {
        assert forall|m2: Method| !tree_finds(trees, m2, path) by {
            lemma_bucket_from_none(trees, m2, 0);
        }
    } else {
        let init = trees.drop_last();
        let n = trees.len() - 1;
        assert(distinct_methods(init)) by {
            assert forall|i: int, j: int| 0 <= i < j < init.len() implies #[trigger] init[i].0 != #[trigger] init[j].0 by {
                assert(init[i] == trees[i] && init[j] == trees[j]);
            }
        }
        law_allow_list(init, m, path);
        let rest = allow_list(init, m, path);
        let (tm, t) = trees.last();
        let added = tm != m && tree_lookup(tree_entries(t), path) is Some;
        assert(bucket_of(init, tm) is None) by {
            assert forall|k: int| 0 <= k < init.len() implies init[k].0 != tm by {
                assert(init[k] == trees[k]);
                assert(trees[k].0 != trees[n].0);
            }
            lemma_bucket_from_none(init, tm, 0);
        }
        assert(!rest.contains(method_name(tm)));
        assert forall|m2: Method|
            #[trigger] allow_list(trees, m, path).contains(method_name(m2)) <==> (m2 != m && tree_finds(trees, m2, path)) by {
            lemma_bucket_of_last(trees, m2);
            crate::rest::route::lemma_method_name_injective(m2, tm);
            let l = allow_list(trees, m, path);
            if added {
                assert(l == rest.push(method_name(tm)));
                if l.contains(method_name(m2)) {
                    let k = choose|k: int| 0 <= k < l.len() && l[k] == method_name(m2);
                    if k < rest.len() {
                        assert(rest[k] == l[k]);
                        assert(rest.contains(method_name(m2)));
                    }
                }
                if m2 == tm {
                    assert(l[l.len() - 1] == method_name(m2));
                } else if rest.contains(method_name(m2)) {
                    let k = choose|k: int| 0 <= k < rest.len() && rest[k] == method_name(m2);
                    assert(l[k] == rest[k]);
                }
            }
            if m2 != tm {
                match bucket_of(init, m2) {
                    Some(b) => {
                        lemma_bucket_from_props(init, m2, 0);
                        assert(trees[b] == init[b]);
                    },
                    None => {},
                }
            }
        }
        if added {
            let l = rest.push(method_name(tm));
            assert forall|i: int, j: int| 0 <= i < l.len() && 0 <= j < l.len() && i != j implies l[i] != l[j] by {
                if i == l.len() - 1 {
                    assert(l[j] == rest[j]);
                } else if j == l.len() - 1 {
                    if i < rest.len() {
                        assert(l[i] == rest[i]);
                    }
                } else {
                    assert(l[i] == rest[i] && l[j] == rest[j]);
                }
            }
        }
    }
}

impl<H> RestRouter<H> {
    /// Index of the bucket of `m`.
    fn bucket_index(&self, m: Method) -> (r: Option<usize>)
        ensures
            match r {
                Some(b) => bucket_of(self.buckets(), m) == Some(b as int) && b < self.buckets().len(),
                None => bucket_of(self.buckets(), m) is None,
            },
    {
        let mut b: usize = 0;
        while b < self.trees.len()
            invariant
                b <= self.trees@.len(),
                forall|j: int| 0 <= j < b ==> self.trees@[j].0 != m,
            decreases self.trees@.len() - b,
        {
            if self.trees[b].0 == m {
                proof {
                    lemma_bucket_of_unique(self.trees@, m, b as int);
                }
                return Some(b);
            }
            b = b + 1;
        }
        proof {
            lemma_bucket_from_none(self.trees@, m, 0);
        }
        None
    }

    /// The methods other than `current` under which `path` exists, joined
    /// with `", "`.
    pub fn allowed_methods(&self, path: &str, current: Method) -> (r: Option<String>)
        ensures
            match r {
                Some(a) => allow_list(self.buckets(), current, path@).len() > 0
                    && a@ == join_seqs(allow_list(self.buckets(), current, path@), ", "@),
                None => allow_list(self.buckets(), current, path@).len() == 0,
            },
    {
        let mut names: Vec<String> = Vec::new();
        let mut i: usize = 0;
        while i < self.trees.len()
            invariant
                i <= self.trees@.len(),
                views(names@) == allow_list(self.trees@.subrange(0, i as int), current, path@),
            decreases self.trees@.len() - i,
        {
            let ghost pre = self.trees@.subrange(0, i as int);
            let ghost nxt = self.trees@.subrange(0, i + 1);
            assert(nxt.drop_last() =~= pre);
            let m = self.trees[i].0;
            if m != current {
                if tree_at(&self.trees[i].1, path).is_some() {
                    names.push(owned(m.as_str()));
                    assert(views(names@) =~= allow_list(pre, current, path@).push(method_name(m)));
                }
            }
            i = i + 1;
        }
        assert(self.trees@.subrange(0, self.trees@.len() as int) =~= self.trees@);
        if names.len() == 0 {
            None
        } else {
            Some(join_strings(&names, ", "))
        }
    }

    /// What a request with method `m` and path `path` resolves to: the
    /// matching route of the method's tree; else, when other methods have
    /// the path, a 405 with their list; else a 404.
    pub fn resolve(&self, m: Method, path: &str) -> (r: Resolution)
        ensures
            match r {
                Resolution::Matched { route, params } => self.found(m, path@) == Some(
                    (route, params_view(params@)),
                ),
                Resolution::NotAllowed { allow } => self.found(m, path@) is None && allow_list(
                    self.buckets(),
                    m,
                    path@,
                ).len() > 0 && allow@ == join_seqs(allow_list(self.buckets(), m, path@), ", "@),
                Resolution::NotFound => self.found(m, path@) is None && allow_list(
                    self.buckets(),
                    m,
                    path@,
                ).len() == 0,
            },
    {
        if let Some(b) = self.bucket_index(m) {
            if let Some((v, ps)) = tree_at(&self.trees[b].1, path) {
                if v < self.routes.len() {
                    return Resolution::Matched { route: v, params: ps };
                }
            }
        }
        match self.allowed_methods(path, m) {
            Some(a) => Resolution::NotAllowed { allow: a },
            None => Resolution::NotFound,
        }
    }

    /// Who answers a resolved request: the matched route's handler with its
    /// parameters; for a path served under other methods, the router's 405
    /// handler or else an empty 405, with the `Allow` list either way; else
    /// the router's 404 handler or an empty 404.
    pub fn answer(&self, res: Resolution) -> (a: Answer)
        ensures
            match res {
                Resolution::Matched { route, params } => a == (Answer::Route { route, params }),
                Resolution::NotAllowed { allow } => if self.not_allowed is Some {
                    a == (Answer::NotAllowedHandler { allow })
                } else {
                    a == (Answer::Empty { status: 405, allow: Some(allow) })
                },
                Resolution::NotFound => if self.not_found is Some {
                    a == Answer::NotFoundHandler
                } else {
                    a == (Answer::Empty { status: 404, allow: None })
                },
            },
    {
        match res {
            Resolution::Matched { route, params } => Answer::Route { route, params },
            Resolution::NotAllowed { allow } => match &self.not_allowed {
                Some(_) => Answer::NotAllowedHandler { allow },
                None => Answer::Empty { status: 405, allow: Some(allow) },
            },
            Resolution::NotFound => match &self.not_found {
                Some(_) => Answer::NotFoundHandler,
                None => Answer::Empty { status: 404, allow: None },
            },
        }
    }

    /// Registers the routes in order, stopping at the first error.
    pub fn add_routes(&mut self, routes: Vec<Route<H>>) -> (r: Result<(), RouteError>)
        requires
            forall|k: int| 0 <= k < routes@.len() ==> tree_safe(#[trigger] routes@[k].path@),
        ensures
            r is Ok ==> final(self).routes@ == old(self).routes@ + routes@,
            r is Ok && static_wf(old(self).buckets()) ==> static_wf(final(self).buckets()),
            r is Ok ==> forall|k: int|
                0 <= k < routes@.len() ==> registered(final(self).buckets(), #[trigger] routes@[k], old(self).routes@.len() + k),
            r matches Err(e) ==> exists|k: int|
                0 <= k < routes@.len() && #[trigger] refused_with(routes@[k], e) && (final(self).routes@
                    == old(self).routes@ + routes@.subrange(0, k) || final(self).routes@ == old(self).routes@
                    + routes@.subrange(0, k + 1)),
            all_fresh_static(old(self).buckets(), routes@) ==> r is Ok,
            distinct_methods(old(self).buckets()) ==> distinct_methods(final(self).buckets()),
            final(self).not_found == old(self).not_found,
            final(self).not_allowed == old(self).not_allowed,
    {
        let mut rest = into_reversed(routes);
        let ghost orig = routes@;
        let ghost start = self.routes@;
        while rest.len() > 0
            invariant
                rest@ == orig.subrange(orig.len() - rest@.len(), orig.len() as int).reverse(),
                rest@.len() <= orig.len(),
                self.routes@ == start + orig.subrange(0, orig.len() - rest@.len()),
                orig == routes@,
                forall|k: int| 0 <= k < orig.len() ==> tree_safe(#[trigger] orig[k].path@),
                start == old(self).routes@,
                static_wf(old(self).buckets()) ==> static_wf(self.buckets()),
                distinct_methods(old(self).buckets()) ==> distinct_methods(self.buckets()),
                forall|j: int|
                    0 <= j < orig.len() - rest@.len() ==> registered(self.buckets(), #[trigger] orig[j], start.len() + j),
                self.not_found == old(self).not_found,
                self.not_allowed == old(self).not_allowed,
                all_fresh_static(old(self).buckets(), orig) ==> entries_from(
                    self.buckets(),
                    old(self).buckets(),
                    orig,
                    orig.len() - rest@.len(),
                ),
            decreases rest@.len(),
        {
            let ghost k = orig.len() - rest@.len();
            let route = rest.pop().unwrap();
            assert(route == orig[k]);
            let ghost before = self.routes@;
            let ghost before_buckets = self.buckets();
            proof {
                if all_fresh_static(old(self).buckets(), orig) {
                    let m = orig[k].method;
                    assert(fresh_static(old(self).buckets(), orig[k].method, orig[k].path@));
                    let p = route_pattern(orig[k]);
                    assert forall|v: usize| !#[trigger] bucket_entries(before_buckets, m).contains((p, v)) by {
                        if bucket_entries(before_buckets, m).contains((p, v)) {
                            assert(entries_from(before_buckets, old(self).buckets(), orig, k));
                            if !bucket_entries(old(self).buckets(), m).contains((p, v)) {
                                let j = choose|j: int| 0 <= j < k && #[trigger] orig[j].method == m && route_pattern(orig[j]) == p;
                                assert(orig[j].method == orig[k].method);
                            }
                        }
                    }
                    assert(fresh_static(before_buckets, m, orig[k].path@));
                }
            }
            let res = self.add_route(route);
            if res.is_err() {
                proof {
                    assert(refused_with(orig[k], res->Err_0));
                    assert(start + orig.subrange(0, k + 1) =~= before.push(orig[k]));
                    assert(self.routes@ == before || self.routes@ == before.push(orig[k]));
                    assert(0 <= k < routes@.len() && refused_with(routes@[k], res->Err_0) && (self.routes@ == old(
                        self,
                    ).routes@ + routes@.subrange(0, k) || self.routes@ == old(self).routes@ + routes@.subrange(0, k + 1)));
                }
                return res;
            }
            assert(orig.subrange(0, k + 1) =~= orig.subrange(0, k).push(orig[k]));
            assert(rest@ =~= orig.subrange(orig.len() - rest@.len(), orig.len() as int).reverse());
            proof {
                if all_fresh_static(old(self).buckets(), orig) {
                    assert(entries_from(before_buckets, old(self).buckets(), orig, k));
                    assert forall|m: Method, p: Seq<char>, v: usize|
                        #[trigger] bucket_entries(self.buckets(), m).contains((p, v)) implies bucket_entries(
                        old(self).buckets(),
                        m,
                    ).contains((p, v)) || exists|j: int|
                        0 <= j < k + 1 && #[trigger] orig[j].method == m && route_pattern(orig[j]) == p by {
                        if m != orig[k].method {
                            assert(bucket_entries(before_buckets, m).contains((p, v)));
                        } else {
                            let es = bucket_entries(before_buckets, m);
                            let es2 = es.push((route_pattern(orig[k]), before.len() as usize));
                            assert(bucket_entries(self.buckets(), m) == es2);
                            let w = choose|w: int| 0 <= w < es2.len() && #[trigger] es2[w] == (p, v);
                            if w < es.len() {
                                assert(es[w] == (p, v));
                                assert(es.contains((p, v)));
                            } else {
                                assert(orig[k].method == m && route_pattern(orig[k]) == p);
                            }
                        }
                    }
                }
            }
            proof {
                assert forall|j: int| 0 <= j < k + 1 implies registered(self.buckets(), #[trigger] orig[j], start.len() + j) by {
                    if j < k {
                        let e = (matchit_path_spec(orig[j].path@)->Ok_0, (start.len() + j) as usize);
                        assert(registered(before_buckets, orig[j], start.len() + j));
                        if orig[j].method == orig[k].method {
                            assert(bucket_entries(self.buckets(), orig[j].method) == bucket_entries(before_buckets, orig[j].method).push(
                                (matchit_path_spec(orig[k].path@)->Ok_0, before.len() as usize)));
                            let w = choose|w: int| 0 <= w < bucket_entries(before_buckets, orig[j].method).len() && bucket_entries(before_buckets, orig[j].method)[w] == e;
                            assert(bucket_entries(self.buckets(), orig[j].method)[w] == e);
                        }
                    } else {
                        let e = (matchit_path_spec(orig[k].path@)->Ok_0, before.len() as usize);
                        assert(bucket_entries(self.buckets(), orig[k].method).last() == e);
                        assert(bucket_entries(self.buckets(), orig[k].method).contains(e));
                    }
                }
            }
        }
        assert(orig.subrange(0, orig.len() as int) =~= orig);
        Ok(())
    }

    /// Registers a handler for `method` and `path` (the path is normalized).
    pub fn handle(&mut self, method: Method, path: &str, handler: H) -> (r: Result<(), RouteError>)
        requires
            tree_safe(normalize_path_spec(path@)),
        ensures
            r is Ok ==> final(self).routes@.len() == old(self).routes@.len() + 1 && final(self).routes@.last().method
                == method && final(self).routes@.last().path@ == normalize_path_spec(path@)
                && final(self).routes@.last().handler == handler,
            r matches Err(e) ==> refused_path(method, normalize_path_spec(path@), e),
            r is Ok && static_wf(old(self).buckets()) ==> static_wf(final(self).buckets()),
            fresh_static(old(self).buckets(), method, normalize_path_spec(path@)) ==> r is Ok,
            distinct_methods(old(self).buckets()) ==> distinct_methods(final(self).buckets()),
            final(self).not_found == old(self).not_found,
            final(self).not_allowed == old(self).not_allowed,
    {
        let rt = Route::new(method, crate::text::owned(path), handler);
        proof {
            crate::rest::route::law_normalized_path_rooted(path@);
        }
        self.add_route(rt)
    }

    /// Registers one route built from its parts.
    pub fn route(self, method: Method, path: String, handler: H) -> (r: Result<Self, RouteError>)
        requires
            tree_safe(normalize_path_spec(path@)),
        ensures
            r matches Ok(rt) ==> rt.routes@.len() == self.routes@.len() + 1
                && rt.routes@.last().method == method
                && rt.routes@.last().path@ == normalize_path_spec(path@),
            r matches Ok(rt) ==> (static_wf(self.buckets()) ==> static_wf(rt.buckets())),
            r matches Ok(rt) ==> (distinct_methods(self.buckets()) ==> distinct_methods(rt.buckets())),
            r matches Err(e) ==> refused_path(method, normalize_path_spec(path@), e),
    {
        proof {
            crate::rest::route::law_normalized_path_rooted(path@);
        }
        let rt = Route::new(method, path, handler);
        let mut me = self;
        match me.add_route(rt) {
            Ok(()) => Ok(me),
            Err(e) => Err(e),
        }
    }

    /// Registers all routes of `other`.
    pub fn merge(self, other: RestRouter<H>) -> (r: Result<Self, RouteError>)
        requires
            forall|k: int| 0 <= k < other.routes@.len() ==> tree_safe(#[trigger] other.routes@[k].path@),
        ensures
            r matches Ok(rt) ==> rt.routes@ == self.routes@ + other.routes@,
            r matches Ok(rt) ==> (static_wf(self.buckets()) ==> static_wf(rt.buckets())),
            r matches Ok(rt) ==> (distinct_methods(self.buckets()) ==> distinct_methods(rt.buckets())),
            r matches Err(e) ==> exists|k: int| 0 <= k < other.routes@.len() && #[trigger] refused_with(other.routes@[k], e),
    {
        let mut me = self;
        match me.add_routes(other.routes) {
            Ok(()) => Ok(me),
            Err(e) => Err(e),
        }
    }

    /// Registers all routes of `router` under `prefix`.
    pub fn nest(self, prefix: &str, router: RestRouter<H>) -> (r: Result<Self, RouteError>)
        requires
            forall|k: int|
                0 <= k < router.routes@.len() ==> tree_safe(
                    join_path_spec(normalize_path_spec(prefix@), #[trigger] router.routes@[k].path@),
                ),
        ensures
            !rooted(prefix@) ==> r == Err::<Self, RouteError>(RouteError::NotRooted),
            r matches Ok(rt) ==> rt.routes@.len() == self.routes@.len() + router.routes@.len()
                && forall|i: int| 0 <= i < router.routes@.len() ==>
                    (#[trigger] rt.routes@[self.routes@.len() + i]).path@ == join_path_spec(
                        normalize_path_spec(prefix@), router.routes@[i].path@),
            r matches Ok(rt) ==> (static_wf(self.buckets()) ==> static_wf(rt.buckets())),
            r matches Ok(rt) ==> (distinct_methods(self.buckets()) ==> distinct_methods(rt.buckets())),
            match r {
                Err(e) => rooted(prefix@) ==> exists|k: int|
                    0 <= k < router.routes@.len() && #[trigger] refused_path(
                        router.routes@[k].method,
                        join_path_spec(normalize_path_spec(prefix@), router.routes@[k].path@),
                        e,
                    ),
                Ok(_) => true,
            },
    {
        if let Err(e) = validate_path(prefix) {
            return Err(e);
        }
        let ghost rs = router.routes@;
        assert(rs == router.routes@);
        let prefixed = with_prefix(prefix, router.routes);
        let ghost pv = prefixed@;
        let mut me = self;
        match me.add_routes(prefixed) {
            Ok(()) => Ok(me),
            Err(e) => {
                proof {
                    let k = choose|k: int| 0 <= k < pv.len() && #[trigger] refused_with(pv[k], e) && (me.routes@
                        == self.routes@ + pv.subrange(0, k) || me.routes@ == self.routes@ + pv.subrange(0, k + 1));
                    let jp = join_path_spec(normalize_path_spec(prefix@), rs[k].path@);
                    crate::rest::route::law_normalized_path_rooted(join_raw(normalize_path_spec(prefix@), rs[k].path@));
                    assert(pv[k].path@ == jp);
                    assert(rooted(jp));
                    assert(refused_path(rs[k].method, jp, e));
                    assert(0 <= k < rs.len());
                    assert(refused_path(rs[k].method, join_path_spec(normalize_path_spec(prefix@), rs[k].path@), e));
                }
                Err(e)
            },
        }
    }
}

/// `after` keeps the buckets of `before` in place, with their methods; only
/// the bucket of `m` may change, and at most one bucket, of `m`, is added.
pub open spec fn same_buckets_but(
    before: Seq<(Method, matchit::Router<usize>)>,
    after: Seq<(Method, matchit::Router<usize>)>,
    m: Method,
) -> bool {
    &&& before.len() <= after.len() <= before.len() + 1
    &&& forall|i: int|
        0 <= i < before.len() ==> (#[trigger] after[i]).0 == before[i].0 && (before[i].0 != m ==> after[i] == before[i])
    &&& forall|i: int| before.len() <= i < after.len() ==> (#[trigger] after[i]).0 == m
}

/// The route path is rooted and converts to a pattern without parameters
/// that its method's bucket does not hold yet: registering it succeeds.
pub open spec fn fresh_static(trees: Seq<(Method, matchit::Router<usize>)>, method: Method, path: Seq<char>) -> bool {
    &&& rooted(path)
    &&& matchit_path_spec(path) matches Ok(p)
    &&& static_pattern(p)
    &&& forall|v: usize| !#[trigger] bucket_entries(trees, method).contains((p, v))
}

/// The tree pattern of a route whose path converts.
pub open spec fn route_pattern<H>(r: Route<H>) -> Seq<char> {
    matchit_path_spec(r.path@)->Ok_0
}

/// Every route is fresh and static for `trees`, and no two of them share
/// a method and a pattern: registering them in order succeeds.
pub open spec fn all_fresh_static<H>(trees: Seq<(Method, matchit::Router<usize>)>, routes: Seq<Route<H>>) -> bool {
    &&& forall|k: int| 0 <= k < routes.len() ==> fresh_static(trees, #[trigger] routes[k].method, routes[k].path@)
    &&& forall|j: int, k: int|
        0 <= j < k < routes.len() && #[trigger] routes[j].method == #[trigger] routes[k].method ==> route_pattern(routes[j])
            != route_pattern(routes[k])
}

/// Every pair in the buckets was there before, or is the pattern of one of
/// the first `n` routes under its method.
pub open spec fn entries_from<H>(
    now: Seq<(Method, matchit::Router<usize>)>,
    before: Seq<(Method, matchit::Router<usize>)>,
    routes: Seq<Route<H>>,
    n: int,
) -> bool {
    forall|m: Method, p: Seq<char>, v: usize|
        #[trigger] bucket_entries(now, m).contains((p, v)) ==> bucket_entries(before, m).contains((p, v)) || exists|j: int|
            0 <= j < n && #[trigger] routes[j].method == m && route_pattern(routes[j]) == p
}

/// Every pattern without parameters in a bucket is found at its own path
/// with its value and no parameters.
pub open spec fn static_wf(trees: Seq<(Method, matchit::Router<usize>)>) -> bool {
    forall|m: Method, p: Seq<char>, v: usize|
        static_pattern(p) && #[trigger] bucket_entries(trees, m).contains((p, v)) ==> tree_lookup(
            bucket_entries(trees, m),
            p,
        ) == Some((v, Seq::<(Seq<char>, Seq<char>)>::empty()))
}

/// The route at `i` is registered: its pattern is in its method's bucket
/// with index `i`.
pub open spec fn registered<H>(trees: Seq<(Method, matchit::Router<usize>)>, route: Route<H>, i: int) -> bool {
    matchit_path_spec(route.path@) is Ok && bucket_entries(trees, route.method).contains(
        (matchit_path_spec(route.path@)->Ok_0, i as usize),
    )
}

proof fn lemma_static_wf_step(
    before: Seq<(Method, matchit::Router<usize>)>,
    after: Seq<(Method, matchit::Router<usize>)>,
    method: Method,
    t0: matchit::Router<usize>,
    tv: matchit::Router<usize>,
    pattern: Seq<char>,
    idx: usize,
)
    requires
        static_wf(before),
        forall|m: Method| m != method ==> bucket_entries(after, m) == bucket_entries(before, m),
        bucket_entries(after, method) == tree_entries(tv),
        tree_entries(t0) == bucket_entries(before, method),
        tree_entries(tv) == tree_entries(t0).push((pattern, idx)),
        static_pattern(pattern) ==> tree_lookup(tree_entries(tv), pattern) == Some(
            (idx, Seq::<(Seq<char>, Seq<char>)>::empty()),
        ),
        forall|p: Seq<char>, v: usize|
            static_pattern(p) && #[trigger] tree_entries(t0).contains((p, v)) ==> tree_lookup(tree_entries(tv), p) == Some(
                (v, Seq::<(Seq<char>, Seq<char>)>::empty()),
            ),
    ensures
        static_wf(after),
{
    assert forall|m: Method, p: Seq<char>, v: usize|
        static_pattern(p) && #[trigger] bucket_entries(after, m).contains((p, v)) implies tree_lookup(
            bucket_entries(after, m),
            p,
        ) == Some((v, Seq::<(Seq<char>, Seq<char>)>::empty())) by {
        if m != method {
            assert(bucket_entries(before, m).contains((p, v)));
        } else {
            let k = choose|k: int| 0 <= k < tree_entries(tv).len() && tree_entries(tv)[k] == (p, v);
            if k < tree_entries(t0).len() {
                assert(tree_entries(t0)[k] == (p, v));
                assert(tree_entries(t0).contains((p, v)));
            } else {
                assert((p, v) == (pattern, idx));
            }
        }
    }
}

/// A route registered with a path without parameters is what its method
/// and its own pattern resolve to, with no parameters.
pub proof fn law_static_route_found<H>(r: RestRouter<H>, i: int)
    requires
        static_wf(r.buckets()),
        r.routes@.len() <= usize::MAX,
        0 <= i < r.routes@.len(),
        registered(r.buckets(), r.routes@[i], i),
        static_pattern(matchit_path_spec(r.routes@[i].path@)->Ok_0),
    ensures
        r.found(r.routes@[i].method, matchit_path_spec(r.routes@[i].path@)->Ok_0) == Some(
            (i as usize, Seq::<(Seq<char>, Seq<char>)>::empty()),
        ),
{
    let m = r.routes@[i].method;
    let p = matchit_path_spec(r.routes@[i].path@)->Ok_0;
    assert(bucket_entries(r.buckets(), m).contains((p, i as usize)));
    if bucket_of(r.buckets(), m) is None {
        assert(bucket_entries(r.buckets(), m) =~= Seq::empty());
    }
}

/// A request for the path of a registered route without parameters, under
/// another method that does not serve that path, is refused as not allowed
/// (see `resolve`): the `Allow` list is not empty, names the route's method,
/// names exactly the other methods whose trees find the path, and names
/// each method once.
pub proof fn law_not_allowed_lists_methods<H>(r: RestRouter<H>, i: int, m2: Method)
    requires
        distinct_methods(r.buckets()),
        static_wf(r.buckets()),
        r.routes@.len() <= usize::MAX,
        0 <= i < r.routes@.len(),
        registered(r.buckets(), r.routes@[i], i),
        static_pattern(matchit_path_spec(r.routes@[i].path@)->Ok_0),
        m2 != r.routes@[i].method,
        r.found(m2, matchit_path_spec(r.routes@[i].path@)->Ok_0) is None,
    ensures
        allow_list(r.buckets(), m2, matchit_path_spec(r.routes@[i].path@)->Ok_0).len() > 0,
        allow_list(r.buckets(), m2, matchit_path_spec(r.routes@[i].path@)->Ok_0).contains(method_name(r.routes@[i].method)),
        allow_list(r.buckets(), m2, matchit_path_spec(r.routes@[i].path@)->Ok_0).no_duplicates(),
        forall|m3: Method|
            #[trigger] allow_list(r.buckets(), m2, matchit_path_spec(r.routes@[i].path@)->Ok_0).contains(method_name(m3)) <==> (m3
                != m2 && tree_finds(r.buckets(), m3, matchit_path_spec(r.routes@[i].path@)->Ok_0)),
{
    let m = r.routes@[i].method;
    let p = matchit_path_spec(r.routes@[i].path@)->Ok_0;
    law_static_route_found(r, i);
    law_allow_list(r.buckets(), m2, p);
    assert(tree_finds(r.buckets(), m, p));
    assert(allow_list(r.buckets(), m2, p).contains(method_name(m)));
}

/// The entries of the bucket of `m`, or none.
pub open spec fn bucket_entries(trees: Seq<(Method, matchit::Router<usize>)>, m: Method) -> Seq<(Seq<char>, usize)> {
    match bucket_of(trees, m) {
        Some(b) => tree_entries(trees[b].1),
        None => Seq::empty(),
    }
}
} // verus!
