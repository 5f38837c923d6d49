//! Route descriptions and the path rules used when registering them.
use vstd::prelude::*;

use crate::text::{
    chars_of, has_prefix, owned, push_all, push_char, string_of, string_of_range,
    trim_char_bounds, trim_end_char, trim_end_char_bound, trim_start_char,
};

verus! {

/// HTTP request methods.
#[derive(Clone, Copy, Debug, PartialEq, Eq, Structural, Hash)]
pub enum Method {
    Get,
    Post,
    Put,
    Delete,
    Patch,
    Head,
    Options,
    Connect,
    Trace,
}

pub open spec fn method_name(m: Method) -> Seq<char> {
    match m {
        Method::Get => "GET"@,
        Method::Post => "POST"@,
        Method::Put => "PUT"@,
        Method::Delete => "DELETE"@,
        Method::Patch => "PATCH"@,
        Method::Head => "HEAD"@,
        Method::Options => "OPTIONS"@,
        Method::Connect => "CONNECT"@,
        Method::Trace => "TRACE"@,
    }
}

/// Different methods have different names.
pub proof fn lemma_method_name_injective(a: Method, b: Method)
    ensures
        method_name(a) == method_name(b) ==> a == b,
{
    reveal_strlit("GET");
    reveal_strlit("POST");
    reveal_strlit("PUT");
    reveal_strlit("DELETE");
    reveal_strlit("PATCH");
    reveal_strlit("HEAD");
    reveal_strlit("OPTIONS");
    reveal_strlit("CONNECT");
    reveal_strlit("TRACE");
    if method_name(a) == method_name(b) {
        let n = method_name(a);
        assert(n.len() > 0);
        assert(n[0] == method_name(b)[0]);
        assert(n.len() == method_name(b).len());
        if n.len() >= 2 {
            assert(n[1] == method_name(b)[1]);
        }
    }
}

impl Method {
    /// The method's name as it appears on the wire.
    pub fn as_str(&self) -> (s: &'static str)
        ensures
            s@ == method_name(*self),
    {
        match self {
            Method::Get => "GET",
            Method::Post => "POST",
            Method::Put => "PUT",
            Method::Delete => "DELETE",
            Method::Patch => "PATCH",
            Method::Head => "HEAD",
            Method::Options => "OPTIONS",
            Method::Connect => "CONNECT",
            Method::Trace => "TRACE",
        }
    }
}

/// One route: method, normalized path and the handler serving it.
#[derive(Clone)]
pub struct Route<H> {
    pub method: Method,
    pub path: String,
    pub handler: H,
}

/// Every run of slashes shortened to a single slash; a slash is dropped
/// when the next character is a slash too.
pub open spec fn collapse_slashes(s: Seq<char>) -> Seq<char>
    decreases s.len(),
{
    if s.len() == 0 {
        s
    } else if s.len() >= 2 && s[0] == '/' && s[1] == '/' {
        collapse_slashes(s.drop_first())
    } else {
        seq![s[0]] + collapse_slashes(s.drop_first())
    }
}

/// The normalized form of a path: `"/"` for an empty path; otherwise the
/// runs of slashes collapsed, a leading slash added when missing and one
/// trailing slash removed.
pub open spec fn normalize_path_spec(p: Seq<char>) -> Seq<char> {
    if p.len() == 0 {
        seq!['/']
    } else {
        let c = collapse_slashes(p);
        let d = if c.len() > 0 && c[0] == '/' {
            c
        } else {
            seq!['/'] + c
        };
        if d.len() > 1 && d.last() == '/' {
            d.drop_last()
        } else {
            d
        }
    }
}

fn collapse_slashes_exec(s: &Vec<char>) -> (r: Vec<char>)
    ensures
        r@ == collapse_slashes(s@),
{
    let n = s.len();
    let mut out: Vec<char> = Vec::new();
    let mut i: usize = 0;
    assert(s@.subrange(0, n as int) =~= s@);
    while i < n
        invariant
            i <= n == s@.len(),
            out@ + collapse_slashes(s@.subrange(i as int, n as int)) == collapse_slashes(s@),
        decreases n - i,
    {
        let ghost rest = s@.subrange(i as int, n as int);
        let ghost before = out@;
        assert(rest.drop_first() =~= s@.subrange(i + 1, n as int));
        if i + 1 < n && s[i] == '/' && s[i + 1] == '/' {
            assert(rest[0] == '/' && rest[1] == '/');
        } else {
            out.push(s[i]);
            assert(before + (seq![s@[i as int]] + collapse_slashes(s@.subrange(i + 1, n as int)))
                =~= out@ + collapse_slashes(s@.subrange(i + 1, n as int)));
        }
        i = i + 1;
    }
    assert(collapse_slashes(s@.subrange(n as int, n as int)) =~= Seq::<char>::empty());
    assert(out@ + Seq::<char>::empty() =~= out@);
    out
}

/// Normalizes a route path (see [`normalize_path_spec`]).
pub fn normalize_path(path: &str) -> (r: String)
    ensures
        r@ == normalize_path_spec(path@),
{
    let v = chars_of(path);
    if v.len() == 0 {
        let mut s = String::new();
        push_char(&mut s, '/');
        return s;
    }
    let c = collapse_slashes_exec(&v);
    let mut d: Vec<char> = Vec::new();
    if !(c.len() > 0 && c[0] == '/') {
        d.push('/');
    }
    let mut i: usize = 0;
    let ghost d0 = d@;
    while i < c.len()
        invariant
            i <= c@.len(),
            d@ == d0 + c@.subrange(0, i as int),
        decreases c@.len() - i,
    {
        d.push(c[i]);
        assert(c@.subrange(0, i + 1) =~= c@.subrange(0, i as int).push(c@[i as int]));
        i = i + 1;
    }
    assert(c@.subrange(0, c@.len() as int) =~= c@);
    proof {
        if c@.len() > 0 && c@[0] == '/' {
            assert(d@ =~= c@);
        } else {
            assert(d@ =~= seq!['/'] + c@);
        }
    }
    if d.len() > 1 && d[d.len() - 1] == '/' {
        d.pop();
    }
    string_of(d.as_slice())
}

/// A normalized path is never empty and starts with a slash.
pub proof fn law_normalized_path_rooted(p: Seq<char>)
    ensures
        normalize_path_spec(p).len() > 0,
        normalize_path_spec(p)[0] == '/',
{
}

/// No two slashes stand side by side.
pub open spec fn no_double_slash(s: Seq<char>) -> bool {
    forall|i: int| 0 <= i < s.len() - 1 ==> !(#[trigger] s[i] == '/' && s[i + 1] == '/')
}

proof fn lemma_collapse_no_double(s: Seq<char>)
    ensures
        no_double_slash(collapse_slashes(s)),
        collapse_slashes(s).len() > 0 ==> collapse_slashes(s)[0] == s[0],
        s.len() > 0 ==> collapse_slashes(s).len() > 0,
    decreases s.len(),
{
    if s.len() > 0 {
        lemma_collapse_no_double(s.drop_first());
        let t = collapse_slashes(s.drop_first());
        if !(s.len() >= 2 && s[0] == '/' && s[1] == '/') {
            let c = seq![s[0]] + t;
            assert forall|i: int| 0 <= i < c.len() - 1 implies !(#[trigger] c[i] == '/' && c[i + 1] == '/') by {
                if i > 0 {
                    assert(c[i] == t[i - 1] && c[i + 1] == t[i]);
                } else {
                    assert(c[1] == t[0]);
                }
            }
        }
    }
}

/// A normalized path holds no run of slashes: every run was collapsed.
pub proof fn law_normalized_path_single_slashes(p: Seq<char>)
    ensures
        no_double_slash(normalize_path_spec(p)),
{
    if p.len() > 0 {
        lemma_collapse_no_double(p);
        let c = collapse_slashes(p);
        let d = if c.len() > 0 && c[0] == '/' { c } else { seq!['/'] + c };
        assert(no_double_slash(d)) by {
            if !(c.len() > 0 && c[0] == '/') {
                assert forall|i: int| 0 <= i < d.len() - 1 implies !(#[trigger] d[i] == '/' && d[i + 1] == '/') by {
                    if i > 0 {
                        assert(d[i] == c[i - 1] && d[i + 1] == c[i]);
                    } else {
                        assert(d[1] == c[0]);
                    }
                }
            }
        }
        if d.len() > 1 && d.last() == '/' {
            let e = d.drop_last();
            assert forall|i: int| 0 <= i < e.len() - 1 implies !(#[trigger] e[i] == '/' && e[i + 1] == '/') by {
                assert(e[i] == d[i] && e[i + 1] == d[i + 1]);
            }
        }
    }
}

/// The text of `join_path` before normalization.
pub open spec fn join_raw(prefix: Seq<char>, path: Seq<char>) -> Seq<char> {
    let lead: Seq<char> = if prefix.len() > 0 && prefix[0] == '/' {
        Seq::empty()
    } else {
        seq!['/']
    };
    let a = lead + trim_end_char(prefix, '/');
    let b = if a.len() > 0 && a.last() == '/' {
        a
    } else {
        a.push('/')
    };
    b + trim_start_char(path, '/')
}

pub open spec fn join_path_spec(prefix: Seq<char>, path: Seq<char>) -> Seq<char> {
    normalize_path_spec(join_raw(prefix, path))
}

/// Joins a prefix and a path with exactly one slash, then normalizes.
pub fn join_path(prefix: &str, path: &str) -> (r: String)
    ensures
        r@ == join_path_spec(prefix@, path@),
{
    let pv = chars_of(prefix);
    let mut a = String::new();
    if !(pv.len() > 0 && pv[0] == '/') {
        push_char(&mut a, '/');
    }
    let b = trim_end_char_bound(pv.as_slice(), '/');
    let ghost lead = a@;
    let pre = string_of_range(pv.as_slice(), 0, b);
    crate::text::push_all_string(&mut a, &pre);
    let av = chars_of(a.as_str());
    if !(av.len() > 0 && av[av.len() - 1] == '/') {
        push_char(&mut a, '/');
    }
    let qv = chars_of(path);
    let (s0, _e0) = trim_char_bounds(qv.as_slice(), '/');
    let rest = string_of_range(qv.as_slice(), s0, qv.len());
    crate::text::push_all_string(&mut a, &rest);
    normalize_path(a.as_str())
}

impl<H> Route<H> {
    /// A route whose path is normalized.
    pub fn new(method: Method, path: String, handler: H) -> (r: Self)
        ensures
            r.method == method,
            r.path@ == normalize_path_spec(path@),
            r.handler == handler,
    {
        let p = normalize_path(path.as_str());
        Route { method, path: p, handler }
    }
}

/// Puts `prefix` (normalized) in front of every route's path; methods,
/// handlers and the order of the routes are kept.
pub fn with_prefix<H>(prefix: &str, routes: Vec<Route<H>>) -> (r: Vec<Route<H>>)
    ensures
        r@.len() == routes@.len(),
        forall|i: int|
            0 <= i < r@.len() ==> {
                &&& (#[trigger] r@[i]).method == routes@[i].method
                &&& r@[i].handler == routes@[i].handler
                &&& r@[i].path@ == join_path_spec(normalize_path_spec(prefix@), routes@[i].path@)
            },
{
    let np = normalize_path(prefix);
    let mut out: Vec<Route<H>> = Vec::new();
    let mut rs = routes;
    let ghost orig = rs@;
    let mut taken: Vec<Route<H>> = Vec::new();
    // Reverse so that `pop` yields the routes in their original order.
    while rs.len() > 0
        invariant
            taken@.len() + rs@.len() == orig.len(),
            forall|i: int| 0 <= i < rs@.len() ==> #[trigger] rs@[i] == orig[i],
            forall|i: int|
                0 <= i < taken@.len() ==> #[trigger] taken@[i] == orig[orig.len() - 1 - i],
        decreases rs@.len(),
    {
        let r = rs.pop().unwrap();
        taken.push(r);
    }
    while taken.len() > 0
        invariant
            out@.len() + taken@.len() == orig.len(),
            forall|i: int|
                0 <= i < taken@.len() ==> #[trigger] taken@[i] == orig[orig.len() - 1 - i],
            np@ == normalize_path_spec(prefix@),
            forall|i: int|
                0 <= i < out@.len() ==> {
                    &&& (#[trigger] out@[i]).method == orig[i].method
                    &&& out@[i].handler == orig[i].handler
                    &&& out@[i].path@ == join_path_spec(np@, orig[i].path@)
                },
        decreases taken@.len(),
    {
        let r = taken.pop().unwrap();
        let p = join_path(np.as_str(), r.path.as_str());
        out.push(Route { method: r.method, path: p, handler: r.handler });
    }
    out
}

/// Same as [`with_prefix`], for the root prefix.
pub fn with_root<H>(root: &str, routes: Vec<Route<H>>) -> (r: Vec<Route<H>>)
    ensures
        r@.len() == routes@.len(),
        forall|i: int|
            0 <= i < r@.len() ==> {
                &&& (#[trigger] r@[i]).method == routes@[i].method
                &&& r@[i].handler == routes@[i].handler
                &&& r@[i].path@ == join_path_spec(normalize_path_spec(root@), routes@[i].path@)
            },
{
    with_prefix(root, routes)
}

} // verus!
