//! Generation of a Rust service project from an API description.
//!
//! Every generated file is either text built here or a template rendered
//! with a context built here; the contracts say which, file by file.
use vstd::prelude::*;

use crate::json::JsonView;
use crate::render::{context_text, ctx_set, render, rendered, Context};
use crate::rsctl::apispec::{
    opt_view, Annotation, AnnotationView, Group, GroupView, HttpMethod, Route, RouteView, Spec,
    SpecView,
};
use crate::rsctl::naming::{
    group_file_base, group_file_base_spec, mod_decl_spec, mod_decl_with_path, pascal, pascal_spec,
    snake, snake_spec, Style,
};
use crate::text::{
    ascii_lower, chars_of, eq_pred, is_ascii_lower, skip_back_while, skip_while, concat_all, insert_sorted, is_ascii_upper, lower_char, owned, push_char,
    push_str, sorted_distinct, sorted_insert, str_eq, string_of_range, trim, trim_char,
    trim_char_bounds, trim_str, views,
};

verus! {

// ---------------------------------------------------------------------
// Outputs and errors
// ---------------------------------------------------------------------
/// One generated file: its path relative to the project root, and its text.
#[derive(Clone, Debug)]
pub struct Artifact {
    pub rel_path: String,
    pub content: String,
}

impl View for Artifact {
    type V = (Seq<char>, Seq<char>);

    open spec fn view(&self) -> (Seq<char>, Seq<char>) {
        (self.rel_path@, self.content@)
    }
}

/// All generated files, in generation order.
#[derive(Clone, Debug)]
pub struct Artifacts {
    pub files: Vec<Artifact>,
}

pub open spec fn files_view(v: Seq<Artifact>) -> Seq<(Seq<char>, Seq<char>)> {
    v.map_values(|a: Artifact| a@)
}

/// The template sources a project is generated from.
#[derive(Clone, Debug)]
pub struct Templates {
    pub cargo_toml: String,
    pub context: String,
    pub etc: String,
    pub main: String,
    pub config: String,
    pub routes: String,
    pub handler: String,
    pub logic: String,
    pub types: String,
    pub middleware: String,
}

pub struct TemplatesView {
    pub cargo_toml: Seq<char>,
    pub context: Seq<char>,
    pub etc: Seq<char>,
    pub main: Seq<char>,
    pub config: Seq<char>,
    pub routes: Seq<char>,
    pub handler: Seq<char>,
    pub logic: Seq<char>,
    pub types: Seq<char>,
    pub middleware: Seq<char>,
}

impl View for Templates {
    type V = TemplatesView;

    open spec fn view(&self) -> TemplatesView {
        TemplatesView {
            cargo_toml: self.cargo_toml@,
            context: self.context@,
            etc: self.etc@,
            main: self.main@,
            config: self.config@,
            routes: self.routes@,
            handler: self.handler@,
            logic: self.logic@,
            types: self.types@,
            middleware: self.middleware@,
        }
    }
}

/// Why a project could not be generated.
#[derive(Clone, Debug)]
pub enum GenerateError {
    /// An unknown naming style; the message names it.
    Style(String),
    /// A template that could not be rendered.
    Render { template: String, detail: String },
    /// Two groups of the same priority declare the same route (`METHOD path`).
    DuplicateRoute(String),
}

pub enum GenErr {
    Style(Seq<char>),
    Render(Seq<char>),
    DuplicateRoute(Seq<char>),
}

impl View for GenerateError {
    type V = GenErr;

    open spec fn view(&self) -> GenErr {
        match self {
            GenerateError::Style(m) => GenErr::Style(m@),
            GenerateError::Render { template, detail } => GenErr::Render(template@),
            GenerateError::DuplicateRoute(k) => GenErr::DuplicateRoute(k@),
        }
    }
}

pub open spec fn duplicate_route_text(key: Seq<char>) -> Seq<char> {
    "duplicate route detected with same priority: `"@ + key
        + "`.\nPlease remove duplicates or keep only one @server(...) variant."@
}

impl GenerateError {
    /// The message of this error.
    pub fn message(&self) -> (s: String)
        ensures
            match self {
                GenerateError::Style(m) => s@ == m@,
                GenerateError::Render { template, detail } => s@ == "render "@ + template@ + ": "@ + detail@,
                GenerateError::DuplicateRoute(k) => s@ == duplicate_route_text(k@),
            },
    {
        match self {
            GenerateError::Style(m) => m.clone(),
            GenerateError::Render { template, detail } => {
                let mut s = owned("render ");
                push_str(&mut s, template.as_str());
                push_str(&mut s, ": ");
                push_str(&mut s, detail.as_str());
                s
            },
            GenerateError::DuplicateRoute(k) => {
                let mut s = owned("duplicate route detected with same priority: `");
                push_str(&mut s, k.as_str());
                push_str(&mut s, "`.\nPlease remove duplicates or keep only one @server(...) variant.");
                s
            },
        }
    }
}

/// A template rendered, or the error naming it.
pub open spec fn render_as(tpl: Seq<char>, ctx: Seq<(Seq<char>, JsonView)>, name: Seq<char>) -> Result<Seq<char>, GenErr> {
    match rendered(tpl, context_text(ctx)) {
        Some(s) => Ok(s),
        None => Err(GenErr::Render(name)),
    }
}

fn render_named(tpl: &str, ctx: &Context, name: &str) -> (r: Result<String, GenerateError>)
    ensures
        match r {
            Ok(s) => render_as(tpl@, ctx@, name@) == Ok::<Seq<char>, GenErr>(s@),
            Err(e) => render_as(tpl@, ctx@, name@) == Err::<Seq<char>, GenErr>(e@),
        },
{
    match render(tpl, ctx) {
        Ok(s) => Ok(s),
        Err(e) => Err(GenerateError::Render { template: owned(name), detail: e.detail }),
    }
}

// ---------------------------------------------------------------------
// Group annotations
// ---------------------------------------------------------------------
/// The first annotation called `name`.
pub open spec fn find_ann(anns: Seq<AnnotationView>, name: Seq<char>) -> Option<AnnotationView>
    decreases anns.len(),
{
    if anns.len() == 0 {
        None
    } else if anns[0].name == name {
        Some(anns[0])
    } else {
        find_ann(anns.drop_first(), name)
    }
}

/// The property `key` of a group's `@server(...)` annotation.
pub open spec fn server_prop(g: GroupView, key: Seq<char>) -> Option<Seq<char>> {
    match find_ann(g.annotations, "server"@) {
        Some(a) => if a.properties.contains_key(key) {
            Some(a.properties[key])
        } else {
            None
        },
        None => None,
    }
}

/// The group a group's files go to: its `@server(group: ...)` in snake
/// case, or empty for the default group.
pub open spec fn group_key_spec(g: GroupView) -> Seq<char> {
    match server_prop(g, "group"@) {
        Some(v) => if trim(v).len() > 0 {
            snake_spec(trim(v))
        } else {
            Seq::empty()
        },
        None => Seq::empty(),
    }
}

pub open spec fn anns_of(v: Seq<Annotation>) -> Seq<AnnotationView> {
    v.map_values(|a: Annotation| a@)
}

fn find_annotation<'a>(anns: &'a Vec<Annotation>, name: &str) -> (r: Option<&'a Annotation>)
    ensures
        match r {
            Some(a) => find_ann(anns_of(anns@), name@) == Some(a@),
            None => find_ann(anns_of(anns@), name@) is None,
        },
{
    let ghost av = anns_of(anns@);
    let mut i: usize = 0;
    assert(av.subrange(0, av.len() as int) =~= av);
    while i < anns.len()
        invariant
            i <= anns@.len(),
            av == anns_of(anns@),
            find_ann(av, name@) == find_ann(av.subrange(i as int, av.len() as int), name@),
        decreases anns@.len() - i,
    {
        let ghost rest = av.subrange(i as int, av.len() as int);
        assert(rest.drop_first() =~= av.subrange(i + 1, av.len() as int));
        assert(rest[0] == anns@[i as int]@);
        if str_eq(anns[i].name.as_str(), name) {
            return Some(&anns[i]);
        }
        i = i + 1;
    }
    None
}

/// The property `key` of the group's `@server(...)` annotation.
fn server_prop_exec(g: &Group, key: &str) -> (r: Option<String>)
    ensures
        opt_view(r) == server_prop(g@, key@),
{
    proof {
        reveal_strlit("server");
    }
    match find_annotation(&g.annotations, "server") {
        Some(a) => match a.properties.get(key) {
            Some(v) => Some(v.clone()),
            None => None,
        },
        None => None,
    }
}

fn group_key(g: &Group) -> (r: String)
    ensures
        r@ == group_key_spec(g@),
{
    proof {
        reveal_strlit("group");
    }
    match server_prop_exec(g, "group") {
        Some(v) => {
            let t = trim_str(v.as_str());
            if t.as_str().is_empty() {
                String::new()
            } else {
                snake(t.as_str())
            }
        },
        None => String::new(),
    }
}

fn group_prefix(g: &Group) -> (r: Option<String>)
    ensures
        opt_view(r) == server_prop(g@, "prefix"@),
{
    server_prop_exec(g, "prefix")
}

fn group_middleware(g: &Group) -> (r: Option<String>)
    ensures
        opt_view(r) == server_prop(g@, "middleware"@),
{
    server_prop_exec(g, "middleware")
}

fn group_auth(g: &Group) -> (r: Option<String>)
    ensures
        opt_view(r) == server_prop(g@, "auth"@),
{
    server_prop_exec(g, "auth")
}

/// A middleware name in snake case: `-` and `_` become `_`, an upper-case
/// letter after a lower-case one starts a new word; then outer `_` go.
pub open spec fn mw_snake_from(s: Seq<char>, prev_lower: bool) -> Seq<char>
    decreases s.len(),
{
    if s.len() == 0 {
        Seq::empty()
    } else {
        let c = s[0];
        if c == '_' || c == '-' {
            seq!['_'] + mw_snake_from(s.drop_first(), false)
        } else if is_ascii_upper(c) {
            (if prev_lower {
                seq!['_']
            } else {
                Seq::empty()
            }) + seq![ascii_lower(c)] + mw_snake_from(s.drop_first(), false)
        } else {
            seq![c] + mw_snake_from(s.drop_first(), true)
        }
    }
}

pub open spec fn mw_snake(s: Seq<char>) -> Seq<char> {
    trim_char(mw_snake_from(s, false), '_')
}

/// Whether the character before the rest of a name was a lower-case
/// letter or digit (anything but a separator or an upper-case letter).
pub open spec fn ends_lower(a: Seq<char>, p: bool) -> bool {
    if a.len() == 0 {
        p
    } else {
        !(a.last() == '_' || a.last() == '-' || is_ascii_upper(a.last()))
    }
}

proof fn lemma_mw_snake_from_concat(a: Seq<char>, b: Seq<char>, p: bool)
    ensures
        mw_snake_from(a + b, p) == mw_snake_from(a, p) + mw_snake_from(b, ends_lower(a, p)),
    decreases a.len(),
{
    if a.len() == 0 {
        assert(a + b =~= b);
        assert(mw_snake_from(a, p) =~= Seq::<char>::empty());
        assert(Seq::<char>::empty() + mw_snake_from(b, p) =~= mw_snake_from(b, p));
    } else {
        let c = a[0];
        assert((a + b)[0] == c);
        assert((a + b).drop_first() =~= a.drop_first() + b);
        let q = !(c == '_' || c == '-' || is_ascii_upper(c));
        lemma_mw_snake_from_concat(a.drop_first(), b, q);
        if a.len() > 1 {
            assert(a.drop_first().last() == a.last());
        }
        assert(ends_lower(a.drop_first(), q) == ends_lower(a, p));
        let head: Seq<char> = if c == '_' || c == '-' {
            seq!['_']
        } else if is_ascii_upper(c) {
            (if p { seq!['_'] } else { Seq::empty() }) + seq![ascii_lower(c)]
        } else {
            seq![c]
        };
        assert(mw_snake_from(a, p) == head + mw_snake_from(a.drop_first(), q));
        assert(mw_snake_from(a + b, p) == head + mw_snake_from(a.drop_first() + b, q));
        assert(head + (mw_snake_from(a.drop_first(), q) + mw_snake_from(b, q)) =~= (head + mw_snake_from(
            a.drop_first(),
            q,
        )) + mw_snake_from(b, q));
    }
}

proof fn lemma_skip_back_concat(x: Seq<char>, y: Seq<char>, c: char)
    requires
        y.len() > 0,
        y[0] != c,
    ensures
        skip_back_while(x + y, eq_pred(c)) == x + skip_back_while(y, eq_pred(c)),
        skip_back_while(y, eq_pred(c)).len() > 0,
        skip_back_while(y, eq_pred(c))[0] == y[0],
    decreases y.len(),
{
    if eq_pred(c)(y.last()) {
        assert(y.len() > 1);
        assert((x + y).drop_last() =~= x + y.drop_last());
        assert((x + y).last() == y.last());
        lemma_skip_back_concat(x, y.drop_last(), c);
    }
}

/// No middleware module name holds an ASCII upper-case letter: each letter
/// of the middleware name is lower-cased.
pub proof fn law_mw_snake_lower(s: Seq<char>)
    ensures
        forall|i: int| 0 <= i < mw_snake(s).len() ==> !is_ascii_upper(#[trigger] mw_snake(s)[i]),
{
    lemma_mw_snake_from_lower(s, false);
    let m = mw_snake_from(s, false);
    let t = skip_while(m, eq_pred('_'));
    lemma_skip_while_no_upper(m, eq_pred('_'));
    lemma_skip_back_while_no_upper(t, eq_pred('_'));
}

proof fn lemma_mw_snake_from_lower(s: Seq<char>, p: bool)
    ensures
        forall|i: int| 0 <= i < mw_snake_from(s, p).len() ==> !is_ascii_upper(#[trigger] mw_snake_from(s, p)[i]),
    decreases s.len(),
{
    if s.len() > 0 {
        let c = s[0];
        let q = !(c == '_' || c == '-' || is_ascii_upper(c));
        lemma_mw_snake_from_lower(s.drop_first(), q);
        let r = mw_snake_from(s.drop_first(), q);
        let head: Seq<char> = if c == '_' || c == '-' {
            seq!['_']
        } else if is_ascii_upper(c) {
            (if p { seq!['_'] } else { Seq::empty() }) + seq![ascii_lower(c)]
        } else {
            seq![c]
        };
        assert(mw_snake_from(s, p) == head + r);
        assert(forall|i: int| 0 <= i < head.len() ==> !is_ascii_upper(#[trigger] head[i]));
        assert forall|i: int| 0 <= i < (head + r).len() implies !is_ascii_upper(#[trigger] (head + r)[i]) by {
            if i < head.len() {
                assert((head + r)[i] == head[i]);
            } else {
                assert((head + r)[i] == r[i - head.len()]);
            }
        }
    }
}

proof fn lemma_skip_while_no_upper(s: Seq<char>, p: spec_fn(char) -> bool)
    requires
        forall|i: int| 0 <= i < s.len() ==> !is_ascii_upper(#[trigger] s[i]),
    ensures
        forall|i: int| 0 <= i < skip_while(s, p).len() ==> !is_ascii_upper(#[trigger] skip_while(s, p)[i]),
    decreases s.len(),
{
    if s.len() > 0 && p(s[0]) {
        assert forall|i: int| 0 <= i < s.drop_first().len() implies !is_ascii_upper(#[trigger] s.drop_first()[i]) by {
            assert(s.drop_first()[i] == s[i + 1]);
        }
        lemma_skip_while_no_upper(s.drop_first(), p);
        assert(skip_while(s, p) == skip_while(s.drop_first(), p));
    } else {
        assert(skip_while(s, p) == s);
    }
}

proof fn lemma_skip_back_while_no_upper(s: Seq<char>, p: spec_fn(char) -> bool)
    requires
        forall|i: int| 0 <= i < s.len() ==> !is_ascii_upper(#[trigger] s[i]),
    ensures
        forall|i: int| 0 <= i < skip_back_while(s, p).len() ==> !is_ascii_upper(#[trigger] skip_back_while(s, p)[i]),
    decreases s.len(),
{
    if s.len() > 0 && p(s.last()) {
        assert forall|i: int| 0 <= i < s.drop_last().len() implies !is_ascii_upper(#[trigger] s.drop_last()[i]) by {
            assert(s.drop_last()[i] == s[i]);
        }
        lemma_skip_back_while_no_upper(s.drop_last(), p);
        assert(skip_back_while(s, p) == skip_back_while(s.drop_last(), p));
    } else {
        assert(skip_back_while(s, p) == s);
    }
}

/// A middleware name made of two parts, the first ending in a lower-case
/// letter (or any other character that is neither a separator nor an
/// upper-case letter, such as a digit) and the second starting with an
/// upper-case one (as in `AuthCheck` = `Auth` + `Check`), gets an `_`
/// between the parts' module names: `auth` + `_` + `check`.
pub proof fn law_mw_snake_word_break(a: Seq<char>, b: Seq<char>)
    requires
        a.len() > 0,
        a[0] != '_' && a[0] != '-',
        a.last() != '_' && a.last() != '-' && !is_ascii_upper(a.last()),
        b.len() > 0,
        is_ascii_upper(b[0]),
    ensures
        mw_snake(a + b) == mw_snake(a) + seq!['_'] + mw_snake(b),
{
    let x = mw_snake_from(a, false);
    let y = mw_snake_from(b, false);
    lemma_mw_snake_from_concat(a, b, false);
    assert(ends_lower(a, false));
    let b0 = b[0];
    assert(mw_snake_from(b, true) == seq!['_'] + seq![ascii_lower(b0)] + mw_snake_from(b.drop_first(), false));
    assert(y == seq![ascii_lower(b0)] + mw_snake_from(b.drop_first(), false));
    assert(mw_snake_from(b, true) =~= seq!['_'] + y);
    assert(y[0] == ascii_lower(b0));
    assert(ascii_lower(b0) != '_') by {
        assert(('A' as u32) <= (b0 as u32) <= ('Z' as u32));
        assert(ascii_lower(b0) as u32 == (b0 as u32) + 32);
    }
    // the first part's module name starts and ends with letters of its own
    let a0 = a[0];
    let al = a.last();
    lemma_mw_snake_from_concat(a.drop_last(), seq![al], false);
    assert(a.drop_last() + seq![al] =~= a);
    let q = ends_lower(a.drop_last(), false);
    assert(mw_snake_from(seq![al], q) == seq![al] + mw_snake_from(seq![al].drop_first(), true));
    assert(seq![al].drop_first() =~= Seq::<char>::empty());
    assert(mw_snake_from(seq![al], q) =~= seq![al]);
    assert(x.len() > 0 && x.last() == al);
    assert(x[0] != '_') by {
        assert(a[0] == a0);
        if is_ascii_upper(a0) {
            assert(('A' as u32) <= (a0 as u32) <= ('Z' as u32));
            assert(ascii_lower(a0) as u32 == (a0 as u32) + 32);
        }
    }
    assert(al != '_');
    // mw_snake(a) is x
    assert(skip_while(x, eq_pred('_')) == x);
    assert(skip_back_while(x, eq_pred('_')) == x);
    // mw_snake(b)
    assert(skip_while(y, eq_pred('_')) == y);
    // mw_snake(a + b)
    let whole = x + (seq!['_'] + y);
    assert(mw_snake_from(a + b, false) == whole);
    assert(whole[0] == x[0]);
    assert(skip_while(whole, eq_pred('_')) == whole);
    lemma_skip_back_concat(x + seq!['_'], y, '_');
    assert((x + seq!['_']) + y =~= whole);
    assert(mw_snake(a + b) == (x + seq!['_']) + skip_back_while(y, eq_pred('_')));
}

fn to_snake(name: &str) -> (r: String)
    ensures
        r@ == mw_snake(name@),
{
    let v = chars_of(name);
    let mut out: Vec<char> = Vec::new();
    let mut prev_lower = false;
    let mut i: usize = 0;
    assert(v@.subrange(0, v@.len() as int) =~= v@);
    while i < v.len()
        invariant
            i <= v@.len(),
            v@ == name@,
            out@ + mw_snake_from(v@.subrange(i as int, v@.len() as int), prev_lower) == mw_snake_from(name@, false),
        decreases v@.len() - i,
    {
        let ghost rest = v@.subrange(i as int, v@.len() as int);
        let ghost before = out@;
        let ghost pl = prev_lower;
        assert(rest.drop_first() =~= v@.subrange(i + 1, v@.len() as int));
        let c = v[i];
        if c == '_' || c == '-' {
            out.push('_');
            prev_lower = false;
        } else if 'A' <= c && c <= 'Z' {
            if prev_lower {
                out.push('_');
            }
            out.push(lower_char(c));
            prev_lower = false;
        } else {
            out.push(c);
            prev_lower = true;
        }
        assert(out@ + mw_snake_from(v@.subrange(i + 1, v@.len() as int), prev_lower) =~= before
            + mw_snake_from(rest, pl));
        i = i + 1;
    }
    assert(mw_snake_from(v@.subrange(i as int, v@.len() as int), prev_lower) =~= Seq::<char>::empty());
    assert(out@ =~= mw_snake_from(name@, false));
    let (a, b) = trim_char_bounds(out.as_slice(), '_');
    string_of_range(out.as_slice(), a, b)
}

// ---------------------------------------------------------------------
// Groups and their handlers
// ---------------------------------------------------------------------
/// The group keys of all groups, distinct and ascending.
pub open spec fn group_keys_spec(gs: Seq<GroupView>) -> Seq<Seq<char>> {
    sorted_distinct(gs.map_values(|g: GroupView| group_key_spec(g)))
}

pub open spec fn route_handlers(rs: Seq<RouteView>) -> Seq<Seq<char>> {
    rs.map_values(|r: RouteView| snake_spec(r.handler))
}

/// The snake-case handler names of the routes of the groups with key `k`,
/// in order.
pub open spec fn key_route_handlers(gs: Seq<GroupView>, k: Seq<char>) -> Seq<Seq<char>>
    decreases gs.len(),
{
    if gs.len() == 0 {
        Seq::empty()
    } else {
        key_route_handlers(gs.drop_last(), k) + (if group_key_spec(gs.last()) == k {
            route_handlers(gs.last().routes)
        } else {
            Seq::empty()
        })
    }
}

/// The handlers of group `k`, distinct and ascending.
pub open spec fn handlers_spec(gs: Seq<GroupView>, k: Seq<char>) -> Seq<Seq<char>> {
    sorted_distinct(key_route_handlers(gs, k))
}

pub open spec fn groups_of(v: Seq<Group>) -> Seq<GroupView> {
    v.map_values(|g: Group| g@)
}

/// `sorted_distinct(xs + ys)` is `ys` inserted one by one.
proof fn lemma_sorted_distinct_push(xs: Seq<Seq<char>>, y: Seq<char>)
    ensures
        sorted_distinct(xs.push(y)) == insert_sorted(sorted_distinct(xs), y),
{
    assert(xs.push(y).drop_last() =~= xs);
}

fn group_keys(groups: &Vec<Group>) -> (r: Vec<String>)
    ensures
        views(r@) == group_keys_spec(groups_of(groups@)),
{
    let ghost all = groups_of(groups@).map_values(|g: GroupView| group_key_spec(g));
    let mut keys: Vec<String> = Vec::new();
    let mut i: usize = 0;
    assert(views(keys@) =~= sorted_distinct(all.subrange(0, 0)));
    while i < groups.len()
        invariant
            i <= groups@.len(),
            all == groups_of(groups@).map_values(|g: GroupView| group_key_spec(g)),
            views(keys@) == sorted_distinct(all.subrange(0, i as int)),
        decreases groups@.len() - i,
    {
        let k = group_key(&groups[i]);
        proof {
            assert(all.subrange(0, i + 1) =~= all.subrange(0, i as int).push(k@));
            lemma_sorted_distinct_push(all.subrange(0, i as int), k@);
        }
        sorted_insert(&mut keys, k);
        i = i + 1;
    }
    assert(all.subrange(0, groups@.len() as int) =~= all);
    keys
}

fn handlers_of(groups: &Vec<Group>, k: &str) -> (r: Vec<String>)
    ensures
        views(r@) == handlers_spec(groups_of(groups@), k@),
{
    let ghost gs = groups_of(groups@);
    let mut hs: Vec<String> = Vec::new();
    let mut i: usize = 0;
    assert(gs.subrange(0, 0) =~= Seq::<GroupView>::empty());
    assert(views(hs@) =~= sorted_distinct(key_route_handlers(gs.subrange(0, 0), k@)));
    while i < groups.len()
        invariant
            i <= groups@.len(),
            gs == groups_of(groups@),
            views(hs@) == sorted_distinct(key_route_handlers(gs.subrange(0, i as int), k@)),
        decreases groups@.len() - i,
    {
        let ghost done = key_route_handlers(gs.subrange(0, i as int), k@);
        assert(gs.subrange(0, i + 1).drop_last() =~= gs.subrange(0, i as int));
        let g = &groups[i];
        let gk = group_key(g);
        if str_eq(gk.as_str(), k) {
            let ghost rh = route_handlers(g@.routes);
            let mut j: usize = 0;
            assert(done + rh.subrange(0, 0) =~= done);
            while j < g.routes.len()
                invariant
                    j <= g.routes@.len(),
                    g == &groups@[i as int],
                    rh == route_handlers(g@.routes),
                    views(hs@) == sorted_distinct(done + rh.subrange(0, j as int)),
                decreases g.routes@.len() - j,
            {
                let h = snake(g.routes[j].handler.as_str());
                proof {
                    assert(rh[j as int] == h@);
                    assert(done + rh.subrange(0, j + 1) =~= (done + rh.subrange(0, j as int)).push(h@));
                    lemma_sorted_distinct_push(done + rh.subrange(0, j as int), h@);
                }
                sorted_insert(&mut hs, h);
                j = j + 1;
            }
            assert(rh.subrange(0, g.routes@.len() as int) =~= rh);
            assert(key_route_handlers(gs.subrange(0, i + 1), k@) =~= done + rh);
        } else {
            assert(key_route_handlers(gs.subrange(0, i + 1), k@) =~= done);
        }
        i = i + 1;
    }
    assert(gs.subrange(0, groups@.len() as int) =~= gs);
    hs
}

// ---------------------------------------------------------------------
// Middlewares
// ---------------------------------------------------------------------
/// The snake-case middleware names of the groups, in group order.
pub open spec fn mw_list(gs: Seq<GroupView>) -> Seq<Seq<char>>
    decreases gs.len(),
{
    if gs.len() == 0 {
        Seq::empty()
    } else {
        mw_list(gs.drop_last()) + match server_prop(gs.last(), "middleware"@) {
            Some(m) => seq![mw_snake(m)],
            None => Seq::empty(),
        }
    }
}

fn middleware_list(groups: &Vec<Group>) -> (r: Vec<String>)
    ensures
        views(r@) == mw_list(groups_of(groups@)),
{
    let ghost gs = groups_of(groups@);
    let mut out: Vec<String> = Vec::new();
    let mut i: usize = 0;
    assert(gs.subrange(0, 0) =~= Seq::<GroupView>::empty());
    assert(views(out@) =~= mw_list(gs.subrange(0, 0)));
    while i < groups.len()
        invariant
            i <= groups@.len(),
            gs == groups_of(groups@),
            views(out@) == mw_list(gs.subrange(0, i as int)),
        decreases groups@.len() - i,
    {
        assert(gs.subrange(0, i + 1).drop_last() =~= gs.subrange(0, i as int));
        let ghost before = views(out@);
        match group_middleware(&groups[i]) {
            Some(m) => {
                let n = to_snake(m.as_str());
                let ghost nv = n@;
                out.push(n);
                assert(views(out@) =~= before + seq![nv]);
            },
            None => {
                assert(views(out@) =~= before + Seq::<Seq<char>>::empty());
            },
        }
        i = i + 1;
    }
    assert(gs.subrange(0, groups@.len() as int) =~= gs);
    out
}

/// The distinct middleware names, ascending.
pub open spec fn mw_names(gs: Seq<GroupView>) -> Seq<Seq<char>> {
    sorted_distinct(mw_list(gs))
}

fn middleware_names(groups: &Vec<Group>) -> (r: Vec<String>)
    ensures
        views(r@) == mw_names(groups_of(groups@)),
{
    let all = middleware_list(groups);
    let mut out: Vec<String> = Vec::new();
    let mut i: usize = 0;
    assert(views(out@) =~= sorted_distinct(views(all@).subrange(0, 0)));
    while i < all.len()
        invariant
            i <= all@.len(),
            views(out@) == sorted_distinct(views(all@).subrange(0, i as int)),
        decreases all@.len() - i,
    {
        proof {
            assert(views(all@).subrange(0, i + 1) =~= views(all@).subrange(0, i as int).push(all@[i as int]@));
            lemma_sorted_distinct_push(views(all@).subrange(0, i as int), all@[i as int]@);
        }
        sorted_insert(&mut out, all[i].clone());
        i = i + 1;
    }
    assert(views(all@).subrange(0, all@.len() as int) =~= views(all@));
    out
}

// ---------------------------------------------------------------------
// The generator
// ---------------------------------------------------------------------
/// What the generator works from.
pub struct GenView {
    pub groups: Seq<GroupView>,
    pub types: Seq<crate::rsctl::apispec::TypeDefView>,
    pub merge: bool,
    pub style: Style,
    pub service: Seq<char>,
    pub version: Seq<char>,
    pub rest_features: Seq<char>,
    pub validator_dep: Seq<char>,
    pub auth_dep: Seq<char>,
    pub tpl: TemplatesView,
    pub base: Seq<(Seq<char>, JsonView)>,
}

pub type ArtView = (Seq<char>, Seq<char>);

struct Generator<'a> {
    spec: &'a Spec,
    merge: bool,
    style: Style,
    service_name: String,
    rsctl_version: String,
    /// Group key and its handlers, keys ascending.
    group_handlers: Vec<(String, Vec<String>)>,
    rest_features: String,
    validator_dep: String,
    auth_dep: String,
    templates: Templates,
    base_ctx: Context,
}

impl<'a> Generator<'a> {
    spec fn gv(&self) -> GenView {
        GenView {
            groups: groups_of(self.spec.service.groups@),
            types: self.spec.types@.map_values(|t: crate::rsctl::apispec::TypeDef| t@),
            merge: self.merge,
            style: self.style,
            service: self.service_name@,
            version: self.rsctl_version@,
            rest_features: self.rest_features@,
            validator_dep: self.validator_dep@,
            auth_dep: self.auth_dep@,
            tpl: self.templates@,
            base: self.base_ctx@,
        }
    }

    spec fn wf(&self) -> bool {
        let gs = groups_of(self.spec.service.groups@);
        &&& self.group_handlers@.map_values(|e: (String, Vec<String>)| e.0@) == group_keys_spec(gs)
        &&& forall|i: int|
            0 <= i < self.group_handlers@.len() ==> views(#[trigger] self.group_handlers@[i].1@)
                == handlers_spec(gs, self.group_handlers@[i].0@)
    }
}

/// A single-file step: the file, or the error of its rendering.
pub open spec fn one_file(path: Seq<char>, r: Result<Seq<char>, GenErr>) -> Result<Seq<ArtView>, GenErr> {
    match r {
        Ok(c) => Ok(seq![(path, c)]),
        Err(e) => Err(e),
    }
}

/// The files list after a step: extended by the step's files, or the
/// step's error.
pub open spec fn step_done(
    before: Seq<Artifact>,
    after: Seq<Artifact>,
    spec_r: Result<Seq<ArtView>, GenErr>,
    r: Result<(), GenerateError>,
) -> bool {
    match r {
        Ok(_) => spec_r matches Ok(fs) && files_view(after) == files_view(before) + fs,
        Err(e) => spec_r == Err::<Seq<ArtView>, GenErr>(e@),
    }
}

pub open spec fn sv(s: Seq<char>) -> JsonView {
    JsonView::Str(s)
}

pub open spec fn cargo_toml_spec(gv: GenView) -> Result<Seq<ArtView>, GenErr> {
    one_file(
        "Cargo.toml"@,
        render_as(
            gv.tpl.cargo_toml,
            ctx_set(
                ctx_set(
                    ctx_set(ctx_set(gv.base, "webDep"@, sv(Seq::empty())), "restFeatures"@, sv(gv.rest_features)),
                    "validatorDep"@,
                    sv(gv.validator_dep),
                ),
                "authDep"@,
                sv(gv.auth_dep),
            ),
            "Cargo.toml.tpl"@,
        ),
    )
}

pub open spec fn etc_spec(gv: GenView) -> Result<Seq<ArtView>, GenErr> {
    one_file("etc/"@ + gv.service + ".yaml"@, render_as(gv.tpl.etc, gv.base, "etc.tpl"@))
}

pub open spec fn entry_spec(gv: GenView) -> Result<Seq<ArtView>, GenErr> {
    one_file(gv.service + ".rs"@, render_as(gv.tpl.main, gv.base, "main.tpl"@))
}

pub open spec fn config_spec(gv: GenView) -> Result<Seq<ArtView>, GenErr> {
    one_file("config.rs"@, render_as(gv.tpl.config, ctx_set(gv.base, "auth"@, sv(Seq::empty())), "config.tpl"@))
}

pub open spec fn service_context_spec(gv: GenView) -> Result<Seq<ArtView>, GenErr> {
    let imports = if mw_names(gv.groups).len() == 0 {
        Seq::empty()
    } else {
        "use halo::rest::Middleware;"@
    };
    one_file("svc.rs"@, render_as(gv.tpl.context, ctx_set(gv.base, "imports"@, sv(imports)), "context.tpl"@))
}

/// The module declaration of a named group's directory under `parent`.
pub open spec fn key_mod_decl(parent: Seq<char>, g: Seq<char>, st: Style) -> Seq<char> {
    if g.len() == 0 {
        Seq::empty()
    } else {
        mod_decl_spec(parent, g, group_file_base_spec(g, st))
    }
}

pub open spec fn keys_mod_decls(parent: Seq<char>, keys: Seq<Seq<char>>, st: Style) -> Seq<char> {
    concat_all(keys.map_values(|g: Seq<char>| key_mod_decl(parent, g, st)))
}

pub open spec fn handler_root_text(keys: Seq<Seq<char>>, st: Style) -> Seq<char> {
    "/// generated by rsctl\n"@ + "\n"@ + "pub mod routes;\n"@ + (if keys.contains(Seq::empty()) {
        "pub mod handler;\n"@
    } else {
        Seq::empty()
    }) + keys_mod_decls("handler"@, keys, st)
}

pub open spec fn types_root_text(keys: Seq<Seq<char>>, st: Style) -> Seq<char> {
    "/// generated by rsctl\n"@ + (if keys.contains(Seq::empty()) {
        "pub mod types;\npub use types::*;\n"@
    } else {
        Seq::empty()
    }) + keys_mod_decls("types"@, keys, st)
}

pub open spec fn pub_mod_line(h: Seq<char>) -> Seq<char> {
    "pub mod "@ + h + ";\n"@
}

pub open spec fn pub_use_logic_line(h: Seq<char>) -> Seq<char> {
    "pub use "@ + h + "::"@ + pascal_spec(h) + ";\n"@
}

pub open spec fn logic_root_text(keys: Seq<Seq<char>>, default_hs: Seq<Seq<char>>, merge: bool, st: Style) -> Seq<char> {
    "/// generated by rsctl\n"@ + (if keys.contains(Seq::empty()) {
        if merge {
            "pub mod logic;\npub use logic::*;\n"@
        } else {
            concat_all(default_hs.map_values(|h: Seq<char>| pub_mod_line(h))) + "\n"@ + concat_all(
                default_hs.map_values(|h: Seq<char>| pub_use_logic_line(h)),
            )
        }
    } else {
        Seq::empty()
    }) + keys_mod_decls("logic"@, keys, st)
}

pub open spec fn mw_imports() -> Seq<char> {
    "use halo::rest::{self, HandlerFunc, Middleware};\nuse hyper::Body;\nuse http::Request;"@
}

pub open spec fn mw_ctx(base: Seq<(Seq<char>, JsonView)>, m: Seq<char>) -> Seq<(Seq<char>, JsonView)> {
    ctx_set(ctx_set(ctx_set(base, "name"@, sv(m)), "Name"@, sv(pascal_spec(m))), "imports"@, sv(mw_imports()))
}

/// One rendered file per middleware, in order, or the first error.
pub open spec fn mw_files(gv: GenView, ms: Seq<Seq<char>>) -> Result<Seq<ArtView>, GenErr>
    decreases ms.len(),
{
    if ms.len() == 0 {
        Ok(Seq::empty())
    } else {
        match mw_files(gv, ms.drop_last()) {
            Err(e) => Err(e),
            Ok(done) => match render_as(gv.tpl.middleware, mw_ctx(gv.base, ms.last()), "middleware.tpl"@) {
                Err(e) => Err(e),
                Ok(c) => Ok(done.push(("middleware/"@ + ms.last() + ".rs"@, c))),
            },
        }
    }
}

pub open spec fn middleware_root_text(ms: Seq<Seq<char>>) -> Seq<char> {
    "/// generated by rsctl\npub mod prelude;\n"@ + concat_all(ms.map_values(|m: Seq<char>| pub_mod_line(m)))
}

pub open spec fn middleware_spec(gv: GenView) -> Result<Seq<ArtView>, GenErr> {
    let ms = mw_names(gv.groups);
    match mw_files(gv, ms) {
        Err(e) => Err(e),
        Ok(fs) => Ok(
            seq![("middleware.rs"@, middleware_root_text(ms)), ("middleware/prelude.rs"@, "// generated by rsctl\n"@)]
                + fs,
        ),
    }
}

fn push_file(files: &mut Vec<Artifact>, path: String, content: String)
    ensures
        files_view(final(files)@) == files_view(old(files)@).push((path@, content@)),
        files_view(final(files)@) == files_view(old(files)@) + seq![(path@, content@)],
{
    let ghost before = files_view(files@);
    files.push(Artifact { rel_path: path, content });
    assert(files_view(files@) =~= before.push((path@, content@)));
    assert(files_view(files@) =~= before + seq![(path@, content@)]);
}

/// A copy of a list of strings.
fn copy_strings(v: &Vec<String>) -> (r: Vec<String>)
    ensures
        views(r@) == views(v@),
{
    let mut r: Vec<String> = Vec::new();
    let mut i: usize = 0;
    while i < v.len()
        invariant
            i <= v@.len(),
            views(r@) == views(v@).subrange(0, i as int),
        decreases v@.len() - i,
    {
        let s = v[i].clone();
        let ghost before = views(r@);
        let ghost sv = s@;
        assert(sv == v@[i as int]@);
        r.push(s);
        assert(views(r@) =~= before.push(sv));
        assert(views(v@).subrange(0, i + 1) =~= views(v@).subrange(0, i as int).push(sv));
        i = i + 1;
    }
    assert(views(v@).subrange(0, i as int) =~= views(v@));
    r
}

/// `pub mod <h>;` lines for each name.
fn pub_mod_lines(out: &mut String, hs: &Vec<String>)
    ensures
        final(out)@ == old(out)@ + concat_all(views(hs@).map_values(|h: Seq<char>| pub_mod_line(h))),
{
    let ghost f = |h: Seq<char>| pub_mod_line(h);
    let mut i: usize = 0;
    assert(views(hs@).subrange(0, 0).map_values(f) =~= Seq::<Seq<char>>::empty());
    assert(out@ =~= old(out)@ + concat_all(views(hs@).subrange(0, 0).map_values(f)));
    while i < hs.len()
        invariant
            i <= hs@.len(),
            f == |h: Seq<char>| pub_mod_line(h),
            out@ == old(out)@ + concat_all(views(hs@).subrange(0, i as int).map_values(f)),
        decreases hs@.len() - i,
    {
        push_str(out, "pub mod ");
        push_str(out, hs[i].as_str());
        push_str(out, ";\n");
        assert(views(hs@).subrange(0, i + 1).map_values(f).drop_last() =~= views(hs@).subrange(0, i as int).map_values(f));
        i = i + 1;
    }
    assert(views(hs@).subrange(0, hs@.len() as int) =~= views(hs@));
}

/// The module declarations of the named groups under `parent`.
fn keys_mod_decl_lines(out: &mut String, parent: &str, keys: &Vec<String>, st: Style)
    ensures
        final(out)@ == old(out)@ + keys_mod_decls(parent@, views(keys@), st),
{
    let ghost f = |g: Seq<char>| key_mod_decl(parent@, g, st);
    let mut i: usize = 0;
    assert(views(keys@).subrange(0, 0).map_values(f) =~= Seq::<Seq<char>>::empty());
    assert(out@ =~= old(out)@ + concat_all(views(keys@).subrange(0, 0).map_values(f)));
    while i < keys.len()
        invariant
            i <= keys@.len(),
            f == |g: Seq<char>| key_mod_decl(parent@, g, st),
            out@ == old(out)@ + concat_all(views(keys@).subrange(0, i as int).map_values(f)),
        decreases keys@.len() - i,
    {
        let g = &keys[i];
        let ghost before = out@;
        if !g.as_str().is_empty() {
            let fb = group_file_base(g.as_str(), st);
            let d = mod_decl_with_path(parent, g.as_str(), fb.as_str());
            push_str(out, d.as_str());
        } else {
            assert(out@ =~= before + Seq::<char>::empty());
        }
        assert(views(keys@).subrange(0, i + 1).map_values(f).drop_last() =~= views(keys@).subrange(0, i as int).map_values(f));
        i = i + 1;
    }
    assert(views(keys@).subrange(0, keys@.len() as int) =~= views(keys@));
}

impl<'a> Generator<'a> {
    fn keys(&self) -> (r: Vec<String>)
        requires
            self.wf(),
        ensures
            views(r@) == group_keys_spec(self.gv().groups),
    {
        let mut r: Vec<String> = Vec::new();
        let mut i: usize = 0;
        while i < self.group_handlers.len()
            invariant
                i <= self.group_handlers@.len(),
                views(r@) == self.group_handlers@.subrange(0, i as int).map_values(|e: (String, Vec<String>)| e.0@),
            decreases self.group_handlers@.len() - i,
        {
            let k = self.group_handlers[i].0.clone();
            let ghost before = views(r@);
            let ghost kv = k@;
            assert(kv == self.group_handlers@[i as int].0@);
            r.push(k);
            assert(views(r@) =~= before.push(kv));
            assert(self.group_handlers@.subrange(0, i + 1).map_values(|e: (String, Vec<String>)| e.0@) =~= self.group_handlers@.subrange(0, i as int).map_values(|e: (String, Vec<String>)| e.0@).push(kv));
            i = i + 1;
        }
        assert(self.group_handlers@.subrange(0, i as int) =~= self.group_handlers@);
        r
    }

    /// The handlers of the default group (none when it has no routes).
    fn default_handlers(&self) -> (r: Vec<String>)
        requires
            self.wf(),
        ensures
            group_keys_spec(self.gv().groups).contains(Seq::empty()) ==> views(r@) == handlers_spec(
                self.gv().groups,
                Seq::empty(),
            ),
    {
        let mut i: usize = 0;
        while i < self.group_handlers.len()
            invariant
                i <= self.group_handlers@.len(),
                self.wf(),
                forall|k: int| 0 <= k < i ==> (#[trigger] self.group_handlers@[k]).0@ != Seq::<char>::empty(),
            decreases self.group_handlers@.len() - i,
        {
            if self.group_handlers[i].0.as_str().is_empty() {
                let hs = copy_strings(&self.group_handlers[i].1);
                proof {
                    let ks = self.group_handlers@.map_values(|e: (String, Vec<String>)| e.0@);
                    assert(ks[i as int] == Seq::<char>::empty());
                }
                return hs;
            }
            i = i + 1;
        }
        proof {
            let ks = self.group_handlers@.map_values(|e: (String, Vec<String>)| e.0@);
            assert forall|k: int| 0 <= k < ks.len() implies ks[k] != Seq::<char>::empty() by {
                assert(ks[k] == self.group_handlers@[k].0@);
            }
        }
        Vec::new()
    }

    fn cargo_toml(&self, files: &mut Vec<Artifact>) -> (r: Result<(), GenerateError>)
        ensures
            step_done(old(files)@, final(files)@, cargo_toml_spec(self.gv()), r),
            r is Err ==> final(files)@ == old(files)@,
    {
        let ctx = self.base_ctx.clone().set_str("webDep", "").set_str("restFeatures", self.rest_features.as_str()).set_str(
            "validatorDep",
            self.validator_dep.as_str(),
        ).set_str("authDep", self.auth_dep.as_str());
        proof {
            assert(""@ =~= Seq::<char>::empty()) by {
                reveal_strlit("");
            }
        }
        let c = render_named(self.templates.cargo_toml.as_str(), &ctx, "Cargo.toml.tpl")?;
        push_file(files, owned("Cargo.toml"), c);
        Ok(())
    }

    fn etc(&self, files: &mut Vec<Artifact>) -> (r: Result<(), GenerateError>)
        ensures
            step_done(old(files)@, final(files)@, etc_spec(self.gv()), r),
            r is Err ==> final(files)@ == old(files)@,
    {
        let c = render_named(self.templates.etc.as_str(), &self.base_ctx, "etc.tpl")?;
        let mut path = owned("etc/");
        push_str(&mut path, self.service_name.as_str());
        push_str(&mut path, ".yaml");
        push_file(files, path, c);
        Ok(())
    }

    fn entry(&self, files: &mut Vec<Artifact>) -> (r: Result<(), GenerateError>)
        ensures
            step_done(old(files)@, final(files)@, entry_spec(self.gv()), r),
            r is Err ==> final(files)@ == old(files)@,
    {
        let c = render_named(self.templates.main.as_str(), &self.base_ctx, "main.tpl")?;
        let mut path = self.service_name.clone();
        push_str(&mut path, ".rs");
        push_file(files, path, c);
        Ok(())
    }

    fn config(&self, files: &mut Vec<Artifact>) -> (r: Result<(), GenerateError>)
        ensures
            step_done(old(files)@, final(files)@, config_spec(self.gv()), r),
            r is Err ==> final(files)@ == old(files)@,
    {
        proof {
            assert(""@ =~= Seq::<char>::empty()) by {
                reveal_strlit("");
            }
        }
        let ctx = self.base_ctx.clone().set_str("auth", "");
        let c = render_named(self.templates.config.as_str(), &ctx, "config.tpl")?;
        push_file(files, owned("config.rs"), c);
        Ok(())
    }

    fn service_context(&self, files: &mut Vec<Artifact>) -> (r: Result<(), GenerateError>)
        ensures
            step_done(old(files)@, final(files)@, service_context_spec(self.gv()), r),
            r is Err ==> final(files)@ == old(files)@,
    {
        let mws = middleware_names(&self.spec.service.groups);
        let imports = if mws.len() == 0 {
            String::new()
        } else {
            owned("use halo::rest::Middleware;")
        };
        let ctx = self.base_ctx.clone().set_str("imports", imports.as_str());
        let c = render_named(self.templates.context.as_str(), &ctx, "context.tpl")?;
        push_file(files, owned("svc.rs"), c);
        Ok(())
    }

    fn handler_root(&self, files: &mut Vec<Artifact>)
        requires
            self.wf(),
        ensures
            files_view(final(files)@) == files_view(old(files)@).push(
                ("handler.rs"@, handler_root_text(group_keys_spec(self.gv().groups), self.style)),
            ),
    {
        let keys = self.keys();
        let mut text = owned("/// generated by rsctl\n");
        push_str(&mut text, "\n");
        push_str(&mut text, "pub mod routes;\n");
        if contains_empty(&keys) {
            push_str(&mut text, "pub mod handler;\n");
        }
        keys_mod_decl_lines(&mut text, "handler", &keys, self.style);
        proof {
            reveal_strlit("handler");
        }
        assert(text@ =~= handler_root_text(views(keys@), self.style));
        push_file(files, owned("handler.rs"), text);
    }

    fn logic_root(&self, files: &mut Vec<Artifact>)
        requires
            self.wf(),
        ensures
            files_view(final(files)@) == files_view(old(files)@).push(
                (
                    "logic.rs"@,
                    logic_root_text(
                        group_keys_spec(self.gv().groups),
                        handlers_spec(self.gv().groups, Seq::empty()),
                        self.merge,
                        self.style,
                    ),
                ),
            ),
    {
        let keys = self.keys();
        let mut text = owned("/// generated by rsctl\n");
        let ghost head = text@;
        if contains_empty(&keys) {
            if self.merge {
                push_str(&mut text, "pub mod logic;\npub use logic::*;\n");
            } else {
                let hs = self.default_handlers();
                pub_mod_lines(&mut text, &hs);
                push_str(&mut text, "\n");
                pub_use_logic_lines(&mut text, &hs);
            }
        }
        let ghost mid = text@;
        keys_mod_decl_lines(&mut text, "logic", &keys, self.style);
        proof {
            reveal_strlit("logic");
        }
        assert(text@ =~= logic_root_text(
            views(keys@),
            handlers_spec(self.gv().groups, Seq::empty()),
            self.merge,
            self.style,
        ));
        push_file(files, owned("logic.rs"), text);
    }

    fn types_root(&self, files: &mut Vec<Artifact>)
        requires
            self.wf(),
        ensures
            files_view(final(files)@) == files_view(old(files)@).push(
                ("types.rs"@, types_root_text(group_keys_spec(self.gv().groups), self.style)),
            ),
    {
        let keys = self.keys();
        let mut text = owned("/// generated by rsctl\n");
        if contains_empty(&keys) {
            push_str(&mut text, "pub mod types;\npub use types::*;\n");
        }
        keys_mod_decl_lines(&mut text, "types", &keys, self.style);
        proof {
            reveal_strlit("types");
        }
        assert(text@ =~= types_root_text(views(keys@), self.style));
        push_file(files, owned("types.rs"), text);
    }

    fn middleware_files(&self, mws: &Vec<String>) -> (r: Result<Vec<Artifact>, GenerateError>)
        ensures
            match r {
                Ok(fs) => mw_files(self.gv(), views(mws@)) == Ok::<Seq<ArtView>, GenErr>(files_view(fs@)),
                Err(e) => mw_files(self.gv(), views(mws@)) == Err::<Seq<ArtView>, GenErr>(e@),
            },
    {
        let ghost ms = views(mws@);
        let mut out: Vec<Artifact> = Vec::new();
        let mut i: usize = 0;
        assert(ms.subrange(0, 0) =~= Seq::<Seq<char>>::empty());
        assert(files_view(out@) =~= Seq::<ArtView>::empty());
        while i < mws.len()
            invariant
                i <= mws@.len(),
                ms == views(mws@),
                mw_files(self.gv(), ms.subrange(0, i as int)) == Ok::<Seq<ArtView>, GenErr>(files_view(out@)),
            decreases mws@.len() - i,
        {
            let m = &mws[i];
            let name_pascal = pascal(m.as_str());
            let ctx = self.base_ctx.clone().set_str("name", m.as_str()).set_str("Name", name_pascal.as_str()).set_str(
                "imports",
                "use halo::rest::{self, HandlerFunc, Middleware};\nuse hyper::Body;\nuse http::Request;",
            );
            assert(ms.subrange(0, i + 1).drop_last() =~= ms.subrange(0, i as int));
            assert(ms.subrange(0, i + 1).last() == m@);
            assert(ctx@ == mw_ctx(self.gv().base, m@));
            let c = match render_named(self.templates.middleware.as_str(), &ctx, "middleware.tpl") {
                Ok(c) => c,
                Err(e) => {
                    proof {
                        lemma_mw_files_err(self.gv(), ms, i + 1);
                    }
                    return Err(e);
                },
            };
            let mut path = owned("middleware/");
            push_str(&mut path, m.as_str());
            push_str(&mut path, ".rs");
            push_file(&mut out, path, c);
            i = i + 1;
        }
        assert(ms.subrange(0, mws@.len() as int) =~= ms);
        Ok(out)
    }

    fn middleware(&self, files: &mut Vec<Artifact>) -> (r: Result<(), GenerateError>)
        ensures
            step_done(old(files)@, final(files)@, middleware_spec(self.gv()), r),
            r is Err ==> final(files)@ == old(files)@,
    {
        let mws = middleware_names(&self.spec.service.groups);
        let rendered_files = self.middleware_files(&mws)?;
        let mut root = owned("/// generated by rsctl\npub mod prelude;\n");
        pub_mod_lines(&mut root, &mws);
        let mut head: Vec<Artifact> = Vec::new();
        push_file(&mut head, owned("middleware.rs"), root);
        push_file(&mut head, owned("middleware/prelude.rs"), owned("// generated by rsctl\n"));
        append_files(files, &head);
        append_files(files, &rendered_files);
        assert(files_view(head@) =~= seq![("middleware.rs"@, middleware_root_text(views(mws@))), ("middleware/prelude.rs"@, "// generated by rsctl\n"@)]);
        assert(files_view(files@) =~= files_view(old(files)@) + (files_view(head@) + files_view(rendered_files@)));
        Ok(())
    }
}

/// Appends copies of `more` to `files`.
fn append_files(files: &mut Vec<Artifact>, more: &Vec<Artifact>)
    ensures
        files_view(final(files)@) == files_view(old(files)@) + files_view(more@),
{
    let mut k: usize = 0;
    assert(files_view(more@).subrange(0, 0) =~= Seq::<ArtView>::empty());
    assert(files_view(files@) =~= files_view(old(files)@) + files_view(more@).subrange(0, 0));
    while k < more.len()
        invariant
            k <= more@.len(),
            files_view(files@) == files_view(old(files)@) + files_view(more@).subrange(0, k as int),
        decreases more@.len() - k,
    {
        push_file(files, more[k].rel_path.clone(), more[k].content.clone());
        assert(files_view(more@).subrange(0, k + 1) =~= files_view(more@).subrange(0, k as int).push(more@[k as int]@));
        k = k + 1;
    }
    assert(files_view(more@).subrange(0, k as int) =~= files_view(more@));
}

/// An error in a prefix of the middlewares is the error of all of them.
proof fn lemma_mw_files_err(gv: GenView, ms: Seq<Seq<char>>, i: int)
    requires
        0 <= i <= ms.len(),
        mw_files(gv, ms.subrange(0, i)) is Err,
    ensures
        mw_files(gv, ms) == mw_files(gv, ms.subrange(0, i)),
    decreases ms.len() - i,
{
    if i < ms.len() {
        assert(ms.subrange(0, i + 1).drop_last() =~= ms.subrange(0, i));
        lemma_mw_files_err(gv, ms, i + 1);
    } else {
        assert(ms.subrange(0, i) =~= ms);
    }
}

fn contains_empty(keys: &Vec<String>) -> (r: bool)
    ensures
        r == views(keys@).contains(Seq::empty()),
{
    let mut i: usize = 0;
    while i < keys.len()
        invariant
            i <= keys@.len(),
            forall|k: int| 0 <= k < i ==> keys@[k]@ != Seq::<char>::empty(),
        decreases keys@.len() - i,
    {
        if keys[i].as_str().is_empty() {
            assert(views(keys@)[i as int] == Seq::<char>::empty());
            return true;
        }
        i = i + 1;
    }
    proof {
        if views(keys@).contains(Seq::empty()) {
            let k = choose|k: int| 0 <= k < views(keys@).len() && views(keys@)[k] == Seq::<char>::empty();
            assert(keys@[k]@ == Seq::<char>::empty());
        }
    }
    false
}

/// `pub use <h>::<Pascal>;` lines for each name.
fn pub_use_logic_lines(out: &mut String, hs: &Vec<String>)
    ensures
        final(out)@ == old(out)@ + concat_all(views(hs@).map_values(|h: Seq<char>| pub_use_logic_line(h))),
{
    let ghost f = |h: Seq<char>| pub_use_logic_line(h);
    let mut i: usize = 0;
    assert(views(hs@).subrange(0, 0).map_values(f) =~= Seq::<Seq<char>>::empty());
    assert(out@ =~= old(out)@ + concat_all(views(hs@).subrange(0, 0).map_values(f)));
    while i < hs.len()
        invariant
            i <= hs@.len(),
            f == |h: Seq<char>| pub_use_logic_line(h),
            out@ == old(out)@ + concat_all(views(hs@).subrange(0, i as int).map_values(f)),
        decreases hs@.len() - i,
    {
        let p = pascal(hs[i].as_str());
        push_str(out, "pub use ");
        push_str(out, hs[i].as_str());
        push_str(out, "::");
        push_str(out, p.as_str());
        push_str(out, ";\n");
        assert(views(hs@).subrange(0, i + 1).map_values(f).drop_last() =~= views(hs@).subrange(0, i as int).map_values(f));
        i = i + 1;
    }
    assert(views(hs@).subrange(0, hs@.len() as int) =~= views(hs@));
}

// ---------------------------------------------------------------------
// Routes: which group registers each route, and the registration code
// ---------------------------------------------------------------------
pub open spec fn method_text(m: HttpMethod) -> Seq<char> {
    match m {
        HttpMethod::Get => "GET"@,
        HttpMethod::Post => "POST"@,
        HttpMethod::Put => "PUT"@,
        HttpMethod::Delete => "DELETE"@,
        HttpMethod::Patch => "PATCH"@,
    }
}

fn method_str(m: HttpMethod) -> (r: &'static str)
    ensures
        r@ == method_text(m),
{
    match m {
        HttpMethod::Get => "GET",
        HttpMethod::Post => "POST",
        HttpMethod::Put => "PUT",
        HttpMethod::Delete => "DELETE",
        HttpMethod::Patch => "PATCH",
    }
}

pub open spec fn prefix_of(g: GroupView) -> Seq<char> {
    match server_prop(g, "prefix"@) {
        Some(p) => p,
        None => Seq::empty(),
    }
}

/// A group's priority: authentication counts most, then a middleware,
/// then a prefix.
pub open spec fn group_score(g: GroupView) -> int {
    (if server_prop(g, "auth"@) is Some {
        100int
    } else {
        0int
    }) + (if server_prop(g, "middleware"@) is Some {
        10int
    } else {
        0int
    }) + (if trim(prefix_of(g)).len() > 0 {
        1int
    } else {
        0int
    })
}

pub open spec fn route_key(g: GroupView, r: RouteView) -> Seq<char> {
    method_text(r.method) + " "@ + crate::rsctl::naming::join_http_paths_spec(prefix_of(g), r.path)
}

pub open spec fn has_handler(r: RouteView) -> bool {
    trim(r.handler).len() > 0
}

/// The winner table after meeting a route of group `idx`.
pub open spec fn winners_step(w: Map<Seq<char>, (int, int)>, key: Seq<char>, score: int, idx: int) -> Result<
    Map<Seq<char>, (int, int)>,
    GenErr,
> {
    if !w.contains_key(key) || score > w[key].0 {
        Ok(w.insert(key, (score, idx)))
    } else if score == w[key].0 && w[key].1 != idx {
        Err(GenErr::DuplicateRoute(key))
    } else {
        Ok(w)
    }
}

pub open spec fn winners_routes(w: Map<Seq<char>, (int, int)>, g: GroupView, idx: int, rs: Seq<RouteView>) -> Result<
    Map<Seq<char>, (int, int)>,
    GenErr,
>
    decreases rs.len(),
{
    if rs.len() == 0 {
        Ok(w)
    } else {
        match winners_routes(w, g, idx, rs.drop_last()) {
            Err(e) => Err(e),
            Ok(w2) => if has_handler(rs.last()) {
                winners_step(w2, route_key(g, rs.last()), group_score(g), idx)
            } else {
                Ok(w2)
            },
        }
    }
}

/// For each route key, the score and index of the group that registers it.
pub open spec fn winners_spec(gs: Seq<GroupView>) -> Result<Map<Seq<char>, (int, int)>, GenErr>
    decreases gs.len(),
{
    if gs.len() == 0 {
        Ok(Map::empty())
    } else {
        match winners_spec(gs.drop_last()) {
            Err(e) => Err(e),
            Ok(w) => winners_routes(w, gs.last(), gs.len() - 1, gs.last().routes),
        }
    }
}

/// Route `k` of group `g` has a handler and the route key `key`.
pub open spec fn keyed(g: GroupView, k: int, key: Seq<char>) -> bool {
    0 <= k < g.routes.len() && has_handler(g.routes[k]) && route_key(g, g.routes[k]) == key
}

/// Route `k` of group `i` has been met: all routes of the groups before
/// `n`, and the first `m` routes of group `n`.
pub open spec fn met(gs: Seq<GroupView>, n: int, m: int, i: int, k: int) -> bool {
    ||| 0 <= i < n && 0 <= k < gs[i].routes.len()
    ||| i == n && 0 <= k < m
}

/// `w` holds, for each route key met, the highest score among the groups
/// that have it and the one group with that score.
pub open spec fn winners_ok(w: Map<Seq<char>, (int, int)>, gs: Seq<GroupView>, n: int, m: int) -> bool {
    &&& forall|key: Seq<char>|
        #[trigger] w.contains_key(key) ==> exists|i: int, k: int|
            met(gs, n, m, i, k) && #[trigger] keyed(gs[i], k, key) && w[key] == (group_score(gs[i]), i)
    &&& forall|i: int, k: int, key: Seq<char>|
        met(gs, n, m, i, k) && #[trigger] keyed(gs[i], k, key) ==> w.contains_key(key) && group_score(gs[i]) <= w[key].0
            && (group_score(gs[i]) == w[key].0 ==> w[key].1 == i)
}

/// Two different groups have a route with the key `key` and the same score.
pub open spec fn tied(gs: Seq<GroupView>, key: Seq<char>) -> bool {
    exists|i: int, j: int, k: int, l: int|
        0 <= i < gs.len() && 0 <= j < gs.len() && i != j && #[trigger] keyed(gs[i], k, key) && #[trigger] keyed(gs[j], l, key)
            && group_score(gs[i]) == group_score(gs[j])
}

proof fn lemma_winners_routes(gs: Seq<GroupView>, n: int, m: int, w0: Map<Seq<char>, (int, int)>)
    requires
        0 <= n < gs.len(),
        0 <= m <= gs[n].routes.len(),
        winners_ok(w0, gs, n, 0),
    ensures
        match winners_routes(w0, gs[n], n, gs[n].routes.subrange(0, m)) {
            Ok(w) => winners_ok(w, gs, n, m),
            Err(e) => e matches GenErr::DuplicateRoute(key) && tied(gs, key),
        },
    decreases m,
{
    let g = gs[n];
    if m == 0 {
        assert(g.routes.subrange(0, 0).len() == 0);
    } else {
        lemma_winners_routes(gs, n, m - 1, w0);
        let rs = g.routes.subrange(0, m);
        assert(rs.drop_last() =~= g.routes.subrange(0, m - 1));
        assert(rs.last() == g.routes[m - 1]);
        match winners_routes(w0, g, n, g.routes.subrange(0, m - 1)) {
            Err(_) => {},
            Ok(w2) => {
                let r = g.routes[m - 1];
                if has_handler(r) {
                    let key = route_key(g, r);
                    let sc = group_score(g);
                    assert(keyed(g, m - 1, key));
                    if !w2.contains_key(key) || sc > w2[key].0 {
                        let w = w2.insert(key, (sc, n));
                        assert forall|kk: Seq<char>| #[trigger] w.contains_key(kk) implies exists|i: int, k: int|
                            met(gs, n, m, i, k) && #[trigger] keyed(gs[i], k, kk) && w[kk] == (group_score(gs[i]), i) by {
                            if kk == key {
                                assert(met(gs, n, m, n, m - 1) && keyed(gs[n], m - 1, kk));
                            } else {
                                assert(w2.contains_key(kk));
                                let (i, k) = choose|i: int, k: int|
                                    met(gs, n, m - 1, i, k) && #[trigger] keyed(gs[i], k, kk) && w2[kk] == (group_score(gs[i]), i);
                                assert(met(gs, n, m, i, k));
                            }
                        }
                        assert forall|i: int, k: int, kk: Seq<char>|
                            met(gs, n, m, i, k) && #[trigger] keyed(gs[i], k, kk) implies w.contains_key(kk) && group_score(gs[i]) <= w[kk].0
                                && (group_score(gs[i]) == w[kk].0 ==> w[kk].1 == i) by {
                            if !(i == n && k == m - 1) {
                                assert(met(gs, n, m - 1, i, k));
                            }
                        }
                    } else if sc == w2[key].0 && w2[key].1 != n {
                        let (i, k) = choose|i: int, k: int|
                            met(gs, n, m - 1, i, k) && #[trigger] keyed(gs[i], k, key) && w2[key] == (group_score(gs[i]), i);
                        assert(keyed(gs[i], k, key) && keyed(gs[n], m - 1, key) && i != n);
                        assert(tied(gs, key));
                    } else {
                        assert forall|kk: Seq<char>| #[trigger] w2.contains_key(kk) implies exists|i: int, k: int|
                            met(gs, n, m, i, k) && #[trigger] keyed(gs[i], k, kk) && w2[kk] == (group_score(gs[i]), i) by {
                            let (i, k) = choose|i: int, k: int|
                                met(gs, n, m - 1, i, k) && #[trigger] keyed(gs[i], k, kk) && w2[kk] == (group_score(gs[i]), i);
                            assert(met(gs, n, m, i, k));
                        }
                        assert forall|i: int, k: int, kk: Seq<char>|
                            met(gs, n, m, i, k) && #[trigger] keyed(gs[i], k, kk) implies w2.contains_key(kk) && group_score(gs[i]) <= w2[kk].0
                                && (group_score(gs[i]) == w2[kk].0 ==> w2[kk].1 == i) by {
                            if !(i == n && k == m - 1) {
                                assert(met(gs, n, m - 1, i, k));
                            }
                        }
                    }
                } else {
                    assert forall|kk: Seq<char>| #[trigger] w2.contains_key(kk) implies exists|i: int, k: int|
                        met(gs, n, m, i, k) && #[trigger] keyed(gs[i], k, kk) && w2[kk] == (group_score(gs[i]), i) by {
                        let (i, k) = choose|i: int, k: int|
                            met(gs, n, m - 1, i, k) && #[trigger] keyed(gs[i], k, kk) && w2[kk] == (group_score(gs[i]), i);
                        assert(met(gs, n, m, i, k));
                    }
                    assert forall|i: int, k: int, kk: Seq<char>|
                        met(gs, n, m, i, k) && #[trigger] keyed(gs[i], k, kk) implies w2.contains_key(kk) && group_score(gs[i]) <= w2[kk].0
                            && (group_score(gs[i]) == w2[kk].0 ==> w2[kk].1 == i) by {
                        if i == n && k == m - 1 {
                            assert(!keyed(gs[n], m - 1, kk));
                        } else {
                            assert(met(gs, n, m - 1, i, k));
                        }
                    }
                }
            },
        }
    }
}

proof fn lemma_winners_prefix(gs: Seq<GroupView>, n: int)
    requires
        0 <= n <= gs.len(),
    ensures
        match winners_spec(gs.subrange(0, n)) {
            Ok(w) => winners_ok(w, gs, n, 0),
            Err(e) => e matches GenErr::DuplicateRoute(key) && tied(gs, key),
        },
    decreases n,
{
    if n == 0 {
        let w = Map::<Seq<char>, (int, int)>::empty();
        assert(gs.subrange(0, 0).len() == 0);
        assert forall|i: int, k: int, kk: Seq<char>| met(gs, 0, 0, i, k) && #[trigger] keyed(gs[i], k, kk) implies w.contains_key(kk) by {}
    } else {
        lemma_winners_prefix(gs, n - 1);
        let p = gs.subrange(0, n);
        assert(p.drop_last() =~= gs.subrange(0, n - 1));
        assert(p.last() == gs[n - 1]);
        assert(p.len() - 1 == n - 1);
        match winners_spec(gs.subrange(0, n - 1)) {
            Err(_) => {},
            Ok(w0) => {
                let len = gs[n - 1].routes.len() as int;
                lemma_winners_routes(gs, n - 1, len, w0);
                assert(gs[n - 1].routes.subrange(0, len) =~= gs[n - 1].routes);
                match winners_routes(w0, gs[n - 1], n - 1, gs[n - 1].routes) {
                    Err(_) => {},
                    Ok(w) => {
                        assert forall|kk: Seq<char>| #[trigger] w.contains_key(kk) implies exists|i: int, k: int|
                            met(gs, n, 0, i, k) && #[trigger] keyed(gs[i], k, kk) && w[kk] == (group_score(gs[i]), i) by {
                            let (i, k) = choose|i: int, k: int|
                                met(gs, n - 1, len, i, k) && #[trigger] keyed(gs[i], k, kk) && w[kk] == (group_score(gs[i]), i);
                            assert(met(gs, n, 0, i, k));
                        }
                        assert forall|i: int, k: int, kk: Seq<char>|
                            met(gs, n, 0, i, k) && #[trigger] keyed(gs[i], k, kk) implies w.contains_key(kk) && group_score(gs[i]) <= w[kk].0
                                && (group_score(gs[i]) == w[kk].0 ==> w[kk].1 == i) by {
                            assert(met(gs, n - 1, len, i, k));
                        }
                    },
                }
            },
        }
    }
}

/// The route keys of the generated routes file: each key with a handler in
/// some group is registered by the one group of highest score that has it;
/// a key whose highest score two groups share makes the step fail with the
/// duplicate-route error, and that error only comes from such a tie.
pub proof fn law_route_winners(gs: Seq<GroupView>)
    ensures
        winners_spec(gs) matches Ok(w) ==> {
            &&& forall|i: int, k: int, key: Seq<char>|
                0 <= i < gs.len() && #[trigger] keyed(gs[i], k, key) ==> w.contains_key(key) && group_score(gs[i]) <= w[key].0
                    && (group_score(gs[i]) == w[key].0 ==> w[key].1 == i)
            &&& forall|key: Seq<char>|
                #[trigger] w.contains_key(key) ==> exists|i: int, k: int|
                    0 <= i < gs.len() && #[trigger] keyed(gs[i], k, key) && w[key] == (group_score(gs[i]), i)
        },
        winners_spec(gs) matches Err(e) ==> e matches GenErr::DuplicateRoute(key) && tied(gs, key),
{
    lemma_winners_prefix(gs, gs.len() as int);
    assert(gs.subrange(0, gs.len() as int) =~= gs);
    match winners_spec(gs) {
        Ok(w) => {
            assert forall|i: int, k: int, key: Seq<char>|
                0 <= i < gs.len() && #[trigger] keyed(gs[i], k, key) implies w.contains_key(key) && group_score(gs[i]) <= w[key].0
                    && (group_score(gs[i]) == w[key].0 ==> w[key].1 == i) by {
                assert(met(gs, gs.len() as int, 0, i, k));
            }
            assert forall|key: Seq<char>| #[trigger] w.contains_key(key) implies exists|i: int, k: int|
                0 <= i < gs.len() && #[trigger] keyed(gs[i], k, key) && w[key] == (group_score(gs[i]), i) by {
                let (i, k) = choose|i: int, k: int|
                    met(gs, gs.len() as int, 0, i, k) && #[trigger] keyed(gs[i], k, key) && w[key] == (group_score(gs[i]), i);
                assert(0 <= i < gs.len());
            }
        },
        Err(_) => {},
    }
}

/// Two different groups that have a route with the same key and share the
/// highest score among the groups with that key make the routes step fail
/// with a duplicate-route error naming a key on which two groups tie, whose
/// message is `duplicate_route_text` (and the step then adds no file).
pub proof fn law_route_tie_fails(gv: GenView, i: int, j: int, k: int, l: int, key: Seq<char>)
    requires
        0 <= i < gv.groups.len(),
        0 <= j < gv.groups.len(),
        i != j,
        keyed(gv.groups[i], k, key),
        keyed(gv.groups[j], l, key),
        group_score(gv.groups[i]) == group_score(gv.groups[j]),
        forall|m: int, n: int|
            0 <= m < gv.groups.len() && #[trigger] keyed(gv.groups[m], n, key) ==> group_score(gv.groups[m]) <= group_score(
                gv.groups[i],
            ),
    ensures
        winners_spec(gv.groups) is Err,
        routes_spec(gv) matches Err(e) && e is DuplicateRoute,
        routes_spec(gv) matches Err(GenErr::DuplicateRoute(k)) && tied(gv.groups, k),
{
    let gs = gv.groups;
    law_route_winners(gs);
    match winners_spec(gs) {
        Ok(w) => {
            assert(w.contains_key(key));
            let (m, n) = choose|m: int, n: int|
                0 <= m < gs.len() && #[trigger] keyed(gs[m], n, key) && w[key] == (group_score(gs[m]), m);
            assert(group_score(gs[m]) <= group_score(gs[i]));
            assert(w[key].1 == i);
            assert(w[key].1 == j);
        },
        Err(_) => {},
    }
}

pub open spec fn winners_view(v: Seq<(String, u32, usize)>) -> Map<Seq<char>, (int, int)>
    decreases v.len(),
{
    if v.len() == 0 {
        Map::empty()
    } else {
        winners_view(v.drop_last()).insert(v.last().0@, (v.last().1 as int, v.last().2 as int))
    }
}

proof fn lemma_winners_no_match(s: Seq<(String, u32, usize)>, k: Seq<char>)
    requires
        forall|j: int| 0 <= j < s.len() ==> s[j].0@ != k,
    ensures
        !winners_view(s).contains_key(k),
    decreases s.len(),
{
    if s.len() > 0 {
        lemma_winners_no_match(s.drop_last(), k);
    }
}

proof fn lemma_winners_last_match(s: Seq<(String, u32, usize)>, i: int, k: Seq<char>)
    requires
        0 <= i < s.len(),
        s[i].0@ == k,
        forall|j: int| i < j < s.len() ==> s[j].0@ != k,
    ensures
        winners_view(s).contains_key(k),
        winners_view(s)[k] == (s[i].1 as int, s[i].2 as int),
    decreases s.len(),
{
    if i < s.len() - 1 {
        lemma_winners_last_match(s.drop_last(), i, k);
    }
}

fn winners_get(v: &Vec<(String, u32, usize)>, key: &str) -> (r: Option<(u32, usize)>)
    ensures
        match r {
            Some((sc, ix)) => winners_view(v@).contains_key(key@) && winners_view(v@)[key@] == (sc as int, ix as int),
            None => !winners_view(v@).contains_key(key@),
        },
{
    let mut i = v.len();
    while i > 0
        invariant
            i <= v@.len(),
            forall|j: int| i <= j < v@.len() ==> v@[j].0@ != key@,
        decreases i,
    {
        if str_eq(v[i - 1].0.as_str(), key) {
            proof {
                lemma_winners_last_match(v@, (i - 1) as int, key@);
            }
            return Some((v[i - 1].1, v[i - 1].2));
        }
        i = i - 1;
    }
    proof {
        lemma_winners_no_match(v@, key@);
    }
    None
}

fn winners_put(v: &mut Vec<(String, u32, usize)>, key: String, score: u32, idx: usize)
    ensures
        winners_view(final(v)@) == winners_view(old(v)@).insert(key@, (score as int, idx as int)),
{
    let ghost before = v@;
    v.push((key, score, idx));
    assert(v@.drop_last() =~= before);
}

fn score_of(g: &Group) -> (r: u32)
    ensures
        r as int == group_score(g@),
{
    let mut s: u32 = 0;
    if group_auth(g).is_some() {
        s = s + 100;
    }
    if group_middleware(g).is_some() {
        s = s + 10;
    }
    let p = match group_prefix(g) {
        Some(p) => p,
        None => String::new(),
    };
    let t = trim_str(p.as_str());
    if !t.as_str().is_empty() {
        s = s + 1;
    }
    s
}

fn prefix_string(g: &Group) -> (r: String)
    ensures
        r@ == prefix_of(g@),
{
    match group_prefix(g) {
        Some(p) => p,
        None => String::new(),
    }
}

fn route_key_exec(prefix: &str, r: &Route) -> (k: String)
    ensures
        k@ == method_text(r.method) + " "@ + crate::rsctl::naming::join_http_paths_spec(prefix@, r.path@),
{
    let mut k = owned(method_str(r.method));
    push_str(&mut k, " ");
    let full = crate::rsctl::naming::join_http_paths(prefix, r.path.as_str());
    push_str(&mut k, full.as_str());
    k
}

/// An error at some route is the error of the whole table.
proof fn lemma_winners_routes_err(w: Map<Seq<char>, (int, int)>, g: GroupView, idx: int, rs: Seq<RouteView>, i: int)
    requires
        0 <= i <= rs.len(),
        winners_routes(w, g, idx, rs.subrange(0, i)) is Err,
    ensures
        winners_routes(w, g, idx, rs) == winners_routes(w, g, idx, rs.subrange(0, i)),
    decreases rs.len() - i,
{
    if i < rs.len() {
        assert(rs.subrange(0, i + 1).drop_last() =~= rs.subrange(0, i));
        lemma_winners_routes_err(w, g, idx, rs, i + 1);
    } else {
        assert(rs.subrange(0, i) =~= rs);
    }
}

proof fn lemma_winners_err(gs: Seq<GroupView>, i: int)
    requires
        0 <= i <= gs.len(),
        winners_spec(gs.subrange(0, i)) is Err,
    ensures
        winners_spec(gs) == winners_spec(gs.subrange(0, i)),
    decreases gs.len() - i,
{
    if i < gs.len() {
        assert(gs.subrange(0, i + 1).drop_last() =~= gs.subrange(0, i));
        lemma_winners_err(gs, i + 1);
    } else {
        assert(gs.subrange(0, i) =~= gs);
    }
}

fn group_winners(w: &mut Vec<(String, u32, usize)>, g: &Group, idx: usize) -> (r: Result<(), GenerateError>)
    ensures
        match r {
            Ok(_) => winners_routes(winners_view(old(w)@), g@, idx as int, g@.routes) == Ok::<
                Map<Seq<char>, (int, int)>,
                GenErr,
            >(winners_view(final(w)@)),
            Err(e) => winners_routes(winners_view(old(w)@), g@, idx as int, g@.routes) == Err::<
                Map<Seq<char>, (int, int)>,
                GenErr,
            >(e@),
        },
{
    let ghost w0 = winners_view(w@);
    let ghost rs = g@.routes;
    let prefix = prefix_string(g);
    let score = score_of(g);
    let mut j: usize = 0;
    assert(rs.subrange(0, 0) =~= Seq::<RouteView>::empty());
    while j < g.routes.len()
        invariant
            j <= g.routes@.len(),
            rs == g@.routes,
            prefix@ == prefix_of(g@),
            score as int == group_score(g@),
            w0 == winners_view(old(w)@),
            winners_routes(w0, g@, idx as int, rs.subrange(0, j as int)) == Ok::<Map<Seq<char>, (int, int)>, GenErr>(
                winners_view(w@),
            ),
        decreases g.routes@.len() - j,
    {
        let r = &g.routes[j];
        assert(rs.subrange(0, j + 1).drop_last() =~= rs.subrange(0, j as int));
        assert(rs.subrange(0, j + 1).last() == r@);
        let t = trim_str(r.handler.as_str());
        if !t.as_str().is_empty() {
            let key = route_key_exec(prefix.as_str(), r);
            match winners_get(w, key.as_str()) {
                None => {
                    winners_put(w, key, score, idx);
                },
                Some((prev_score, prev_idx)) => {
                    if score > prev_score {
                        winners_put(w, key, score, idx);
                    } else if score == prev_score && prev_idx != idx {
                        proof {
                            lemma_winners_routes_err(w0, g@, idx as int, rs, j + 1);
                        }
                        return Err(GenerateError::DuplicateRoute(key));
                    }
                },
            }
        }
        j = j + 1;
    }
    assert(rs.subrange(0, g.routes@.len() as int) =~= rs);
    Ok(())
}

fn winners_table(groups: &Vec<Group>) -> (r: Result<Vec<(String, u32, usize)>, GenerateError>)
    ensures
        match r {
            Ok(w) => winners_spec(groups_of(groups@)) == Ok::<Map<Seq<char>, (int, int)>, GenErr>(winners_view(w@)),
            Err(e) => winners_spec(groups_of(groups@)) == Err::<Map<Seq<char>, (int, int)>, GenErr>(e@),
        },
{
    let ghost gs = groups_of(groups@);
    let mut w: Vec<(String, u32, usize)> = Vec::new();
    let mut i: usize = 0;
    assert(gs.subrange(0, 0) =~= Seq::<GroupView>::empty());
    assert(winners_view(w@) =~= Map::<Seq<char>, (int, int)>::empty());
    while i < groups.len()
        invariant
            i <= groups@.len(),
            gs == groups_of(groups@),
            winners_spec(gs.subrange(0, i as int)) == Ok::<Map<Seq<char>, (int, int)>, GenErr>(winners_view(w@)),
        decreases groups@.len() - i,
    {
        assert(gs.subrange(0, i + 1).drop_last() =~= gs.subrange(0, i as int));
        assert(gs.subrange(0, i + 1).last() == groups@[i as int]@);
        match group_winners(&mut w, &groups[i], i) {
            Ok(_) => {},
            Err(e) => {
                proof {
                    lemma_winners_err(gs, i + 1);
                }
                return Err(e);
            },
        }
        i = i + 1;
    }
    assert(gs.subrange(0, groups@.len() as int) =~= gs);
    Ok(w)
}

pub open spec fn group_mod(g: GroupView) -> Seq<char> {
    if group_key_spec(g).len() == 0 {
        "handler"@
    } else {
        group_key_spec(g)
    }
}

/// Whether group `idx` registers route `r`.
pub open spec fn registers(w: Map<Seq<char>, (int, int)>, g: GroupView, idx: int, r: RouteView) -> bool {
    has_handler(r) && w.contains_key(route_key(g, r)) && w[route_key(g, r)].1 == idx
}

pub open spec fn route_line(g: GroupView, r: RouteView) -> Seq<char> {
    "        Route::new(Method::"@ + method_text(r.method) + ", \""@ + r.path + "\", crate::handler::"@ + group_mod(
        g,
    ) + "::"@ + snake_spec(r.handler) + "(ctx.clone())),\n"@
}

/// The registration lines of the routes that group `idx` registers.
pub open spec fn route_lines(w: Map<Seq<char>, (int, int)>, g: GroupView, idx: int, rs: Seq<RouteView>) -> Seq<char>
    decreases rs.len(),
{
    if rs.len() == 0 {
        Seq::empty()
    } else {
        route_lines(w, g, idx, rs.drop_last()) + if registers(w, g, idx, rs.last()) {
            route_line(g, rs.last())
        } else {
            Seq::empty()
        }
    }
}

/// A group's registration lines are the lines of the routes it registers,
/// in the routes' order.
pub proof fn law_route_lines_registered(w: Map<Seq<char>, (int, int)>, g: GroupView, idx: int, rs: Seq<RouteView>)
    ensures
        route_lines(w, g, idx, rs) == concat_all(
            rs.filter(|r: RouteView| registers(w, g, idx, r)).map_values(|r: RouteView| route_line(g, r)),
        ),
    decreases rs.len(),
{
    if rs.len() > 0 {
        law_route_lines_registered(w, g, idx, rs.drop_last());
        let f = |r: RouteView| registers(w, g, idx, r);
        let l = |r: RouteView| route_line(g, r);
        let sub = rs.drop_last().filter(f);
        reveal(Seq::filter);
        assert(rs.filter(f) == if f(rs.last()) { sub.push(rs.last()) } else { sub });
        assert(route_lines(w, g, idx, rs.drop_last()) == concat_all(sub.map_values(l)));
        if registers(w, g, idx, rs.last()) {
            let m = sub.push(rs.last()).map_values(l);
            assert(m.drop_last() =~= sub.map_values(l));
            assert(m.last() == route_line(g, rs.last()));
            assert(concat_all(m) == concat_all(m.drop_last()) + m.last());
        }
    }
}

/// The block that registers a group's routes, if it registers any.
pub open spec fn group_block(w: Map<Seq<char>, (int, int)>, g: GroupView, idx: int) -> Seq<char> {
    let lines = route_lines(w, g, idx, g.routes);
    let gk = group_key_spec(g);
    if lines.len() == 0 {
        Seq::empty()
    } else {
        "{\n"@ + (if gk.len() > 0 {
            "    server.set_debug_group(\""@ + gk + "\");\n"@
        } else {
            Seq::empty()
        }) + "    server\n"@ + (if trim(prefix_of(g)).len() > 0 {
            "        .with_prefix(\""@ + prefix_of(g) + "\")\n"@
        } else {
            Seq::empty()
        }) + "        .add_routes(vec![\n"@ + lines + "        ]);\n"@ + (if gk.len() > 0 {
            "    server.clear_debug_group();\n"@
        } else {
            Seq::empty()
        }) + "}\n"@
    }
}

pub open spec fn route_additions(w: Map<Seq<char>, (int, int)>, gs: Seq<GroupView>) -> Seq<char>
    decreases gs.len(),
{
    if gs.len() == 0 {
        Seq::empty()
    } else {
        route_additions(w, gs.drop_last()) + group_block(w, gs.last(), gs.len() - 1)
    }
}

pub open spec fn routes_spec(gv: GenView) -> Result<Seq<ArtView>, GenErr> {
    match winners_spec(gv.groups) {
        Err(e) => Err(e),
        Ok(w) => one_file(
            "handler/routes.rs"@,
            render_as(
                gv.tpl.routes,
                ctx_set(ctx_set(gv.base, "imports"@, sv(Seq::empty())), "routesAdditions"@, sv(route_additions(w, gv.groups))),
                "routes.tpl"@,
            ),
        ),
    }
}

fn group_block_exec(w: &Vec<(String, u32, usize)>, g: &Group, idx: usize) -> (r: String)
    ensures
        r@ == group_block(winners_view(w@), g@, idx as int),
{
    let ghost wv = winners_view(w@);
    let ghost rs = g@.routes;
    let gk = group_key(g);
    let gmod = if gk.as_str().is_empty() {
        owned("handler")
    } else {
        gk.clone()
    };
    let prefix = prefix_string(g);
    let mut lines = String::new();
    let mut j: usize = 0;
    assert(rs.subrange(0, 0) =~= Seq::<RouteView>::empty());
    assert(lines@ =~= route_lines(wv, g@, idx as int, rs.subrange(0, 0)));
    while j < g.routes.len()
        invariant
            j <= g.routes@.len(),
            rs == g@.routes,
            wv == winners_view(w@),
            prefix@ == prefix_of(g@),
            gmod@ == group_mod(g@),
            lines@ == route_lines(wv, g@, idx as int, rs.subrange(0, j as int)),
        decreases g.routes@.len() - j,
    {
        let r = &g.routes[j];
        assert(rs.subrange(0, j + 1).drop_last() =~= rs.subrange(0, j as int));
        assert(rs.subrange(0, j + 1).last() == r@);
        let ghost before = lines@;
        let t = trim_str(r.handler.as_str());
        if !t.as_str().is_empty() {
            let key = route_key_exec(prefix.as_str(), r);
            match winners_get(w, key.as_str()) {
                Some((_, wi)) => {
                    if wi == idx {
                        let h = snake(r.handler.as_str());
                        push_str(&mut lines, "        Route::new(Method::");
                        push_str(&mut lines, method_str(r.method));
                        push_str(&mut lines, ", \"");
                        push_str(&mut lines, r.path.as_str());
                        push_str(&mut lines, "\", crate::handler::");
                        push_str(&mut lines, gmod.as_str());
                        push_str(&mut lines, "::");
                        push_str(&mut lines, h.as_str());
                        push_str(&mut lines, "(ctx.clone())),\n");
                        assert(lines@ =~= before + route_line(g@, r@));
                    } else {
                        assert(lines@ =~= before + Seq::<char>::empty());
                    }
                },
                None => {
                    assert(lines@ =~= before + Seq::<char>::empty());
                },
            }
        } else {
            assert(lines@ =~= before + Seq::<char>::empty());
        }
        j = j + 1;
    }
    assert(rs.subrange(0, g.routes@.len() as int) =~= rs);
    if lines.as_str().is_empty() {
        return String::new();
    }
    let mut block = owned("{\n");
    if !gk.as_str().is_empty() {
        push_str(&mut block, "    server.set_debug_group(\"");
        push_str(&mut block, gk.as_str());
        push_str(&mut block, "\");\n");
    }
    push_str(&mut block, "    server\n");
    let pt = trim_str(prefix.as_str());
    if !pt.as_str().is_empty() {
        push_str(&mut block, "        .with_prefix(\"");
        push_str(&mut block, prefix.as_str());
        push_str(&mut block, "\")\n");
    }
    push_str(&mut block, "        .add_routes(vec![\n");
    push_str(&mut block, lines.as_str());
    push_str(&mut block, "        ]);\n");
    if !gk.as_str().is_empty() {
        push_str(&mut block, "    server.clear_debug_group();\n");
    }
    push_str(&mut block, "}\n");
    assert(block@ =~= group_block(wv, g@, idx as int));
    block
}

impl<'a> Generator<'a> {
    fn routes(&self, files: &mut Vec<Artifact>) -> (r: Result<(), GenerateError>)
        ensures
            step_done(old(files)@, final(files)@, routes_spec(self.gv()), r),
            r is Err ==> final(files)@ == old(files)@,
    {
        let groups = &self.spec.service.groups;
        let ghost gs = groups_of(groups@);
        let w = winners_table(groups)?;
        let ghost wv = winners_view(w@);
        let mut additions = String::new();
        let mut i: usize = 0;
        assert(gs.subrange(0, 0) =~= Seq::<GroupView>::empty());
        while i < groups.len()
            invariant
                i <= groups@.len(),
                gs == groups_of(groups@),
                wv == winners_view(w@),
                additions@ == route_additions(wv, gs.subrange(0, i as int)),
            decreases groups@.len() - i,
        {
            assert(gs.subrange(0, i + 1).drop_last() =~= gs.subrange(0, i as int));
            assert(gs.subrange(0, i + 1).last() == groups@[i as int]@);
            let b = group_block_exec(&w, &groups[i], i);
            push_str(&mut additions, b.as_str());
            i = i + 1;
        }
        assert(gs.subrange(0, groups@.len() as int) =~= gs);
        proof {
            assert(""@ =~= Seq::<char>::empty()) by {
                reveal_strlit("");
            }
        }
        let ctx = self.base_ctx.clone().set_str("imports", "").set_str("routesAdditions", additions.as_str());
        let c = render_named(self.templates.routes.as_str(), &ctx, "routes.tpl")?;
        push_file(files, owned("handler/routes.rs"), c);
        Ok(())
    }
}

// ---------------------------------------------------------------------
// What a handler is generated from
// ---------------------------------------------------------------------
/// The routes of the groups with key `k`, in order.
pub open spec fn key_routes(gs: Seq<GroupView>, k: Seq<char>) -> Seq<RouteView>
    decreases gs.len(),
{
    if gs.len() == 0 {
        Seq::empty()
    } else {
        key_routes(gs.drop_last(), k) + if group_key_spec(gs.last()) == k {
            gs.last().routes
        } else {
            Seq::empty()
        }
    }
}

/// The first route whose handler, in snake case, is `h`.
pub open spec fn find_route(rs: Seq<RouteView>, h: Seq<char>) -> Option<RouteView>
    decreases rs.len(),
{
    if rs.len() == 0 {
        None
    } else if snake_spec(rs[0].handler) == h {
        Some(rs[0])
    } else {
        find_route(rs.drop_first(), h)
    }
}

/// The route a handler of group `k` is generated from.
pub open spec fn handler_route(gs: Seq<GroupView>, k: Seq<char>, h: Seq<char>) -> Option<RouteView> {
    find_route(key_routes(gs, k), h)
}

fn handler_route_exec<'a>(groups: &'a Vec<Group>, k: &str, h: &str) -> (r: Option<&'a Route>)
    ensures
        match r {
            Some(rt) => handler_route(groups_of(groups@), k@, h@) == Some(rt@),
            None => handler_route(groups_of(groups@), k@, h@) is None,
        },
{
    let ghost gs = groups_of(groups@);
    let mut i: usize = 0;
    assert(gs.subrange(0, 0) =~= Seq::<GroupView>::empty());
    while i < groups.len()
        invariant
            i <= groups@.len(),
            gs == groups_of(groups@),
            find_route(key_routes(gs.subrange(0, i as int), k@), h@) is None,
        decreases groups@.len() - i,
    {
        let ghost before = key_routes(gs.subrange(0, i as int), k@);
        assert(gs.subrange(0, i + 1).drop_last() =~= gs.subrange(0, i as int));
        let g = &groups[i];
        let gk = group_key(g);
        if str_eq(gk.as_str(), k) {
            let ghost rs = g@.routes;
            assert(key_routes(gs.subrange(0, i + 1), k@) == before + rs);
            let mut j: usize = 0;
            while j < g.routes.len()
                invariant
                    j <= g.routes@.len(),
                    i < groups@.len(),
                    gs == groups_of(groups@),
                    g == &groups@[i as int],
                    rs == g@.routes,
                    before == key_routes(gs.subrange(0, i as int), k@),
                    key_routes(gs.subrange(0, i + 1), k@) == before + rs,
                    find_route(before, h@) is None,
                    forall|m: int| 0 <= m < j ==> snake_spec(#[trigger] rs[m].handler) != h@,
                decreases g.routes@.len() - j,
            {
                let sn = snake(g.routes[j].handler.as_str());
                if str_eq(sn.as_str(), h) {
                    proof {
                        lemma_find_route_at(before, rs, j as int, h@);
                        lemma_key_routes_prefix(gs, i as int + 1, k@);
                        lemma_find_route_prefix(key_routes(gs.subrange(0, i + 1), k@), key_routes(gs, k@), h@);
                        assert(key_routes(gs.subrange(0, i + 1), k@) == before + rs);
                    }
                    return Some(&g.routes[j]);
                }
                j = j + 1;
            }
            proof {
                lemma_find_route_none(before, rs, h@);
            }
            assert(key_routes(gs.subrange(0, i + 1), k@) == before + rs);
        } else {
            assert(key_routes(gs.subrange(0, i + 1), k@) =~= before);
        }
        i = i + 1;
    }
    assert(gs.subrange(0, groups@.len() as int) =~= gs);
    None
}

proof fn lemma_find_route_at(a: Seq<RouteView>, b: Seq<RouteView>, j: int, h: Seq<char>)
    requires
        find_route(a, h) is None,
        0 <= j < b.len(),
        snake_spec(b[j].handler) == h,
        forall|m: int| 0 <= m < j ==> snake_spec(#[trigger] b[m].handler) != h,
    ensures
        find_route(a + b, h) == Some(b[j]),
    decreases a.len() + j,
{
    if a.len() > 0 {
        assert((a + b).drop_first() =~= a.drop_first() + b);
        lemma_find_route_at(a.drop_first(), b, j, h);
    } else if j > 0 {
        assert((a + b) =~= b);
        assert(b.drop_first() =~= Seq::<RouteView>::empty() + b.drop_first());
        assert forall|m: int| 0 <= m < j - 1 implies snake_spec(#[trigger] b.drop_first()[m].handler) != h by {
            assert(b.drop_first()[m] == b[m + 1]);
        }
        lemma_find_route_at(Seq::empty(), b.drop_first(), j - 1, h);
    } else {
        assert((a + b) =~= b);
    }
}

proof fn lemma_find_route_none(a: Seq<RouteView>, b: Seq<RouteView>, h: Seq<char>)
    requires
        find_route(a, h) is None,
        forall|m: int| 0 <= m < b.len() ==> snake_spec(#[trigger] b[m].handler) != h,
    ensures
        find_route(a + b, h) is None,
    decreases a.len() + b.len(),
{
    if a.len() > 0 {
        assert((a + b).drop_first() =~= a.drop_first() + b);
        lemma_find_route_none(a.drop_first(), b, h);
    } else if b.len() > 0 {
        assert((a + b) =~= b);
        assert(b.drop_first() =~= Seq::<RouteView>::empty() + b.drop_first());
        assert forall|m: int| 0 <= m < b.len() - 1 implies snake_spec(#[trigger] b.drop_first()[m].handler) != h by {
            assert(b.drop_first()[m] == b[m + 1]);
        }
        lemma_find_route_none(Seq::empty(), b.drop_first(), h);
    } else {
        assert((a + b) =~= b);
    }
}

pub open spec fn starts_seq(a: Seq<RouteView>, whole: Seq<RouteView>) -> bool {
    a.len() <= whole.len() && whole.subrange(0, a.len() as int) == a
}

/// The routes of a prefix of the groups start the routes of all of them.
proof fn lemma_key_routes_prefix(gs: Seq<GroupView>, i: int, k: Seq<char>)
    requires
        0 <= i <= gs.len(),
    ensures
        starts_seq(key_routes(gs.subrange(0, i), k), key_routes(gs, k)),
    decreases gs.len() - i,
{
    if i < gs.len() {
        lemma_key_routes_prefix(gs, i + 1, k);
        assert(gs.subrange(0, i + 1).drop_last() =~= gs.subrange(0, i));
        let a = key_routes(gs.subrange(0, i), k);
        let b = key_routes(gs.subrange(0, i + 1), k);
        let w = key_routes(gs, k);
        assert(b.subrange(0, a.len() as int) =~= a);
        assert(w.subrange(0, a.len() as int) =~= w.subrange(0, b.len() as int).subrange(0, a.len() as int));
    } else {
        assert(gs.subrange(0, i) =~= gs);
        assert(key_routes(gs, k).subrange(0, key_routes(gs, k).len() as int) =~= key_routes(gs, k));
    }
}

/// A match found in a prefix is the match in the whole.
proof fn lemma_find_route_prefix(a: Seq<RouteView>, whole: Seq<RouteView>, h: Seq<char>)
    requires
        find_route(a, h) is Some,
        starts_seq(a, whole),
    ensures
        find_route(whole, h) == find_route(a, h),
    decreases a.len(),
{
    assert(whole[0] == a[0]);
    if snake_spec(a[0].handler) != h {
        assert(whole.drop_first().subrange(0, a.len() - 1) =~= a.drop_first());
        lemma_find_route_prefix(a.drop_first(), whole.drop_first(), h);
    }
}

/// The type definition called `name`; a later definition hides an earlier one.
pub open spec fn type_lookup(types: Seq<crate::rsctl::apispec::TypeDefView>, name: Seq<char>) -> Option<
    crate::rsctl::apispec::TypeDefView,
>
    decreases types.len(),
{
    if types.len() == 0 {
        None
    } else if types.last().name == name {
        Some(types.last())
    } else {
        type_lookup(types.drop_last(), name)
    }
}

pub open spec fn typedefs_of(v: Seq<crate::rsctl::apispec::TypeDef>) -> Seq<crate::rsctl::apispec::TypeDefView> {
    v.map_values(|t: crate::rsctl::apispec::TypeDef| t@)
}

fn type_lookup_exec<'a>(types: &'a Vec<crate::rsctl::apispec::TypeDef>, name: &str) -> (r: Option<
    &'a crate::rsctl::apispec::TypeDef,
>)
    ensures
        match r {
            Some(td) => type_lookup(typedefs_of(types@), name@) == Some(td@),
            None => type_lookup(typedefs_of(types@), name@) is None,
        },
{
    let ghost tv = typedefs_of(types@);
    let mut i = types.len();
    assert(tv.subrange(0, tv.len() as int) =~= tv);
    while i > 0
        invariant
            i <= types@.len(),
            tv == typedefs_of(types@),
            type_lookup(tv, name@) == type_lookup(tv.subrange(0, i as int), name@),
        decreases i,
    {
        let ghost pre = tv.subrange(0, i as int);
        assert(pre.drop_last() =~= tv.subrange(0, i - 1));
        assert(pre.last() == types@[i - 1]@);
        if str_eq(types[i - 1].name.as_str(), name) {
            return Some(&types[i - 1]);
        }
        i = i - 1;
    }
    None
}

/// The type name at the root of `[]T` and `*T`.
pub open spec fn root_ident(t: crate::rsctl::apispec::TypeView) -> Option<Seq<char>>
    decreases t,
{
    match t {
        crate::rsctl::apispec::TypeView::Ident(s) => Some(s),
        crate::rsctl::apispec::TypeView::Array(inner) => root_ident(*inner),
        crate::rsctl::apispec::TypeView::Pointer(inner) => root_ident(*inner),
        _ => None,
    }
}

fn root_ident_exec(t: &crate::rsctl::apispec::Type) -> (r: Option<&str>)
    ensures
        match r {
            Some(s) => root_ident(t@) == Some(s@),
            None => root_ident(t@) is None,
        },
    decreases t,
{
    match t {
        crate::rsctl::apispec::Type::Ident(s) => Some(s.as_str()),
        crate::rsctl::apispec::Type::Array(inner) => root_ident_exec(&**inner),
        crate::rsctl::apispec::Type::Pointer(inner) => root_ident_exec(&**inner),
        _ => None,
    }
}

/// The parsed struct tag of a field.
pub open spec fn field_tags(f: crate::rsctl::apispec::FieldView) -> Seq<crate::rsctl::apispec::TagView> {
    match f.tag {
        None => Seq::empty(),
        Some(s) => if trim(s).len() == 0 {
            Seq::empty()
        } else {
            crate::rsctl::apispec::parse_tags_spec(s)
        },
    }
}

pub open spec fn tags_have(tags: Seq<crate::rsctl::apispec::TagView>, key: Seq<char>) -> bool {
    exists|i: int| 0 <= i < tags.len() && tags[i].key == key
}

/// Whether some field of a type carries a `validate` tag.
pub open spec fn type_has_validate(td: crate::rsctl::apispec::TypeDefView) -> bool {
    exists|i: int| 0 <= i < td.fields.len() && tags_have(field_tags(td.fields[i]), "validate"@)
}

fn field_has_tag(f: &crate::rsctl::apispec::Field, key: &str) -> (r: bool)
    ensures
        r == tags_have(field_tags(f@), key@),
{
    let tags = f.tags();
    assert(tags@ == field_tags(f@));
    match tags.get(key) {
        Some(t) => {
            proof {
                let i = choose|i: int|
                    0 <= i < tags.tags@.len() && tags.tags@[i] == *t && t.key@ == key@ && forall|j: int|
                        0 <= j < i ==> #[trigger] tags.tags@[j].key@ != key@;
                assert(tags@[i].key == key@);
            }
            true
        },
        None => {
            proof {
                assert forall|i: int| 0 <= i < tags@.len() implies tags@[i].key != key@ by {
                    assert(tags@[i] == tags.tags@[i]@);
                }
            }
            false
        },
    }
}

fn type_has_validate_exec(td: &crate::rsctl::apispec::TypeDef) -> (r: bool)
    ensures
        r == type_has_validate(td@),
{
    let mut i: usize = 0;
    while i < td.fields.len()
        invariant
            i <= td.fields@.len(),
            forall|k: int| 0 <= k < i ==> !tags_have(field_tags(#[trigger] td.fields@[k]@), "validate"@),
        decreases td.fields@.len() - i,
    {
        proof {
            reveal_strlit("validate");
        }
        if field_has_tag(&td.fields[i], "validate") {
            assert(td@.fields[i as int] == td.fields@[i as int]@);
            return true;
        }
        i = i + 1;
    }
    proof {
        assert forall|k: int| 0 <= k < td@.fields.len() implies !tags_have(field_tags(td@.fields[k]), "validate"@) by {
            assert(td@.fields[k] == td.fields@[k]@);
        }
    }
    false
}

/// Whether the request type of a handler's route has validated fields.
pub open spec fn needs_validate(gv: GenView, g: Seq<char>, h: Seq<char>) -> bool {
    match handler_route(gv.groups, g, h) {
        Some(r) => match r.request {
            Some(t) => match root_ident(t) {
                Some(n) => match type_lookup(gv.types, n) {
                    Some(td) => type_has_validate(td),
                    None => false,
                },
                None => false,
            },
            None => false,
        },
        None => false,
    }
}

pub open spec fn route_request(r: Option<RouteView>) -> Option<crate::rsctl::apispec::TypeView> {
    match r {
        Some(rt) => rt.request,
        None => None,
    }
}

pub open spec fn route_response(r: Option<RouteView>) -> Option<crate::rsctl::apispec::TypeView> {
    match r {
        Some(rt) => rt.response,
        None => None,
    }
}

pub open spec fn opt_rust(g: Seq<char>, t: Option<crate::rsctl::apispec::TypeView>, dflt: Seq<char>) -> Seq<char> {
    match t {
        Some(x) => crate::rsctl::naming::rust_type_spec(g, x),
        None => dflt,
    }
}

pub open spec fn logic_mod_path(g: Seq<char>) -> Seq<char> {
    if g.len() == 0 {
        "crate::logic"@
    } else {
        "crate::logic::"@ + g + "::logic"@
    }
}

pub open spec fn handler_imports(has_req: bool, logic_mod: Seq<char>, logic_type: Seq<char>) -> Seq<Seq<char>> {
    seq!["use std::sync::Arc;"@, "use hyper::Body;"@, "use halo::rest as rest;"@] + (if has_req {
        seq!["use halo::rest::http::request;"@]
    } else {
        Seq::empty()
    }) + seq!["use http::{Response, StatusCode};"@, "use crate::svc::ServiceContext;"@, "use "@ + logic_mod + "::"@ + logic_type + ";"@]
}

pub open spec fn bv(b: bool) -> JsonView {
    JsonView::Bool(b)
}

pub open spec fn ok_resp_fmt() -> Seq<char> {
    "halo::rest::http::ok_json(&{RESP}).unwrap_or_else(|e| halo::rest::http::error(StatusCode::INTERNAL_SERVER_ERROR, e.to_string()))"@
}

pub open spec fn err_fmt() -> Seq<char> {
    "halo::rest::http::error(StatusCode::INTERNAL_SERVER_ERROR, {E}.to_string())"@
}

pub open spec fn bad_request_fmt() -> Seq<char> {
    "halo::rest::http::bad_request({E}.to_string())"@
}

/// The template variables of handler `h` of group `g`.
pub open spec fn handler_ctx(gv: GenView, g: Seq<char>, h: Seq<char>) -> Seq<(Seq<char>, JsonView)> {
    let route = handler_route(gv.groups, g, h);
    let req = route_request(route);
    let has_req = req is Some;
    let doc_str = match route {
        Some(r) => match r.doc {
            Some(d) => "/// "@ + d + "\n"@,
            None => Seq::empty(),
        },
        None => Seq::empty(),
    };
    let logic_mod = logic_mod_path(g);
    let imports = crate::text::join_seqs(handler_imports(has_req, logic_mod, pascal_spec(h)), "\n"@);
    let c0 = ctx_set(gv.base, "imports"@, sv(imports));
    let c1 = ctx_set(ctx_set(c0, "HasDoc"@, bv(trim(doc_str).len() > 0)), "Doc"@, sv(doc_str));
    let c2 = ctx_set(ctx_set(c1, "HandlerName"@, sv(h)), "HasRequest"@, bv(has_req));
    let c3 = ctx_set(ctx_set(c2, "RequestType"@, sv(opt_rust(g, req, Seq::empty()))), "HasResp"@, bv(route_response(route) is Some));
    let c4 = ctx_set(ctx_set(ctx_set(c3, "LogicName"@, sv(logic_mod)), "LogicType"@, sv(pascal_spec(h))), "Call"@, sv(h));
    let c5 = ctx_set(ctx_set(c4, "NeedsValidate"@, bv(needs_validate(gv, g, h))), "SvcCtxParam"@, sv("svc_ctx: Arc<ServiceContext>"@));
    let c6 = ctx_set(ctx_set(ctx_set(c5, "ReqParam"@, sv("mut req: http::Request<Body>"@)), "ReturnType"@, sv("Response<Body>"@)), "LogicCtorArgs"@, sv("svc_ctx"@));
    let c7 = ctx_set(ctx_set(c6, "ReqValueExpr"@, sv(if has_req { "req"@ } else { Seq::empty() })), "OkRespFmt"@, sv(ok_resp_fmt()));
    let c8 = ctx_set(ctx_set(ctx_set(c7, "OkNoRespFmt"@, sv("halo::rest::http::ok()"@)), "ErrFmt"@, sv(err_fmt())), "BadRequestFmt"@, sv(bad_request_fmt()));
    ctx_set(ctx_set(c8, "BuildParts"@, sv(Seq::empty())), "unused"@, JsonView::Null)
}

impl<'a> Generator<'a> {
    fn needs_validate_exec(&self, route: Option<&Route>) -> (r: bool)
        ensures
            r == match route {
                Some(rt) => match rt@.request {
                    Some(t) => match root_ident(t) {
                        Some(n) => match type_lookup(self.gv().types, n) {
                            Some(td) => type_has_validate(td),
                            None => false,
                        },
                        None => false,
                    },
                    None => false,
                },
                None => false,
            },
    {
        match route {
            Some(rt) => match &rt.request {
                Some(t) => match root_ident_exec(t) {
                    Some(n) => {
                        assert(typedefs_of(self.spec.types@) =~= self.gv().types);
                        match type_lookup_exec(&self.spec.types, n) {
                            Some(td) => type_has_validate_exec(td),
                            None => false,
                        }
                    },
                    None => false,
                },
                None => false,
            },
            None => false,
        }
    }

    /// The handler source of `h` in group `g`.
    #[verifier::rlimit(40)]
    fn render_handler(&self, g: &str, h: &str) -> (r: Result<String, GenerateError>)
        ensures
            match r {
                Ok(s) => render_as(self.gv().tpl.handler, handler_ctx(self.gv(), g@, h@), "handler.tpl"@) == Ok::<
                    Seq<char>,
                    GenErr,
                >(s@),
                Err(e) => render_as(self.gv().tpl.handler, handler_ctx(self.gv(), g@, h@), "handler.tpl"@) == Err::<
                    Seq<char>,
                    GenErr,
                >(e@),
            },
    {
        let route = handler_route_exec(&self.spec.service.groups, g, h);
        let ghost rv = handler_route(self.gv().groups, g@, h@);
        let has_req = match route {
            Some(rt) => rt.request.is_some(),
            None => false,
        };
        let has_resp = match route {
            Some(rt) => rt.response.is_some(),
            None => false,
        };
        let req_rust = match route {
            Some(rt) => match &rt.request {
                Some(t) => crate::rsctl::naming::type_to_rust(g, t),
                None => String::new(),
            },
            None => String::new(),
        };
        let doc_str = match route {
            Some(rt) => match &rt.doc {
                Some(d) => {
                    let mut x = owned("/// ");
                    push_str(&mut x, d.as_str());
                    push_str(&mut x, "\n");
                    x
                },
                None => String::new(),
            },
            None => String::new(),
        };
        let needs = self.needs_validate_exec(route);
        let logic_mod = if g.is_empty() {
            owned("crate::logic")
        } else {
            let mut x = owned("crate::logic::");
            push_str(&mut x, g);
            push_str(&mut x, "::logic");
            x
        };
        let logic_type = pascal(h);
        let mut imports: Vec<String> = Vec::new();
        imports.push(owned("use std::sync::Arc;"));
        imports.push(owned("use hyper::Body;"));
        imports.push(owned("use halo::rest as rest;"));
        if has_req {
            imports.push(owned("use halo::rest::http::request;"));
        }
        imports.push(owned("use http::{Response, StatusCode};"));
        imports.push(owned("use crate::svc::ServiceContext;"));
        let mut last = owned("use ");
        push_str(&mut last, logic_mod.as_str());
        push_str(&mut last, "::");
        push_str(&mut last, logic_type.as_str());
        push_str(&mut last, ";");
        imports.push(last);
        assert(views(imports@) =~= handler_imports(has_req, logic_mod@, pascal_spec(h@)));
        let imports_text = crate::text::join_strings(&imports, "\n");
        let doc_trim = trim_str(doc_str.as_str());
        let req_value = if has_req {
            owned("req")
        } else {
            String::new()
        };
        proof {
            assert(""@ =~= Seq::<char>::empty()) by {
                reveal_strlit("");
            }
        }
        let ctx = self.base_ctx.clone().set_str("imports", imports_text.as_str()).set_bool(
            "HasDoc",
            !doc_trim.as_str().is_empty(),
        ).set_str("Doc", doc_str.as_str()).set_str("HandlerName", h).set_bool("HasRequest", has_req).set_str(
            "RequestType",
            req_rust.as_str(),
        ).set_bool("HasResp", has_resp).set_str("LogicName", logic_mod.as_str()).set_str(
            "LogicType",
            logic_type.as_str(),
        ).set_str("Call", h).set_bool("NeedsValidate", needs).set_str(
            "SvcCtxParam",
            "svc_ctx: Arc<ServiceContext>",
        ).set_str("ReqParam", "mut req: http::Request<Body>").set_str("ReturnType", "Response<Body>").set_str(
            "LogicCtorArgs",
            "svc_ctx",
        ).set_str("ReqValueExpr", req_value.as_str()).set_str(
            "OkRespFmt",
            "halo::rest::http::ok_json(&{RESP}).unwrap_or_else(|e| halo::rest::http::error(StatusCode::INTERNAL_SERVER_ERROR, e.to_string()))",
        ).set_str("OkNoRespFmt", "halo::rest::http::ok()").set_str(
            "ErrFmt",
            "halo::rest::http::error(StatusCode::INTERNAL_SERVER_ERROR, {E}.to_string())",
        ).set_str("BadRequestFmt", "halo::rest::http::bad_request({E}.to_string())").set_str("BuildParts", "").set_json(
            "unused",
            crate::json::Json::Null,
        );
        assert(ctx@ == handler_ctx(self.gv(), g@, h@));
        render_named(self.templates.handler.as_str(), &ctx, "handler.tpl")
    }
}

// ---------------------------------------------------------------------
// Merging rendered sources into one file
// ---------------------------------------------------------------------
pub open spec fn handler_mark() -> Seq<char> {
    "\n#[rest::handler]"@
}

pub open spec fn struct_mark() -> Seq<char> {
    "\npub struct"@
}

/// `s` from just after the line break that starts the first `mark`.
pub open spec fn cut_after(s: Seq<char>, mark: Seq<char>) -> Seq<char> {
    match crate::text::first_occurrence_from(s, mark, 0) {
        Some(i) => s.subrange(i + 1, s.len() as int),
        None => s,
    }
}

/// `s` with `t` put just before the first `mark`.
pub open spec fn insert_before(s: Seq<char>, mark: Seq<char>, t: Seq<char>) -> Seq<char> {
    match crate::text::first_occurrence_from(s, mark, 0) {
        Some(i) => s.subrange(0, i) + t + s.subrange(i, s.len() as int),
        None => s,
    }
}

/// Handler sources merged into one file: the first whole, with the logic
/// imports of the others added before its handler; the others from their
/// handler on.
pub open spec fn merge_handlers_text(rs: Seq<Seq<char>>, extra: Seq<Seq<char>>) -> Seq<char> {
    if rs.len() == 0 {
        Seq::empty()
    } else {
        let first = if extra.len() > 0 {
            insert_before(rs[0], handler_mark(), crate::text::join_seqs(extra, "\n"@) + "\n"@)
        } else {
            rs[0]
        };
        let bodies = rs.drop_first().map_values(|b: Seq<char>| cut_after(b, handler_mark()));
        if bodies.len() > 0 {
            first + "\n\n"@ + crate::text::join_seqs(bodies, "\n\n"@)
        } else {
            first
        }
    }
}

/// Logic sources merged into one file: the first whole, the others from
/// their struct on.
pub open spec fn merge_logic_text(rs: Seq<Seq<char>>) -> Seq<char> {
    if rs.len() == 0 {
        Seq::empty()
    } else {
        let first = rs[0];
        let bodies = rs.drop_first().map_values(|b: Seq<char>| cut_after(b, struct_mark()));
        if bodies.len() > 0 {
            (if first.len() > 0 && first.last() == '\n' {
                first
            } else {
                first + "\n"@
            }) + "\n"@ + crate::text::join_seqs(bodies, "\n\n"@)
        } else {
            first
        }
    }
}

fn cut_after_exec(s: &str, mark: &str) -> (r: String)
    requires
        mark@.len() > 0,
    ensures
        r@ == cut_after(s@, mark@),
{
    let v = chars_of(s);
    let m = chars_of(mark);
    match crate::text::find_from(v.as_slice(), m.as_slice(), 0) {
        Some(i) => {
            assert(crate::text::occurs_at(v@, m@, i as int));
            assert(m@ == mark@);
            assert(i < v.len());
            string_of_range(v.as_slice(), i + 1, v.len())
        },
        None => owned(s),
    }
}

fn insert_before_exec(s: &str, mark: &str, t: &str) -> (r: String)
    ensures
        r@ == insert_before(s@, mark@, t@),
{
    let v = chars_of(s);
    let m = chars_of(mark);
    match crate::text::find_from(v.as_slice(), m.as_slice(), 0) {
        Some(i) => {
            let mut out = string_of_range(v.as_slice(), 0, i);
            push_str(&mut out, t);
            let rest = string_of_range(v.as_slice(), i, v.len());
            push_str(&mut out, rest.as_str());
            out
        },
        None => owned(s),
    }
}

fn cut_all(rs: &Vec<String>, mark: &str) -> (r: Vec<String>)
    requires
        mark@.len() > 0,
        rs@.len() > 0,
    ensures
        views(r@) == views(rs@).drop_first().map_values(|b: Seq<char>| cut_after(b, mark@)),
{
    let mut out: Vec<String> = Vec::new();
    let mut i: usize = 1;
    assert(views(out@) =~= views(rs@).subrange(1, 1).map_values(|b: Seq<char>| cut_after(b, mark@)));
    while i < rs.len()
        invariant
            1 <= i <= rs@.len(),
            mark@.len() > 0,
            views(out@) == views(rs@).subrange(1, i as int).map_values(|b: Seq<char>| cut_after(b, mark@)),
        decreases rs@.len() - i,
    {
        let c = cut_after_exec(rs[i].as_str(), mark);
        let ghost before = views(out@);
        let ghost cv = c@;
        out.push(c);
        assert(views(out@) =~= before.push(cv));
        assert(views(rs@).subrange(1, i + 1).map_values(|b: Seq<char>| cut_after(b, mark@)) =~= views(rs@).subrange(
            1,
            i as int,
        ).map_values(|b: Seq<char>| cut_after(b, mark@)).push(cv));
        i = i + 1;
    }
    assert(views(rs@).subrange(1, rs@.len() as int) =~= views(rs@).drop_first());
    out
}

/// Handler sources of one group merged into one file; `extra_imports`
/// are the logic imports of the handlers after the first.
pub fn merge_handler_sources(rendered: &Vec<String>, extra_imports: &Vec<String>) -> (r: String)
    ensures
        r@ == merge_handlers_text(views(rendered@), views(extra_imports@)),
{
    if rendered.len() == 0 {
        return String::new();
    }
    let first = if extra_imports.len() > 0 {
        let mut t = crate::text::join_strings(extra_imports, "\n");
        push_str(&mut t, "\n");
        insert_before_exec(rendered[0].as_str(), "\n#[rest::handler]", t.as_str())
    } else {
        rendered[0].clone()
    };
    proof {
        reveal_strlit("\n#[rest::handler]");
    }
    let bodies = cut_all(rendered, "\n#[rest::handler]");
    if bodies.len() > 0 {
        let mut merged = first;
        push_str(&mut merged, "\n\n");
        let joined = crate::text::join_strings(&bodies, "\n\n");
        push_str(&mut merged, joined.as_str());
        merged
    } else {
        first
    }
}

/// Logic sources of one group merged into one file.
pub fn merge_logic_sources(rendered: &Vec<String>) -> (r: String)
    ensures
        r@ == merge_logic_text(views(rendered@)),
{
    if rendered.len() == 0 {
        return String::new();
    }
    let mut merged = rendered[0].clone();
    proof {
        reveal_strlit("\npub struct");
    }
    let bodies = cut_all(rendered, "\npub struct");
    if bodies.len() > 0 {
        let v = chars_of(merged.as_str());
        if !(v.len() > 0 && v[v.len() - 1] == '\n') {
            push_str(&mut merged, "\n");
        }
        push_str(&mut merged, "\n");
        let joined = crate::text::join_strings(&bodies, "\n\n");
        push_str(&mut merged, joined.as_str());
    }
    merged
}

// ---------------------------------------------------------------------
// Handler files
// ---------------------------------------------------------------------
/// The handler sources of a group, rendered in order, or the first error.
pub open spec fn handlers_rendered(gv: GenView, g: Seq<char>, hs: Seq<Seq<char>>) -> Result<Seq<Seq<char>>, GenErr>
    decreases hs.len(),
{
    if hs.len() == 0 {
        Ok(Seq::empty())
    } else {
        match handlers_rendered(gv, g, hs.drop_last()) {
            Err(e) => Err(e),
            Ok(done) => match render_as(gv.tpl.handler, handler_ctx(gv, g, hs.last()), "handler.tpl"@) {
                Err(e) => Err(e),
                Ok(c) => Ok(done.push(c)),
            },
        }
    }
}

/// Rendering a group's handler files: when every name's file renders, the
/// rendered texts are those files, one per name and in the names' order;
/// otherwise the error is that of the first name whose file fails.
pub proof fn law_handlers_rendered(gv: GenView, g: Seq<char>, hs: Seq<Seq<char>>)
    ensures
        (forall|i: int| 0 <= i < hs.len() ==> #[trigger] render_as(gv.tpl.handler, handler_ctx(gv, g, hs[i]), "handler.tpl"@) is Ok)
            ==> (handlers_rendered(gv, g, hs) matches Ok(rs) && rs.len() == hs.len() && forall|i: int|
            0 <= i < hs.len() ==> render_as(gv.tpl.handler, handler_ctx(gv, g, hs[i]), "handler.tpl"@) == Ok::<Seq<char>, GenErr>(
                #[trigger] rs[i],
            )),
        forall|i: int|
            0 <= i < hs.len() && #[trigger] render_as(gv.tpl.handler, handler_ctx(gv, g, hs[i]), "handler.tpl"@) is Err && (forall|j: int|
                0 <= j < i ==> render_as(gv.tpl.handler, handler_ctx(gv, g, hs[j]), "handler.tpl"@) is Ok) ==> handlers_rendered(gv, g, hs)
                == Err::<Seq<Seq<char>>, GenErr>(render_as(gv.tpl.handler, handler_ctx(gv, g, hs[i]), "handler.tpl"@)->Err_0),
    decreases hs.len(),
{
    if hs.len() > 0 {
        let init = hs.drop_last();
        law_handlers_rendered(gv, g, init);
        assert forall|i: int| 0 <= i < init.len() implies init[i] == hs[i] by {}
        assert forall|i: int|
            0 <= i < hs.len() && #[trigger] render_as(gv.tpl.handler, handler_ctx(gv, g, hs[i]), "handler.tpl"@) is Err && (forall|j: int|
                0 <= j < i ==> render_as(gv.tpl.handler, handler_ctx(gv, g, hs[j]), "handler.tpl"@) is Ok) implies handlers_rendered(gv, g, hs)
                == Err::<Seq<Seq<char>>, GenErr>(render_as(gv.tpl.handler, handler_ctx(gv, g, hs[i]), "handler.tpl"@)->Err_0) by {
            if i < init.len() {
                assert(init[i] == hs[i]);
                assert forall|j: int| 0 <= j < i implies render_as(gv.tpl.handler, handler_ctx(gv, g, init[j]), "handler.tpl"@) is Ok by {
                    assert(init[j] == hs[j]);
                }
                assert(render_as(gv.tpl.handler, handler_ctx(gv, g, init[i]), "handler.tpl"@) is Err);
            } else {
                assert forall|j: int| 0 <= j < init.len() implies #[trigger] render_as(gv.tpl.handler, handler_ctx(gv, g, init[j]), "handler.tpl"@) is Ok by {
                    assert(init[j] == hs[j]);
                }
            }
        }
        if forall|i: int| 0 <= i < hs.len() ==> #[trigger] render_as(gv.tpl.handler, handler_ctx(gv, g, hs[i]), "handler.tpl"@) is Ok {
            assert forall|j: int| 0 <= j < init.len() implies #[trigger] render_as(gv.tpl.handler, handler_ctx(gv, g, init[j]), "handler.tpl"@) is Ok by {
                assert(init[j] == hs[j]);
            }
            assert(render_as(gv.tpl.handler, handler_ctx(gv, g, hs[hs.len() - 1]), "handler.tpl"@) is Ok);
        }
    }
}

/// `kind/name.rs` for the default group, `kind/g/name.rs` for group `g`.
pub open spec fn group_dir_file(kind: Seq<char>, g: Seq<char>, name: Seq<char>) -> Seq<char> {
    if g.len() == 0 {
        kind + "/"@ + name + ".rs"@
    } else {
        kind + "/"@ + g + "/"@ + name + ".rs"@
    }
}

/// The file that makes a named group's directory a module.
pub open spec fn group_wrapper(kind: Seq<char>, g: Seq<char>, st: Style) -> ArtView {
    (
        kind + "/"@ + group_file_base_spec(g, st) + ".rs"@,
        "/// generated by rsctl\n#[path = \""@ + g + "/"@ + kind + ".rs\"]\npub mod "@ + kind + ";\n"@
            + if kind == "handler"@ {
            "pub use handler::*;\n"@
        } else {
            Seq::empty()
        },
    )
}

pub open spec fn wrapper_files(kind: Seq<char>, g: Seq<char>, st: Style) -> Seq<ArtView> {
    if g.len() > 0 {
        seq![group_wrapper(kind, g, st)]
    } else {
        Seq::empty()
    }
}

pub open spec fn handler_logic_import(g: Seq<char>, h: Seq<char>) -> Seq<char> {
    if g.len() == 0 {
        "use crate::logic::"@ + pascal_spec(h) + ";"@
    } else {
        "use crate::logic::"@ + g + "::logic::"@ + pascal_spec(h) + ";"@
    }
}

pub open spec fn pub_use_same_line(h: Seq<char>) -> Seq<char> {
    "pub use "@ + h + "::"@ + h + ";\n"@
}

pub open spec fn handler_hub_text(hs: Seq<Seq<char>>) -> Seq<char> {
    "/// generated by rsctl\n"@ + concat_all(hs.map_values(|h: Seq<char>| pub_mod_line(h))) + "\n"@ + concat_all(
        hs.map_values(|h: Seq<char>| pub_use_same_line(h)),
    )
}

/// One file per name, with the matching rendered source.
pub open spec fn per_name_files(kind: Seq<char>, g: Seq<char>, hs: Seq<Seq<char>>, head: Seq<char>, rs: Seq<Seq<char>>) -> Seq<ArtView> {
    Seq::new(hs.len(), |i: int| (group_dir_file(kind, g, hs[i]), head + rs[i]))
}

/// The handler files of group `g`.
pub open spec fn handlers_group(gv: GenView, g: Seq<char>) -> Result<Seq<ArtView>, GenErr> {
    let hs = handlers_spec(gv.groups, g);
    match handlers_rendered(gv, g, hs) {
        Err(e) => Err(e),
        Ok(rs) => Ok(
            wrapper_files("handler"@, g, gv.style) + if gv.merge {
                seq![
                    (
                        group_dir_file("handler"@, g, "handler"@),
                        merge_handlers_text(rs, hs.drop_first().map_values(|h: Seq<char>| handler_logic_import(g, h))),
                    ),
                ]
            } else {
                seq![(group_dir_file("handler"@, g, "handler"@), handler_hub_text(hs))] + per_name_files(
                    "handler"@,
                    g,
                    hs,
                    Seq::empty(),
                    rs,
                )
            },
        ),
    }
}

/// Without merging, when every handler of group `g` renders, the group's
/// handler files are: for a named group, its module file
/// `handler/<file base>.rs` pointing at `<g>/handler.rs`; then the hub
/// `handler.rs` in the group's directory, declaring and re-exporting each
/// handler in order; then one file per handler, in order.
pub proof fn law_handler_files(gv: GenView, g: Seq<char>)
    requires
        !gv.merge,
        forall|i: int|
            0 <= i < handlers_spec(gv.groups, g).len() ==> #[trigger] render_as(
                gv.tpl.handler,
                handler_ctx(gv, g, handlers_spec(gv.groups, g)[i]),
                "handler.tpl"@,
            ) is Ok,
    ensures
        ({
            let hs = handlers_spec(gv.groups, g);
            let w = wrapper_files("handler"@, g, gv.style);
            &&& handlers_group(gv, g) is Ok
            &&& handlers_group(gv, g)->Ok_0.len() == w.len() + 1 + hs.len()
            &&& (g.len() > 0 ==> w == seq![group_wrapper("handler"@, g, gv.style)])
            &&& (g.len() == 0 ==> w.len() == 0)
            &&& handlers_group(gv, g)->Ok_0[w.len() as int] == (group_dir_file("handler"@, g, "handler"@), handler_hub_text(hs))
            &&& forall|i: int|
                0 <= i < hs.len() ==> (#[trigger] handlers_group(gv, g)->Ok_0[w.len() + 1 + i]).0 == group_dir_file(
                    "handler"@,
                    g,
                    hs[i],
                )
        }),
{
    let hs = handlers_spec(gv.groups, g);
    law_handlers_rendered(gv, g, hs);
    let rs = handlers_rendered(gv, g, hs)->Ok_0;
    let w = wrapper_files("handler"@, g, gv.style);
    let fs = handlers_group(gv, g)->Ok_0;
    let pn = per_name_files("handler"@, g, hs, Seq::empty(), rs);
    assert(fs == w + (seq![(group_dir_file("handler"@, g, "handler"@), handler_hub_text(hs))] + pn));
    assert forall|i: int| 0 <= i < hs.len() implies (#[trigger] fs[w.len() + 1 + i]).0 == group_dir_file("handler"@, g, hs[i]) by {
        assert(fs[w.len() + 1 + i] == pn[i]);
    }
}

/// The files of the groups `keys`, group after group, or the first error.
pub open spec fn handlers_all(gv: GenView, keys: Seq<Seq<char>>) -> Result<Seq<ArtView>, GenErr>
    decreases keys.len(),
{
    if keys.len() == 0 {
        Ok(Seq::empty())
    } else {
        match handlers_all(gv, keys.drop_last()) {
            Err(e) => Err(e),
            Ok(done) => match handlers_group(gv, keys.last()) {
                Err(e) => Err(e),
                Ok(fs) => Ok(done + fs),
            },
        }
    }
}

pub open spec fn handlers_step_spec(gv: GenView) -> Result<Seq<ArtView>, GenErr> {
    handlers_all(gv, group_keys_spec(gv.groups))
}

proof fn lemma_handlers_rendered_err(gv: GenView, g: Seq<char>, hs: Seq<Seq<char>>, i: int)
    requires
        0 <= i <= hs.len(),
        handlers_rendered(gv, g, hs.subrange(0, i)) is Err,
    ensures
        handlers_rendered(gv, g, hs) == handlers_rendered(gv, g, hs.subrange(0, i)),
    decreases hs.len() - i,
{
    if i < hs.len() {
        assert(hs.subrange(0, i + 1).drop_last() =~= hs.subrange(0, i));
        lemma_handlers_rendered_err(gv, g, hs, i + 1);
    } else {
        assert(hs.subrange(0, i) =~= hs);
    }
}

proof fn lemma_handlers_all_err(gv: GenView, keys: Seq<Seq<char>>, i: int)
    requires
        0 <= i <= keys.len(),
        handlers_all(gv, keys.subrange(0, i)) is Err,
    ensures
        handlers_all(gv, keys) == handlers_all(gv, keys.subrange(0, i)),
    decreases keys.len() - i,
{
    if i < keys.len() {
        assert(keys.subrange(0, i + 1).drop_last() =~= keys.subrange(0, i));
        lemma_handlers_all_err(gv, keys, i + 1);
    } else {
        assert(keys.subrange(0, i) =~= keys);
    }
}

fn wrapper_file(files: &mut Vec<Artifact>, kind: &str, g: &str, st: Style)
    ensures
        files_view(final(files)@) == files_view(old(files)@) + wrapper_files(kind@, g@, st),
{
    if g.is_empty() {
        assert(files_view(files@) =~= files_view(old(files)@) + Seq::<ArtView>::empty());
        return;
    }
    let fb = group_file_base(g, st);
    let mut path = owned(kind);
    push_str(&mut path, "/");
    push_str(&mut path, fb.as_str());
    push_str(&mut path, ".rs");
    let mut text = owned("/// generated by rsctl\n#[path = \"");
    push_str(&mut text, g);
    push_str(&mut text, "/");
    push_str(&mut text, kind);
    push_str(&mut text, ".rs\"]\npub mod ");
    push_str(&mut text, kind);
    push_str(&mut text, ";\n");
    if str_eq(kind, "handler") {
        push_str(&mut text, "pub use handler::*;\n");
    } else {
        assert(text@ =~= text@ + Seq::<char>::empty());
    }
    push_file(files, path, text);
}

fn group_dir_file_exec(kind: &str, g: &str, name: &str) -> (r: String)
    ensures
        r@ == group_dir_file(kind@, g@, name@),
{
    let mut p = owned(kind);
    push_str(&mut p, "/");
    if !g.is_empty() {
        push_str(&mut p, g);
        push_str(&mut p, "/");
    }
    push_str(&mut p, name);
    push_str(&mut p, ".rs");
    p
}

/// Files `kind/[g/]name.rs` holding `head` and the rendered sources, in order.
fn push_per_name(files: &mut Vec<Artifact>, kind: &str, g: &str, hs: &Vec<String>, head: &str, rs: &Vec<String>)
    requires
        hs@.len() == rs@.len(),
    ensures
        files_view(final(files)@) == files_view(old(files)@) + per_name_files(kind@, g@, views(hs@), head@, views(rs@)),
{
    let ghost want = per_name_files(kind@, g@, views(hs@), head@, views(rs@));
    let mut i: usize = 0;
    assert(files_view(files@) =~= files_view(old(files)@) + want.subrange(0, 0));
    while i < hs.len()
        invariant
            i <= hs@.len() == rs@.len(),
            want == per_name_files(kind@, g@, views(hs@), head@, views(rs@)),
            files_view(files@) == files_view(old(files)@) + want.subrange(0, i as int),
        decreases hs@.len() - i,
    {
        let path = group_dir_file_exec(kind, g, hs[i].as_str());
        let mut text = owned(head);
        push_str(&mut text, rs[i].as_str());
        assert((path@, text@) == want[i as int]);
        push_file(files, path, text);
        assert(want.subrange(0, i + 1) =~= want.subrange(0, i as int).push(want[i as int]));
        i = i + 1;
    }
    assert(want.subrange(0, i as int) =~= want);
}

fn pub_use_same_lines(out: &mut String, hs: &Vec<String>)
    ensures
        final(out)@ == old(out)@ + concat_all(views(hs@).map_values(|h: Seq<char>| pub_use_same_line(h))),
{
    let ghost f = |h: Seq<char>| pub_use_same_line(h);
    let mut i: usize = 0;
    assert(views(hs@).subrange(0, 0).map_values(f) =~= Seq::<Seq<char>>::empty());
    assert(out@ =~= old(out)@ + concat_all(views(hs@).subrange(0, 0).map_values(f)));
    while i < hs.len()
        invariant
            i <= hs@.len(),
            f == |h: Seq<char>| pub_use_same_line(h),
            out@ == old(out)@ + concat_all(views(hs@).subrange(0, i as int).map_values(f)),
        decreases hs@.len() - i,
    {
        push_str(out, "pub use ");
        push_str(out, hs[i].as_str());
        push_str(out, "::");
        push_str(out, hs[i].as_str());
        push_str(out, ";\n");
        assert(views(hs@).subrange(0, i + 1).map_values(f).drop_last() =~= views(hs@).subrange(0, i as int).map_values(f));
        i = i + 1;
    }
    assert(views(hs@).subrange(0, hs@.len() as int) =~= views(hs@));
}

/// The logic imports of the handlers after the first.
fn logic_imports_after_first(g: &str, hs: &Vec<String>) -> (r: Vec<String>)
    ensures
        hs@.len() > 0 ==> views(r@) == views(hs@).drop_first().map_values(|h: Seq<char>| handler_logic_import(g@, h)),
{
    let mut extra: Vec<String> = Vec::new();
    if hs.len() == 0 {
        return extra;
    }
    let ghost hv = views(hs@);
    let ghost f = |h: Seq<char>| handler_logic_import(g@, h);
    let mut i: usize = 1;
    assert(views(extra@) =~= hv.subrange(1, 1).map_values(f));
    while i < hs.len()
        invariant
            1 <= i <= hs@.len(),
            hv == views(hs@),
            f == |h: Seq<char>| handler_logic_import(g@, h),
            views(extra@) == hv.subrange(1, i as int).map_values(f),
        decreases hs@.len() - i,
    {
        let p = pascal(hs[i].as_str());
        let mut line = owned("use crate::logic::");
        if !g.is_empty() {
            push_str(&mut line, g);
            push_str(&mut line, "::logic::");
        }
        push_str(&mut line, p.as_str());
        push_str(&mut line, ";");
        let ghost before = views(extra@);
        let ghost lv = line@;
        assert(lv == f(hv[i as int]));
        extra.push(line);
        assert(views(extra@) =~= before.push(lv));
        assert(hv.subrange(1, i + 1).map_values(f) =~= hv.subrange(1, i as int).map_values(f).push(lv));
        i = i + 1;
    }
    assert(hv.subrange(1, hs@.len() as int) =~= hv.drop_first());
    extra
}

impl<'a> Generator<'a> {
    fn render_handlers(&self, g: &str, hs: &Vec<String>) -> (r: Result<Vec<String>, GenerateError>)
        ensures
            match r {
                Ok(rs) => handlers_rendered(self.gv(), g@, views(hs@)) == Ok::<Seq<Seq<char>>, GenErr>(views(rs@))
                    && rs@.len() == hs@.len(),
                Err(e) => handlers_rendered(self.gv(), g@, views(hs@)) == Err::<Seq<Seq<char>>, GenErr>(e@),
            },
    {
        let ghost hv = views(hs@);
        let mut out: Vec<String> = Vec::new();
        let mut i: usize = 0;
        assert(hv.subrange(0, 0) =~= Seq::<Seq<char>>::empty());
        assert(views(out@) =~= Seq::<Seq<char>>::empty());
        while i < hs.len()
            invariant
                i <= hs@.len(),
                hv == views(hs@),
                out@.len() == i,
                handlers_rendered(self.gv(), g@, hv.subrange(0, i as int)) == Ok::<Seq<Seq<char>>, GenErr>(views(out@)),
            decreases hs@.len() - i,
        {
            assert(hv.subrange(0, i + 1).drop_last() =~= hv.subrange(0, i as int));
            assert(hv.subrange(0, i + 1).last() == hs@[i as int]@);
            match self.render_handler(g, hs[i].as_str()) {
                Ok(c) => {
                    let ghost before = views(out@);
                    let ghost cv = c@;
                    out.push(c);
                    assert(views(out@) =~= before.push(cv));
                },
                Err(e) => {
                    proof {
                        lemma_handlers_rendered_err(self.gv(), g@, hv, i + 1);
                    }
                    return Err(e);
                },
            }
            i = i + 1;
        }
        assert(hv.subrange(0, hs@.len() as int) =~= hv);
        Ok(out)
    }

    fn handlers_group(&self, files: &mut Vec<Artifact>, g: &str, hs: &Vec<String>) -> (r: Result<(), GenerateError>)
        requires
            views(hs@) == handlers_spec(self.gv().groups, g@),
        ensures
            step_done(old(files)@, final(files)@, handlers_group(self.gv(), g@), r),
            r is Err ==> final(files)@ == old(files)@,
    {
        let rs = self.render_handlers(g, hs)?;
        wrapper_file(files, "handler", g, self.style);
        proof {
            reveal_strlit("handler");
        }
        let ghost mid = files_view(files@);
        let hub_path = group_dir_file_exec("handler", g, "handler");
        if self.merge {
            let extra = logic_imports_after_first(g, hs);
            let merged = merge_handler_sources(&rs, &extra);
            assert(merged@ == merge_handlers_text(
                views(rs@),
                views(hs@).drop_first().map_values(|h: Seq<char>| handler_logic_import(g@, h)),
            ));
            let ghost entry = (hub_path@, merged@);
            push_file(files, hub_path, merged);
            assert(files_view(files@) =~= files_view(old(files)@) + (wrapper_files("handler"@, g@, self.style) + seq![entry]));
        } else {
            let mut hub = owned("/// generated by rsctl\n");
            pub_mod_lines(&mut hub, hs);
            push_str(&mut hub, "\n");
            pub_use_same_lines(&mut hub, hs);
            assert(hub@ == handler_hub_text(views(hs@)));
            let ghost entry = (hub_path@, hub@);
            push_file(files, hub_path, hub);
            push_per_name(files, "handler", g, hs, "", &rs);
            proof {
                assert(""@ =~= Seq::<char>::empty()) by {
                    reveal_strlit("");
                }
            }
            assert(files_view(files@) =~= files_view(old(files)@) + (wrapper_files("handler"@, g@, self.style) + (seq![entry]
                + per_name_files("handler"@, g@, views(hs@), Seq::empty(), views(rs@)))));
        }
        Ok(())
    }

    fn handlers(&self, files: &mut Vec<Artifact>) -> (r: Result<(), GenerateError>)
        requires
            self.wf(),
        ensures
            step_done(old(files)@, final(files)@, handlers_step_spec(self.gv()), r),
    {
        let ghost keys = group_keys_spec(self.gv().groups);
        let mut i: usize = 0;
        assert(keys.subrange(0, 0) =~= Seq::<Seq<char>>::empty());
        assert(files_view(files@) =~= files_view(old(files)@) + Seq::<ArtView>::empty());
        while i < self.group_handlers.len()
            invariant
                i <= self.group_handlers@.len(),
                self.wf(),
                keys == group_keys_spec(self.gv().groups),
                handlers_all(self.gv(), keys.subrange(0, i as int)) matches Ok(done) && files_view(files@)
                    == files_view(old(files)@) + done,
            decreases self.group_handlers@.len() - i,
        {
            let ghost ks = self.group_handlers@.map_values(|e: (String, Vec<String>)| e.0@);
            assert(ks[i as int] == self.group_handlers@[i as int].0@);
            assert(keys.subrange(0, i + 1).drop_last() =~= keys.subrange(0, i as int));
            assert(keys.subrange(0, i + 1).last() == self.group_handlers@[i as int].0@);
            let ghost before = files_view(files@);
            let entry = &self.group_handlers[i];
            match self.handlers_group(files, entry.0.as_str(), &entry.1) {
                Ok(_) => {},
                Err(e) => {
                    proof {
                        lemma_handlers_all_err(self.gv(), keys, i + 1);
                    }
                    return Err(e);
                },
            }
            i = i + 1;
        }
        assert(keys.subrange(0, i as int) =~= keys);
        Ok(())
    }
}

// ---------------------------------------------------------------------
// Logic files
// ---------------------------------------------------------------------
pub open spec fn is_array(t: crate::rsctl::apispec::TypeView) -> bool {
    t is Array
}

/// The value a generated logic function returns by default.
pub open spec fn return_string(has_req: bool, h: Seq<char>, resp: Option<crate::rsctl::apispec::TypeView>, resp_rust: Seq<char>) -> Seq<char> {
    match resp {
        Some(t) => if !has_req && h == "healthz"@ && crate::text::has_suffix(resp_rust, "::HealthzResp"@) {
            "Ok("@ + resp_rust + " { code: 0, message: \"ok\".to_string(), data: Default::default() })"@
        } else if is_array(t) {
            "Ok(Vec::new())"@
        } else {
            "Ok("@ + resp_rust + "::default())"@
        },
        None => "Ok(())"@,
    }
}

/// The template variables of the logic of handler `h` of group `g`.
pub open spec fn logic_ctx(gv: GenView, g: Seq<char>, h: Seq<char>) -> Seq<(Seq<char>, JsonView)> {
    let route = handler_route(gv.groups, g, h);
    let req = route_request(route);
    let resp = route_response(route);
    let resp_rust = opt_rust(g, resp, "()"@);
    let c1 = ctx_set(ctx_set(ctx_set(gv.base, "logic"@, sv(pascal_spec(h))), "function"@, sv(h)), "hasRequest"@, bv(req is Some));
    let c2 = ctx_set(ctx_set(c1, "requestType"@, sv(opt_rust(g, req, Seq::empty()))), "responseType"@, sv("anyhow::Result<"@ + resp_rust + ">"@));
    let c3 = ctx_set(ctx_set(c2, "returnString"@, sv(return_string(req is Some, h, resp, resp_rust))), "hasDoc"@, bv(false));
    ctx_set(ctx_set(c3, "doc"@, sv(Seq::empty())), "imports"@, sv("use std::sync::Arc;\nuse crate::svc::ServiceContext;"@))
}

pub open spec fn logic_rendered(gv: GenView, g: Seq<char>, hs: Seq<Seq<char>>) -> Result<Seq<Seq<char>>, GenErr>
    decreases hs.len(),
{
    if hs.len() == 0 {
        Ok(Seq::empty())
    } else {
        match logic_rendered(gv, g, hs.drop_last()) {
            Err(e) => Err(e),
            Ok(done) => match render_as(gv.tpl.logic, logic_ctx(gv, g, hs.last()), "logic.tpl"@) {
                Err(e) => Err(e),
                Ok(c) => Ok(done.push(c)),
            },
        }
    }
}

/// Rendering a group's logic files: when every name's file renders, the
/// rendered texts are those files, one per name and in the names' order;
/// otherwise the error is that of the first name whose file fails.
pub proof fn law_logic_rendered(gv: GenView, g: Seq<char>, hs: Seq<Seq<char>>)
    ensures
        (forall|i: int| 0 <= i < hs.len() ==> #[trigger] render_as(gv.tpl.logic, logic_ctx(gv, g, hs[i]), "logic.tpl"@) is Ok)
            ==> (logic_rendered(gv, g, hs) matches Ok(rs) && rs.len() == hs.len() && forall|i: int|
            0 <= i < hs.len() ==> render_as(gv.tpl.logic, logic_ctx(gv, g, hs[i]), "logic.tpl"@) == Ok::<Seq<char>, GenErr>(
                #[trigger] rs[i],
            )),
        forall|i: int|
            0 <= i < hs.len() && #[trigger] render_as(gv.tpl.logic, logic_ctx(gv, g, hs[i]), "logic.tpl"@) is Err && (forall|j: int|
                0 <= j < i ==> render_as(gv.tpl.logic, logic_ctx(gv, g, hs[j]), "logic.tpl"@) is Ok) ==> logic_rendered(gv, g, hs)
                == Err::<Seq<Seq<char>>, GenErr>(render_as(gv.tpl.logic, logic_ctx(gv, g, hs[i]), "logic.tpl"@)->Err_0),
    decreases hs.len(),
{
    if hs.len() > 0 {
        let init = hs.drop_last();
        law_logic_rendered(gv, g, init);
        assert forall|i: int| 0 <= i < init.len() implies init[i] == hs[i] by {}
        assert forall|i: int|
            0 <= i < hs.len() && #[trigger] render_as(gv.tpl.logic, logic_ctx(gv, g, hs[i]), "logic.tpl"@) is Err && (forall|j: int|
                0 <= j < i ==> render_as(gv.tpl.logic, logic_ctx(gv, g, hs[j]), "logic.tpl"@) is Ok) implies logic_rendered(gv, g, hs)
                == Err::<Seq<Seq<char>>, GenErr>(render_as(gv.tpl.logic, logic_ctx(gv, g, hs[i]), "logic.tpl"@)->Err_0) by {
            if i < init.len() {
                assert(init[i] == hs[i]);
                assert forall|j: int| 0 <= j < i implies render_as(gv.tpl.logic, logic_ctx(gv, g, init[j]), "logic.tpl"@) is Ok by {
                    assert(init[j] == hs[j]);
                }
                assert(render_as(gv.tpl.logic, logic_ctx(gv, g, init[i]), "logic.tpl"@) is Err);
            } else {
                assert forall|j: int| 0 <= j < init.len() implies #[trigger] render_as(gv.tpl.logic, logic_ctx(gv, g, init[j]), "logic.tpl"@) is Ok by {
                    assert(init[j] == hs[j]);
                }
            }
        }
        if forall|i: int| 0 <= i < hs.len() ==> #[trigger] render_as(gv.tpl.logic, logic_ctx(gv, g, hs[i]), "logic.tpl"@) is Ok {
            assert forall|j: int| 0 <= j < init.len() implies #[trigger] render_as(gv.tpl.logic, logic_ctx(gv, g, init[j]), "logic.tpl"@) is Ok by {
                assert(init[j] == hs[j]);
            }
            assert(render_as(gv.tpl.logic, logic_ctx(gv, g, hs[hs.len() - 1]), "logic.tpl"@) is Ok);
        }
    }
}

pub open spec fn logic_header(version: Seq<char>) -> Seq<char> {
    "// Code scaffolded by rsctl. Safe to edit.\n// rsctl "@ + version + "\n\n"@
}

pub open spec fn logic_hub_text(hs: Seq<Seq<char>>) -> Seq<char> {
    "/// generated by rsctl\n"@ + concat_all(hs.map_values(|h: Seq<char>| pub_mod_line(h))) + "\n"@ + concat_all(
        hs.map_values(|h: Seq<char>| pub_use_logic_line(h)),
    )
}

/// The logic files of group `g`.
pub open spec fn logic_group(gv: GenView, g: Seq<char>) -> Result<Seq<ArtView>, GenErr> {
    let hs = handlers_spec(gv.groups, g);
    let head = logic_header(gv.version);
    match logic_rendered(gv, g, hs) {
        Err(e) => Err(e),
        Ok(rs) => Ok(
            wrapper_files("logic"@, g, gv.style) + if gv.merge {
                seq![(group_dir_file("logic"@, g, "logic"@), head + merge_logic_text(rs))]
            } else if g.len() == 0 {
                per_name_files("logic"@, g, hs, head, rs)
            } else {
                seq![(group_dir_file("logic"@, g, "logic"@), logic_hub_text(hs))] + per_name_files("logic"@, g, hs, head, rs)
            },
        ),
    }
}

pub open spec fn logic_all(gv: GenView, keys: Seq<Seq<char>>) -> Result<Seq<ArtView>, GenErr>
    decreases keys.len(),
{
    if keys.len() == 0 {
        Ok(Seq::empty())
    } else {
        match logic_all(gv, keys.drop_last()) {
            Err(e) => Err(e),
            Ok(done) => match logic_group(gv, keys.last()) {
                Err(e) => Err(e),
                Ok(fs) => Ok(done + fs),
            },
        }
    }
}

pub open spec fn logic_step_spec(gv: GenView) -> Result<Seq<ArtView>, GenErr> {
    logic_all(gv, group_keys_spec(gv.groups))
}

proof fn lemma_logic_rendered_err(gv: GenView, g: Seq<char>, hs: Seq<Seq<char>>, i: int)
    requires
        0 <= i <= hs.len(),
        logic_rendered(gv, g, hs.subrange(0, i)) is Err,
    ensures
        logic_rendered(gv, g, hs) == logic_rendered(gv, g, hs.subrange(0, i)),
    decreases hs.len() - i,
{
    if i < hs.len() {
        assert(hs.subrange(0, i + 1).drop_last() =~= hs.subrange(0, i));
        lemma_logic_rendered_err(gv, g, hs, i + 1);
    } else {
        assert(hs.subrange(0, i) =~= hs);
    }
}

proof fn lemma_logic_all_err(gv: GenView, keys: Seq<Seq<char>>, i: int)
    requires
        0 <= i <= keys.len(),
        logic_all(gv, keys.subrange(0, i)) is Err,
    ensures
        logic_all(gv, keys) == logic_all(gv, keys.subrange(0, i)),
    decreases keys.len() - i,
{
    if i < keys.len() {
        assert(keys.subrange(0, i + 1).drop_last() =~= keys.subrange(0, i));
        lemma_logic_all_err(gv, keys, i + 1);
    } else {
        assert(keys.subrange(0, i) =~= keys);
    }
}

fn ends_with_str(s: &str, suffix: &str) -> (r: bool)
    ensures
        r == crate::text::has_suffix(s@, suffix@),
{
    let v = chars_of(s);
    let w = chars_of(suffix);
    crate::text::ends_with(v.as_slice(), w.as_slice())
}

impl<'a> Generator<'a> {
    /// The logic source of `h` in group `g`.
    #[verifier::rlimit(40)]
    fn render_logic(&self, g: &str, h: &str) -> (r: Result<String, GenerateError>)
        ensures
            match r {
                Ok(s) => render_as(self.gv().tpl.logic, logic_ctx(self.gv(), g@, h@), "logic.tpl"@) == Ok::<
                    Seq<char>,
                    GenErr,
                >(s@),
                Err(e) => render_as(self.gv().tpl.logic, logic_ctx(self.gv(), g@, h@), "logic.tpl"@) == Err::<
                    Seq<char>,
                    GenErr,
                >(e@),
            },
    {
        let route = handler_route_exec(&self.spec.service.groups, g, h);
        let has_req = match route {
            Some(rt) => rt.request.is_some(),
            None => false,
        };
        let req_type = match route {
            Some(rt) => match &rt.request {
                Some(t) => crate::rsctl::naming::type_to_rust(g, t),
                None => String::new(),
            },
            None => String::new(),
        };
        let resp_rust = match route {
            Some(rt) => match &rt.response {
                Some(t) => crate::rsctl::naming::type_to_rust(g, t),
                None => owned("()"),
            },
            None => owned("()"),
        };
        let return_text = match route {
            Some(rt) => match &rt.response {
                Some(t) => {
                    if !has_req && str_eq(h, "healthz") && ends_with_str(resp_rust.as_str(), "::HealthzResp") {
                        let mut x = owned("Ok(");
                        push_str(&mut x, resp_rust.as_str());
                        push_str(&mut x, " { code: 0, message: \"ok\".to_string(), data: Default::default() })");
                        x
                    } else if matches!(t, crate::rsctl::apispec::Type::Array(_)) {
                        owned("Ok(Vec::new())")
                    } else {
                        let mut x = owned("Ok(");
                        push_str(&mut x, resp_rust.as_str());
                        push_str(&mut x, "::default())");
                        x
                    }
                },
                None => owned("Ok(())"),
            },
            None => owned("Ok(())"),
        };
        let mut response_type = owned("anyhow::Result<");
        push_str(&mut response_type, resp_rust.as_str());
        push_str(&mut response_type, ">");
        let logic_name = pascal(h);
        proof {
            assert(""@ =~= Seq::<char>::empty()) by {
                reveal_strlit("");
            }
        }
        let ctx = self.base_ctx.clone().set_str("logic", logic_name.as_str()).set_str("function", h).set_bool(
            "hasRequest",
            has_req,
        ).set_str("requestType", req_type.as_str()).set_str("responseType", response_type.as_str()).set_str(
            "returnString",
            return_text.as_str(),
        ).set_bool("hasDoc", false).set_str("doc", "").set_str(
            "imports",
            "use std::sync::Arc;\nuse crate::svc::ServiceContext;",
        );
        assert(ctx@ == logic_ctx(self.gv(), g@, h@));
        render_named(self.templates.logic.as_str(), &ctx, "logic.tpl")
    }

    fn render_logics(&self, g: &str, hs: &Vec<String>) -> (r: Result<Vec<String>, GenerateError>)
        ensures
            match r {
                Ok(rs) => logic_rendered(self.gv(), g@, views(hs@)) == Ok::<Seq<Seq<char>>, GenErr>(views(rs@))
                    && rs@.len() == hs@.len(),
                Err(e) => logic_rendered(self.gv(), g@, views(hs@)) == Err::<Seq<Seq<char>>, GenErr>(e@),
            },
    {
        let ghost hv = views(hs@);
        let mut out: Vec<String> = Vec::new();
        let mut i: usize = 0;
        assert(hv.subrange(0, 0) =~= Seq::<Seq<char>>::empty());
        assert(views(out@) =~= Seq::<Seq<char>>::empty());
        while i < hs.len()
            invariant
                i <= hs@.len(),
                hv == views(hs@),
                out@.len() == i,
                logic_rendered(self.gv(), g@, hv.subrange(0, i as int)) == Ok::<Seq<Seq<char>>, GenErr>(views(out@)),
            decreases hs@.len() - i,
        {
            assert(hv.subrange(0, i + 1).drop_last() =~= hv.subrange(0, i as int));
            assert(hv.subrange(0, i + 1).last() == hs@[i as int]@);
            match self.render_logic(g, hs[i].as_str()) {
                Ok(c) => {
                    let ghost before = views(out@);
                    let ghost cv = c@;
                    out.push(c);
                    assert(views(out@) =~= before.push(cv));
                },
                Err(e) => {
                    proof {
                        lemma_logic_rendered_err(self.gv(), g@, hv, i + 1);
                    }
                    return Err(e);
                },
            }
            i = i + 1;
        }
        assert(hv.subrange(0, hs@.len() as int) =~= hv);
        Ok(out)
    }

    fn logic_group(&self, files: &mut Vec<Artifact>, g: &str, hs: &Vec<String>) -> (r: Result<(), GenerateError>)
        requires
            views(hs@) == handlers_spec(self.gv().groups, g@),
        ensures
            step_done(old(files)@, final(files)@, logic_group(self.gv(), g@), r),
            r is Err ==> final(files)@ == old(files)@,
    {
        let rs = self.render_logics(g, hs)?;
        wrapper_file(files, "logic", g, self.style);
        proof {
            reveal_strlit("logic");
        }
        let mut head = owned("// Code scaffolded by rsctl. Safe to edit.\n// rsctl ");
        push_str(&mut head, self.rsctl_version.as_str());
        push_str(&mut head, "\n\n");
        let hub_path = group_dir_file_exec("logic", g, "logic");
        if self.merge {
            let merged = merge_logic_sources(&rs);
            let mut text = head.clone();
            push_str(&mut text, merged.as_str());
            let ghost entry = (hub_path@, text@);
            push_file(files, hub_path, text);
            assert(files_view(files@) =~= files_view(old(files)@) + (wrapper_files("logic"@, g@, self.style) + seq![entry]));
        } else if g.is_empty() {
            push_per_name(files, "logic", g, hs, head.as_str(), &rs);
            assert(files_view(files@) =~= files_view(old(files)@) + (wrapper_files("logic"@, g@, self.style)
                + per_name_files("logic"@, g@, views(hs@), head@, views(rs@))));
        } else {
            let mut hub = owned("/// generated by rsctl\n");
            pub_mod_lines(&mut hub, hs);
            push_str(&mut hub, "\n");
            pub_use_logic_lines(&mut hub, hs);
            assert(hub@ == logic_hub_text(views(hs@)));
            let ghost entry = (hub_path@, hub@);
            push_file(files, hub_path, hub);
            push_per_name(files, "logic", g, hs, head.as_str(), &rs);
            assert(files_view(files@) =~= files_view(old(files)@) + (wrapper_files("logic"@, g@, self.style) + (seq![entry]
                + per_name_files("logic"@, g@, views(hs@), head@, views(rs@)))));
        }
        Ok(())
    }

    fn logic(&self, files: &mut Vec<Artifact>) -> (r: Result<(), GenerateError>)
        requires
            self.wf(),
        ensures
            step_done(old(files)@, final(files)@, logic_step_spec(self.gv()), r),
    {
        let ghost keys = group_keys_spec(self.gv().groups);
        let mut i: usize = 0;
        assert(keys.subrange(0, 0) =~= Seq::<Seq<char>>::empty());
        assert(files_view(files@) =~= files_view(old(files)@) + Seq::<ArtView>::empty());
        while i < self.group_handlers.len()
            invariant
                i <= self.group_handlers@.len(),
                self.wf(),
                keys == group_keys_spec(self.gv().groups),
                logic_all(self.gv(), keys.subrange(0, i as int)) matches Ok(done) && files_view(files@)
                    == files_view(old(files)@) + done,
            decreases self.group_handlers@.len() - i,
        {
            let ghost ks = self.group_handlers@.map_values(|e: (String, Vec<String>)| e.0@);
            assert(ks[i as int] == self.group_handlers@[i as int].0@);
            assert(keys.subrange(0, i + 1).drop_last() =~= keys.subrange(0, i as int));
            assert(keys.subrange(0, i + 1).last() == self.group_handlers@[i as int].0@);
            let entry = &self.group_handlers[i];
            match self.logic_group(files, entry.0.as_str(), &entry.1) {
                Ok(_) => {},
                Err(e) => {
                    proof {
                        lemma_logic_all_err(self.gv(), keys, i + 1);
                    }
                    return Err(e);
                },
            }
            i = i + 1;
        }
        assert(keys.subrange(0, i as int) =~= keys);
        Ok(())
    }
}

// ---------------------------------------------------------------------
// Types: the type names a group needs
// ---------------------------------------------------------------------
pub open spec fn type_idents(t: crate::rsctl::apispec::TypeView) -> Seq<Seq<char>>
    decreases t,
{
    match t {
        crate::rsctl::apispec::TypeView::Ident(s) => seq![s],
        crate::rsctl::apispec::TypeView::Array(inner) => type_idents(*inner),
        crate::rsctl::apispec::TypeView::Pointer(inner) => type_idents(*inner),
        crate::rsctl::apispec::TypeView::MapType { key, value } => type_idents(*key) + type_idents(*value),
        _ => Seq::empty(),
    }
}

pub open spec fn opt_idents(t: Option<crate::rsctl::apispec::TypeView>) -> Seq<Seq<char>> {
    match t {
        Some(x) => type_idents(x),
        None => Seq::empty(),
    }
}

pub open spec fn fields_idents(fs: Seq<crate::rsctl::apispec::FieldView>) -> Seq<Seq<char>>
    decreases fs.len(),
{
    if fs.len() == 0 {
        Seq::empty()
    } else {
        fields_idents(fs.drop_last()) + type_idents(fs.last().ty)
    }
}

/// The names a type name leads to: those in the fields of its definition.
pub open spec fn succ(types: Seq<crate::rsctl::apispec::TypeDefView>, n: Seq<char>) -> Seq<Seq<char>> {
    match type_lookup(types, n) {
        Some(td) => fields_idents(td.fields),
        None => Seq::empty(),
    }
}

pub open spec fn route_seeds(rs: Seq<RouteView>) -> Seq<Seq<char>>
    decreases rs.len(),
{
    if rs.len() == 0 {
        Seq::empty()
    } else {
        route_seeds(rs.drop_last()) + opt_idents(rs.last().request) + opt_idents(rs.last().response)
    }
}

/// The names the requests and responses of group `g` mention.
pub open spec fn type_seeds(gs: Seq<GroupView>, g: Seq<char>) -> Seq<Seq<char>>
    decreases gs.len(),
{
    if gs.len() == 0 {
        Seq::empty()
    } else {
        type_seeds(gs.drop_last(), g) + if group_key_spec(gs.last()) == g {
            route_seeds(gs.last().routes)
        } else {
            Seq::empty()
        }
    }
}

pub open spec fn all_idents(types: Seq<crate::rsctl::apispec::TypeDefView>) -> Seq<Seq<char>>
    decreases types.len(),
{
    if types.len() == 0 {
        Seq::empty()
    } else {
        all_idents(types.drop_last()) + fields_idents(types.last().fields)
    }
}

/// Every name `S` holds leads only to names `S` holds.
pub open spec fn closed(types: Seq<crate::rsctl::apispec::TypeDefView>, s: Set<Seq<char>>) -> bool {
    forall|n: Seq<char>, k: int| s.contains(n) && 0 <= k < succ(types, n).len() ==> s.contains(#[trigger] succ(types, n)[k])
}

pub open spec fn holds_all(s: Set<Seq<char>>, xs: Seq<Seq<char>>) -> bool {
    forall|k: int| 0 <= k < xs.len() ==> s.contains(#[trigger] xs[k])
}

/// `S` holds the seeds and is closed.
pub open spec fn closure_base(types: Seq<crate::rsctl::apispec::TypeDefView>, seeds: Seq<Seq<char>>, s: Set<Seq<char>>) -> bool {
    holds_all(s, seeds) && closed(types, s)
}

/// `S` is the smallest set that holds the seeds and is closed.
pub open spec fn least_closure(types: Seq<crate::rsctl::apispec::TypeDefView>, seeds: Seq<Seq<char>>, s: Set<Seq<char>>) -> bool {
    &&& closure_base(types, seeds, s)
    &&& forall|t: Set<Seq<char>>| #[trigger] closure_base(types, seeds, t) ==> s.subset_of(t)
}

/// The names of the types group `g` needs, ascending: those its routes
/// mention, and, from each defined type, those its fields mention.
pub open spec fn required_spec(gv: GenView, g: Seq<char>) -> Seq<Seq<char>> {
    choose|r: Seq<Seq<char>>| strictly_sorted_names(r) && least_closure(gv.types, type_seeds(gv.groups, g), r.to_set())
}

pub open spec fn strictly_sorted_names(r: Seq<Seq<char>>) -> bool {
    crate::text::strictly_sorted(r)
}

proof fn lemma_type_lookup_member(types: Seq<crate::rsctl::apispec::TypeDefView>, n: Seq<char>)
    ensures
        type_lookup(types, n) matches Some(td) ==> forall|k: int|
            0 <= k < fields_idents(td.fields).len() ==> all_idents(types).contains(#[trigger] fields_idents(td.fields)[k]),
    decreases types.len(),
{
    if types.len() > 0 {
        lemma_type_lookup_member(types.drop_last(), n);
        let a = all_idents(types.drop_last());
        let b = fields_idents(types.last().fields);
        assert(all_idents(types) == a + b);
        if types.last().name == n {
            assert forall|k: int| 0 <= k < b.len() implies all_idents(types).contains(#[trigger] b[k]) by {
                assert((a + b)[a.len() + k] == b[k]);
            }
        } else if let Some(td) = type_lookup(types.drop_last(), n) {
            assert forall|k: int| 0 <= k < fields_idents(td.fields).len() implies all_idents(types).contains(
                #[trigger] fields_idents(td.fields)[k],
            ) by {
                let x = fields_idents(td.fields)[k];
                assert(a.contains(x));
                let m = choose|m: int| 0 <= m < a.len() && a[m] == x;
                assert((a + b)[m] == x);
            }
        }
    }
}

fn type_idents_exec(t: &crate::rsctl::apispec::Type, out: &mut Vec<String>)
    ensures
        views(final(out)@) == views(old(out)@) + type_idents(t@),
    decreases t,
{
    match t {
        crate::rsctl::apispec::Type::Ident(s) => {
            let ghost before = views(out@);
            out.push(s.clone());
            assert(views(out@) =~= before + seq![s@]);
        },
        crate::rsctl::apispec::Type::Array(inner) => type_idents_exec(&**inner, out),
        crate::rsctl::apispec::Type::Pointer(inner) => type_idents_exec(&**inner, out),
        crate::rsctl::apispec::Type::MapType { key, value } => {
            type_idents_exec(&**key, out);
            type_idents_exec(&**value, out);
            assert(views(out@) =~= views(old(out)@) + type_idents(t@));
        },
        _ => {
            assert(views(out@) =~= views(old(out)@) + Seq::<Seq<char>>::empty());
        },
    }
}

fn fields_idents_exec(fs: &Vec<crate::rsctl::apispec::Field>, out: &mut Vec<String>)
    ensures
        views(final(out)@) == views(old(out)@) + fields_idents(fs@.map_values(|f: crate::rsctl::apispec::Field| f@)),
{
    let ghost fv = fs@.map_values(|f: crate::rsctl::apispec::Field| f@);
    let mut i: usize = 0;
    assert(fv.subrange(0, 0) =~= Seq::<crate::rsctl::apispec::FieldView>::empty());
    assert(views(out@) =~= views(old(out)@) + fields_idents(fv.subrange(0, 0)));
    while i < fs.len()
        invariant
            i <= fs@.len(),
            fv == fs@.map_values(|f: crate::rsctl::apispec::Field| f@),
            views(out@) == views(old(out)@) + fields_idents(fv.subrange(0, i as int)),
        decreases fs@.len() - i,
    {
        assert(fv.subrange(0, i + 1).drop_last() =~= fv.subrange(0, i as int));
        assert(fv.subrange(0, i + 1).last() == fs@[i as int]@);
        type_idents_exec(&fs[i].ty, out);
        assert(views(out@) =~= views(old(out)@) + fields_idents(fv.subrange(0, i + 1)));
        i = i + 1;
    }
    assert(fv.subrange(0, fs@.len() as int) =~= fv);
}

fn type_seeds_exec(groups: &Vec<Group>, g: &str) -> (r: Vec<String>)
    ensures
        views(r@) == type_seeds(groups_of(groups@), g@),
{
    let ghost gs = groups_of(groups@);
    let mut out: Vec<String> = Vec::new();
    let mut i: usize = 0;
    assert(gs.subrange(0, 0) =~= Seq::<GroupView>::empty());
    assert(views(out@) =~= type_seeds(gs.subrange(0, 0), g@));
    while i < groups.len()
        invariant
            i <= groups@.len(),
            gs == groups_of(groups@),
            views(out@) == type_seeds(gs.subrange(0, i as int), g@),
        decreases groups@.len() - i,
    {
        assert(gs.subrange(0, i + 1).drop_last() =~= gs.subrange(0, i as int));
        assert(gs.subrange(0, i + 1).last() == groups@[i as int]@);
        let grp = &groups[i];
        let ghost before = views(out@);
        let gk = group_key(grp);
        if str_eq(gk.as_str(), g) {
            let ghost rs = grp@.routes;
            let mut j: usize = 0;
            assert(rs.subrange(0, 0) =~= Seq::<RouteView>::empty());
            assert(views(out@) =~= before + route_seeds(rs.subrange(0, 0)));
            while j < grp.routes.len()
                invariant
                    j <= grp.routes@.len(),
                    rs == grp@.routes,
                    views(out@) == before + route_seeds(rs.subrange(0, j as int)),
                decreases grp.routes@.len() - j,
            {
                assert(rs.subrange(0, j + 1).drop_last() =~= rs.subrange(0, j as int));
                assert(rs.subrange(0, j + 1).last() == grp.routes@[j as int]@);
                let r = &grp.routes[j];
                let ghost mid = views(out@);
                match &r.request {
                    Some(t) => type_idents_exec(t, &mut out),
                    None => {
                        assert(views(out@) =~= mid + Seq::<Seq<char>>::empty());
                    },
                }
                let ghost mid2 = views(out@);
                match &r.response {
                    Some(t) => type_idents_exec(t, &mut out),
                    None => {
                        assert(views(out@) =~= mid2 + Seq::<Seq<char>>::empty());
                    },
                }
                assert(views(out@) =~= before + route_seeds(rs.subrange(0, j + 1)));
                j = j + 1;
            }
            assert(rs.subrange(0, grp.routes@.len() as int) =~= rs);
        } else {
            assert(views(out@) =~= before + Seq::<Seq<char>>::empty());
        }
        i = i + 1;
    }
    assert(gs.subrange(0, groups@.len() as int) =~= gs);
    out
}

fn contains_name(v: &Vec<String>, x: &str) -> (r: bool)
    ensures
        r == views(v@).contains(x@),
{
    let mut i: usize = 0;
    while i < v.len()
        invariant
            i <= v@.len(),
            forall|k: int| 0 <= k < i ==> v@[k]@ != x@,
        decreases v@.len() - i,
    {
        if str_eq(v[i].as_str(), x) {
            assert(views(v@)[i as int] == x@);
            return true;
        }
        i = i + 1;
    }
    proof {
        if views(v@).contains(x@) {
            let k = choose|k: int| 0 <= k < views(v@).len() && views(v@)[k] == x@;
            assert(v@[k]@ == x@);
        }
    }
    false
}

pub open spec fn pending(q: Seq<Seq<char>>, head: int) -> Seq<Seq<char>> {
    q.subrange(head, q.len() as int)
}

/// The smallest closed set holding the seeds, ascending, found by a
/// breadth-first walk.
fn required_names(types: &Vec<crate::rsctl::apispec::TypeDef>, seeds: Vec<String>) -> (r: Vec<String>)
    ensures
        strictly_sorted_names(views(r@)),
        least_closure(typedefs_of(types@), views(seeds@), views(r@).to_set()),
{
    broadcast use vstd::set::group_set_axioms, vstd::seq_lib::seq_to_set_is_finite;
    let ghost tys = typedefs_of(types@);
    let ghost sd = views(seeds@);
    let ghost universe = (sd + all_idents(tys)).to_set();
    let mut q = seeds;
    let mut head: usize = 0;
    let mut visited: Vec<String> = Vec::new();
    proof {
        assert(views(visited@).to_set() =~= Set::<Seq<char>>::empty());
        assert forall|k: int| 0 <= k < views(q@).len() implies universe.contains(#[trigger] views(q@)[k]) by {
            assert((sd + all_idents(tys))[k] == sd[k]);
        }
        assert(pending(views(q@), 0) =~= sd);
        assert forall|t: Set<Seq<char>>| #[trigger] closure_base(tys, sd, t) implies views(visited@).to_set().subset_of(t)
            && holds_all(t, pending(views(q@), 0)) by {}
    }
    while head < q.len()
        invariant
            head <= q@.len(),
            tys == typedefs_of(types@),
            sd.len() <= q@.len(),
            forall|k: int| 0 <= k < sd.len() ==> views(q@)[k] == #[trigger] sd[k],
            universe == (sd + all_idents(tys)).to_set(),
            strictly_sorted_names(views(visited@)),
            views(visited@).to_set().subset_of(universe),
            forall|k: int| 0 <= k < views(q@).len() ==> universe.contains(#[trigger] views(q@)[k]),
            forall|k: int| 0 <= k < sd.len() ==> views(visited@).contains(#[trigger] sd[k]) || pending(views(q@), head as int).contains(sd[k]),
            forall|n: Seq<char>, k: int|
                views(visited@).contains(n) && 0 <= k < succ(tys, n).len() ==> views(visited@).contains(
                    #[trigger] succ(tys, n)[k],
                ) || pending(views(q@), head as int).contains(succ(tys, n)[k]),
            forall|t: Set<Seq<char>>| #[trigger] closure_base(tys, sd, t) ==> views(visited@).to_set().subset_of(t)
                && holds_all(t, pending(views(q@), head as int)),
        decreases universe.difference(views(visited@).to_set()).len(), q@.len() - head,
    {
        let ghost qv = views(q@);
        let ghost vv = views(visited@);
        let ghost h = head as int;
        let t = q[head].clone();
        let ghost tv = t@;
        assert(tv == qv[h]);
        head = head + 1;
        let ghost p0 = pending(qv, h);
        let ghost p1 = pending(qv, h + 1);
        assert forall|y: Seq<char>| p0.contains(y) implies y == tv || p1.contains(y) by {
            let m = choose|m: int| 0 <= m < p0.len() && p0[m] == y;
            if m > 0 {
                assert(p1[m - 1] == y);
            }
        }
        if contains_name(&visited, t.as_str()) {
            assert forall|t2: Set<Seq<char>>| #[trigger] closure_base(tys, sd, t2) implies holds_all(t2, pending(qv, h + 1)) by {
                assert forall|k: int| 0 <= k < pending(qv, h + 1).len() implies t2.contains(#[trigger] pending(qv, h + 1)[k]) by {
                    assert(pending(qv, h + 1)[k] == pending(qv, h)[k + 1]);
                }
            }
        } else {
            proof {
                crate::text::lemma_insert_sorted(vv, tv);
                lemma_type_lookup_member(tys, tv);
                assert(universe.contains(tv));
                assert(universe.difference(vv.to_set().insert(tv)) =~= universe.difference(vv.to_set()).remove(tv));
                assert(vv.to_set().contains(tv) == vv.contains(tv));
            }
            sorted_insert(&mut visited, t.clone());
            let ghost vv2 = views(visited@);
            assert(vv2.to_set() == vv.to_set().insert(tv));
            let ghost before_q = views(q@);
            match type_lookup_exec(types, t.as_str()) {
                Some(td) => {
                    fields_idents_exec(&td.fields, &mut q);
                },
                None => {},
            }
            let ghost qv2 = views(q@);
            assert(qv2 == qv + succ(tys, tv));
            assert forall|k: int| 0 <= k < qv2.len() implies universe.contains(#[trigger] qv2[k]) by {
                if k >= qv.len() {
                    let x = succ(tys, tv)[k - qv.len()];
                    assert(all_idents(tys).contains(x));
                    let m = choose|m: int| 0 <= m < all_idents(tys).len() && all_idents(tys)[m] == x;
                    assert((sd + all_idents(tys))[sd.len() + m] == x);
                }
            }
            let ghost p2 = pending(qv2, h + 1);
            assert forall|y: Seq<char>| p1.contains(y) implies p2.contains(y) by {
                let m = choose|m: int| 0 <= m < p1.len() && p1[m] == y;
                assert(p2[m] == y);
            }
            assert forall|k: int| 0 <= k < succ(tys, tv).len() implies pending(qv2, h + 1).contains(#[trigger] succ(tys, tv)[k]) by {
                assert(pending(qv2, h + 1)[qv.len() - h - 1 + k] == succ(tys, tv)[k]);
            }
            assert forall|y: Seq<char>| vv2.contains(y) implies vv.contains(y) || y == tv by {
                assert(vv2.to_set().contains(y));
            }
            assert forall|y: Seq<char>| vv.contains(y) implies vv2.contains(y) by {
                assert(vv.to_set().contains(y));
                assert(vv2.to_set().contains(y));
            }
            assert(vv2.contains(tv)) by {
                assert(vv2.to_set().contains(tv));
            }
            assert forall|t2: Set<Seq<char>>| #[trigger] closure_base(tys, sd, t2) implies vv2.to_set().subset_of(t2)
                && holds_all(t2, pending(qv2, h + 1)) by {
                assert(t2.contains(tv)) by {
                    assert(pending(qv, h)[0] == tv);
                }
                assert forall|k: int| 0 <= k < pending(qv2, h + 1).len() implies t2.contains(#[trigger] pending(qv2, h + 1)[k]) by {
                    if h + 1 + k < qv.len() {
                        assert(pending(qv2, h + 1)[k] == pending(qv, h)[k + 1]);
                    } else {
                        assert(pending(qv2, h + 1)[k] == succ(tys, tv)[h + 1 + k - qv.len()]);
                    }
                }
            }
        }
    }
    proof {
        let vv = views(visited@);
        assert(pending(views(q@), head as int) =~= Seq::<Seq<char>>::empty());
        assert forall|k: int| 0 <= k < sd.len() implies vv.to_set().contains(#[trigger] sd[k]) by {
            assert(vv.contains(sd[k]));
        }
        assert forall|n: Seq<char>, k: int| vv.to_set().contains(n) && 0 <= k < succ(tys, n).len() implies vv.to_set().contains(
            #[trigger] succ(tys, n)[k],
        ) by {
            assert(vv.contains(n));
        }
        assert(closure_base(tys, sd, vv.to_set()));
    }
    visited
}

/// The types a group's file declares, one `pub struct` each and in this
/// order (see `types_ctx`), are exactly the names of the least set that
/// holds what the group's routes mention and is closed under the field
/// types of the defined types, listed ascending without repeats: any such
/// list is the one `required_spec` gives.
pub proof fn lemma_required_unique(gv: GenView, g: Seq<char>, r: Seq<Seq<char>>)
    requires
        strictly_sorted_names(r),
        least_closure(gv.types, type_seeds(gv.groups, g), r.to_set()),
    ensures
        required_spec(gv, g) == r,
{
    let c = required_spec(gv, g);
    assert(strictly_sorted_names(c) && least_closure(gv.types, type_seeds(gv.groups, g), c.to_set()));
    assert(closure_base(gv.types, type_seeds(gv.groups, g), r.to_set()));
    assert(closure_base(gv.types, type_seeds(gv.groups, g), c.to_set()));
    assert(c.to_set() =~= r.to_set());
    crate::text::lemma_sorted_unique(c, r);
}

// ---------------------------------------------------------------------
// Types: declarations and files
// ---------------------------------------------------------------------
/// The first tag item with key `key`.
pub open spec fn first_tag(tags: Seq<crate::rsctl::apispec::TagView>, key: Seq<char>) -> Option<crate::rsctl::apispec::TagView>
    decreases tags.len(),
{
    if tags.len() == 0 {
        None
    } else if tags[0].key == key {
        Some(tags[0])
    } else {
        first_tag(tags.drop_first(), key)
    }
}

proof fn lemma_first_tag(tags: Seq<crate::rsctl::apispec::TagView>, key: Seq<char>, i: int)
    requires
        0 <= i <= tags.len(),
        forall|j: int| 0 <= j < i ==> #[trigger] tags[j].key != key,
        i < tags.len() ==> tags[i].key == key,
    ensures
        first_tag(tags, key) == if i < tags.len() {
            Some(tags[i])
        } else {
            None
        },
    decreases i,
{
    if i > 0 {
        let t = tags.drop_first();
        assert forall|j: int| 0 <= j < i - 1 implies #[trigger] t[j].key != key by {
            assert(t[j] == tags[j + 1]);
        }
        lemma_first_tag(t, key, i - 1);
    }
}

pub fn get_tag<'t>(tags: &'t crate::rsctl::apispec::Tags, key: &str) -> (r: Option<&'t crate::rsctl::apispec::Tag>)
    ensures
        match r {
            Some(t) => first_tag(tags@, key@) == Some(t@),
            None => first_tag(tags@, key@) is None,
        },
{
    let r = tags.get(key);
    proof {
        match r {
            Some(t) => {
                let i = choose|i: int|
                    0 <= i < tags.tags@.len() && tags.tags@[i] == *t && t.key@ == key@ && forall|j: int|
                        0 <= j < i ==> #[trigger] tags.tags@[j].key@ != key@;
                assert forall|j: int| 0 <= j < i implies #[trigger] tags@[j].key != key@ by {
                    assert(tags@[j] == tags.tags@[j]@);
                }
                lemma_first_tag(tags@, key@, i);
            },
            None => {
                assert forall|j: int| 0 <= j < tags@.len() implies #[trigger] tags@[j].key != key@ by {
                    assert(tags@[j] == tags.tags@[j]@);
                }
                lemma_first_tag(tags@, key@, tags@.len() as int);
            },
        }
    }
    r
}

/// The tag item that renames a field: `json`, else `form`, else `path`.
pub open spec fn rename_tag(tags: Seq<crate::rsctl::apispec::TagView>) -> Option<crate::rsctl::apispec::TagView> {
    match first_tag(tags, "json"@) {
        Some(t) => Some(t),
        None => match first_tag(tags, "form"@) {
            Some(t) => Some(t),
            None => first_tag(tags, "path"@),
        },
    }
}

pub open spec fn attr_line(a: Seq<char>) -> Seq<char> {
    "    "@ + a + "\n"@
}

/// The declaration of one struct field.
pub open spec fn field_decl(g: Seq<char>, f: crate::rsctl::apispec::FieldView) -> Seq<char> {
    let rt = crate::rsctl::naming::rust_type_spec(g, f.ty);
    let tags = field_tags(f);
    let attrs = if f.tag is Some {
        (match rename_tag(tags) {
            Some(t) => "    #[serde(rename = \""@ + (if t.name == "-"@ {
                snake_spec(f.name)
            } else {
                t.name
            }) + "\")]\n"@,
            None => Seq::empty(),
        }) + match first_tag(tags, "validate"@) {
            Some(v) => concat_all(crate::rsctl::naming::validate_attrs_spec(rt, v.value).map_values(|a: Seq<char>| attr_line(a))),
            None => Seq::empty(),
        }
    } else {
        Seq::empty()
    };
    attrs + "    pub "@ + snake_spec(f.name) + ": "@ + rt + ",\n"@
}

pub open spec fn derive_line(validated: bool) -> Seq<char> {
    if validated {
        "#[derive(Debug, Clone, Serialize, Deserialize, validator::Validate, Default)]\n"@
    } else {
        "#[derive(Debug, Clone, Serialize, Deserialize, Default)]\n"@
    }
}

/// The declaration of type `t` in group `g`; an undefined name gets an
/// empty struct.
pub open spec fn type_decl(gv: GenView, g: Seq<char>, t: Seq<char>) -> Seq<char> {
    match type_lookup(gv.types, t) {
        Some(td) => derive_line(type_has_validate(td)) + "pub struct "@ + td.name + " {\n"@ + concat_all(
            td.fields.map_values(|f: crate::rsctl::apispec::FieldView| field_decl(g, f)),
        ) + "}\n"@,
        None => derive_line(false) + "pub struct "@ + t + " {}\n"@,
    }
}

pub open spec fn types_ctx(gv: GenView, g: Seq<char>) -> Seq<(Seq<char>, JsonView)> {
    ctx_set(
        ctx_set(gv.base, "imports"@, sv("use serde::{Deserialize, Serialize};"@)),
        "types"@,
        sv(crate::text::join_seqs(required_spec(gv, g).map_values(|t: Seq<char>| type_decl(gv, g, t)), "\n"@)),
    )
}

/// A group's types file declares the names of the least set that holds
/// what the group's routes mention and is closed under the field types of
/// the defined types: each exactly once, in ascending order, one
/// declaration each, joined by blank lines; a name without a definition is
/// declared as an empty struct.
pub proof fn law_types_declared(gv: GenView, g: Seq<char>, r: Seq<Seq<char>>)
    requires
        strictly_sorted_names(r),
        least_closure(gv.types, type_seeds(gv.groups, g), r.to_set()),
    ensures
        required_spec(gv, g) == r,
        r.no_duplicates(),
        forall|i: int, j: int| 0 <= i < j < r.len() ==> crate::text::lex_lt(#[trigger] r[i], #[trigger] r[j]),
        types_ctx(gv, g) == ctx_set(
            ctx_set(gv.base, "imports"@, sv("use serde::{Deserialize, Serialize};"@)),
            "types"@,
            sv(crate::text::join_seqs(r.map_values(|t: Seq<char>| type_decl(gv, g, t)), "\n"@)),
        ),
        forall|n: Seq<char>|
            r.contains(n) && type_lookup(gv.types, n) is None ==> #[trigger] type_decl(gv, g, n) == derive_line(false)
                + "pub struct "@ + n + " {}\n"@,
{
    lemma_required_unique(gv, g, r);
    assert forall|i: int, j: int| 0 <= i < r.len() && 0 <= j < r.len() && i != j implies r[i] != r[j] by {
        if i < j {
            assert(crate::text::lex_lt(r[i], r[j]));
            crate::text::lemma_lex_irreflexive(r[i]);
        } else {
            assert(crate::text::lex_lt(r[j], r[i]));
            crate::text::lemma_lex_irreflexive(r[j]);
        }
    }
}

/// The types files of group `g`.
pub open spec fn types_group(gv: GenView, g: Seq<char>) -> Result<Seq<ArtView>, GenErr> {
    match render_as(gv.tpl.types, types_ctx(gv, g), "types.tpl"@) {
        Err(e) => Err(e),
        Ok(c) => Ok(wrapper_files("types"@, g, gv.style) + seq![(group_dir_file("types"@, g, "types"@), c)]),
    }
}

pub open spec fn types_all(gv: GenView, keys: Seq<Seq<char>>) -> Result<Seq<ArtView>, GenErr>
    decreases keys.len(),
{
    if keys.len() == 0 {
        Ok(Seq::empty())
    } else {
        match types_all(gv, keys.drop_last()) {
            Err(e) => Err(e),
            Ok(done) => match types_group(gv, keys.last()) {
                Err(e) => Err(e),
                Ok(fs) => Ok(done + fs),
            },
        }
    }
}

pub open spec fn types_step_spec(gv: GenView) -> Result<Seq<ArtView>, GenErr> {
    types_all(gv, group_keys_spec(gv.groups))
}

proof fn lemma_types_all_err(gv: GenView, keys: Seq<Seq<char>>, i: int)
    requires
        0 <= i <= keys.len(),
        types_all(gv, keys.subrange(0, i)) is Err,
    ensures
        types_all(gv, keys) == types_all(gv, keys.subrange(0, i)),
    decreases keys.len() - i,
{
    if i < keys.len() {
        assert(keys.subrange(0, i + 1).drop_last() =~= keys.subrange(0, i));
        lemma_types_all_err(gv, keys, i + 1);
    } else {
        assert(keys.subrange(0, i) =~= keys);
    }
}

fn attr_lines(out: &mut String, attrs: &Vec<String>)
    ensures
        final(out)@ == old(out)@ + concat_all(views(attrs@).map_values(|a: Seq<char>| attr_line(a))),
{
    let ghost f = |a: Seq<char>| attr_line(a);
    let mut i: usize = 0;
    assert(views(attrs@).subrange(0, 0).map_values(f) =~= Seq::<Seq<char>>::empty());
    assert(out@ =~= old(out)@ + concat_all(views(attrs@).subrange(0, 0).map_values(f)));
    while i < attrs.len()
        invariant
            i <= attrs@.len(),
            f == |a: Seq<char>| attr_line(a),
            out@ == old(out)@ + concat_all(views(attrs@).subrange(0, i as int).map_values(f)),
        decreases attrs@.len() - i,
    {
        push_str(out, "    ");
        push_str(out, attrs[i].as_str());
        push_str(out, "\n");
        assert(views(attrs@).subrange(0, i + 1).map_values(f).drop_last() =~= views(attrs@).subrange(0, i as int).map_values(f));
        i = i + 1;
    }
    assert(views(attrs@).subrange(0, attrs@.len() as int) =~= views(attrs@));
}

#[verifier::rlimit(40)]
fn field_decl_exec(out: &mut String, g: &str, f: &crate::rsctl::apispec::Field)
    ensures
        final(out)@ == old(out)@ + field_decl(g@, f@),
{
    let rt = crate::rsctl::naming::type_to_rust(g, &f.ty);
    proof {
        reveal_strlit("json");
        reveal_strlit("form");
        reveal_strlit("path");
        reveal_strlit("validate");
        reveal_strlit("-");
    }
    let ghost start = out@;
    if f.tag.is_some() {
        let tags = f.tags();
        assert(tags@ == field_tags(f@));
        let rename = match get_tag(&tags, "json") {
            Some(t) => Some(t),
            None => match get_tag(&tags, "form") {
                Some(t) => Some(t),
                None => get_tag(&tags, "path"),
            },
        };
        match rename {
            Some(t) => {
                push_str(out, "    #[serde(rename = \"");
                if str_eq(t.name.as_str(), "-") {
                    let sn = snake(f.name.as_str());
                    push_str(out, sn.as_str());
                } else {
                    push_str(out, t.name.as_str());
                }
                push_str(out, "\")]\n");
            },
            None => {},
        }
        match get_tag(&tags, "validate") {
            Some(v) => {
                let attrs = validate_tag_to_attrs_views(rt.as_str(), v.value.as_str());
                attr_lines(out, &attrs);
            },
            None => {},
        }
    }
    push_str(out, "    pub ");
    let sn = snake(f.name.as_str());
    push_str(out, sn.as_str());
    push_str(out, ": ");
    push_str(out, rt.as_str());
    push_str(out, ",\n");
    assert(out@ =~= start + field_decl(g@, f@));
}

fn validate_tag_to_attrs_views(ty: &str, tag: &str) -> (r: Vec<String>)
    ensures
        views(r@) == crate::rsctl::naming::validate_attrs_spec(ty@, tag@),
{
    let r = crate::rsctl::naming::validate_tag_to_attrs(ty, tag);
    assert(views(r@) =~= r@.map_values(|s: String| s@));
    r
}

fn type_decl_exec(types: &Vec<crate::rsctl::apispec::TypeDef>, g: &str, t: &str) -> (r: String)
    ensures
        forall|gv: GenView| gv.types == typedefs_of(types@) ==> r@ == #[trigger] type_decl(gv, g@, t@),
{
    match type_lookup_exec(types, t) {
        Some(td) => {
            let validated = type_has_validate_exec(td);
            let mut s = if validated {
                owned("#[derive(Debug, Clone, Serialize, Deserialize, validator::Validate, Default)]\n")
            } else {
                owned("#[derive(Debug, Clone, Serialize, Deserialize, Default)]\n")
            };
            push_str(&mut s, "pub struct ");
            push_str(&mut s, td.name.as_str());
            push_str(&mut s, " {\n");
            let ghost head = s@;
            let ghost fv = td@.fields;
            let ghost f = |x: crate::rsctl::apispec::FieldView| field_decl(g@, x);
            let mut i: usize = 0;
            assert(fv.subrange(0, 0).map_values(f) =~= Seq::<Seq<char>>::empty());
            assert(s@ =~= head + concat_all(fv.subrange(0, 0).map_values(f)));
            while i < td.fields.len()
                invariant
                    i <= td.fields@.len(),
                    fv == td@.fields,
                    f == |x: crate::rsctl::apispec::FieldView| field_decl(g@, x),
                    s@ == head + concat_all(fv.subrange(0, i as int).map_values(f)),
                decreases td.fields@.len() - i,
            {
                assert(fv[i as int] == td.fields@[i as int]@);
                field_decl_exec(&mut s, g, &td.fields[i]);
                assert(fv.subrange(0, i + 1).map_values(f).drop_last() =~= fv.subrange(0, i as int).map_values(f));
                i = i + 1;
            }
            assert(fv.subrange(0, td.fields@.len() as int) =~= fv);
            push_str(&mut s, "}\n");
            s
        },
        None => {
            let mut s = owned("#[derive(Debug, Clone, Serialize, Deserialize, Default)]\n");
            push_str(&mut s, "pub struct ");
            push_str(&mut s, t);
            push_str(&mut s, " {}\n");
            s
        },
    }
}

impl<'a> Generator<'a> {
    fn types_group(&self, files: &mut Vec<Artifact>, g: &str) -> (r: Result<(), GenerateError>)
        ensures
            step_done(old(files)@, final(files)@, types_group(self.gv(), g@), r),
            r is Err ==> final(files)@ == old(files)@,
    {
        let seeds = type_seeds_exec(&self.spec.service.groups, g);
        let req = required_names(&self.spec.types, seeds);
        proof {
            assert(typedefs_of(self.spec.types@) =~= self.gv().types);
            lemma_required_unique(self.gv(), g@, views(req@));
        }
        let ghost rv = views(req@);
        let ghost f = |t: Seq<char>| type_decl(self.gv(), g@, t);
        let mut decls: Vec<String> = Vec::new();
        let mut i: usize = 0;
        assert(views(decls@) =~= rv.subrange(0, 0).map_values(f));
        while i < req.len()
            invariant
                i <= req@.len(),
                rv == views(req@),
                f == |t: Seq<char>| type_decl(self.gv(), g@, t),
                views(decls@) == rv.subrange(0, i as int).map_values(f),
            decreases req@.len() - i,
        {
            let d = type_decl_exec(&self.spec.types, g, req[i].as_str());
            assert(typedefs_of(self.spec.types@) =~= self.gv().types);
            assert(d@ == f(rv[i as int]));
            let ghost before = views(decls@);
            let ghost dv = d@;
            decls.push(d);
            assert(views(decls@) =~= before.push(dv));
            assert(rv.subrange(0, i + 1).map_values(f) =~= rv.subrange(0, i as int).map_values(f).push(dv));
            i = i + 1;
        }
        assert(rv.subrange(0, req@.len() as int) =~= rv);
        let joined = crate::text::join_strings(&decls, "\n");
        let ctx = self.base_ctx.clone().set_str("imports", "use serde::{Deserialize, Serialize};").set_str(
            "types",
            joined.as_str(),
        );
        assert(ctx@ == types_ctx(self.gv(), g@));
        let c = render_named(self.templates.types.as_str(), &ctx, "types.tpl")?;
        wrapper_file(files, "types", g, self.style);
        proof {
            reveal_strlit("types");
        }
        let path = group_dir_file_exec("types", g, "types");
        let ghost entry = (path@, c@);
        push_file(files, path, c);
        assert(files_view(files@) =~= files_view(old(files)@) + (wrapper_files("types"@, g@, self.style) + seq![entry]));
        Ok(())
    }

    fn types(&self, files: &mut Vec<Artifact>) -> (r: Result<(), GenerateError>)
        requires
            self.wf(),
        ensures
            step_done(old(files)@, final(files)@, types_step_spec(self.gv()), r),
    {
        let ghost keys = group_keys_spec(self.gv().groups);
        let mut i: usize = 0;
        assert(keys.subrange(0, 0) =~= Seq::<Seq<char>>::empty());
        assert(files_view(files@) =~= files_view(old(files)@) + Seq::<ArtView>::empty());
        while i < self.group_handlers.len()
            invariant
                i <= self.group_handlers@.len(),
                self.wf(),
                keys == group_keys_spec(self.gv().groups),
                types_all(self.gv(), keys.subrange(0, i as int)) matches Ok(done) && files_view(files@)
                    == files_view(old(files)@) + done,
            decreases self.group_handlers@.len() - i,
        {
            let ghost ks = self.group_handlers@.map_values(|e: (String, Vec<String>)| e.0@);
            assert(ks[i as int] == self.group_handlers@[i as int].0@);
            assert(keys.subrange(0, i + 1).drop_last() =~= keys.subrange(0, i as int));
            assert(keys.subrange(0, i + 1).last() == self.group_handlers@[i as int].0@);
            match self.types_group(files, self.group_handlers[i].0.as_str()) {
                Ok(_) => {},
                Err(e) => {
                    proof {
                        lemma_types_all_err(self.gv(), keys, i + 1);
                    }
                    return Err(e);
                },
            }
            i = i + 1;
        }
        assert(keys.subrange(0, i as int) =~= keys);
        Ok(())
    }
}

// ---------------------------------------------------------------------
// The whole project
// ---------------------------------------------------------------------
/// Files of one step after the files of the steps before, or the first error.
pub open spec fn then(before: Result<Seq<ArtView>, GenErr>, step: Result<Seq<ArtView>, GenErr>) -> Result<Seq<ArtView>, GenErr> {
    match before {
        Err(e) => Err(e),
        Ok(a) => match step {
            Err(e) => Err(e),
            Ok(b) => Ok(a + b),
        },
    }
}

/// All generated files, in the order the steps make them.
pub open spec fn run_spec(gv: GenView) -> Result<Seq<ArtView>, GenErr> {
    let keys = group_keys_spec(gv.groups);
    let s1 = then(then(then(cargo_toml_spec(gv), etc_spec(gv)), entry_spec(gv)), config_spec(gv));
    let s2 = then(
        then(s1, service_context_spec(gv)),
        Ok::<Seq<ArtView>, GenErr>(seq![("handler.rs"@, handler_root_text(keys, gv.style))]),
    );
    let s3 = then(then(s2, routes_spec(gv)), middleware_spec(gv));
    let s4 = then(
        then(
            s3,
            Ok::<Seq<ArtView>, GenErr>(
                seq![("logic.rs"@, logic_root_text(keys, handlers_spec(gv.groups, Seq::empty()), gv.merge, gv.style))],
            ),
        ),
        Ok::<Seq<ArtView>, GenErr>(seq![("types.rs"@, types_root_text(keys, gv.style))]),
    );
    then(then(then(s4, handlers_step_spec(gv)), logic_step_spec(gv)), types_step_spec(gv))
}

impl<'a> Generator<'a> {
    fn run(&self, files: &mut Vec<Artifact>) -> (r: Result<(), GenerateError>)
        requires
            self.wf(),
            old(files)@.len() == 0,
        ensures
            match r {
                Ok(_) => run_spec(self.gv()) == Ok::<Seq<ArtView>, GenErr>(files_view(final(files)@)),
                Err(e) => run_spec(self.gv()) == Err::<Seq<ArtView>, GenErr>(e@),
            },
    {
        let ghost gv = self.gv();
        let ghost keys = group_keys_spec(gv.groups);
        assert(files_view(files@) =~= Seq::<ArtView>::empty());
        let ghost s0 = Ok::<Seq<ArtView>, GenErr>(Seq::<ArtView>::empty());
        self.cargo_toml(files)?;
        assert(cargo_toml_spec(gv) == Ok::<Seq<ArtView>, GenErr>(files_view(files@)));
        self.etc(files)?;
        self.entry(files)?;
        self.config(files)?;
        let ghost s1 = then(then(then(cargo_toml_spec(gv), etc_spec(gv)), entry_spec(gv)), config_spec(gv));
        assert(s1 == Ok::<Seq<ArtView>, GenErr>(files_view(files@)));
        match self.service_context(files) {
            Ok(_) => {},
            Err(e) => {
                return Err(e);
            },
        }
        let ghost b2 = files_view(files@);
        self.handler_root(files);
        assert(files_view(files@) =~= b2 + seq![("handler.rs"@, handler_root_text(keys, gv.style))]);
        let ghost s2 = then(
            then(s1, service_context_spec(gv)),
            Ok::<Seq<ArtView>, GenErr>(seq![("handler.rs"@, handler_root_text(keys, gv.style))]),
        );
        assert(s2 == Ok::<Seq<ArtView>, GenErr>(files_view(files@)));
        match self.routes(files) {
            Ok(_) => {},
            Err(e) => {
                return Err(e);
            },
        }
        match self.middleware(files) {
            Ok(_) => {},
            Err(e) => {
                return Err(e);
            },
        }
        let ghost s3 = then(then(s2, routes_spec(gv)), middleware_spec(gv));
        assert(s3 == Ok::<Seq<ArtView>, GenErr>(files_view(files@)));
        let ghost b4 = files_view(files@);
        self.logic_root(files);
        let ghost b5 = files_view(files@);
        assert(b5 =~= b4 + seq![("logic.rs"@, logic_root_text(keys, handlers_spec(gv.groups, Seq::empty()), gv.merge, gv.style))]);
        self.types_root(files);
        assert(files_view(files@) =~= b5 + seq![("types.rs"@, types_root_text(keys, gv.style))]);
        let ghost s4 = then(
            then(
                s3,
                Ok::<Seq<ArtView>, GenErr>(
                    seq![("logic.rs"@, logic_root_text(keys, handlers_spec(gv.groups, Seq::empty()), gv.merge, gv.style))],
                ),
            ),
            Ok::<Seq<ArtView>, GenErr>(seq![("types.rs"@, types_root_text(keys, gv.style))]),
        );
        assert(s4 == Ok::<Seq<ArtView>, GenErr>(files_view(files@)));
        match self.handlers(files) {
            Ok(_) => {},
            Err(e) => {
                return Err(e);
            },
        }
        match self.logic(files) {
            Ok(_) => {},
            Err(e) => {
                return Err(e);
            },
        }
        match self.types(files) {
            Ok(_) => {},
            Err(e) => {
                return Err(e);
            },
        }
        Ok(())
    }
}

/// Whether some type has a field with a `validate` tag.
pub open spec fn any_validate(types: Seq<crate::rsctl::apispec::TypeDefView>) -> bool {
    exists|i: int| 0 <= i < types.len() && type_has_validate(types[i])
}

pub open spec fn rest_features_text(validated: bool) -> Seq<char> {
    if validated {
        "[\"validator\"]"@
    } else {
        "[]"@
    }
}

pub open spec fn validator_dep_text(validated: bool) -> Seq<char> {
    if validated {
        "validator = { version = \"0.19\", features = [\"derive\"] }"@
    } else {
        Seq::empty()
    }
}

pub open spec fn mw_field_line(m: Seq<char>) -> Seq<char> {
    "    pub "@ + m + ": Middleware,"@
}

pub open spec fn mw_assign_line(m: Seq<char>) -> Seq<char> {
    "            "@ + m + ": crate::middleware::"@ + m + "::"@ + pascal_spec(m) + "::new().handle(),"@
}

/// The root prefix routes are served under: the override, else the
/// description's, else `/`.
pub open spec fn root_prefix_choice(over: Seq<char>, info_prefix: Seq<char>) -> Seq<char> {
    if over.len() > 0 {
        over
    } else if info_prefix.len() > 0 {
        info_prefix
    } else {
        "/"@
    }
}

/// The variables every template sees.
pub open spec fn base_ctx_spec(version: Seq<char>, service: Seq<char>, mws: Seq<Seq<char>>, root_prefix: Seq<char>) -> Seq<
    (Seq<char>, JsonView),
> {
    let e = Seq::<(Seq<char>, JsonView)>::empty();
    let c1 = ctx_set(ctx_set(ctx_set(e, "version"@, sv(version)), "serviceName"@, sv(service)), "host"@, sv("0.0.0.0"@));
    let c2 = ctx_set(ctx_set(ctx_set(c1, "port"@, sv("8888"@)), "imports"@, sv(Seq::empty())), "config"@, sv("crate::config::Config"@));
    let c3 = ctx_set(
        ctx_set(c2, "middleware"@, sv(crate::text::join_seqs(mws.map_values(|m: Seq<char>| mw_field_line(m)), "\n"@))),
        "middlewareAssignment"@,
        sv(crate::text::join_seqs(mws.map_values(|m: Seq<char>| mw_assign_line(m)), "\n"@)),
    );
    ctx_set(ctx_set(ctx_set(c3, "mainAttr"@, sv("#[tokio::main]"@)), "rootPrefix"@, sv(root_prefix)), "serverStart"@, sv(Seq::empty()))
}

/// The files generated for a description, or why there are none.
pub open spec fn project_spec(
    sp: SpecView,
    service_name: Seq<char>,
    merge: bool,
    style: Seq<char>,
    tpl: TemplatesView,
    version: Seq<char>,
    root_prefix_override: Seq<char>,
) -> Result<Seq<ArtView>, GenErr> {
    match crate::rsctl::naming::style_of(style) {
        None => Err(GenErr::Style(crate::rsctl::naming::style_error_text(style))),
        Some(st) => {
            let service = snake_spec(service_name);
            let validated = any_validate(sp.types);
            run_spec(
                GenView {
                    groups: sp.groups,
                    types: sp.types,
                    merge,
                    style: st,
                    service,
                    version,
                    rest_features: rest_features_text(validated),
                    validator_dep: validator_dep_text(validated),
                    auth_dep: Seq::empty(),
                    tpl,
                    base: base_ctx_spec(
                        version,
                        service,
                        mw_list(sp.groups),
                        root_prefix_choice(root_prefix_override, sp.info.root_prefix),
                    ),
                },
            )
        },
    }
}

fn any_validate_exec(types: &Vec<crate::rsctl::apispec::TypeDef>) -> (r: bool)
    ensures
        r == any_validate(typedefs_of(types@)),
{
    let mut i: usize = 0;
    while i < types.len()
        invariant
            i <= types@.len(),
            forall|k: int| 0 <= k < i ==> !type_has_validate(#[trigger] types@[k]@),
        decreases types@.len() - i,
    {
        if type_has_validate_exec(&types[i]) {
            assert(typedefs_of(types@)[i as int] == types@[i as int]@);
            return true;
        }
        i = i + 1;
    }
    proof {
        assert forall|k: int| 0 <= k < typedefs_of(types@).len() implies !type_has_validate(typedefs_of(types@)[k]) by {
            assert(typedefs_of(types@)[k] == types@[k]@);
        }
    }
    false
}

fn mw_field_lines(mws: &Vec<String>) -> (r: String)
    ensures
        r@ == crate::text::join_seqs(views(mws@).map_values(|m: Seq<char>| mw_field_line(m)), "\n"@),
{
    let ghost f = |m: Seq<char>| mw_field_line(m);
    let mut lines: Vec<String> = Vec::new();
    let mut i: usize = 0;
    assert(views(lines@) =~= views(mws@).subrange(0, 0).map_values(f));
    while i < mws.len()
        invariant
            i <= mws@.len(),
            f == |m: Seq<char>| mw_field_line(m),
            views(lines@) == views(mws@).subrange(0, i as int).map_values(f),
        decreases mws@.len() - i,
    {
        let m = mws[i].as_str();
        let mut line = owned("    pub ");
        push_str(&mut line, m);
        push_str(&mut line, ": Middleware,");
        let ghost before = views(lines@);
        let ghost lv = line@;
        assert(lv == f(views(mws@)[i as int]));
        lines.push(line);
        assert(views(lines@) =~= before.push(lv));
        assert(views(mws@).subrange(0, i + 1).map_values(f) =~= views(mws@).subrange(0, i as int).map_values(f).push(lv));
        i = i + 1;
    }
    assert(views(mws@).subrange(0, mws@.len() as int) =~= views(mws@));
    crate::text::join_strings(&lines, "\n")
}

fn mw_assign_lines(mws: &Vec<String>) -> (r: String)
    ensures
        r@ == crate::text::join_seqs(views(mws@).map_values(|m: Seq<char>| mw_assign_line(m)), "\n"@),
{
    let ghost f = |m: Seq<char>| mw_assign_line(m);
    let mut lines: Vec<String> = Vec::new();
    let mut i: usize = 0;
    assert(views(lines@) =~= views(mws@).subrange(0, 0).map_values(f));
    while i < mws.len()
        invariant
            i <= mws@.len(),
            f == |m: Seq<char>| mw_assign_line(m),
            views(lines@) == views(mws@).subrange(0, i as int).map_values(f),
        decreases mws@.len() - i,
    {
        let m = mws[i].as_str();
        let p = pascal(m);
        let mut line = owned("            ");
        push_str(&mut line, m);
        push_str(&mut line, ": crate::middleware::");
        push_str(&mut line, m);
        push_str(&mut line, "::");
        push_str(&mut line, p.as_str());
        push_str(&mut line, "::new().handle(),");
        let ghost before = views(lines@);
        let ghost lv = line@;
        assert(lv == f(views(mws@)[i as int]));
        lines.push(line);
        assert(views(lines@) =~= before.push(lv));
        assert(views(mws@).subrange(0, i + 1).map_values(f) =~= views(mws@).subrange(0, i as int).map_values(f).push(lv));
        i = i + 1;
    }
    assert(views(mws@).subrange(0, mws@.len() as int) =~= views(mws@));
    crate::text::join_strings(&lines, "\n")
}

fn group_handler_map(groups: &Vec<Group>) -> (r: Vec<(String, Vec<String>)>)
    ensures
        r@.map_values(|e: (String, Vec<String>)| e.0@) == group_keys_spec(groups_of(groups@)),
        forall|i: int|
            0 <= i < r@.len() ==> views(#[trigger] r@[i].1@) == handlers_spec(groups_of(groups@), r@[i].0@),
{
    let keys = group_keys(groups);
    let mut out: Vec<(String, Vec<String>)> = Vec::new();
    let mut i: usize = 0;
    while i < keys.len()
        invariant
            i <= keys@.len(),
            views(keys@) == group_keys_spec(groups_of(groups@)),
            out@.map_values(|e: (String, Vec<String>)| e.0@) == views(keys@).subrange(0, i as int),
            forall|k: int|
                0 <= k < out@.len() ==> views(#[trigger] out@[k].1@) == handlers_spec(groups_of(groups@), out@[k].0@),
        decreases keys@.len() - i,
    {
        let k = keys[i].clone();
        let hs = handlers_of(groups, k.as_str());
        let ghost kv = k@;
        let ghost before = out@.map_values(|e: (String, Vec<String>)| e.0@);
        out.push((k, hs));
        assert(out@.map_values(|e: (String, Vec<String>)| e.0@) =~= before.push(kv));
        assert(views(keys@).subrange(0, i + 1) =~= views(keys@).subrange(0, i as int).push(kv));
        i = i + 1;
    }
    assert(views(keys@).subrange(0, keys@.len() as int) =~= views(keys@));
    out
}

/// Generates the files of a service project for an API description.
/// `version` is the generator's own version, written into the sources.
pub fn generate_project(
    spec: &Spec,
    service_name: &str,
    merge: bool,
    style: &str,
    templates: Templates,
    version: &str,
    root_prefix_override: &str,
) -> (r: Result<Artifacts, GenerateError>)
    ensures
        match r {
            Ok(a) => project_spec(spec@, service_name@, merge, style@, templates@, version@, root_prefix_override@)
                == Ok::<Seq<ArtView>, GenErr>(files_view(a.files@)),
            Err(e) => project_spec(spec@, service_name@, merge, style@, templates@, version@, root_prefix_override@)
                == Err::<Seq<ArtView>, GenErr>(e@),
        },
{
    let service = snake(service_name);
    let st = match crate::rsctl::naming::parse_style(style) {
        Ok(st) => st,
        Err(msg) => {
            return Err(GenerateError::Style(msg));
        },
    };
    let group_handlers = group_handler_map(&spec.service.groups);
    let validated = any_validate_exec(&spec.types);
    let rest_features = if validated {
        owned("[\"validator\"]")
    } else {
        owned("[]")
    };
    let validator_dep = if validated {
        owned("validator = { version = \"0.19\", features = [\"derive\"] }")
    } else {
        String::new()
    };
    let root_prefix = if !root_prefix_override.is_empty() {
        owned(root_prefix_override)
    } else if !spec.info.root_prefix.as_str().is_empty() {
        spec.info.root_prefix.clone()
    } else {
        owned("/")
    };
    assert(root_prefix@ == root_prefix_choice(root_prefix_override@, spec@.info.root_prefix));
    let mws = middleware_list(&spec.service.groups);
    assert(spec@.groups =~= groups_of(spec.service.groups@));
    let fields = mw_field_lines(&mws);
    let assignments = mw_assign_lines(&mws);
    proof {
        assert(""@ =~= Seq::<char>::empty()) by {
            reveal_strlit("");
        }
    }
    let base_ctx = Context::new().set_str("version", version).set_str("serviceName", service.as_str()).set_str(
        "host",
        "0.0.0.0",
    ).set_str("port", "8888").set_str("imports", "").set_str("config", "crate::config::Config").set_str(
        "middleware",
        fields.as_str(),
    ).set_str("middlewareAssignment", assignments.as_str()).set_str("mainAttr", "#[tokio::main]").set_str(
        "rootPrefix",
        root_prefix.as_str(),
    ).set_str("serverStart", "");
    let generator = Generator {
        spec,
        merge,
        style: st,
        service_name: service,
        rsctl_version: owned(version),
        group_handlers,
        rest_features,
        validator_dep,
        auth_dep: String::new(),
        templates,
        base_ctx,
    };
    assert(generator.base_ctx@ == base_ctx_spec(
        version@,
        snake_spec(service_name@),
        mw_list(spec@.groups),
        root_prefix_choice(root_prefix_override@, spec@.info.root_prefix),
    ));
    assert(generator.gv().types == spec@.types);
    let mut files: Vec<Artifact> = Vec::new();
    match generator.run(&mut files) {
        Ok(_) => Ok(Artifacts { files }),
        Err(e) => Err(e),
    }
}

} // verus!
