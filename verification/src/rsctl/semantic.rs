//! From the syntax tree of an `.api` file to its [`Spec`].
use vstd::prelude::*;

use crate::rsctl::apispec::{
    Annotation, AnnotationView, Field, FieldView, Group, GroupView, HttpMethod, Info, InfoView,
    Route, RouteView, Service, Spec, SpecView, Syntax, Type, TypeDef, TypeDefView, TypeView,
};
use crate::rsctl::ast;
use crate::rsctl::ast::{AnnotationArgs, ArgsView, AstView, ItemView};
use crate::strmap::{seq_pairs_map, StrMap};
use crate::text::{
    ascii_lower_seq, chars_of, eq_ignore_case, has_prefix, lower_str, owned, push_char, push_str,
    starts_with, str_eq, string_of_range, trim, trim_bounds, trim_char, trim_char_bounds,
    trim_str,
};

verus! {

/// Why an `.api` file does not make a [`Spec`].
#[derive(Clone, Debug)]
pub enum SemanticError {
    /// A route's method, lower-cased, is not one of get/post/put/delete/patch.
    UnsupportedMethod(String),
    /// Two `service` blocks with different names.
    ServiceNameMismatch { expected: String, found: String },
}

pub enum SemanticErrorView {
    UnsupportedMethod(Seq<char>),
    ServiceNameMismatch(Seq<char>, Seq<char>),
}

impl View for SemanticError {
    type V = SemanticErrorView;

    open spec fn view(&self) -> SemanticErrorView {
        match self {
            SemanticError::UnsupportedMethod(m) => SemanticErrorView::UnsupportedMethod(m@),
            SemanticError::ServiceNameMismatch { expected, found } => SemanticErrorView::ServiceNameMismatch(expected@, found@),
        }
    }
}

pub open spec fn semantic_error_text(e: SemanticErrorView) -> Seq<char> {
    match e {
        SemanticErrorView::UnsupportedMethod(m) => "unsupported http method: "@ + m,
        SemanticErrorView::ServiceNameMismatch(a, b) => "service name mismatch: expected "@ + a + ", found "@ + b,
    }
}

impl SemanticError {
    pub fn message(&self) -> (s: String)
        ensures
            s@ == semantic_error_text(self@),
    {
        match self {
            SemanticError::UnsupportedMethod(m) => {
                let mut s = owned("unsupported http method: ");
                push_str(&mut s, m.as_str());
                s
            },
            SemanticError::ServiceNameMismatch { expected, found } => {
                let mut s = owned("service name mismatch: expected ");
                push_str(&mut s, expected.as_str());
                push_str(&mut s, ", found ");
                push_str(&mut s, found.as_str());
                s
            },
        }
    }
}

// ---------------------------------------------------------------------
// Small conversions
// ---------------------------------------------------------------------
/// A value in double quotes loses all leading and trailing quotes.
pub open spec fn unquote_spec(s: Seq<char>) -> Seq<char> {
    if s.len() >= 2 && s[0] == '"' && s.last() == '"' {
        trim_char(s, '"')
    } else {
        s
    }
}

pub fn unquote_if_needed(s: &str) -> (r: String)
    ensures
        r@ == unquote_spec(s@),
{
    let v = chars_of(s);
    if v.len() >= 2 && v[0] == '"' && v[v.len() - 1] == '"' {
        let (a, b) = trim_char_bounds(v.as_slice(), '"');
        string_of_range(v.as_slice(), a, b)
    } else {
        owned(s)
    }
}

/// The root prefix an `info` value gives: unquoted, trimmed, and rooted.
pub open spec fn root_prefix_of(v: Seq<char>) -> Seq<char> {
    let p = trim(unquote_spec(v));
    if p.len() > 0 && p[0] != '/' {
        seq!['/'] + p
    } else {
        p
    }
}

pub fn root_prefix_value(v: &str) -> (r: String)
    ensures
        r@ == root_prefix_of(v@),
{
    let u = unquote_if_needed(v);
    let p = trim_str(u.as_str());
    let pv = chars_of(p.as_str());
    if pv.len() > 0 && pv[0] != '/' {
        let mut s = String::new();
        push_char(&mut s, '/');
        push_str(&mut s, p.as_str());
        s
    } else {
        p
    }
}

pub open spec fn key_is(k: Seq<char>, name: Seq<char>) -> bool {
    ascii_lower_seq(k) == ascii_lower_seq(name)
}

/// The first non-empty unquoted value among the properties named `key`
/// (any case), or empty.
pub open spec fn first_value(props: Seq<(Seq<char>, Seq<char>)>, key: Seq<char>) -> Seq<char>
    decreases props.len(),
{
    if props.len() == 0 {
        Seq::empty()
    } else if key_is(props[0].0, key) && unquote_spec(props[0].1).len() > 0 {
        unquote_spec(props[0].1)
    } else {
        first_value(props.drop_first(), key)
    }
}

/// The last non-empty root prefix among the `root_prefix` properties, or empty.
pub open spec fn last_root_prefix(props: Seq<(Seq<char>, Seq<char>)>) -> Seq<char>
    decreases props.len(),
{
    if props.len() == 0 {
        Seq::empty()
    } else if key_is(props.last().0, "root_prefix"@) && root_prefix_of(props.last().1).len() > 0 {
        root_prefix_of(props.last().1)
    } else {
        last_root_prefix(props.drop_last())
    }
}

pub open spec fn info_spec(props: Seq<(Seq<char>, Seq<char>)>) -> InfoView {
    InfoView {
        title: first_value(props, "title"@),
        desc: first_value(props, "desc"@),
        version: first_value(props, "version"@),
        author: first_value(props, "author"@),
        email: first_value(props, "email"@),
        properties: seq_pairs_map(props),
        root_prefix: last_root_prefix(props),
    }
}

fn first_value_exec(props: &Vec<(String, String)>, key: &str) -> (r: String)
    ensures
        r@ == first_value(ast::pairs_view(props@), key@),
{
    let ghost pv = ast::pairs_view(props@);
    let mut i: usize = 0;
    assert(pv.subrange(0, pv.len() as int) =~= pv);
    while i < props.len()
        invariant
            i <= props@.len(),
            pv == ast::pairs_view(props@),
            first_value(pv, key@) == first_value(pv.subrange(i as int, pv.len() as int), key@),
        decreases props@.len() - i,
    {
        let ghost rest = pv.subrange(i as int, pv.len() as int);
        assert(rest.drop_first() =~= pv.subrange(i + 1, pv.len() as int));
        assert(rest[0] == (props@[i as int].0@, props@[i as int].1@));
        if eq_ignore_case(props[i].0.as_str(), key) {
            let u = unquote_if_needed(props[i].1.as_str());
            if !u.as_str().is_empty() {
                return u;
            }
        }
        i = i + 1;
    }
    String::new()
}

fn last_root_prefix_exec(props: &Vec<(String, String)>) -> (r: String)
    ensures
        r@ == last_root_prefix(ast::pairs_view(props@)),
{
    let ghost pv = ast::pairs_view(props@);
    let mut i: usize = props.len();
    proof {
        reveal_strlit("root_prefix");
    }
    assert(pv.subrange(0, pv.len() as int) =~= pv);
    while i > 0
        invariant
            i <= props@.len(),
            pv == ast::pairs_view(props@),
            last_root_prefix(pv) == last_root_prefix(pv.subrange(0, i as int)),
        decreases i,
    {
        let ghost pre = pv.subrange(0, i as int);
        assert(pre.drop_last() =~= pv.subrange(0, i - 1));
        assert(pre.last() == (props@[i - 1].0@, props@[i - 1].1@));
        if eq_ignore_case(props[i - 1].0.as_str(), "root_prefix") {
            let p = root_prefix_value(props[i - 1].1.as_str());
            if !p.as_str().is_empty() {
                return p;
            }
        }
        i = i - 1;
    }
    String::new()
}

fn info_from(props: &Vec<(String, String)>) -> (r: Info)
    ensures
        r@ == info_spec(ast::pairs_view(props@)),
{
    let mut map = StrMap::new();
    let ghost pv = ast::pairs_view(props@);
    let mut i: usize = 0;
    while i < props.len()
        invariant
            i <= props@.len(),
            pv == ast::pairs_view(props@),
            map@ == seq_pairs_map(pv.subrange(0, i as int)),
        decreases props@.len() - i,
    {
        assert(pv.subrange(0, i + 1).drop_last() =~= pv.subrange(0, i as int));
        map.insert(props[i].0.clone(), props[i].1.clone());
        i = i + 1;
    }
    assert(pv.subrange(0, props@.len() as int) =~= pv);
    proof {
        reveal_strlit("title");
        reveal_strlit("desc");
        reveal_strlit("version");
        reveal_strlit("author");
        reveal_strlit("email");
    }
    Info {
        title: first_value_exec(props, "title"),
        desc: first_value_exec(props, "desc"),
        version: first_value_exec(props, "version"),
        author: first_value_exec(props, "author"),
        email: first_value_exec(props, "email"),
        properties: map,
        root_prefix: last_root_prefix_exec(props),
    }
}

// ---------------------------------------------------------------------
// Types
// ---------------------------------------------------------------------
pub open spec fn is_primitive(t: Seq<char>) -> bool {
    t == "string"@ || t == "bool"@ || t == "int"@ || t == "int32"@ || t == "int64"@ || t == "uint"@
        || t == "uint32"@ || t == "uint64"@ || t == "float32"@ || t == "float64"@
}

/// An API type expression: `[]T`, `*T`, `interface{}`/`any`, a primitive
/// name, or any other name.
pub open spec fn type_expr_spec(s: Seq<char>) -> TypeView
    decreases s.len(),
{
    let t = trim(s);
    proof {
        crate::text::lemma_trim_len(s);
    }
    if t.len() == 0 {
        TypeView::Any
    } else if has_prefix(t, "[]"@) && t.len() >= 2 {
        TypeView::Array(Box::new(type_expr_spec(t.subrange(2, t.len() as int))))
    } else if t[0] == '*' {
        TypeView::Pointer(Box::new(type_expr_spec(t.drop_first())))
    } else if t == "interface{}"@ || t == "any"@ {
        TypeView::Any
    } else if is_primitive(t) {
        TypeView::Primitive(t)
    } else {
        TypeView::Ident(t)
    }
}

/// The ten primitive type names of the API language.
pub open spec fn primitive_names() -> Seq<Seq<char>> {
    seq![
        "string"@,
        "bool"@,
        "int"@,
        "int32"@,
        "int64"@,
        "uint"@,
        "uint32"@,
        "uint64"@,
        "float32"@,
        "float64"@,
    ]
}

/// Each primitive name, written as a type expression, is that primitive
/// type.
pub proof fn law_primitive_names(k: int)
    requires
        0 <= k < 10,
    ensures
        type_expr_spec(primitive_names()[k]) == TypeView::Primitive(primitive_names()[k]),
{
    reveal_strlit("string");
    reveal_strlit("bool");
    reveal_strlit("int");
    reveal_strlit("int32");
    reveal_strlit("int64");
    reveal_strlit("uint");
    reveal_strlit("uint32");
    reveal_strlit("uint64");
    reveal_strlit("float32");
    reveal_strlit("float64");
    reveal_strlit("[]");
    reveal_strlit("interface{}");
    reveal_strlit("any");
    let p = primitive_names()[k];
    assert(p.len() > 0);
    assert(('a' <= p[0] <= 'z') && (('a' <= p.last() <= 'z') || ('0' <= p.last() <= '9')));
    crate::text::lemma_trim_plain(p);
    assert(trim(p) == p);
    assert(!has_prefix(p, "[]"@)) by {
        if p.len() >= 2 {
            assert(p.subrange(0, 2)[0] == p[0]);
        }
    }
    assert(p[0] != '*');
    assert(p != "interface{}"@ && p != "any"@);
}

/// Only the ten primitive names are primitive types.
pub proof fn law_primitive_only(s: Seq<char>)
    ensures
        type_expr_spec(s) matches TypeView::Primitive(p) ==> primitive_names().contains(p),
{
    if let TypeView::Primitive(p) = type_expr_spec(s) {
        let n = primitive_names();
        if p == "string"@ { assert(n[0] == p); }
        else if p == "bool"@ { assert(n[1] == p); }
        else if p == "int"@ { assert(n[2] == p); }
        else if p == "int32"@ { assert(n[3] == p); }
        else if p == "int64"@ { assert(n[4] == p); }
        else if p == "uint"@ { assert(n[5] == p); }
        else if p == "uint32"@ { assert(n[6] == p); }
        else if p == "uint64"@ { assert(n[7] == p); }
        else if p == "float32"@ { assert(n[8] == p); }
        else { assert(n[9] == p); }
    }
}

fn is_primitive_exec(t: &str) -> (r: bool)
    ensures
        r == is_primitive(t@),
{
    str_eq(t, "string") || str_eq(t, "bool") || str_eq(t, "int") || str_eq(t, "int32") || str_eq(
        t,
        "int64",
    ) || str_eq(t, "uint") || str_eq(t, "uint32") || str_eq(t, "uint64") || str_eq(t, "float32")
        || str_eq(t, "float64")
}

pub fn parse_type_expr(s: &str) -> (r: Type)
    ensures
        r@ == type_expr_spec(s@),
    decreases s@.len(),
{
    let t = trim_str(s);
    proof {
        crate::text::lemma_trim_len(s@);
        reveal_strlit("[]");
    }
    let tv = chars_of(t.as_str());
    if tv.len() == 0 {
        return Type::Any;
    }
    let br = chars_of("[]");
    if starts_with(tv.as_slice(), br.as_slice()) && tv.len() >= 2 {
        let inner = string_of_range(tv.as_slice(), 2, tv.len());
        let it = parse_type_expr(inner.as_str());
        return Type::Array(Box::new(it));
    }
    if tv[0] == '*' {
        let inner = string_of_range(tv.as_slice(), 1, tv.len());
        assert(tv@.subrange(1, tv@.len() as int) =~= tv@.drop_first());
        let it = parse_type_expr(inner.as_str());
        return Type::Pointer(Box::new(it));
    }
    if str_eq(t.as_str(), "interface{}") || str_eq(t.as_str(), "any") {
        return Type::Any;
    }
    if is_primitive_exec(t.as_str()) {
        Type::Primitive(t)
    } else {
        Type::Ident(t)
    }
}

pub open spec fn field_spec(f: ast::FieldView) -> FieldView {
    FieldView { name: f.name, ty: type_expr_spec(f.ty), tag: f.tag }
}

pub open spec fn typedef_spec(t: ast::TypeDefView) -> TypeDefView {
    TypeDefView { name: t.name, fields: t.fields.map_values(|f: ast::FieldView| field_spec(f)) }
}

fn type_to_spec(t: &ast::TypeDef) -> (r: TypeDef)
    ensures
        r@ == typedef_spec(t@),
{
    let mut fields: Vec<Field> = Vec::new();
    let mut i: usize = 0;
    while i < t.fields.len()
        invariant
            i <= t.fields@.len(),
            fields@.len() == i,
            forall|k: int| 0 <= k < i ==> (#[trigger] fields@[k])@ == field_spec(t.fields@[k]@),
        decreases t.fields@.len() - i,
    {
        let f = &t.fields[i];
        let tag = match &f.tag {
            Some(s) => Some(s.clone()),
            None => None,
        };
        fields.push(Field { name: f.name.clone(), ty: parse_type_expr(f.ty.as_str()), tag });
        i = i + 1;
    }
    let r = TypeDef { name: t.name.clone(), fields };
    assert(r@.fields =~= typedef_spec(t@).fields);
    r
}

// ---------------------------------------------------------------------
// Routes and annotations
// ---------------------------------------------------------------------
pub open spec fn method_spec(m: Seq<char>) -> Result<HttpMethod, SemanticErrorView> {
    let l = ascii_lower_seq(m);
    if l == "get"@ {
        Ok(HttpMethod::Get)
    } else if l == "post"@ {
        Ok(HttpMethod::Post)
    } else if l == "put"@ {
        Ok(HttpMethod::Put)
    } else if l == "delete"@ {
        Ok(HttpMethod::Delete)
    } else if l == "patch"@ {
        Ok(HttpMethod::Patch)
    } else {
        Err(SemanticErrorView::UnsupportedMethod(l))
    }
}

pub fn parse_method(s: &str) -> (r: Result<HttpMethod, SemanticError>)
    ensures
        match r {
            Ok(m) => method_spec(s@) == Ok::<HttpMethod, SemanticErrorView>(m),
            Err(e) => method_spec(s@) == Err::<HttpMethod, SemanticErrorView>(e@),
        },
{
    let l = lower_str(s);
    if str_eq(l.as_str(), "get") {
        Ok(HttpMethod::Get)
    } else if str_eq(l.as_str(), "post") {
        Ok(HttpMethod::Post)
    } else if str_eq(l.as_str(), "put") {
        Ok(HttpMethod::Put)
    } else if str_eq(l.as_str(), "delete") {
        Ok(HttpMethod::Delete)
    } else if str_eq(l.as_str(), "patch") {
        Ok(HttpMethod::Patch)
    } else {
        Err(SemanticError::UnsupportedMethod(l))
    }
}

/// The trimmed text of the first annotation named `name`, when that
/// annotation has a single text argument.
pub open spec fn find_text(anns: Seq<ast::AnnotationView>, name: Seq<char>) -> Option<Seq<char>>
    decreases anns.len(),
{
    if anns.len() == 0 {
        None
    } else if anns[0].name == name {
        match anns[0].args {
            ArgsView::Str(s) => Some(trim(s)),
            _ => None,
        }
    } else {
        find_text(anns.drop_first(), name)
    }
}

fn find_text_exec(anns: &Vec<ast::Annotation>, name: &str) -> (r: Option<String>)
    ensures
        opt_seq(r) == find_text(ast::anns_view(anns@), name@),
{
    let ghost av = ast::anns_view(anns@);
    let mut i: usize = 0;
    assert(av.subrange(0, av.len() as int) =~= av);
    while i < anns.len()
        invariant
            i <= anns@.len(),
            av == ast::anns_view(anns@),
            find_text(av, name@) == find_text(av.subrange(i as int, av.len() as int), name@),
        decreases anns@.len() - i,
    {
        let ghost rest = av.subrange(i as int, av.len() as int);
        assert(rest.drop_first() =~= av.subrange(i + 1, av.len() as int));
        assert(rest[0] == anns@[i as int]@);
        if str_eq(anns[i].name.as_str(), name) {
            return match &anns[i].args {
                AnnotationArgs::Str(s) => Some(trim_str(s.as_str())),
                _ => None,
            };
        }
        i = i + 1;
    }
    None
}

pub open spec fn opt_seq(o: Option<String>) -> Option<Seq<char>> {
    match o {
        Some(s) => Some(s@),
        None => None,
    }
}

pub open spec fn route_spec(r: ast::RouteView) -> Result<RouteView, SemanticErrorView> {
    match method_spec(r.method) {
        Err(e) => Err(e),
        Ok(m) => Ok(
            RouteView {
                method: m,
                path: r.path,
                handler: match find_text(r.annotations, "handler"@) {
                    Some(h) => h,
                    None => Seq::empty(),
                },
                doc: find_text(r.annotations, "doc"@),
                request: match r.request {
                    Some(t) => Some(type_expr_spec(t)),
                    None => None,
                },
                response: match r.response {
                    Some(t) => Some(type_expr_spec(t)),
                    None => None,
                },
            },
        ),
    }
}

pub fn route_to_spec(route: &ast::Route) -> (r: Result<Route, SemanticError>)
    ensures
        match r {
            Ok(x) => route_spec(route@) == Ok::<RouteView, SemanticErrorView>(x@),
            Err(e) => route_spec(route@) == Err::<RouteView, SemanticErrorView>(e@),
        },
{
    let method = match parse_method(route.method.as_str()) {
        Ok(m) => m,
        Err(e) => {
            return Err(e);
        },
    };
    proof {
        reveal_strlit("handler");
        reveal_strlit("doc");
    }
    let handler = match find_text_exec(&route.annotations, "handler") {
        Some(h) => h,
        None => String::new(),
    };
    let doc = find_text_exec(&route.annotations, "doc");
    let request = match &route.request {
        Some(t) => Some(parse_type_expr(t.as_str())),
        None => None,
    };
    let response = match &route.response {
        Some(t) => Some(parse_type_expr(t.as_str())),
        None => None,
    };
    Ok(Route { method, path: route.path.clone(), handler, doc, request, response })
}

pub open spec fn annotation_spec(a: ast::AnnotationView) -> AnnotationView {
    AnnotationView {
        name: a.name,
        properties: match a.args {
            ArgsView::KeyValues(kv) => seq_pairs_map(kv),
            _ => Map::empty(),
        },
        text: match a.args {
            ArgsView::Str(s) => Some(s),
            _ => None,
        },
    }
}

fn annotation_to_spec(a: &ast::Annotation) -> (r: Annotation)
    ensures
        r@ == annotation_spec(a@),
{
    let mut properties = StrMap::new();
    let mut text: Option<String> = None;
    match &a.args {
        AnnotationArgs::Empty => {},
        AnnotationArgs::Str(s) => {
            text = Some(s.clone());
        },
        AnnotationArgs::KeyValues(kvs) => {
            let ghost pv = ast::pairs_view(kvs@);
            let mut i: usize = 0;
            while i < kvs.len()
                invariant
                    i <= kvs@.len(),
                    pv == ast::pairs_view(kvs@),
                    properties@ == seq_pairs_map(pv.subrange(0, i as int)),
                decreases kvs@.len() - i,
            {
                assert(pv.subrange(0, i + 1).drop_last() =~= pv.subrange(0, i as int));
                properties.insert(kvs[i].0.clone(), kvs[i].1.clone());
                i = i + 1;
            }
            assert(pv.subrange(0, kvs@.len() as int) =~= pv);
        },
    }
    Annotation { name: a.name.clone(), properties, text }
}

fn annotations_to_spec(src: &Vec<ast::Annotation>) -> (r: Vec<Annotation>)
    ensures
        r@.map_values(|a: Annotation| a@) == ast::anns_view(src@).map_values(
            |a: ast::AnnotationView| annotation_spec(a),
        ),
{
    let mut out: Vec<Annotation> = Vec::new();
    let mut i: usize = 0;
    while i < src.len()
        invariant
            i <= src@.len(),
            out@.len() == i,
            forall|k: int| 0 <= k < i ==> (#[trigger] out@[k])@ == annotation_spec(src@[k]@),
        decreases src@.len() - i,
    {
        out.push(annotation_to_spec(&src[i]));
        i = i + 1;
    }
    assert(out@.map_values(|a: Annotation| a@) =~= ast::anns_view(src@).map_values(
        |a: ast::AnnotationView| annotation_spec(a),
    ));
    out
}

/// The routes converted in order, or the first error.
pub open spec fn routes_spec(rs: Seq<ast::RouteView>) -> Result<Seq<RouteView>, SemanticErrorView>
    decreases rs.len(),
{
    if rs.len() == 0 {
        Ok(Seq::empty())
    } else {
        match routes_spec(rs.drop_last()) {
            Err(e) => Err(e),
            Ok(done) => match route_spec(rs.last()) {
                Err(e) => Err(e),
                Ok(r) => Ok(done.push(r)),
            },
        }
    }
}

pub open spec fn group_spec(s: ast::ServiceView) -> Result<GroupView, SemanticErrorView> {
    match routes_spec(s.routes) {
        Err(e) => Err(e),
        Ok(rs) => Ok(
            GroupView {
                annotations: s.annotations.map_values(|a: ast::AnnotationView| annotation_spec(a)),
                routes: rs,
            },
        ),
    }
}

fn routes_to_spec(src: &Vec<ast::Route>) -> (r: Result<Vec<Route>, SemanticError>)
    ensures
        match r {
            Ok(v) => routes_spec(src@.map_values(|x: ast::Route| x@)) == Ok::<Seq<RouteView>, SemanticErrorView>(v@.map_values(|x: Route| x@)),
            Err(e) => routes_spec(src@.map_values(|x: ast::Route| x@)) == Err::<Seq<RouteView>, SemanticErrorView>(e@),
        },
{
    let ghost sv = src@.map_values(|x: ast::Route| x@);
    let mut out: Vec<Route> = Vec::new();
    let mut i: usize = 0;
    assert(sv.subrange(0, 0) =~= Seq::<ast::RouteView>::empty());
    assert(out@.map_values(|x: Route| x@) =~= Seq::<RouteView>::empty());
    while i < src.len()
        invariant
            i <= src@.len(),
            sv == src@.map_values(|x: ast::Route| x@),
            routes_spec(sv.subrange(0, i as int)) == Ok::<Seq<RouteView>, SemanticErrorView>(out@.map_values(|x: Route| x@)),
        decreases src@.len() - i,
    {
        let ghost pre = sv.subrange(0, i as int);
        let ghost nxt = sv.subrange(0, i + 1);
        assert(nxt.drop_last() =~= pre);
        assert(nxt.last() == src@[i as int]@);
        match route_to_spec(&src[i]) {
            Ok(x) => {
                let ghost before = out@.map_values(|x: Route| x@);
                out.push(x);
                assert(out@.map_values(|x: Route| x@) =~= before.push(x@));
            },
            Err(e) => {
                proof {
                    lemma_routes_spec_err_prefix(sv, i + 1);
                }
                return Err(e);
            },
        }
        i = i + 1;
    }
    assert(sv.subrange(0, src@.len() as int) =~= sv);
    Ok(out)
}

/// An error in a prefix of the routes is the error of the whole list.
proof fn lemma_routes_spec_err_prefix(rs: Seq<ast::RouteView>, i: int)
    requires
        0 <= i <= rs.len(),
        routes_spec(rs.subrange(0, i)) is Err,
    ensures
        routes_spec(rs) == routes_spec(rs.subrange(0, i)),
    decreases rs.len() - i,
{
    if i < rs.len() {
        assert(rs.subrange(0, i + 1).drop_last() =~= rs.subrange(0, i));
        lemma_routes_spec_err_prefix(rs, i + 1);
    } else {
        assert(rs.subrange(0, i) =~= rs);
    }
}

fn service_to_group(svc: &ast::Service) -> (r: Result<Group, SemanticError>)
    ensures
        match r {
            Ok(g) => group_spec(svc@) == Ok::<GroupView, SemanticErrorView>(g@),
            Err(e) => group_spec(svc@) == Err::<GroupView, SemanticErrorView>(e@),
        },
{
    let routes = match routes_to_spec(&svc.routes) {
        Ok(rs) => rs,
        Err(e) => {
            return Err(e);
        },
    };
    let annotations = annotations_to_spec(&svc.annotations);
    Ok(Group { annotations, routes })
}

// ---------------------------------------------------------------------
// The whole file
// ---------------------------------------------------------------------
/// What the items seen so far have given: the service name, the service
/// groups, the routes outside any service, and the types.
pub struct FoldView {
    pub name: Option<Seq<char>>,
    pub groups: Seq<GroupView>,
    pub top: Seq<RouteView>,
    pub types: Seq<TypeDefView>,
}

pub open spec fn fold_step(st: FoldView, item: ItemView) -> Result<FoldView, SemanticErrorView> {
    match item {
        ItemView::Service(s) => {
            if st.name is Some && st.name->0 != s.name {
                Err(SemanticErrorView::ServiceNameMismatch(st.name->0, s.name))
            } else {
                match group_spec(s) {
                    Err(e) => Err(e),
                    Ok(g) => Ok(
                        FoldView {
                            name: Some(s.name),
                            groups: st.groups.push(g),
                            top: st.top,
                            types: st.types,
                        },
                    ),
                }
            }
        },
        ItemView::Route(r) => match route_spec(r) {
            Err(e) => Err(e),
            Ok(x) => Ok(FoldView { name: st.name, groups: st.groups, top: st.top.push(x), types: st.types }),
        },
        ItemView::Type(t) => Ok(
            FoldView { name: st.name, groups: st.groups, top: st.top, types: st.types.push(typedef_spec(t)) },
        ),
    }
}

/// The items taken in order, stopping at the first error.
pub open spec fn fold_items(items: Seq<ItemView>) -> Result<FoldView, SemanticErrorView>
    decreases items.len(),
{
    if items.len() == 0 {
        Ok(FoldView { name: None, groups: Seq::empty(), top: Seq::empty(), types: Seq::empty() })
    } else {
        match fold_items(items.drop_last()) {
            Err(e) => Err(e),
            Ok(st) => fold_step(st, items.last()),
        }
    }
}

/// The description an `.api` syntax tree stands for: the routes outside
/// any service come first, as a group without annotations; a file without
/// a service has an empty service name.
pub open spec fn ast_spec(a: AstView) -> Result<SpecView, SemanticErrorView> {
    match fold_items(a.items) {
        Err(e) => Err(e),
        Ok(st) => Ok(
            SpecView {
                info: info_spec(
                    match a.info {
                        Some(p) => p,
                        None => Seq::empty(),
                    },
                ),
                service_name: match st.name {
                    Some(n) => n,
                    None => Seq::empty(),
                },
                groups: if st.top.len() > 0 {
                    seq![GroupView { annotations: Seq::empty(), routes: st.top }] + st.groups
                } else {
                    st.groups
                },
                types: st.types,
            },
        ),
    }
}

/// The method is one of `get`, `post`, `put`, `delete`, `patch`, in any
/// ASCII case.
pub open spec fn method_known(m: Seq<char>) -> bool {
    let l = ascii_lower_seq(m);
    l == "get"@ || l == "post"@ || l == "put"@ || l == "delete"@ || l == "patch"@
}

/// Every route of the item, at top level or in a service, has a known method.
pub open spec fn item_methods_known(it: ItemView) -> bool {
    match it {
        ItemView::Route(r) => method_known(r.method),
        ItemView::Service(s) => forall|k: int| 0 <= k < s.routes.len() ==> method_known(#[trigger] s.routes[k].method),
        ItemView::Type(_) => true,
    }
}

/// All services of the items share one name.
pub open spec fn services_agree(items: Seq<ItemView>) -> bool {
    forall|i: int, j: int|
        0 <= i < items.len() && 0 <= j < items.len() && #[trigger] items[i] is Service && #[trigger] items[j] is Service
            ==> items[i]->Service_0.name == items[j]->Service_0.name
}

proof fn lemma_routes_spec_ok(rs: Seq<ast::RouteView>)
    ensures
        routes_spec(rs) is Ok <==> forall|k: int| 0 <= k < rs.len() ==> method_known(#[trigger] rs[k].method),
    decreases rs.len(),
{
    if rs.len() > 0 {
        lemma_routes_spec_ok(rs.drop_last());
        assert forall|k: int| 0 <= k < rs.len() - 1 implies rs.drop_last()[k] == rs[k] by {}
        if forall|k: int| 0 <= k < rs.len() ==> method_known(#[trigger] rs[k].method) {
            assert forall|k: int| 0 <= k < rs.drop_last().len() implies method_known(#[trigger] rs.drop_last()[k].method) by {
                assert(rs.drop_last()[k] == rs[k]);
            }
            assert(method_known(rs[rs.len() - 1].method));
        } else {
            let k = choose|k: int| 0 <= k < rs.len() && !method_known(#[trigger] rs[k].method);
            if k < rs.len() - 1 {
                assert(rs.drop_last()[k] == rs[k]);
            }
        }
    }
}

proof fn lemma_fold_items_ok(items: Seq<ItemView>)
    ensures
        fold_items(items) is Ok <==> services_agree(items) && forall|i: int| 0 <= i < items.len() ==> item_methods_known(#[trigger] items[i]),
        fold_items(items) matches Ok(st) ==> match st.name {
            None => forall|i: int| 0 <= i < items.len() ==> !(#[trigger] items[i] is Service),
            Some(n) => forall|i: int| 0 <= i < items.len() && #[trigger] items[i] is Service ==> items[i]->Service_0.name == n,
        },
        fold_items(items) is Ok && fold_items(items)->Ok_0.name is Some ==> exists|i: int|
            0 <= i < items.len() && #[trigger] items[i] is Service && items[i]->Service_0.name == fold_items(items)->Ok_0.name->0,
    decreases items.len(),
{
    if items.len() > 0 {
        let init = items.drop_last();
        let last = items.last();
        lemma_fold_items_ok(init);
        assert forall|i: int| 0 <= i < init.len() implies init[i] == items[i] by {}
        let good = services_agree(items) && forall|i: int| 0 <= i < items.len() ==> item_methods_known(#[trigger] items[i]);
        let good0 = services_agree(init) && forall|i: int| 0 <= i < init.len() ==> item_methods_known(#[trigger] init[i]);
        if good {
            assert(good0) by {
                assert forall|i: int| 0 <= i < init.len() implies item_methods_known(#[trigger] init[i]) by {
                    assert(init[i] == items[i]);
                }
                assert forall|i: int, j: int|
                    0 <= i < init.len() && 0 <= j < init.len() && #[trigger] init[i] is Service && #[trigger] init[j] is Service
                        implies init[i]->Service_0.name == init[j]->Service_0.name by {
                    assert(init[i] == items[i] && init[j] == items[j]);
                }
            }
        }
        if !good0 {
            if good {
                assert(false);
            }
            assert(fold_items(items) is Err);
        } else {
            let st = fold_items(init)->Ok_0;
            assert(item_methods_known(items[items.len() - 1]) ==> item_methods_known(last));
            match last {
                ItemView::Service(sv) => {
                    lemma_routes_spec_ok(sv.routes);
                    if good {
                        assert(item_methods_known(items[items.len() - 1]));
                        if st.name is Some {
                            let i0 = choose|i: int|
                                0 <= i < init.len() && #[trigger] init[i] is Service && init[i]->Service_0.name == st.name->0;
                            assert(init[i0] == items[i0]);
                            assert(items[i0] is Service && items[items.len() - 1] is Service);
                        }
                        assert(fold_items(items) is Ok);
                    } else {
                        if fold_items(items) is Ok {
                            assert forall|i: int| 0 <= i < items.len() implies item_methods_known(#[trigger] items[i]) by {
                                if i < init.len() {
                                    assert(init[i] == items[i]);
                                }
                            }
                            assert forall|i: int, j: int|
                                0 <= i < items.len() && 0 <= j < items.len() && #[trigger] items[i] is Service
                                    && #[trigger] items[j] is Service implies items[i]->Service_0.name == items[j]->Service_0.name by {
                                if i < init.len() {
                                    assert(init[i] == items[i]);
                                }
                                if j < init.len() {
                                    assert(init[j] == items[j]);
                                }
                            }
                            assert(false);
                        }
                    }
                    if let Ok(st2) = fold_items(items) {
                        assert(items[items.len() - 1] is Service);
                        assert forall|i: int| 0 <= i < items.len() && #[trigger] items[i] is Service implies items[i]->Service_0.name
                            == sv.name by {
                            if i < init.len() {
                                assert(init[i] == items[i]);
                            }
                        }
                    }
                },
                ItemView::Route(r) => {
                    if fold_items(items) is Ok {
                        assert forall|i: int| 0 <= i < items.len() implies item_methods_known(#[trigger] items[i]) by {
                            if i < init.len() {
                                assert(init[i] == items[i]);
                            }
                        }
                        assert forall|i: int, j: int|
                            0 <= i < items.len() && 0 <= j < items.len() && #[trigger] items[i] is Service
                                && #[trigger] items[j] is Service implies items[i]->Service_0.name == items[j]->Service_0.name by {
                            assert(init[i] == items[i]);
                            assert(init[j] == items[j]);
                        }
                    }
                    if let Ok(st2) = fold_items(items) {
                        if st.name is Some {
                            let i0 = choose|i: int|
                                0 <= i < init.len() && #[trigger] init[i] is Service && init[i]->Service_0.name == st.name->0;
                            assert(init[i0] == items[i0]);
                        }
                        assert forall|i: int| 0 <= i < items.len() implies #[trigger] items[i] is Service ==> (match st2.name {
                            None => false,
                            Some(n) => items[i]->Service_0.name == n,
                        }) by {
                            if i < init.len() {
                                assert(init[i] == items[i]);
                            }
                        }
                    }
                },
                ItemView::Type(t) => {
                    assert forall|i: int| 0 <= i < items.len() implies item_methods_known(#[trigger] items[i]) by {
                        if i < init.len() {
                            assert(init[i] == items[i]);
                        }
                    }
                    assert forall|i: int, j: int|
                        0 <= i < items.len() && 0 <= j < items.len() && #[trigger] items[i] is Service
                            && #[trigger] items[j] is Service implies items[i]->Service_0.name == items[j]->Service_0.name by {
                        assert(init[i] == items[i]);
                        assert(init[j] == items[j]);
                    }
                    if let Ok(st2) = fold_items(items) {
                        if st.name is Some {
                            let i0 = choose|i: int|
                                0 <= i < init.len() && #[trigger] init[i] is Service && init[i]->Service_0.name == st.name->0;
                            assert(init[i0] == items[i0]);
                        }
                        assert forall|i: int| 0 <= i < items.len() implies #[trigger] items[i] is Service ==> (match st2.name {
                            None => false,
                            Some(n) => items[i]->Service_0.name == n,
                        }) by {
                            if i < init.len() {
                                assert(init[i] == items[i]);
                            }
                        }
                    }
                },
            }
        }
    }
}

/// A syntax tree is refused exactly when two services have different names
/// or some route, at top level or in a service, has a method other than
/// `get`, `post`, `put`, `delete` and `patch` (in any ASCII case).
pub proof fn law_ast_refused(a: AstView)
    ensures
        ast_spec(a) is Err <==> !services_agree(a.items) || exists|i: int|
            0 <= i < a.items.len() && !item_methods_known(#[trigger] a.items[i]),
{
    lemma_fold_items_ok(a.items);
}

/// An accepted tree's service name is the name every service in it has,
/// and empty when it has no service.
pub proof fn law_ast_service_name(a: AstView)
    ensures
        ast_spec(a) matches Ok(sp) ==> {
            &&& forall|i: int| 0 <= i < a.items.len() && #[trigger] a.items[i] is Service ==> sp.service_name == a.items[i]->Service_0.name
            &&& (forall|i: int| 0 <= i < a.items.len() ==> !(#[trigger] a.items[i] is Service)) ==> sp.service_name.len() == 0
        },
{
    lemma_fold_items_ok(a.items);
    if let Ok(st) = fold_items(a.items) {
        if st.name is Some {
            let i0 = choose|i: int|
                0 <= i < a.items.len() && #[trigger] a.items[i] is Service && a.items[i]->Service_0.name == st.name->0;
        }
    }
}

/// The routes written outside any service, in order.
pub open spec fn top_routes(items: Seq<ItemView>) -> Seq<ast::RouteView>
    decreases items.len(),
{
    if items.len() == 0 {
        Seq::empty()
    } else {
        top_routes(items.drop_last()) + match items.last() {
            ItemView::Route(r) => seq![r],
            _ => Seq::empty(),
        }
    }
}

/// The services, in order.
pub open spec fn services_of(items: Seq<ItemView>) -> Seq<ast::ServiceView>
    decreases items.len(),
{
    if items.len() == 0 {
        Seq::empty()
    } else {
        services_of(items.drop_last()) + match items.last() {
            ItemView::Service(sv) => seq![sv],
            _ => Seq::empty(),
        }
    }
}

/// The type definitions, in order.
pub open spec fn types_of(items: Seq<ItemView>) -> Seq<ast::TypeDefView>
    decreases items.len(),
{
    if items.len() == 0 {
        Seq::empty()
    } else {
        types_of(items.drop_last()) + match items.last() {
            ItemView::Type(t) => seq![t],
            _ => Seq::empty(),
        }
    }
}

proof fn lemma_fold_items_parts(items: Seq<ItemView>)
    ensures
        fold_items(items) matches Ok(st) ==> {
            &&& routes_spec(top_routes(items)) == Ok::<Seq<RouteView>, SemanticErrorView>(st.top)
            &&& st.top.len() == top_routes(items).len()
            &&& st.groups.len() == services_of(items).len()
            &&& forall|k: int|
                0 <= k < st.groups.len() ==> group_spec(#[trigger] services_of(items)[k]) == Ok::<GroupView, SemanticErrorView>(
                    st.groups[k],
                )
            &&& st.types == types_of(items).map_values(|t: ast::TypeDefView| typedef_spec(t))
        },
    decreases items.len(),
{
    if items.len() > 0 {
        let init = items.drop_last();
        lemma_fold_items_parts(init);
        if let Ok(st0) = fold_items(init) {
            if let Ok(st) = fold_items(items) {
                match items.last() {
                    ItemView::Route(r) => {
                        let tr = top_routes(items);
                        assert(tr == top_routes(init).push(r));
                        assert(tr.drop_last() =~= top_routes(init));
                        assert(services_of(items) =~= services_of(init));
                        assert(types_of(items) =~= types_of(init));
                    },
                    ItemView::Service(sv) => {
                        assert(top_routes(items) =~= top_routes(init));
                        assert(services_of(items) =~= services_of(init).push(sv));
                        assert(types_of(items) =~= types_of(init));
                        assert forall|k: int| 0 <= k < st.groups.len() implies group_spec(#[trigger] services_of(items)[k])
                            == Ok::<GroupView, SemanticErrorView>(st.groups[k]) by {
                            if k < st0.groups.len() {
                                assert(services_of(items)[k] == services_of(init)[k]);
                            }
                        }
                    },
                    ItemView::Type(t) => {
                        assert(top_routes(items) =~= top_routes(init));
                        assert(services_of(items) =~= services_of(init));
                        assert(types_of(items) =~= types_of(init).push(t));
                        assert(st.types =~= types_of(items).map_values(|t: ast::TypeDefView| typedef_spec(t)));
                    },
                }
            }
        }
    }
}

/// An accepted tree's description: a first group without annotations holds
/// the routes written outside any service (only when there are such
/// routes), then one group per service in order, holding the service's
/// routes; the types are the tree's type definitions in order; and the root
/// prefix is empty or starts with `/`.
pub proof fn law_ast_structure(a: AstView)
    ensures
        ast_spec(a) matches Ok(sp) ==> {
            let top = top_routes(a.items);
            let svs = services_of(a.items);
            let lead = if top.len() > 0 { 1int } else { 0int };
            &&& routes_spec(top) is Ok
            &&& sp.groups.len() == lead + svs.len()
            &&& top.len() > 0 ==> sp.groups[0] == (GroupView { annotations: Seq::empty(), routes: routes_spec(top)->Ok_0 })
            &&& forall|k: int|
                0 <= k < svs.len() ==> group_spec(#[trigger] svs[k]) == Ok::<GroupView, SemanticErrorView>(sp.groups[lead + k])
            &&& sp.types == types_of(a.items).map_values(|t: ast::TypeDefView| typedef_spec(t))
            &&& sp.info.root_prefix.len() == 0 || sp.info.root_prefix[0] == '/'
        },
{
    lemma_fold_items_parts(a.items);
    let props = match a.info {
        Some(p) => p,
        None => Seq::empty(),
    };
    lemma_root_prefix_rooted(props);
    if let Ok(st) = fold_items(a.items) {
        let top = top_routes(a.items);
        let svs = services_of(a.items);
        if let Ok(sp) = ast_spec(a) {
            if top.len() > 0 {
                assert forall|k: int| 0 <= k < svs.len() implies group_spec(#[trigger] svs[k]) == Ok::<GroupView, SemanticErrorView>(
                    sp.groups[1 + k],
                ) by {
                    assert(sp.groups[1 + k] == st.groups[k]);
                }
            }
        }
    }
}

proof fn lemma_root_prefix_rooted(props: Seq<(Seq<char>, Seq<char>)>)
    ensures
        last_root_prefix(props).len() == 0 || last_root_prefix(props)[0] == '/',
    decreases props.len(),
{
    if props.len() > 0 {
        lemma_root_prefix_rooted(props.drop_last());
    }
}

/// An error in a prefix of the items is the error of the whole list.
proof fn lemma_fold_err_prefix(items: Seq<ItemView>, i: int)
    requires
        0 <= i <= items.len(),
        fold_items(items.subrange(0, i)) is Err,
    ensures
        fold_items(items) == fold_items(items.subrange(0, i)),
    decreases items.len() - i,
{
    if i < items.len() {
        assert(items.subrange(0, i + 1).drop_last() =~= items.subrange(0, i));
        lemma_fold_err_prefix(items, i + 1);
    } else {
        assert(items.subrange(0, i) =~= items);
    }
}

pub open spec fn groups_view(v: Seq<Group>) -> Seq<GroupView> {
    v.map_values(|g: Group| g@)
}

pub open spec fn routes_view(v: Seq<Route>) -> Seq<RouteView> {
    v.map_values(|r: Route| r@)
}

pub open spec fn types_view(v: Seq<TypeDef>) -> Seq<TypeDefView> {
    v.map_values(|t: TypeDef| t@)
}

/// Turns a syntax tree into a [`Spec`], or says why it cannot.
pub fn to_spec(a: &ast::Ast) -> (r: Result<Spec, SemanticError>)
    ensures
        match r {
            Ok(sp) => ast_spec(a@) == Ok::<SpecView, SemanticErrorView>(sp@) && sp.imports@.len() == 0
                && sp.syntax.version@.len() == 0,
            Err(e) => ast_spec(a@) == Err::<SpecView, SemanticErrorView>(e@),
        },
{
    let ghost iv = a.items@.map_values(|i: ast::Item| i@);
    let mut name: Option<String> = None;
    let mut groups: Vec<Group> = Vec::new();
    let mut top: Vec<Route> = Vec::new();
    let mut types: Vec<TypeDef> = Vec::new();
    let mut i: usize = 0;
    assert(iv.subrange(0, 0) =~= Seq::<ItemView>::empty());
    assert(groups_view(groups@) =~= Seq::<GroupView>::empty());
    assert(routes_view(top@) =~= Seq::<RouteView>::empty());
    assert(types_view(types@) =~= Seq::<TypeDefView>::empty());
    while i < a.items.len()
        invariant
            i <= a.items@.len(),
            iv == a.items@.map_values(|i: ast::Item| i@),
            fold_items(iv.subrange(0, i as int)) == Ok::<FoldView, SemanticErrorView>(
                FoldView {
                    name: opt_seq(name),
                    groups: groups_view(groups@),
                    top: routes_view(top@),
                    types: types_view(types@),
                },
            ),
        decreases a.items@.len() - i,
    {
        let ghost pre = iv.subrange(0, i as int);
        let ghost nxt = iv.subrange(0, i + 1);
        assert(nxt.drop_last() =~= pre);
        assert(nxt.last() == a.items@[i as int]@);
        match &a.items[i] {
            ast::Item::Service(svc) => {
                let clash = match &name {
                    Some(n) => !str_eq(n.as_str(), svc.name.as_str()),
                    None => false,
                };
                if clash {
                    let expected = match &name {
                        Some(n) => n.clone(),
                        None => String::new(),
                    };
                    proof {
                        lemma_fold_err_prefix(iv, i + 1);
                    }
                    return Err(SemanticError::ServiceNameMismatch { expected, found: svc.name.clone() });
                }
                match service_to_group(svc) {
                    Ok(g) => {
                        let ghost before = groups_view(groups@);
                        groups.push(g);
                        assert(groups_view(groups@) =~= before.push(g@));
                        name = Some(svc.name.clone());
                    },
                    Err(e) => {
                        proof {
                            lemma_fold_err_prefix(iv, i + 1);
                        }
                        return Err(e);
                    },
                }
            },
            ast::Item::Route(rt) => {
                match route_to_spec(rt) {
                    Ok(x) => {
                        let ghost before = routes_view(top@);
                        top.push(x);
                        assert(routes_view(top@) =~= before.push(x@));
                    },
                    Err(e) => {
                        proof {
                            lemma_fold_err_prefix(iv, i + 1);
                        }
                        return Err(e);
                    },
                }
            },
            ast::Item::Type(t) => {
                let ghost before = types_view(types@);
                let td = type_to_spec(t);
                types.push(td);
                assert(types_view(types@) =~= before.push(td@));
            },
        }
        i = i + 1;
    }
    assert(iv.subrange(0, a.items@.len() as int) =~= iv);
    let ghost st_groups = groups_view(groups@);
    let ghost st_top = routes_view(top@);
    if top.len() > 0 {
        let first = Group { annotations: Vec::new(), routes: top };
        assert(first@.annotations =~= Seq::<AnnotationView>::empty());
        groups.insert(0, first);
        assert(groups_view(groups@) =~= seq![first@] + st_groups);
    }
    let info = match &a.info {
        Some(inf) => info_from(&inf.properties),
        None => info_from(&Vec::new()),
    };
    proof {
        if a.info is None {
            assert(ast::pairs_view(Seq::<(String, String)>::empty()) =~= Seq::empty());
        }
    }
    let service_name = match name {
        Some(n) => n,
        None => String::new(),
    };
    Ok(
        Spec {
            info,
            syntax: Syntax::empty(),
            imports: Vec::new(),
            service: Service { name: service_name, groups },
            types,
        },
    )
}

} // verus!
