//! An OpenAPI v3 document for an API description.
use vstd::prelude::*;

use crate::json::{json_view, members_insert, members_set, members_view, Json, JsonView};
use crate::rsctl::apispec::{
    Annotation, AnnotationView, Field, FieldView, Group, GroupView, HttpMethod, Route, RouteView, Spec,
    SpecView, Type, TypeDef, TypeDefView, TypeView,
};
use crate::rsctl::generate::{field_tags, first_tag};
use crate::text::{
    ascii_lower_seq, chars_of, concat2, find_from, join_seqs, join_strings, lower_str, occurs_at,
    owned, push_char, push_str, str_eq, string_of_range, trim, trim_char, trim_char_bounds, views,
};

verus! {

// ---------------------------------------------------------------------
// Small JSON builders
// ---------------------------------------------------------------------
pub open spec fn js(s: Seq<char>) -> JsonView {
    JsonView::Str(s)
}

pub open spec fn obj1(k1: Seq<char>, v1: JsonView) -> JsonView {
    JsonView::Obj(seq![(k1, v1)])
}

pub open spec fn obj2(k1: Seq<char>, v1: JsonView, k2: Seq<char>, v2: JsonView) -> JsonView {
    JsonView::Obj(seq![(k1, v1), (k2, v2)])
}

fn jstr(s: &str) -> (j: Json)
    ensures
        j@ == js(s@),
{
    Json::Str(owned(s))
}

fn jobj1(k1: &str, v1: Json) -> (j: Json)
    ensures
        j@ == obj1(k1@, v1@),
{
    let j = Json::Obj(vec![(owned(k1), v1)]);
    assert(json_view(j)->Obj_0 =~= seq![(k1@, v1@)]);
    j
}

fn jobj2(k1: &str, v1: Json, k2: &str, v2: Json) -> (j: Json)
    ensures
        j@ == obj2(k1@, v1@, k2@, v2@),
{
    let j = Json::Obj(vec![(owned(k1), v1), (owned(k2), v2)]);
    assert(json_view(j)->Obj_0 =~= seq![(k1@, v1@), (k2@, v2@)]);
    j
}

/// Whether `p` occurs in `s`.
pub open spec fn has_sub(s: Seq<char>, p: Seq<char>) -> bool {
    exists|i: int| occurs_at(s, p, i)
}

fn contains_sub(s: &str, p: &str) -> (r: bool)
    ensures
        r == has_sub(s@, p@),
{
    let v = chars_of(s);
    let w = chars_of(p);
    match find_from(v.as_slice(), w.as_slice(), 0) {
        Some(i) => true,
        None => {
            assert forall|i: int| !occurs_at(s@, p@, i) by {
                if i < 0 {
                }
            }
            false
        },
    }
}

// ---------------------------------------------------------------------
// Schemas
// ---------------------------------------------------------------------
/// The schema of a primitive type, by what its lower-cased name contains.
pub open spec fn primitive_schema(name: Seq<char>) -> JsonView {
    let n = ascii_lower_seq(name);
    if has_sub(n, "int64"@) {
        obj2("type"@, js("integer"@), "format"@, js("int64"@))
    } else if has_sub(n, "int32"@) || n == "int"@ {
        obj2("type"@, js("integer"@), "format"@, js("int32"@))
    } else if has_sub(n, "float"@) || has_sub(n, "double"@) {
        obj1("type"@, js("number"@))
    } else if has_sub(n, "bool"@) {
        obj1("type"@, js("boolean"@))
    } else {
        obj1("type"@, js("string"@))
    }
}

fn primitive_schema_exec(name: &str) -> (j: Json)
    ensures
        j@ == primitive_schema(name@),
{
    let n = lower_str(name);
    if contains_sub(n.as_str(), "int64") {
        jobj2("type", jstr("integer"), "format", jstr("int64"))
    } else if contains_sub(n.as_str(), "int32") || str_eq(n.as_str(), "int") {
        jobj2("type", jstr("integer"), "format", jstr("int32"))
    } else if contains_sub(n.as_str(), "float") || contains_sub(n.as_str(), "double") {
        jobj1("type", jstr("number"))
    } else if contains_sub(n.as_str(), "bool") {
        jobj1("type", jstr("boolean"))
    } else {
        jobj1("type", jstr("string"))
    }
}

/// The JSON schema of an API type.
pub open spec fn type_schema(t: TypeView) -> JsonView
    decreases t,
{
    match t {
        TypeView::Any => obj1("type"@, js("object"@)),
        TypeView::Primitive(p) => primitive_schema(p),
        TypeView::Ident(n) => obj2("type"@, js("object"@), "title"@, js(n)),
        TypeView::Array(inner) => obj2("type"@, js("array"@), "items"@, type_schema(*inner)),
        TypeView::Pointer(inner) => type_schema(*inner),
        TypeView::MapType { key, value } => obj2("type"@, js("object"@), "additionalProperties"@, type_schema(*value)),
    }
}

pub fn type_to_schema(t: &Type) -> (j: Json)
    ensures
        j@ == type_schema(t@),
    decreases t,
{
    match t {
        Type::Any => jobj1("type", jstr("object")),
        Type::Primitive(p) => primitive_schema_exec(p.as_str()),
        Type::Ident(n) => jobj2("type", jstr("object"), "title", jstr(n.as_str())),
        Type::Array(inner) => jobj2("type", jstr("array"), "items", type_to_schema(&**inner)),
        Type::Pointer(inner) => type_to_schema(&**inner),
        Type::MapType { key, value } => jobj2("type", jstr("object"), "additionalProperties", type_to_schema(&**value)),
    }
}

/// Whether a member list has a member called `k`.
pub open spec fn has_member(ms: Seq<(Seq<char>, JsonView)>, k: Seq<char>) -> bool {
    exists|i: int| 0 <= i < ms.len() && ms[i].0 == k
}

fn has_member_exec(ms: &Vec<(String, Json)>, k: &str) -> (r: bool)
    ensures
        r == has_member(members_view(ms@), k@),
{
    let mut i: usize = 0;
    while i < ms.len()
        invariant
            i <= ms@.len(),
            forall|j: int| 0 <= j < i ==> ms@[j].0@ != k@,
        decreases ms@.len() - i,
    {
        if str_eq(ms[i].0.as_str(), k) {
            assert(members_view(ms@)[i as int].0 == k@);
            return true;
        }
        i = i + 1;
    }
    proof {
        assert forall|j: int| 0 <= j < members_view(ms@).len() implies members_view(ms@)[j].0 != k@ by {
            assert(members_view(ms@)[j].0 == ms@[j].0@);
        }
    }
    false
}

/// A request's schema: a reference for a defined type, else the schema itself.
pub open spec fn type_schema_ref(t: TypeView, schemas: Seq<(Seq<char>, JsonView)>) -> JsonView {
    match t {
        TypeView::Ident(name) => if has_member(schemas, name) {
            obj1("$ref"@, js("#/components/schemas/"@ + name))
        } else {
            type_schema(t)
        },
        _ => type_schema(t),
    }
}

fn type_to_schema_ref(t: &Type, schemas: &Vec<(String, Json)>) -> (j: Json)
    ensures
        j@ == type_schema_ref(t@, members_view(schemas@)),
{
    match t {
        Type::Ident(name) => {
            if has_member_exec(schemas, name.as_str()) {
                let r = concat2("#/components/schemas/", name.as_str());
                jobj1("$ref", Json::Str(r))
            } else {
                type_to_schema(t)
            }
        },
        _ => type_to_schema(t),
    }
}

/// A field's JSON name: its `json` tag name unless empty or `-`, else its name.
pub open spec fn field_json_name(f: FieldView) -> Seq<char> {
    match first_tag(field_tags(f), "json"@) {
        Some(t) => if t.name.len() > 0 && t.name != "-"@ {
            t.name
        } else {
            f.name
        },
        None => f.name,
    }
}

fn field_json_name_exec(f: &Field) -> (r: String)
    ensures
        r@ == field_json_name(f@),
{
    let tags = f.tags();
    assert(tags@ == field_tags(f@));
    proof {
        reveal_strlit("json");
        reveal_strlit("-");
    }
    match crate::rsctl::generate::get_tag(&tags, "json") {
        Some(t) => {
            if !t.name.as_str().is_empty() && !str_eq(t.name.as_str(), "-") {
                t.name.clone()
            } else {
                f.name.clone()
            }
        },
        None => f.name.clone(),
    }
}

/// The properties of a type's fields, by JSON name; a later field hides an earlier one.
pub open spec fn props_of(fs: Seq<FieldView>) -> Seq<(Seq<char>, JsonView)>
    decreases fs.len(),
{
    if fs.len() == 0 {
        Seq::empty()
    } else {
        members_set(props_of(fs.drop_last()), field_json_name(fs.last()), type_schema(fs.last().ty))
    }
}

/// The component schemas of all types; a later type hides an earlier one.
pub open spec fn schemas_of(types: Seq<TypeDefView>) -> Seq<(Seq<char>, JsonView)>
    decreases types.len(),
{
    if types.len() == 0 {
        Seq::empty()
    } else {
        members_set(
            schemas_of(types.drop_last()),
            types.last().name,
            obj2("type"@, js("object"@), "properties"@, JsonView::Obj(props_of(types.last().fields))),
        )
    }
}

fn props_exec(fs: &Vec<Field>) -> (r: Vec<(String, Json)>)
    ensures
        members_view(r@) == props_of(fs@.map_values(|f: Field| f@)),
{
    let ghost fv = fs@.map_values(|f: Field| f@);
    let mut props: Vec<(String, Json)> = Vec::new();
    let mut i: usize = 0;
    assert(fv.subrange(0, 0) =~= Seq::<FieldView>::empty());
    assert(members_view(props@) =~= Seq::<(Seq<char>, JsonView)>::empty());
    while i < fs.len()
        invariant
            i <= fs@.len(),
            fv == fs@.map_values(|f: Field| f@),
            members_view(props@) == props_of(fv.subrange(0, i as int)),
        decreases fs@.len() - i,
    {
        assert(fv.subrange(0, i + 1).drop_last() =~= fv.subrange(0, i as int));
        assert(fv.subrange(0, i + 1).last() == fs@[i as int]@);
        let name = field_json_name_exec(&fs[i]);
        let schema = type_to_schema(&fs[i].ty);
        members_insert(&mut props, name, schema);
        i = i + 1;
    }
    assert(fv.subrange(0, fs@.len() as int) =~= fv);
    props
}

fn schemas_exec(types: &Vec<TypeDef>) -> (r: Vec<(String, Json)>)
    ensures
        members_view(r@) == schemas_of(types@.map_values(|t: TypeDef| t@)),
{
    let ghost tv = types@.map_values(|t: TypeDef| t@);
    let mut schemas: Vec<(String, Json)> = Vec::new();
    let mut i: usize = 0;
    assert(tv.subrange(0, 0) =~= Seq::<TypeDefView>::empty());
    assert(members_view(schemas@) =~= Seq::<(Seq<char>, JsonView)>::empty());
    while i < types.len()
        invariant
            i <= types@.len(),
            tv == types@.map_values(|t: TypeDef| t@),
            members_view(schemas@) == schemas_of(tv.subrange(0, i as int)),
        decreases types@.len() - i,
    {
        assert(tv.subrange(0, i + 1).drop_last() =~= tv.subrange(0, i as int));
        assert(tv.subrange(0, i + 1).last() == types@[i as int]@);
        let props = props_exec(&types[i].fields);
        let ghost pv = members_view(props@);
        let pj = Json::Obj(props);
        proof {
            crate::json::lemma_obj_view(pj);
        }
        assert(pj@ == JsonView::Obj(pv));
        let schema = jobj2("type", jstr("object"), "properties", pj);
        members_insert(&mut schemas, types[i].name.clone(), schema);
        i = i + 1;
    }
    assert(tv.subrange(0, types@.len() as int) =~= tv);
    schemas
}

// ---------------------------------------------------------------------
// Paths
// ---------------------------------------------------------------------
/// The prefix of the first `@server` annotation (any case).
pub open spec fn group_prefix_ci(anns: Seq<AnnotationView>) -> Option<Seq<char>>
    decreases anns.len(),
{
    if anns.len() == 0 {
        None
    } else if ascii_lower_seq(anns[0].name) == ascii_lower_seq("server"@) {
        if anns[0].properties.contains_key("prefix"@) {
            Some(anns[0].properties["prefix"@])
        } else {
            None
        }
    } else {
        group_prefix_ci(anns.drop_first())
    }
}

fn group_prefix_exec(g: &Group) -> (r: Option<String>)
    ensures
        crate::rsctl::apispec::opt_view(r) == group_prefix_ci(g@.annotations),
{
    let ghost av = g@.annotations;
    let mut i: usize = 0;
    assert(av.subrange(0, av.len() as int) =~= av);
    proof {
        reveal_strlit("server");
    }
    while i < g.annotations.len()
        invariant
            i <= g.annotations@.len(),
            av == g@.annotations,
            group_prefix_ci(av) == group_prefix_ci(av.subrange(i as int, av.len() as int)),
        decreases g.annotations@.len() - i,
    {
        let ghost rest = av.subrange(i as int, av.len() as int);
        assert(rest.drop_first() =~= av.subrange(i + 1, av.len() as int));
        assert(rest[0] == g.annotations@[i as int]@);
        if crate::text::eq_ignore_case(g.annotations[i].name.as_str(), "server") {
            return match g.annotations[i].properties.get("prefix") {
                Some(p) => Some(p.clone()),
                None => None,
            };
        }
        i = i + 1;
    }
    None
}

/// The non-empty parts, without outer slashes.
pub open spec fn path_part(p: Seq<char>) -> Seq<Seq<char>> {
    if p.len() == 0 || trim_char(p, '/').len() == 0 {
        Seq::empty()
    } else {
        seq![trim_char(p, '/')]
    }
}

/// Root, prefix and path joined with single slashes, rooted.
pub open spec fn join_paths_spec(root: Seq<char>, prefix: Seq<char>, path: Seq<char>) -> Seq<char> {
    "/"@ + join_seqs(path_part(root) + path_part(prefix) + path_part(path), "/"@)
}

/// `str::replace("//", "/")`: each pair of slashes, from the left, becomes one.
pub open spec fn collapse_pairs(s: Seq<char>) -> Seq<char>
    decreases s.len(),
{
    if s.len() == 0 {
        s
    } else if s.len() >= 2 && s[0] == '/' && s[1] == '/' {
        seq!['/'] + collapse_pairs(s.subrange(2, s.len() as int))
    } else {
        seq![s[0]] + collapse_pairs(s.drop_first())
    }
}

pub open spec fn normalize_openapi_path(p: Seq<char>) -> Seq<char> {
    let out = collapse_pairs(p);
    if out.len() > 0 && out[0] == '/' {
        out
    } else {
        "/"@ + out
    }
}

fn push_part(parts: &mut Vec<String>, p: &str)
    ensures
        views(final(parts)@) == views(old(parts)@) + path_part(p@),
{
    if p.is_empty() {
        assert(views(parts@) =~= views(old(parts)@) + Seq::<Seq<char>>::empty());
        return;
    }
    let v = chars_of(p);
    let (a, b) = trim_char_bounds(v.as_slice(), '/');
    if a == b {
        assert(views(parts@) =~= views(old(parts)@) + Seq::<Seq<char>>::empty());
        return;
    }
    let t = string_of_range(v.as_slice(), a, b);
    let ghost tv = t@;
    parts.push(t);
    assert(views(parts@) =~= views(old(parts)@) + seq![tv]);
}

pub fn join_paths(root: &str, prefix: &str, path: &str) -> (r: String)
    ensures
        r@ == join_paths_spec(root@, prefix@, path@),
{
    let mut parts: Vec<String> = Vec::new();
    push_part(&mut parts, root);
    push_part(&mut parts, prefix);
    push_part(&mut parts, path);
    let j = join_strings(&parts, "/");
    assert(views(parts@) =~= path_part(root@) + path_part(prefix@) + path_part(path@));
    concat2("/", j.as_str())
}

pub fn normalize_path(p: &str) -> (r: String)
    ensures
        r@ == normalize_openapi_path(p@),
{
    let v = chars_of(p);
    let mut out: Vec<char> = Vec::new();
    let mut i: usize = 0;
    assert(v@.subrange(0, v@.len() as int) =~= v@);
    while i < v.len()
        invariant
            i <= v@.len(),
            v@ == p@,
            out@ + collapse_pairs(v@.subrange(i as int, v@.len() as int)) == collapse_pairs(p@),
        decreases v@.len() - i,
    {
        let ghost rest = v@.subrange(i as int, v@.len() as int);
        let ghost before = out@;
        if i + 1 < v.len() && v[i] == '/' && v[i + 1] == '/' {
            assert(rest.subrange(2, rest.len() as int) =~= v@.subrange(i + 2, v@.len() as int));
            out.push('/');
            assert(out@ + collapse_pairs(v@.subrange(i + 2, v@.len() as int)) =~= before + collapse_pairs(rest));
            i = i + 2;
        } else {
            assert(rest.drop_first() =~= v@.subrange(i + 1, v@.len() as int));
            out.push(v[i]);
            assert(out@ + collapse_pairs(v@.subrange(i + 1, v@.len() as int)) =~= before + collapse_pairs(rest));
            i = i + 1;
        }
    }
    assert(collapse_pairs(v@.subrange(i as int, v@.len() as int)) =~= Seq::<char>::empty());
    assert(out@ =~= collapse_pairs(p@));
    if out.len() > 0 && out[0] == '/' {
        crate::text::string_of(out.as_slice())
    } else {
        let s = crate::text::string_of(out.as_slice());
        concat2("/", s.as_str())
    }
}

pub open spec fn method_key(m: HttpMethod) -> Seq<char> {
    match m {
        HttpMethod::Get => "get"@,
        HttpMethod::Post => "post"@,
        HttpMethod::Put => "put"@,
        HttpMethod::Delete => "delete"@,
        HttpMethod::Patch => "patch"@,
    }
}

pub fn method_str(m: HttpMethod) -> (r: String)
    ensures
        r@ == method_key(m),
{
    match m {
        HttpMethod::Get => owned("get"),
        HttpMethod::Post => owned("post"),
        HttpMethod::Put => owned("put"),
        HttpMethod::Delete => owned("delete"),
        HttpMethod::Patch => owned("patch"),
    }
}

/// The operation object of a route.
pub open spec fn route_op(r: RouteView, schemas: Seq<(Seq<char>, JsonView)>) -> Seq<(Seq<char>, JsonView)> {
    (match r.doc {
        Some(d) => seq![("summary"@, js(d))],
        None => Seq::empty(),
    }) + seq![("operationId"@, js(r.handler))] + (match r.request {
        Some(t) => seq![
            (
                "requestBody"@,
                obj2(
                    "required"@,
                    JsonView::Bool(true),
                    "content"@,
                    obj1("application/json"@, obj1("schema"@, type_schema_ref(t, schemas))),
                ),
            ),
        ],
        None => Seq::empty(),
    }) + seq![("responses"@, obj1("200"@, obj1("description"@, js("OK"@))))]
}

/// The value of the first member called `k`.
#[verifier::opaque]
pub open spec fn member_get(ms: Seq<(Seq<char>, JsonView)>, k: Seq<char>) -> Option<JsonView> {
    if exists|i: int| 0 <= i < ms.len() && ms[i].0 == k {
        let i = choose|i: int| 0 <= i < ms.len() && ms[i].0 == k && forall|j: int| 0 <= j < i ==> ms[j].0 != k;
        Some(ms[i].1)
    } else {
        None
    }
}

/// The paths object after adding an operation under a path and a method.
pub open spec fn paths_add(
    paths: Seq<(Seq<char>, JsonView)>,
    full: Seq<char>,
    method: Seq<char>,
    op: Seq<(Seq<char>, JsonView)>,
) -> Seq<(Seq<char>, JsonView)> {
    match member_get(paths, full) {
        Some(JsonView::Obj(ms)) => members_set(paths, full, JsonView::Obj(members_set(ms, method, JsonView::Obj(op)))),
        Some(_) => paths,
        None => members_set(paths, full, JsonView::Obj(seq![(method, JsonView::Obj(op))])),
    }
}

pub open spec fn paths_routes(
    paths: Seq<(Seq<char>, JsonView)>,
    root: Seq<char>,
    prefix: Seq<char>,
    rs: Seq<RouteView>,
    schemas: Seq<(Seq<char>, JsonView)>,
) -> Seq<(Seq<char>, JsonView)>
    decreases rs.len(),
{
    if rs.len() == 0 {
        paths
    } else {
        let p = paths_routes(paths, root, prefix, rs.drop_last(), schemas);
        let r = rs.last();
        paths_add(p, normalize_openapi_path(join_paths_spec(root, prefix, r.path)), method_key(r.method), route_op(r, schemas))
    }
}

/// The paths object of all routes, group after group.
pub open spec fn paths_of(gs: Seq<GroupView>, root: Seq<char>, schemas: Seq<(Seq<char>, JsonView)>) -> Seq<(Seq<char>, JsonView)>
    decreases gs.len(),
{
    if gs.len() == 0 {
        Seq::empty()
    } else {
        let prefix = match group_prefix_ci(gs.last().annotations) {
            Some(p) => p,
            None => Seq::empty(),
        };
        paths_routes(paths_of(gs.drop_last(), root, schemas), root, prefix, gs.last().routes, schemas)
    }
}

/// `i` is the first position of a member called `k`.
pub open spec fn first_at(ms: Seq<(Seq<char>, JsonView)>, k: Seq<char>, i: int) -> bool {
    0 <= i < ms.len() && ms[i].0 == k && forall|j: int| 0 <= j < i ==> ms[j].0 != k
}

proof fn lemma_first_unique(ms: Seq<(Seq<char>, JsonView)>, k: Seq<char>, i: int, j: int)
    requires
        first_at(ms, k, i),
        first_at(ms, k, j),
    ensures
        i == j,
{
    if i < j {
        assert(ms[i].0 != k);
    } else if j < i {
        assert(ms[j].0 != k);
    }
}

proof fn lemma_member_get_first(ms: Seq<(Seq<char>, JsonView)>, k: Seq<char>, i: int)
    requires
        first_at(ms, k, i),
    ensures
        member_get(ms, k) == Some(ms[i].1),
{
    reveal(member_get);
    assert(exists|i: int| 0 <= i < ms.len() && ms[i].0 == k);
    let c = choose|c: int| 0 <= c < ms.len() && ms[c].0 == k && forall|j: int| 0 <= j < c ==> ms[j].0 != k;
    assert(first_at(ms, k, c));
    lemma_first_unique(ms, k, i, c);
}

proof fn lemma_member_get_none(ms: Seq<(Seq<char>, JsonView)>, k: Seq<char>)
    requires
        forall|i: int| 0 <= i < ms.len() ==> ms[i].0 != k,
    ensures
        member_get(ms, k) is None,
{
    reveal(member_get);
}

/// A key present in `ms` has a first position.
proof fn lemma_first_exists(ms: Seq<(Seq<char>, JsonView)>, k: Seq<char>, i: int)
    requires
        0 <= i < ms.len(),
        ms[i].0 == k,
    ensures
        exists|f: int| first_at(ms, k, f),
    decreases i,
{
    if exists|j: int| 0 <= j < i && ms[j].0 == k {
        let j = choose|j: int| 0 <= j < i && ms[j].0 == k;
        lemma_first_exists(ms, k, j);
    } else {
        assert(first_at(ms, k, i));
    }
}

/// Setting a member: it is then found with the new value, and every other
/// member is found as before.
proof fn lemma_members_set_get(ms: Seq<(Seq<char>, JsonView)>, k: Seq<char>, v: JsonView, k2: Seq<char>)
    ensures
        member_get(members_set(ms, k, v), k) == Some(v),
        k2 != k ==> member_get(members_set(ms, k, v), k2) == member_get(ms, k2),
{
    let r = members_set(ms, k, v);
    reveal(members_set);
    if exists|i: int| 0 <= i < ms.len() && ms[i].0 == k {
        let i0 = choose|i: int| 0 <= i < ms.len() && ms[i].0 == k && forall|j: int| 0 <= j < i ==> ms[j].0 != k;
        let w = choose|i: int| 0 <= i < ms.len() && ms[i].0 == k;
        lemma_first_exists(ms, k, w);
        assert(first_at(ms, k, i0));
        assert(r == ms.update(i0, (k, v)));
        assert(first_at(r, k, i0));
        lemma_member_get_first(r, k, i0);
    } else {
        assert(r == ms.push((k, v)));
        assert(first_at(r, k, ms.len() as int));
        lemma_member_get_first(r, k, ms.len() as int);
    }
    if k2 != k {
        assert forall|i: int| 0 <= i < r.len() && r[i].0 == k2 implies i < ms.len() && r[i] == ms[i] by {}
        if exists|i: int| 0 <= i < ms.len() && ms[i].0 == k2 {
            let w = choose|i: int| 0 <= i < ms.len() && ms[i].0 == k2;
            lemma_first_exists(ms, k2, w);
            let f = choose|f: int| first_at(ms, k2, f);
            assert forall|j: int| 0 <= j < f implies r[j].0 != k2 by {
                assert(r[j].0 == ms[j].0);
            }
            assert(r[f] == ms[f]);
            assert(first_at(r, k2, f));
            lemma_member_get_first(ms, k2, f);
            lemma_member_get_first(r, k2, f);
        } else {
            assert forall|i: int| 0 <= i < r.len() implies r[i].0 != k2 by {
                if i < ms.len() {
                    assert(r[i].0 == ms[i].0);
                }
            }
            lemma_member_get_none(ms, k2);
            lemma_member_get_none(r, k2);
        }
    }
}

/// The operation under a path and a method, if the paths object has one.
pub open spec fn op_at(paths: Seq<(Seq<char>, JsonView)>, full: Seq<char>, method: Seq<char>) -> Option<JsonView> {
    match member_get(paths, full) {
        Some(JsonView::Obj(ms)) => member_get(ms, method),
        _ => None,
    }
}

/// Every path of the paths object maps to an object.
pub open spec fn all_objs(paths: Seq<(Seq<char>, JsonView)>) -> bool {
    forall|i: int| 0 <= i < paths.len() ==> (#[trigger] paths[i]).1 is Obj
}

proof fn lemma_member_get_obj(ms: Seq<(Seq<char>, JsonView)>, k: Seq<char>)
    requires
        all_objs(ms),
    ensures
        member_get(ms, k) is Some ==> member_get(ms, k)->0 is Obj,
{
    if exists|i: int| 0 <= i < ms.len() && ms[i].0 == k {
        let w = choose|i: int| 0 <= i < ms.len() && ms[i].0 == k;
        lemma_first_exists(ms, k, w);
        let f = choose|f: int| first_at(ms, k, f);
        lemma_member_get_first(ms, k, f);
        assert(ms[f].1 is Obj);
    } else {
        lemma_member_get_none(ms, k);
    }
}

/// Adding an operation: it is then found under its path and method, every
/// other path and method keeps its operation, and all paths stay objects.
proof fn lemma_paths_add(
    paths: Seq<(Seq<char>, JsonView)>,
    full: Seq<char>,
    method: Seq<char>,
    op: Seq<(Seq<char>, JsonView)>,
    f2: Seq<char>,
    m2: Seq<char>,
)
    requires
        all_objs(paths),
    ensures
        all_objs(paths_add(paths, full, method, op)),
        op_at(paths_add(paths, full, method, op), full, method) == Some(JsonView::Obj(op)),
        !(f2 == full && m2 == method) ==> op_at(paths_add(paths, full, method, op), f2, m2) == op_at(paths, f2, m2),
{
    lemma_member_get_obj(paths, full);
    let r = paths_add(paths, full, method, op);
    let newv = match member_get(paths, full) {
        Some(JsonView::Obj(ms)) => JsonView::Obj(members_set(ms, method, JsonView::Obj(op))),
        _ => JsonView::Obj(seq![(method, JsonView::Obj(op))]),
    };
    assert(r == members_set(paths, full, newv));
    lemma_members_set_get(paths, full, newv, f2);
    assert(all_objs(r)) by {
        reveal(members_set);
        if exists|i: int| 0 <= i < paths.len() && paths[i].0 == full {
            let i0 = choose|i: int| 0 <= i < paths.len() && paths[i].0 == full && forall|j: int| 0 <= j < i ==> paths[j].0 != full;
            let w = choose|i: int| 0 <= i < paths.len() && paths[i].0 == full;
            lemma_first_exists(paths, full, w);
            assert(r == paths.update(i0, (full, newv)));
        }
    }
    match member_get(paths, full) {
        Some(JsonView::Obj(ms)) => {
            lemma_members_set_get(ms, method, JsonView::Obj(op), m2);
        },
        _ => {
            let one = seq![(method, JsonView::Obj(op))];
            assert(first_at(one, method, 0));
            lemma_member_get_first(one, method, 0);
            if f2 == full && m2 != method {
                lemma_member_get_none(one, m2);
            }
        },
    }
}

/// The path and method of a route's operation.
pub open spec fn route_slot(root: Seq<char>, prefix: Seq<char>, r: RouteView) -> (Seq<char>, Seq<char>) {
    (normalize_openapi_path(join_paths_spec(root, prefix, r.path)), method_key(r.method))
}

proof fn lemma_paths_routes_objs(
    paths: Seq<(Seq<char>, JsonView)>,
    root: Seq<char>,
    prefix: Seq<char>,
    rs: Seq<RouteView>,
    schemas: Seq<(Seq<char>, JsonView)>,
)
    requires
        all_objs(paths),
    ensures
        all_objs(paths_routes(paths, root, prefix, rs, schemas)),
    decreases rs.len(),
{
    if rs.len() > 0 {
        lemma_paths_routes_objs(paths, root, prefix, rs.drop_last(), schemas);
        let p = paths_routes(paths, root, prefix, rs.drop_last(), schemas);
        let (full, m) = route_slot(root, prefix, rs.last());
        lemma_paths_add(p, full, m, route_op(rs.last(), schemas), full, m);
    }
}

proof fn lemma_paths_routes_other(
    paths: Seq<(Seq<char>, JsonView)>,
    root: Seq<char>,
    prefix: Seq<char>,
    rs: Seq<RouteView>,
    schemas: Seq<(Seq<char>, JsonView)>,
    f2: Seq<char>,
    m2: Seq<char>,
)
    requires
        all_objs(paths),
        forall|j: int| 0 <= j < rs.len() ==> #[trigger] route_slot(root, prefix, rs[j]) != (f2, m2),
    ensures
        op_at(paths_routes(paths, root, prefix, rs, schemas), f2, m2) == op_at(paths, f2, m2),
    decreases rs.len(),
{
    if rs.len() > 0 {
        let init = rs.drop_last();
        assert forall|j: int| 0 <= j < init.len() implies #[trigger] route_slot(root, prefix, init[j]) != (f2, m2) by {
            assert(init[j] == rs[j]);
        }
        lemma_paths_routes_other(paths, root, prefix, init, schemas, f2, m2);
        lemma_paths_routes_objs(paths, root, prefix, init, schemas);
        let p = paths_routes(paths, root, prefix, init, schemas);
        let (full, m) = route_slot(root, prefix, rs.last());
        assert(route_slot(root, prefix, rs[rs.len() - 1]) != (f2, m2));
        lemma_paths_add(p, full, m, route_op(rs.last(), schemas), f2, m2);
    }
}

proof fn lemma_paths_routes_last(
    paths: Seq<(Seq<char>, JsonView)>,
    root: Seq<char>,
    prefix: Seq<char>,
    rs: Seq<RouteView>,
    schemas: Seq<(Seq<char>, JsonView)>,
    i: int,
)
    requires
        all_objs(paths),
        0 <= i < rs.len(),
        forall|j: int| i < j < rs.len() ==> #[trigger] route_slot(root, prefix, rs[j]) != route_slot(root, prefix, rs[i]),
    ensures
        op_at(paths_routes(paths, root, prefix, rs, schemas), route_slot(root, prefix, rs[i]).0, route_slot(root, prefix, rs[i]).1)
            == Some(JsonView::Obj(route_op(rs[i], schemas))),
{
    let (f, m) = route_slot(root, prefix, rs[i]);
    let front = rs.subrange(0, i + 1);
    let back = rs.subrange(i + 1, rs.len() as int);
    assert(front.drop_last() =~= rs.subrange(0, i));
    assert(front.last() == rs[i]);
    lemma_paths_routes_objs(paths, root, prefix, rs.subrange(0, i), schemas);
    let p0 = paths_routes(paths, root, prefix, rs.subrange(0, i), schemas);
    lemma_paths_add(p0, f, m, route_op(rs[i], schemas), f, m);
    lemma_paths_routes_objs(paths, root, prefix, front, schemas);
    let p1 = paths_routes(paths, root, prefix, front, schemas);
    assert forall|j: int| 0 <= j < back.len() implies #[trigger] route_slot(root, prefix, back[j]) != (f, m) by {
        assert(back[j] == rs[i + 1 + j]);
    }
    lemma_paths_routes_other(p1, root, prefix, back, schemas, f, m);
    lemma_paths_routes_split(paths, root, prefix, rs, schemas, i + 1);
}

/// Adding routes in two runs is adding them all.
proof fn lemma_paths_routes_split(
    paths: Seq<(Seq<char>, JsonView)>,
    root: Seq<char>,
    prefix: Seq<char>,
    rs: Seq<RouteView>,
    schemas: Seq<(Seq<char>, JsonView)>,
    n: int,
)
    requires
        0 <= n <= rs.len(),
    ensures
        paths_routes(paths, root, prefix, rs, schemas) == paths_routes(
            paths_routes(paths, root, prefix, rs.subrange(0, n), schemas),
            root,
            prefix,
            rs.subrange(n, rs.len() as int),
            schemas,
        ),
    decreases rs.len(),
{
    if rs.len() == n {
        assert(rs.subrange(0, n) =~= rs);
        assert(rs.subrange(n, rs.len() as int).len() == 0);
    } else {
        let init = rs.drop_last();
        lemma_paths_routes_split(paths, root, prefix, init, schemas, n);
        assert(init.subrange(0, n) =~= rs.subrange(0, n));
        let back = rs.subrange(n, rs.len() as int);
        assert(back.drop_last() =~= init.subrange(n, init.len() as int));
        assert(back.last() == rs.last());
    }
}

/// The path prefix of a group: its `server` annotation's `prefix`, or empty.
pub open spec fn group_pfx(g: GroupView) -> Seq<char> {
    match group_prefix_ci(g.annotations) {
        Some(p) => p,
        None => Seq::empty(),
    }
}

/// No route after route `i` of group `g` (later in that group, or in a later
/// group) has the path and method `(f, m)`.
pub open spec fn last_at_slot(gs: Seq<GroupView>, root: Seq<char>, g: int, i: int, f: Seq<char>, m: Seq<char>) -> bool {
    &&& forall|j: int| i < j < gs[g].routes.len() ==> route_slot(root, group_pfx(gs[g]), #[trigger] gs[g].routes[j]) != (f, m)
    &&& forall|h: int, j: int|
        g < h < gs.len() && 0 <= j < gs[h].routes.len() ==> route_slot(root, group_pfx(gs[h]), #[trigger] gs[h].routes[j]) != (f, m)
}

proof fn lemma_paths_of(gs: Seq<GroupView>, root: Seq<char>, schemas: Seq<(Seq<char>, JsonView)>, f: Seq<char>, m: Seq<char>)
    ensures
        all_objs(paths_of(gs, root, schemas)),
        forall|g: int, i: int|
            0 <= g < gs.len() && 0 <= i < gs[g].routes.len() && route_slot(root, group_pfx(gs[g]), #[trigger] gs[g].routes[i])
                == (f, m) && last_at_slot(gs, root, g, i, f, m) ==> op_at(paths_of(gs, root, schemas), f, m) == Some(
                JsonView::Obj(route_op(gs[g].routes[i], schemas)),
            ),
    decreases gs.len(),
{
    if gs.len() > 0 {
        let init = gs.drop_last();
        let l = gs.len() - 1;
        let last = gs[l];
        lemma_paths_of(init, root, schemas, f, m);
        let p = paths_of(init, root, schemas);
        assert(paths_of(gs, root, schemas) == paths_routes(p, root, group_pfx(last), last.routes, schemas));
        lemma_paths_routes_objs(p, root, group_pfx(last), last.routes, schemas);
        assert forall|g: int, i: int|
            0 <= g < gs.len() && 0 <= i < gs[g].routes.len() && route_slot(root, group_pfx(gs[g]), #[trigger] gs[g].routes[i])
                == (f, m) && last_at_slot(gs, root, g, i, f, m) implies op_at(paths_of(gs, root, schemas), f, m) == Some(
                JsonView::Obj(route_op(gs[g].routes[i], schemas)),
            ) by {
            if g == l {
                assert(route_slot(root, group_pfx(last), last.routes[i]) == (f, m));
                lemma_paths_routes_last(p, root, group_pfx(last), last.routes, schemas, i);
            } else {
                assert(init[g] == gs[g]);
                assert forall|j: int| 0 <= j < last.routes.len() implies #[trigger] route_slot(root, group_pfx(last), last.routes[j])
                    != (f, m) by {
                    assert(route_slot(root, group_pfx(gs[l]), gs[l].routes[j]) != (f, m));
                }
                assert(last_at_slot(init, root, g, i, f, m)) by {
                    assert forall|h: int, j: int|
                        g < h < init.len() && 0 <= j < init[h].routes.len() implies route_slot(root, group_pfx(init[h]), #[trigger] init[h].routes[j])
                            != (f, m) by {
                        assert(init[h] == gs[h]);
                        assert(route_slot(root, group_pfx(gs[h]), gs[h].routes[j]) != (f, m));
                    }
                }
                assert(route_slot(root, group_pfx(init[g]), init[g].routes[i]) == (f, m));
                lemma_paths_routes_other(p, root, group_pfx(last), last.routes, schemas, f, m);
            }
        }
    }
}

/// In the OpenAPI document, the operation under a route's path (root,
/// group prefix and route path joined and normalized) and lower-case
/// method is that route's operation, whose `operationId` is the route's
/// handler, when no later route has the same path and method: the last
/// route written wins.
pub proof fn law_openapi_last_route_wins(sp: SpecView, g: int, i: int)
    requires
        0 <= g < sp.groups.len(),
        0 <= i < sp.groups[g].routes.len(),
        ({
            let root = if sp.info.root_prefix.len() > 0 { sp.info.root_prefix } else { "/"@ };
            let (f, m) = route_slot(root, group_pfx(sp.groups[g]), sp.groups[g].routes[i]);
            last_at_slot(sp.groups, root, g, i, f, m)
        }),
    ensures
        ({
            let root = if sp.info.root_prefix.len() > 0 { sp.info.root_prefix } else { "/"@ };
            let (f, m) = route_slot(root, group_pfx(sp.groups[g]), sp.groups[g].routes[i]);
            let op = route_op(sp.groups[g].routes[i], schemas_of(sp.types));
            &&& openapi_doc(sp)->Obj_0[2] == ("paths"@, JsonView::Obj(paths_of(sp.groups, root, schemas_of(sp.types))))
            &&& op_at(paths_of(sp.groups, root, schemas_of(sp.types)), f, m) == Some(JsonView::Obj(op))
            &&& op.contains(("operationId"@, js(sp.groups[g].routes[i].handler)))
        }),
{
    let root = if sp.info.root_prefix.len() > 0 { sp.info.root_prefix } else { "/"@ };
    let r = sp.groups[g].routes[i];
    let (f, m) = route_slot(root, group_pfx(sp.groups[g]), r);
    lemma_paths_of(sp.groups, root, schemas_of(sp.types), f, m);
    let op = route_op(r, schemas_of(sp.types));
    let pre: Seq<(Seq<char>, JsonView)> = match r.doc {
        Some(d) => seq![("summary"@, js(d))],
        None => Seq::empty(),
    };
    assert(op[pre.len() as int] == ("operationId"@, js(r.handler)));
}

/// `ms` has a member called `k`.
pub open spec fn has_key(ms: Seq<(Seq<char>, JsonView)>, k: Seq<char>) -> bool {
    exists|i: int| 0 <= i < ms.len() && #[trigger] ms[i].0 == k
}

/// Some type is called `n`.
pub open spec fn names_type(types: Seq<TypeDefView>, n: Seq<char>) -> bool {
    exists|j: int| 0 <= j < types.len() && #[trigger] types[j].name == n
}

proof fn lemma_members_set_keys(ms: Seq<(Seq<char>, JsonView)>, k: Seq<char>, v: JsonView, n: Seq<char>)
    ensures
        has_key(members_set(ms, k, v), n) <==> has_key(ms, n) || n == k,
{
    reveal(members_set);
    let r = members_set(ms, k, v);
    if exists|i: int| 0 <= i < ms.len() && ms[i].0 == k {
        let i0 = choose|i: int| 0 <= i < ms.len() && ms[i].0 == k && forall|j: int| 0 <= j < i ==> ms[j].0 != k;
        let w = choose|i: int| 0 <= i < ms.len() && ms[i].0 == k;
        lemma_first_exists(ms, k, w);
        assert(r == ms.update(i0, (k, v)));
        if has_key(r, n) {
            let i = choose|i: int| 0 <= i < r.len() && #[trigger] r[i].0 == n;
            assert(r[i].0 == ms[i].0);
        }
        if has_key(ms, n) {
            let i = choose|i: int| 0 <= i < ms.len() && #[trigger] ms[i].0 == n;
            assert(r[i].0 == ms[i].0);
        }
        if n == k {
            assert(r[i0].0 == k);
        }
    } else {
        assert(r == ms.push((k, v)));
        if has_key(r, n) {
            let i = choose|i: int| 0 <= i < r.len() && #[trigger] r[i].0 == n;
            if i < ms.len() {
                assert(r[i] == ms[i]);
            }
        }
        if has_key(ms, n) {
            let i = choose|i: int| 0 <= i < ms.len() && #[trigger] ms[i].0 == n;
            assert(r[i] == ms[i]);
        }
        if n == k {
            assert(r[ms.len() as int].0 == k);
        }
    }
}

proof fn lemma_schemas_keys(types: Seq<TypeDefView>, n: Seq<char>)
    ensures
        has_key(schemas_of(types), n) <==> names_type(types, n),
    decreases types.len(),
{
    if types.len() > 0 {
        let init = types.drop_last();
        lemma_schemas_keys(init, n);
        lemma_members_set_keys(
            schemas_of(init),
            types.last().name,
            obj2("type"@, js("object"@), "properties"@, JsonView::Obj(props_of(types.last().fields))),
            n,
        );
        if names_type(types, n) {
            let j = choose|j: int| 0 <= j < types.len() && #[trigger] types[j].name == n;
            if j < init.len() {
                assert(init[j] == types[j]);
            }
        }
        if names_type(init, n) {
            let j = choose|j: int| 0 <= j < init.len() && #[trigger] init[j].name == n;
            assert(init[j] == types[j]);
        }
        if n == types.last().name {
            assert(types[types.len() - 1].name == n);
        }
    }
}

/// The schema of the last type called `types[j].name` is an object whose
/// properties are built from that type's fields.
pub proof fn law_type_schema(types: Seq<TypeDefView>, j: int)
    requires
        0 <= j < types.len(),
        forall|k: int| j < k < types.len() ==> #[trigger] types[k].name != types[j].name,
    ensures
        member_get(schemas_of(types), types[j].name) == Some(
            obj2("type"@, js("object"@), "properties"@, JsonView::Obj(props_of(types[j].fields))),
        ),
    decreases types.len(),
{
    let init = types.drop_last();
    let l = types.last();
    let v = obj2("type"@, js("object"@), "properties"@, JsonView::Obj(props_of(l.fields)));
    lemma_members_set_get(schemas_of(init), l.name, v, types[j].name);
    if j < types.len() - 1 {
        assert(init[j] == types[j]);
        assert forall|k: int| j < k < init.len() implies #[trigger] init[k].name != init[j].name by {
            assert(init[k] == types[k]);
        }
        law_type_schema(init, j);
    }
}

/// A field whose `json` tag gives a name other than `-` is listed in its
/// type's schema properties under that name; the properties are exactly
/// the names so given, or the field names of fields without such a tag.
pub proof fn law_props_json_names(fs: Seq<FieldView>)
    ensures
        forall|i: int|
            0 <= i < fs.len() && #[trigger] first_tag(field_tags(fs[i]), "json"@) is Some && first_tag(field_tags(fs[i]), "json"@)->0.name.len()
                > 0 && first_tag(field_tags(fs[i]), "json"@)->0.name != "-"@ ==> has_key(
                props_of(fs),
                first_tag(field_tags(fs[i]), "json"@)->0.name,
            ),
        forall|i: int|
            0 <= i < fs.len() && (#[trigger] first_tag(field_tags(fs[i]), "json"@) matches Some(t) ==> t.name.len() == 0
                || t.name == "-"@) ==> has_key(props_of(fs), fs[i].name),
        forall|k: Seq<char>|
            #[trigger] has_key(props_of(fs), k) ==> exists|i: int|
                0 <= i < fs.len() && (#[trigger] fs[i].name == k || (first_tag(field_tags(fs[i]), "json"@) is Some
                    && first_tag(field_tags(fs[i]), "json"@)->0.name == k)),
{
    assert forall|i: int| 0 <= i < fs.len() implies has_key(props_of(fs), #[trigger] field_json_name(fs[i])) by {
        props_has_json_name(fs, i);
    }
    assert forall|k: Seq<char>| #[trigger] has_key(props_of(fs), k) implies exists|i: int|
        0 <= i < fs.len() && (#[trigger] fs[i].name == k || (first_tag(field_tags(fs[i]), "json"@) is Some
            && first_tag(field_tags(fs[i]), "json"@)->0.name == k)) by {
        props_key_from_field(fs, k);
        let i = choose|i: int| 0 <= i < fs.len() && field_json_name(fs[i]) == k;
        assert(fs[i].name == k || (first_tag(field_tags(fs[i]), "json"@) is Some && first_tag(field_tags(fs[i]), "json"@)->0.name == k));
    }
}

proof fn props_key_from_field(fs: Seq<FieldView>, k: Seq<char>)
    requires
        has_key(props_of(fs), k),
    ensures
        exists|i: int| 0 <= i < fs.len() && field_json_name(fs[i]) == k,
    decreases fs.len(),
{
    if fs.len() == 0 {
        assert(props_of(fs).len() == 0);
    } else {
        let init = fs.drop_last();
        let l = fs.last();
        lemma_members_set_keys(props_of(init), field_json_name(l), type_schema(l.ty), k);
        if has_key(props_of(init), k) {
            props_key_from_field(init, k);
            let i = choose|i: int| 0 <= i < init.len() && field_json_name(init[i]) == k;
            assert(init[i] == fs[i]);
        } else {
            assert(field_json_name(fs[fs.len() - 1]) == k);
        }
    }
}

proof fn props_has_json_name(fs: Seq<FieldView>, i: int)
    requires
        0 <= i < fs.len(),
    ensures
        has_key(props_of(fs), field_json_name(fs[i])),
    decreases fs.len(),
{
    let init = fs.drop_last();
    let l = fs.last();
    lemma_members_set_keys(props_of(init), field_json_name(l), type_schema(l.ty), field_json_name(fs[i]));
    if i < init.len() {
        assert(init[i] == fs[i]);
        props_has_json_name(init, i);
    }
}

/// The OpenAPI document is version `3.0.1`; its title is the description's
/// title, or the service name when that is empty; its version is the
/// description's version, or `1.0.0`; and its schemas are named exactly by
/// the description's types.
pub proof fn law_openapi_header(sp: SpecView)
    ensures
        openapi_doc(sp)->Obj_0[0] == ("openapi"@, js("3.0.1"@)),
        openapi_doc(sp)->Obj_0[1] == ("info"@, JsonView::Obj(info_object(sp))),
        info_object(sp)[0] == ("title"@, js(if sp.info.title.len() == 0 { sp.service_name } else { sp.info.title })),
        info_object(sp)[1] == ("version"@, js(if sp.info.version.len() == 0 { "1.0.0"@ } else { sp.info.version })),
        openapi_doc(sp)->Obj_0[3] == ("components"@, obj1("schemas"@, JsonView::Obj(schemas_of(sp.types)))),
        forall|n: Seq<char>| #[trigger] has_key(schemas_of(sp.types), n) <==> names_type(sp.types, n),
{
    assert forall|n: Seq<char>| #[trigger] has_key(schemas_of(sp.types), n) <==> names_type(sp.types, n) by {
        lemma_schemas_keys(sp.types, n);
    }
}

/// The member `k` of a JSON object, `null` when it has none or is no object.
pub open spec fn top_member(d: JsonView, k: Seq<char>) -> JsonView {
    match d {
        JsonView::Obj(ms) => match member_get(ms, k) {
            Some(v) => v,
            None => JsonView::Null,
        },
        _ => JsonView::Null,
    }
}

fn top_member_exec(d: &Json, k: &str) -> (r: Json)
    ensures
        r@ == top_member(d@, k@),
{
    match d {
        Json::Obj(ms) => {
            proof {
                crate::json::lemma_obj_view(*d);
            }
            match member_get_exec(ms, k) {
                Some(v) => v,
                None => Json::Null,
            }
        },
        _ => Json::Null,
    }
}

/// The top-level members of the document as the YAML output writes them,
/// in this order: `openapi` as `3.0.1`, then the document's `info`, `paths`
/// and `components` (`null` where one is missing).
pub fn yaml_top_members(doc: &Json) -> (r: Vec<(String, Json)>)
    ensures
        crate::json::members_view(r@) == seq![
            ("openapi"@, js("3.0.1"@)),
            ("info"@, top_member(doc@, "info"@)),
            ("paths"@, top_member(doc@, "paths"@)),
            ("components"@, top_member(doc@, "components"@)),
        ],
{
    let mut r: Vec<(String, Json)> = Vec::new();
    r.push((owned("openapi"), jstr("3.0.1")));
    r.push((owned("info"), top_member_exec(doc, "info")));
    r.push((owned("paths"), top_member_exec(doc, "paths")));
    r.push((owned("components"), top_member_exec(doc, "components")));
    assert(crate::json::members_view(r@) =~= seq![
        ("openapi"@, js("3.0.1"@)),
        ("info"@, top_member(doc@, "info"@)),
        ("paths"@, top_member(doc@, "paths"@)),
        ("components"@, top_member(doc@, "components"@)),
    ]);
    r
}

fn member_get_exec(ms: &Vec<(String, Json)>, k: &str) -> (r: Option<Json>)
    ensures
        match r {
            Some(v) => member_get(members_view(ms@), k@) == Some(v@),
            None => member_get(members_view(ms@), k@) is None,
        },
{
    let ghost mv = members_view(ms@);
    proof {
        reveal(member_get);
    }
    let mut i: usize = 0;
    while i < ms.len()
        invariant
            i <= ms@.len(),
            mv == members_view(ms@),
            forall|j: int| 0 <= j < i ==> ms@[j].0@ != k@,
        decreases ms@.len() - i,
    {
        if str_eq(ms[i].0.as_str(), k) {
            proof {
                reveal(member_get);
                assert(mv[i as int].0 == k@);
                let c = choose|c: int| 0 <= c < mv.len() && mv[c].0 == k@ && forall|j: int| 0 <= j < c ==> mv[j].0 != k@;
                assert(0 <= c < mv.len() && mv[c].0 == k@ && forall|j: int| 0 <= j < c ==> mv[j].0 != k@);
                if c < i {
                    assert(mv[c].0 == ms@[c].0@);
                }
                if i < c {
                    assert(mv[i as int].0 != k@);
                }
            }
            let v = ms[i].1.clone();
            assert(v@ == mv[i as int].1);
            assert(member_get(mv, k@) == Some(v@)) by {
                reveal(member_get);
            }
            return Some(v);
        }
        i = i + 1;
    }
    proof {
        reveal(member_get);
        assert forall|j: int| 0 <= j < mv.len() implies mv[j].0 != k@ by {
            assert(mv[j].0 == ms@[j].0@);
        }
    }
    None
}

fn paths_add_exec(paths: &mut Vec<(String, Json)>, full: String, method: String, op: Vec<(String, Json)>)
    ensures
        members_view(final(paths)@) == paths_add(members_view(old(paths)@), full@, method@, members_view(op@)),
{
    let ghost opv = members_view(op@);
    let ghost before = members_view(paths@);
    let ghost mv = method@;
    let opj = Json::Obj(op);
    proof {
        crate::json::lemma_obj_view(opj);
    }
    match member_get_exec(paths, full.as_str()) {
        Some(found) => {
            proof {
                if found is Obj {
                    crate::json::lemma_obj_view(found);
                }
            }
            match found {
                Json::Obj(ms) => {
                    let mut ms = ms;
                    let ghost msv = members_view(ms@);
                    members_insert(&mut ms, method, opj);
                    let ghost newv = members_view(ms@);
                    let nj = Json::Obj(ms);
                    proof {
                        crate::json::lemma_obj_view(nj);
                    }
                    assert(nj@ == JsonView::Obj(members_set(msv, mv, JsonView::Obj(opv))));
                    members_insert(paths, full, nj);
                },
                _ => {},
            }
        },
        None => {
            let entry = Json::Obj(vec![(method, opj)]);
            assert(json_view(entry)->Obj_0 =~= seq![(mv, JsonView::Obj(opv))]);
            members_insert(paths, full, entry);
        },
    }
}

fn route_op_exec(r: &Route, schemas: &Vec<(String, Json)>) -> (op: Vec<(String, Json)>)
    ensures
        members_view(op@) == route_op(r@, members_view(schemas@)),
{
    let mut op: Vec<(String, Json)> = Vec::new();
    let ghost want = route_op(r@, members_view(schemas@));
    match &r.doc {
        Some(d) => {
            op.push((owned("summary"), jstr(d.as_str())));
        },
        None => {},
    }
    op.push((owned("operationId"), jstr(r.handler.as_str())));
    match &r.request {
        Some(t) => {
            let schema = type_to_schema_ref(t, schemas);
            let body = jobj2(
                "required",
                Json::Bool(true),
                "content",
                jobj1("application/json", jobj1("schema", schema)),
            );
            op.push((owned("requestBody"), body));
        },
        None => {},
    }
    op.push((owned("responses"), jobj1("200", jobj1("description", jstr("OK")))));
    assert(members_view(op@) =~= want);
    op
}

fn paths_exec(groups: &Vec<Group>, root: &str, schemas: &Vec<(String, Json)>) -> (r: Vec<(String, Json)>)
    ensures
        members_view(r@) == paths_of(groups@.map_values(|g: Group| g@), root@, members_view(schemas@)),
{
    let ghost gs = groups@.map_values(|g: Group| g@);
    let ghost sv = members_view(schemas@);
    let mut paths: Vec<(String, Json)> = Vec::new();
    let mut i: usize = 0;
    assert(gs.subrange(0, 0) =~= Seq::<GroupView>::empty());
    assert(members_view(paths@) =~= Seq::<(Seq<char>, JsonView)>::empty());
    while i < groups.len()
        invariant
            i <= groups@.len(),
            gs == groups@.map_values(|g: Group| g@),
            sv == members_view(schemas@),
            members_view(paths@) == paths_of(gs.subrange(0, i as int), root@, sv),
        decreases groups@.len() - i,
    {
        assert(gs.subrange(0, i + 1).drop_last() =~= gs.subrange(0, i as int));
        assert(gs.subrange(0, i + 1).last() == groups@[i as int]@);
        let g = &groups[i];
        let prefix = match group_prefix_exec(g) {
            Some(p) => p,
            None => String::new(),
        };
        let ghost base = members_view(paths@);
        let ghost rs = g@.routes;
        let mut j: usize = 0;
        assert(rs.subrange(0, 0) =~= Seq::<RouteView>::empty());
        while j < g.routes.len()
            invariant
                j <= g.routes@.len(),
                rs == g@.routes,
                sv == members_view(schemas@),
                members_view(paths@) == paths_routes(base, root@, prefix@, rs.subrange(0, j as int), sv),
            decreases g.routes@.len() - j,
        {
            assert(rs.subrange(0, j + 1).drop_last() =~= rs.subrange(0, j as int));
            assert(rs.subrange(0, j + 1).last() == g.routes@[j as int]@);
            let r = &g.routes[j];
            let joined = join_paths(root, prefix.as_str(), r.path.as_str());
            let full = normalize_path(joined.as_str());
            let m = method_str(r.method);
            let op = route_op_exec(r, schemas);
            paths_add_exec(&mut paths, full, m, op);
            j = j + 1;
        }
        assert(rs.subrange(0, g.routes@.len() as int) =~= rs);
        i = i + 1;
    }
    assert(gs.subrange(0, groups@.len() as int) =~= gs);
    paths
}

// ---------------------------------------------------------------------
// The document
// ---------------------------------------------------------------------
/// A property of the description's `info`, if set and not empty.
pub open spec fn nonempty_prop(props: Map<Seq<char>, Seq<char>>, k: Seq<char>) -> Option<Seq<char>> {
    if props.contains_key(k) && props[k].len() > 0 {
        Some(props[k])
    } else {
        None
    }
}

pub open spec fn info_object(sp: SpecView) -> Seq<(Seq<char>, JsonView)> {
    let title = if sp.info.title.len() == 0 {
        sp.service_name
    } else {
        sp.info.title
    };
    let version = if sp.info.version.len() == 0 {
        "1.0.0"@
    } else {
        sp.info.version
    };
    let name = nonempty_prop(sp.info.properties, "license.name"@);
    let url = nonempty_prop(sp.info.properties, "license.url"@);
    seq![("title"@, js(title)), ("version"@, js(version))] + (if sp.info.desc.len() > 0 {
        seq![("description"@, js(sp.info.desc))]
    } else {
        Seq::empty()
    }) + (if name is Some || url is Some {
        seq![
            (
                "license"@,
                JsonView::Obj(
                    (match name {
                        Some(n) => seq![("name"@, js(n))],
                        None => Seq::empty(),
                    }) + match url {
                        Some(u) => seq![("url"@, js(u))],
                        None => Seq::empty(),
                    },
                ),
            ),
        ]
    } else {
        Seq::empty()
    })
}

/// The OpenAPI document of a description.
pub open spec fn openapi_doc(sp: SpecView) -> JsonView {
    let root = if sp.info.root_prefix.len() > 0 {
        sp.info.root_prefix
    } else {
        "/"@
    };
    let schemas = schemas_of(sp.types);
    JsonView::Obj(
        seq![
            ("openapi"@, js("3.0.1"@)),
            ("info"@, JsonView::Obj(info_object(sp))),
            ("paths"@, JsonView::Obj(paths_of(sp.groups, root, schemas))),
            ("components"@, obj1("schemas"@, JsonView::Obj(schemas))),
        ],
    )
}

fn nonempty_prop_exec(props: &crate::strmap::StrMap, k: &str) -> (r: Option<String>)
    ensures
        crate::rsctl::apispec::opt_view(r) == nonempty_prop(props@, k@),
{
    match props.get(k) {
        Some(v) => if v.as_str().is_empty() {
            None
        } else {
            Some(v.clone())
        },
        None => None,
    }
}

fn info_exec(spec: &Spec) -> (r: Vec<(String, Json)>)
    ensures
        members_view(r@) == info_object(spec@),
{
    let mut out: Vec<(String, Json)> = Vec::new();
    let title = if spec.info.title.as_str().is_empty() {
        spec.service.name.clone()
    } else {
        spec.info.title.clone()
    };
    out.push((owned("title"), Json::Str(title)));
    let version = if spec.info.version.as_str().is_empty() {
        owned("1.0.0")
    } else {
        spec.info.version.clone()
    };
    out.push((owned("version"), Json::Str(version)));
    if !spec.info.desc.as_str().is_empty() {
        out.push((owned("description"), Json::Str(spec.info.desc.clone())));
    }
    let name = nonempty_prop_exec(&spec.info.properties, "license.name");
    let url = nonempty_prop_exec(&spec.info.properties, "license.url");
    if name.is_some() || url.is_some() {
        let mut lic: Vec<(String, Json)> = Vec::new();
        match name {
            Some(n) => {
                lic.push((owned("name"), Json::Str(n)));
            },
            None => {},
        }
        match url {
            Some(u) => {
                lic.push((owned("url"), Json::Str(u)));
            },
            None => {},
        }
        let ghost lv = members_view(lic@);
        let lj = Json::Obj(lic);
        proof {
            crate::json::lemma_obj_view(lj);
        }
        out.push((owned("license"), lj));
        assert(lv =~= (match nonempty_prop(spec@.info.properties, "license.name"@) {
            Some(n) => seq![("name"@, js(n))],
            None => Seq::empty(),
        }) + match nonempty_prop(spec@.info.properties, "license.url"@) {
            Some(u) => seq![("url"@, js(u))],
            None => Seq::empty(),
        });
    }
    assert(members_view(out@) =~= info_object(spec@));
    out
}

/// Builds the OpenAPI v3 document of a description.
pub fn build_openapi(spec: &Spec) -> (j: Json)
    ensures
        j@ == openapi_doc(spec@),
{
    let root = if !spec.info.root_prefix.as_str().is_empty() {
        spec.info.root_prefix.clone()
    } else {
        owned("/")
    };
    let schemas = schemas_exec(&spec.types);
    let paths = paths_exec(&spec.service.groups, root.as_str(), &schemas);
    let info = info_exec(spec);
    let ghost sv = members_view(schemas@);
    let ghost pv = members_view(paths@);
    let ghost iv = members_view(info@);
    let sj = Json::Obj(schemas);
    let pj = Json::Obj(paths);
    let ij = Json::Obj(info);
    proof {
        crate::json::lemma_obj_view(sj);
        crate::json::lemma_obj_view(pj);
        crate::json::lemma_obj_view(ij);
    }
    let comps = jobj1("schemas", sj);
    let doc = Json::Obj(vec![(owned("openapi"), jstr("3.0.1")), (owned("info"), ij), (owned("paths"), pj), (owned("components"), comps)]);
    assert(spec@.types =~= spec.types@.map_values(|t: TypeDef| t@));
    assert(spec@.groups =~= spec.service.groups@.map_values(|g: Group| g@));
    assert(json_view(doc)->Obj_0 =~= openapi_doc(spec@)->Obj_0);
    doc
}

} // verus!
