//! The stable intermediate representation of an API description:
//! services, groups, routes, type definitions and struct tags.
use vstd::prelude::*;

use crate::strmap::StrMap;
use crate::text::{
    alnum_end, alnum_end_exec, char_from, char_from_exec, lemma_alnum_end, lemma_char_from,
    lemma_skip_ws_from, skip_ws_exec, skip_ws_from, ascii_alnum, ascii_ws, chars_of, is_ascii_alnum, is_ascii_ws, owned, push_char, push_str,
    split, split_chars, split_from, str_eq, string_of_range, sub_vec, trim, trim_bounds,
    trim_chars, trim_str,
};

verus! {

/// An API type expression.
#[derive(Debug)]
pub enum Type {
    Any,
    Primitive(String),
    Ident(String),
    Array(Box<Type>),
    Pointer(Box<Type>),
    MapType { key: Box<Type>, value: Box<Type> },
}

/// The mathematical value of a [`Type`].
pub enum TypeView {
    Any,
    Primitive(Seq<char>),
    Ident(Seq<char>),
    Array(Box<TypeView>),
    Pointer(Box<TypeView>),
    MapType { key: Box<TypeView>, value: Box<TypeView> },
}

pub open spec fn type_view(t: Type) -> TypeView
    decreases t,
{
    match t {
        Type::Any => TypeView::Any,
        Type::Primitive(p) => TypeView::Primitive(p@),
        Type::Ident(p) => TypeView::Ident(p@),
        Type::Array(inner) => TypeView::Array(Box::new(type_view(*inner))),
        Type::Pointer(inner) => TypeView::Pointer(Box::new(type_view(*inner))),
        Type::MapType { key, value } => TypeView::MapType {
            key: Box::new(type_view(*key)),
            value: Box::new(type_view(*value)),
        },
    }
}

impl Clone for Type {
    fn clone(&self) -> (r: Self)
        ensures
            r@ == self@,
        decreases self,
    {
        match self {
            Type::Any => Type::Any,
            Type::Primitive(p) => Type::Primitive(p.clone()),
            Type::Ident(p) => Type::Ident(p.clone()),
            Type::Array(inner) => Type::Array(Box::new((**inner).clone())),
            Type::Pointer(inner) => Type::Pointer(Box::new((**inner).clone())),
            Type::MapType { key, value } => Type::MapType {
                key: Box::new((**key).clone()),
                value: Box::new((**value).clone()),
            },
        }
    }
}

impl View for Type {
    type V = TypeView;

    open spec fn view(&self) -> TypeView {
        type_view(*self)
    }
}

/// The `syntax = "..."` statement.
#[derive(Clone, Debug)]
pub struct Syntax {
    pub version: String,
    pub doc: Vec<String>,
    pub comment: Vec<String>,
}

impl Syntax {
    pub fn empty() -> (s: Syntax)
        ensures
            s.version@ == Seq::<char>::empty(),
            s.doc@.len() == 0,
            s.comment@.len() == 0,
    {
        Syntax { version: String::new(), doc: Vec::new(), comment: Vec::new() }
    }
}

/// An `import` entry.
#[derive(Clone, Debug)]
pub struct Import {
    pub value: String,
    pub doc: Vec<String>,
    pub comment: Vec<String>,
}

/// A whole API description.
#[derive(Clone, Debug)]
pub struct Spec {
    pub info: Info,
    pub syntax: Syntax,
    pub imports: Vec<Import>,
    pub service: Service,
    pub types: Vec<TypeDef>,
}

/// Why a [`Spec`] cannot be generated from.
#[derive(Clone, Debug, PartialEq, Eq)]
pub enum SpecError {
    MissingServiceName,
    MissingGroups,
    /// A route without a handler name; the route's path.
    MissingHandler(String),
}

impl SpecError {
    /// The message of this error.
    pub fn message(&self) -> (s: String)
        ensures
            s@ == spec_error_text(*self),
    {
        match self {
            SpecError::MissingServiceName => owned("missing service name"),
            SpecError::MissingGroups => owned("missing service groups"),
            SpecError::MissingHandler(p) => {
                let mut s = owned("missing handler name for route: \"");
                push_str(&mut s, p.as_str());
                push_char(&mut s, '"');
                s
            },
        }
    }
}

pub open spec fn spec_error_text(e: SpecError) -> Seq<char> {
    match e {
        SpecError::MissingServiceName => "missing service name"@,
        SpecError::MissingGroups => "missing service groups"@,
        SpecError::MissingHandler(p) => "missing handler name for route: \""@ + p@ + seq!['"'],
    }
}

/// [`SpecError`] with its path as characters.
pub enum SpecErrView {
    MissingServiceName,
    MissingGroups,
    MissingHandler(Seq<char>),
}

impl View for SpecError {
    type V = SpecErrView;

    open spec fn view(&self) -> SpecErrView {
        match self {
            SpecError::MissingServiceName => SpecErrView::MissingServiceName,
            SpecError::MissingGroups => SpecErrView::MissingGroups,
            SpecError::MissingHandler(p) => SpecErrView::MissingHandler(p@),
        }
    }
}

/// The (group, route) position of the first route without a handler.
pub open spec fn first_missing_handler_view(gs: Seq<GroupView>) -> Option<(int, int)> {
    if exists|g: int, r: int|
        0 <= g < gs.len() && 0 <= r < gs[g].routes.len() && trim((#[trigger] gs[g].routes[r]).handler).len() == 0 {
        Some(
            choose|g: int, r: int|
                0 <= g < gs.len() && 0 <= r < gs[g].routes.len() && trim((#[trigger] gs[g].routes[r]).handler).len()
                    == 0 && (forall|g2: int, r2: int|
                    0 <= g2 < gs.len() && 0 <= r2 < gs[g2].routes.len() && (g2 < g || (g2 == g && r2 < r)) ==> trim(
                        (#[trigger] gs[g2].routes[r2]).handler,
                    ).len() != 0),
        )
    } else {
        None
    }
}

/// [`validate_spec`] read on the view of a spec.
pub open spec fn validate_view(v: SpecView) -> Result<(), SpecErrView> {
    if trim(v.service_name).len() == 0 {
        Err(SpecErrView::MissingServiceName)
    } else if v.groups.len() == 0 {
        Err(SpecErrView::MissingGroups)
    } else {
        match first_missing_handler_view(v.groups) {
            Some((g, r)) => Err(SpecErrView::MissingHandler(v.groups[g].routes[r].path)),
            None => Ok(()),
        }
    }
}

/// What [`Spec::validate`] reports for a spec: the first failed check.
pub open spec fn validate_spec(s: Spec) -> Result<(), SpecError> {
    if trim(s.service.name@).len() == 0 {
        Err(SpecError::MissingServiceName)
    } else if s.service.groups@.len() == 0 {
        Err(SpecError::MissingGroups)
    } else {
        match first_missing_handler(s.service.groups@) {
            Some((g, r)) => Err(SpecError::MissingHandler(s.service.groups@[g].routes@[r].path)),
            None => Ok(()),
        }
    }
}

pub open spec fn route_missing_handler(r: Route) -> bool {
    trim(r.handler@).len() == 0
}

/// The (group, route) position of the first route without a handler, in
/// group order and then route order.
pub open spec fn first_missing_handler(gs: Seq<Group>) -> Option<(int, int)> {
    if exists|g: int, r: int|
        0 <= g < gs.len() && 0 <= r < gs[g].routes@.len() && route_missing_handler(
            #[trigger] gs[g].routes@[r],
        ) {
        Some(
            choose|g: int, r: int|
                0 <= g < gs.len() && 0 <= r < gs[g].routes@.len() && route_missing_handler(
                    #[trigger] gs[g].routes@[r],
                ) && (forall|g2: int, r2: int|
                    0 <= g2 < gs.len() && 0 <= r2 < gs[g2].routes@.len() && (g2 < g || (g2 == g
                        && r2 < r)) ==> !route_missing_handler(#[trigger] gs[g2].routes@[r2])),
        )
    } else {
        None
    }
}

proof fn lemma_first_found_view(gv: Seq<GroupView>, gi: int, ri: int)
    requires
        0 <= gi < gv.len(),
        0 <= ri < gv[gi].routes.len(),
        trim(gv[gi].routes[ri].handler).len() == 0,
        forall|g2: int, r2: int|
            0 <= g2 < gi && 0 <= r2 < gv[g2].routes.len() ==> trim((#[trigger] gv[g2].routes[r2]).handler).len() != 0,
        forall|r2: int| 0 <= r2 < ri ==> trim((#[trigger] gv[gi].routes[r2]).handler).len() != 0,
    ensures
        first_missing_handler_view(gv) == Some((gi, ri)),
{
    assert(trim(gv[gi].routes[ri].handler).len() == 0);
    let (vg, vr) = first_missing_handler_view(gv)->0;
    assert(trim(gv[vg].routes[vr].handler).len() == 0);
    if vg < gi || (vg == gi && vr < ri) {
        assert(trim(gv[vg].routes[vr].handler).len() != 0);
    }
    if gi < vg || (gi == vg && ri < vr) {
        assert(trim(gv[gi].routes[ri].handler).len() != 0);
    }
}

proof fn lemma_first_found_exec(gs: Seq<Group>, gi: int, ri: int)
    requires
        0 <= gi < gs.len(),
        0 <= ri < gs[gi].routes@.len(),
        route_missing_handler(gs[gi].routes@[ri]),
        forall|g2: int, r2: int|
            0 <= g2 < gi && 0 <= r2 < gs[g2].routes@.len() ==> !route_missing_handler(#[trigger] gs[g2].routes@[r2]),
        forall|r2: int| 0 <= r2 < ri ==> !route_missing_handler(#[trigger] gs[gi].routes@[r2]),
    ensures
        first_missing_handler(gs) == Some((gi, ri)),
{
    assert(route_missing_handler(gs[gi].routes@[ri]));
    let (pg, pr) = first_missing_handler(gs)->0;
    if pg < gi || (pg == gi && pr < ri) {
        assert(!route_missing_handler(gs[pg].routes@[pr]));
    }
    if gi < pg || (gi == pg && ri < pr) {
        assert(!route_missing_handler(gs[gi].routes@[ri]));
    }
}

/// A missing handler with none before it is the one validation reports,
/// on the spec and on its view.
proof fn lemma_first_found(s: Spec, gi: int, ri: int)
    requires
        trim(s.service.name@).len() != 0,
        0 <= gi < s.service.groups@.len(),
        0 <= ri < s.service.groups@[gi].routes@.len(),
        route_missing_handler(s.service.groups@[gi].routes@[ri]),
        forall|g2: int, r2: int|
            0 <= g2 < gi && 0 <= r2 < s.service.groups@[g2].routes@.len() ==> !route_missing_handler(
                #[trigger] s.service.groups@[g2].routes@[r2],
            ),
        forall|r2: int| 0 <= r2 < ri ==> !route_missing_handler(#[trigger] s.service.groups@[gi].routes@[r2]),
    ensures
        validate_spec(s) == Err::<(), SpecError>(SpecError::MissingHandler(s.service.groups@[gi].routes@[ri].path)),
        validate_view(s@) == Err::<(), SpecErrView>(SpecErrView::MissingHandler(s.service.groups@[gi].routes@[ri].path@)),
{
    let gs = s.service.groups@;
    let gv = s@.groups;
    lemma_first_found_exec(gs, gi, ri);
    assert(gv[gi] == gs[gi]@);
    assert(gv[gi].routes[ri] == gs[gi].routes@[ri]@);
    assert forall|g2: int, r2: int| 0 <= g2 < gi && 0 <= r2 < gv[g2].routes.len() implies trim(
        (#[trigger] gv[g2].routes[r2]).handler,
    ).len() != 0 by {
        assert(gv[g2] == gs[g2]@);
        assert(gv[g2].routes[r2] == gs[g2].routes@[r2]@);
        assert(!route_missing_handler(gs[g2].routes@[r2]));
    }
    assert forall|r2: int| 0 <= r2 < ri implies trim((#[trigger] gv[gi].routes[r2]).handler).len() != 0 by {
        assert(gv[gi].routes[r2] == gs[gi].routes@[r2]@);
        assert(!route_missing_handler(gs[gi].routes@[r2]));
    }
    lemma_first_found_view(gv, gi, ri);
    assert(gv.len() == gs.len());
}

impl Spec {
    /// Checks the invariants that generation relies on.
    #[verifier::rlimit(30)]
    pub fn validate(&self) -> (r: Result<(), SpecError>)
        ensures
            r == validate_spec(*self),
            match r {
                Ok(_) => validate_view(self@) is Ok,
                Err(e) => validate_view(self@) == Err::<(), SpecErrView>(e@),
            },
    {
        let name = trim_str(self.service.name.as_str());
        if name.as_str().is_empty() {
            return Err(SpecError::MissingServiceName);
        }
        if self.service.groups.len() == 0 {
            return Err(SpecError::MissingGroups);
        }
        let gs = &self.service.groups;
        let mut g: usize = 0;
        while g < gs.len()
            invariant
                g <= gs@.len(),
                trim(self.service.name@).len() != 0,
                gs@ == self.service.groups@,
                gs@.len() != 0,
                forall|g2: int, r2: int|
                    0 <= g2 < g && 0 <= r2 < gs@[g2].routes@.len() ==> !route_missing_handler(
                        #[trigger] gs@[g2].routes@[r2],
                    ),
            decreases gs@.len() - g,
        {
            let routes = &gs[g].routes;
            let mut r: usize = 0;
            while r < routes.len()
                invariant
                    g < gs@.len(),
                    trim(self.service.name@).len() != 0,
                    gs@ == self.service.groups@,
                    gs@.len() != 0,
                    routes@ == gs@[g as int].routes@,
                    r <= routes@.len(),
                    forall|g2: int, r2: int|
                        0 <= g2 < g && 0 <= r2 < gs@[g2].routes@.len() ==> !route_missing_handler(
                            #[trigger] gs@[g2].routes@[r2],
                        ),
                    forall|r2: int| 0 <= r2 < r ==> !route_missing_handler(#[trigger] routes@[r2]),
                decreases routes@.len() - r,
            {
                let h = trim_str(routes[r].handler.as_str());
                if h.as_str().is_empty() {
                    proof {
                        lemma_first_found(*self, g as int, r as int);
                    }
                    return Err(SpecError::MissingHandler(routes[r].path.clone()));
                }
                r = r + 1;
            }
            g = g + 1;
        }
        proof {
            let gv = self@.groups;
            assert forall|g: int, r: int| 0 <= g < gv.len() && 0 <= r < gv[g].routes.len() implies trim(
                (#[trigger] gv[g].routes[r]).handler,
            ).len() != 0 by {
                assert(gv[g] == gs@[g]@);
                assert(gv[g].routes[r] == gs@[g].routes@[r]@);
                assert(!route_missing_handler(gs@[g].routes@[r]));
            }
        }
        Ok(())
    }
}

/// General information of the API (`info (...)`).
#[derive(Clone, Debug)]
pub struct Info {
    pub title: String,
    pub desc: String,
    pub version: String,
    pub author: String,
    pub email: String,
    pub properties: StrMap,
    pub root_prefix: String,
}

/// The service: its name and route groups.
#[derive(Clone, Debug)]
pub struct Service {
    pub name: String,
    pub groups: Vec<Group>,
}

/// A group of routes sharing group-level annotations (`@server(...)`).
#[derive(Clone, Debug)]
pub struct Group {
    pub annotations: Vec<Annotation>,
    pub routes: Vec<Route>,
}

/// One route of the service.
#[derive(Clone, Debug)]
pub struct Route {
    pub method: HttpMethod,
    pub path: String,
    /// Handler name (from `@handler ...`).
    pub handler: String,
    /// Route documentation (from `@doc ...`).
    pub doc: Option<String>,
    pub request: Option<Type>,
    pub response: Option<Type>,
}

/// A named struct type.
#[derive(Clone, Debug)]
pub struct TypeDef {
    pub name: String,
    pub fields: Vec<Field>,
}

/// A struct field: name, type and the raw tag text between backticks.
#[derive(Clone, Debug)]
pub struct Field {
    pub name: String,
    pub ty: Type,
    pub tag: Option<String>,
}

/// One `key:"value"` item of a struct tag.
#[derive(Clone, Debug)]
pub struct Tag {
    pub key: String,
    /// The whole text between the quotes.
    pub value: String,
    /// The first comma-separated segment of the value, trimmed.
    pub name: String,
    /// The remaining segments, trimmed.
    pub options: Vec<String>,
}

pub struct TagView {
    pub key: Seq<char>,
    pub value: Seq<char>,
    pub name: Seq<char>,
    pub options: Seq<Seq<char>>,
}

impl View for Tag {
    type V = TagView;

    open spec fn view(&self) -> TagView {
        TagView {
            key: self.key@,
            value: self.value@,
            name: self.name@,
            options: self.options@.map_values(|o: String| o@),
        }
    }
}

/// The parsed items of a struct tag.
#[derive(Clone, Debug)]
pub struct Tags {
    pub tags: Vec<Tag>,
}

impl View for Tags {
    type V = Seq<TagView>;

    open spec fn view(&self) -> Seq<TagView> {
        self.tags@.map_values(|t: Tag| t@)
    }
}

// ---------------------------------------------------------------------
// The struct tag grammar: `key:"value" key:"value" ...`
// ---------------------------------------------------------------------
/// The tag item for `key` and the raw quoted `value`.
pub open spec fn tag_item(key: Seq<char>, value: Seq<char>) -> TagView {
    let parts = split(value, ',').map_values(|p: Seq<char>| trim(p));
    TagView { key, value, name: parts[0], options: parts.drop_first() }
}

/// The items read from position `i` on; reading stops at the first
/// position that does not start a well-formed `key:"value"` item.
pub open spec fn tags_from(s: Seq<char>, i: int) -> Seq<TagView>
    decreases s.len() - i,
{
    if i < 0 || i > s.len() {
        Seq::empty()
    } else {
        let k0 = skip_ws_from(s, i);
        let k1 = alnum_end(s, k0);
        if k0 >= s.len() || k1 == k0 || k1 >= s.len() || s[k1] != ':' || k1 + 1 >= s.len() || s[k1
            + 1] != '"' {
            Seq::empty()
        } else {
            let v0 = k1 + 2;
            let v1 = char_from(s, '"', v0);
            if v1 >= s.len() {
                Seq::empty()
            } else {
                proof {
                    lemma_skip_ws_from(s, i);
                    lemma_alnum_end(s, k0);
                    lemma_char_from(s, '"', v0);
                }
                seq![tag_item(s.subrange(k0, k1), s.subrange(v0, v1))] + tags_from(s, v1 + 1)
            }
        }
    }
}

/// The text inside the tag: trimmed, with one backtick removed at each end.
pub open spec fn tag_body(t: Seq<char>) -> Seq<char> {
    let a = trim(t);
    let b = if a.len() > 0 && a[0] == '`' {
        a.drop_first()
    } else {
        a
    };
    if b.len() > 0 && b.last() == '`' {
        b.drop_last()
    } else {
        b
    }
}

pub open spec fn parse_tags_spec(t: Seq<char>) -> Seq<TagView> {
    tags_from(tag_body(t), 0)
}

fn make_tag(s: &[char], k0: usize, k1: usize, v0: usize, v1: usize) -> (t: Tag)
    requires
        k0 <= k1 <= v0 <= v1 <= s@.len(),
    ensures
        t@ == tag_item(s@.subrange(k0 as int, k1 as int), s@.subrange(v0 as int, v1 as int)),
{
    let key = string_of_range(s, k0, k1);
    let vchars = sub_vec(s, v0, v1);
    let value = string_of_range(s, v0, v1);
    let pieces = split_chars(vchars.as_slice(), ',');
    let ghost parts = split(vchars@, ',').map_values(|p: Seq<char>| trim(p));
    proof {
        lemma_split_nonempty(vchars@, ',');
    }
    let name = trim_str_of(&pieces[0]);
    let mut options: Vec<String> = Vec::new();
    let mut i: usize = 1;
    while i < pieces.len()
        invariant
            1 <= i <= pieces@.len(),
            pieces@.len() == split(vchars@, ',').len(),
            forall|j: int| 0 <= j < pieces@.len() ==> #[trigger] pieces@[j]@ == split(vchars@, ',')[j],
            parts == split(vchars@, ',').map_values(|p: Seq<char>| trim(p)),
            options@.len() == i - 1,
            forall|j: int| 0 <= j < options@.len() ==> #[trigger] options@[j]@ == parts[j + 1],
        decreases pieces@.len() - i,
    {
        let o = trim_str_of(&pieces[i]);
        options.push(o);
        i = i + 1;
    }
    let t = Tag { key, value, name, options };
    assert(t@.options =~= parts.drop_first());
    t
}

/// `str::split` always yields at least one piece.
pub proof fn lemma_split_nonempty(s: Seq<char>, c: char)
    ensures
        split(s, c).len() >= 1,
{
    lemma_split_from_nonempty(s, c, Seq::empty());
}

proof fn lemma_split_from_nonempty(s: Seq<char>, c: char, cur: Seq<char>)
    ensures
        split_from(s, c, cur).len() >= 1,
    decreases s.len(),
{
    if s.len() > 0 {
        if s[0] == c {
            lemma_split_from_nonempty(s.drop_first(), c, Seq::empty());
        } else {
            lemma_split_from_nonempty(s.drop_first(), c, cur.push(s[0]));
        }
    }
}

/// `str::trim` of a character vector, as a string.
pub fn trim_str_of(v: &Vec<char>) -> (r: String)
    ensures
        r@ == trim(v@),
{
    let (a, b) = trim_bounds(v.as_slice());
    string_of_range(v.as_slice(), a, b)
}

impl Tags {
    pub fn empty() -> (t: Tags)
        ensures
            t@ == Seq::<TagView>::empty(),
    {
        let t = Tags { tags: Vec::new() };
        assert(t@ =~= Seq::<TagView>::empty());
        t
    }

    /// Reads the `key:"value"` items of a struct tag; reading stops at the
    /// first malformed item.
    pub fn parse(tag: &str) -> (r: Tags)
        ensures
            r@ == parse_tags_spec(tag@),
    {
        let all = chars_of(tag);
        let t0 = trim_chars(all.as_slice());
        let mut lo: usize = 0;
        let mut hi: usize = t0.len();
        if hi > 0 && t0[0] == '`' {
            lo = 1;
        }
        if hi > lo && t0[hi - 1] == '`' {
            hi = hi - 1;
        }
        let s = sub_vec(t0.as_slice(), lo, hi);
        proof {
            let a = trim(all@);
            let b = if a.len() > 0 && a[0] == '`' {
                a.drop_first()
            } else {
                a
            };
            assert(b =~= t0@.subrange(lo as int, t0@.len() as int));
            assert(tag_body(tag@) =~= s@);
        }
        let mut out: Vec<Tag> = Vec::new();
        let mut i: usize = 0;
        let ghost mut acc: Seq<TagView> = Seq::empty();
        loop
            invariant
                i <= s@.len(),
                out@.map_values(|t: Tag| t@) == acc,
                acc + tags_from(s@, i as int) == parse_tags_spec(tag@),
                tag_body(tag@) == s@,
            ensures
                out@.map_values(|t: Tag| t@) == parse_tags_spec(tag@),
            decreases s@.len() - i,
        {
            let k0 = skip_ws_exec(s.as_slice(), i);
            let k1 = alnum_end_exec(s.as_slice(), k0);
            if k0 >= s.len() || k1 == k0 || k1 >= s.len() || s[k1] != ':' || k1 + 1 >= s.len()
                || s[k1 + 1] != '"' {
                assert(acc + tags_from(s@, i as int) =~= acc);
                break ;
            }
            let v0 = k1 + 2;
            let v1 = char_from_exec(s.as_slice(), '"', v0);
            if v1 >= s.len() {
                assert(acc + tags_from(s@, i as int) =~= acc);
                break ;
            }
            proof {
                lemma_skip_ws_from(s@, i as int);
                lemma_alnum_end(s@, k0 as int);
                lemma_char_from(s@, '"', v0 as int);
            }
            let t = make_tag(s.as_slice(), k0, k1, v0, v1);
            proof {
                let item = tag_item(s@.subrange(k0 as int, k1 as int), s@.subrange(v0 as int, v1 as int));
                assert(tags_from(s@, i as int) == seq![item] + tags_from(s@, v1 + 1));
                assert(acc + tags_from(s@, i as int) =~= acc.push(item) + tags_from(s@, v1 + 1));
                acc = acc.push(item);
            }
            out.push(t);
            assert(out@.map_values(|t: Tag| t@) =~= acc);
            i = v1 + 1;
        }
        let r = Tags { tags: out };
        r
    }

    /// The first item whose key is `key`.
    pub fn get(&self, key: &str) -> (r: Option<&Tag>)
        ensures
            match r {
                Some(t) => exists|i: int|
                    0 <= i < self.tags@.len() && self.tags@[i] == *t && t.key@ == key@ && forall|
                        j: int,
                    |
                        0 <= j < i ==> #[trigger] self.tags@[j].key@ != key@,
                None => forall|j: int| 0 <= j < self.tags@.len() ==> #[trigger] self.tags@[j].key@ != key@,
            },
    {
        let mut i: usize = 0;
        while i < self.tags.len()
            invariant
                i <= self.tags@.len(),
                forall|j: int| 0 <= j < i ==> #[trigger] self.tags@[j].key@ != key@,
            decreases self.tags@.len() - i,
        {
            if str_eq(self.tags[i].key.as_str(), key) {
                return Some(&self.tags[i]);
            }
            i = i + 1;
        }
        None
    }
}

/// The tags of a field: none when it has no tag or a blank one.
pub open spec fn field_tags_spec(f: Field) -> Seq<TagView> {
    match f.tag {
        None => Seq::empty(),
        Some(s) => if trim(s@).len() == 0 {
            Seq::empty()
        } else {
            parse_tags_spec(s@)
        },
    }
}

impl Field {
    /// The parsed struct tag of this field.
    pub fn tags(&self) -> (r: Tags)
        ensures
            r@ == field_tags_spec(*self),
    {
        match &self.tag {
            None => Tags::empty(),
            Some(s) => {
                let t = trim_str(s.as_str());
                if t.as_str().is_empty() {
                    Tags::empty()
                } else {
                    Tags::parse(s.as_str())
                }
            },
        }
    }
}

/// HTTP methods an API route may use.
#[derive(Clone, Copy, Debug, PartialEq, Eq, Structural)]
pub enum HttpMethod {
    Get,
    Post,
    Put,
    Delete,
    Patch,
}

/// A group-level or route-level annotation.
#[derive(Clone, Debug)]
pub struct Annotation {
    pub name: String,
    /// Key/value properties (`@server(prefix: /v1)`).
    pub properties: StrMap,
    /// The single text payload (`@doc "..."`).
    pub text: Option<String>,
}

// ---------------------------------------------------------------------
// Mathematical views of the description
// ---------------------------------------------------------------------
pub open spec fn opt_view(o: Option<String>) -> Option<Seq<char>> {
    match o {
        Some(s) => Some(s@),
        None => None,
    }
}

pub open spec fn opt_type_view(o: Option<Type>) -> Option<TypeView> {
    match o {
        Some(t) => Some(t@),
        None => None,
    }
}

pub struct AnnotationView {
    pub name: Seq<char>,
    pub properties: Map<Seq<char>, Seq<char>>,
    pub text: Option<Seq<char>>,
}

impl View for Annotation {
    type V = AnnotationView;

    open spec fn view(&self) -> AnnotationView {
        AnnotationView { name: self.name@, properties: self.properties@, text: opt_view(self.text) }
    }
}

pub struct RouteView {
    pub method: HttpMethod,
    pub path: Seq<char>,
    pub handler: Seq<char>,
    pub doc: Option<Seq<char>>,
    pub request: Option<TypeView>,
    pub response: Option<TypeView>,
}

impl View for Route {
    type V = RouteView;

    open spec fn view(&self) -> RouteView {
        RouteView {
            method: self.method,
            path: self.path@,
            handler: self.handler@,
            doc: opt_view(self.doc),
            request: opt_type_view(self.request),
            response: opt_type_view(self.response),
        }
    }
}

pub struct GroupView {
    pub annotations: Seq<AnnotationView>,
    pub routes: Seq<RouteView>,
}

impl View for Group {
    type V = GroupView;

    open spec fn view(&self) -> GroupView {
        GroupView {
            annotations: self.annotations@.map_values(|a: Annotation| a@),
            routes: self.routes@.map_values(|r: Route| r@),
        }
    }
}

pub struct FieldView {
    pub name: Seq<char>,
    pub ty: TypeView,
    pub tag: Option<Seq<char>>,
}

impl View for Field {
    type V = FieldView;

    open spec fn view(&self) -> FieldView {
        FieldView { name: self.name@, ty: self.ty@, tag: opt_view(self.tag) }
    }
}

pub struct TypeDefView {
    pub name: Seq<char>,
    pub fields: Seq<FieldView>,
}

impl View for TypeDef {
    type V = TypeDefView;

    open spec fn view(&self) -> TypeDefView {
        TypeDefView { name: self.name@, fields: self.fields@.map_values(|f: Field| f@) }
    }
}

pub struct InfoView {
    pub title: Seq<char>,
    pub desc: Seq<char>,
    pub version: Seq<char>,
    pub author: Seq<char>,
    pub email: Seq<char>,
    pub properties: Map<Seq<char>, Seq<char>>,
    pub root_prefix: Seq<char>,
}

impl View for Info {
    type V = InfoView;

    open spec fn view(&self) -> InfoView {
        InfoView {
            title: self.title@,
            desc: self.desc@,
            version: self.version@,
            author: self.author@,
            email: self.email@,
            properties: self.properties@,
            root_prefix: self.root_prefix@,
        }
    }
}

pub struct SpecView {
    pub info: InfoView,
    pub service_name: Seq<char>,
    pub groups: Seq<GroupView>,
    pub types: Seq<TypeDefView>,
}

impl View for Spec {
    type V = SpecView;

    open spec fn view(&self) -> SpecView {
        SpecView {
            info: self.info@,
            service_name: self.service.name@,
            groups: self.service.groups@.map_values(|g: Group| g@),
            types: self.types@.map_values(|t: TypeDef| t@),
        }
    }
}

} // verus!
