//! The syntax tree of an `.api` description file.
use vstd::prelude::*;

verus! {

/// A parsed `.api` file.
#[derive(Clone, Debug)]
pub struct Ast {
    /// Top-level items: services, routes outside any service, and types.
    pub items: Vec<Item>,
    /// The `info (...)` block.
    pub info: Option<Info>,
    /// Imported file paths.
    pub imports: Vec<String>,
}

#[derive(Clone, Debug)]
pub enum Item {
    /// `service <name> { ... }`
    Service(Service),
    /// A route outside any `service {}` block.
    Route(Route),
    /// `type Xxx { ... }`
    Type(TypeDef),
}

#[derive(Clone, Debug)]
pub struct Service {
    pub name: String,
    /// The annotations just before `service`.
    pub annotations: Vec<Annotation>,
    pub routes: Vec<Route>,
}

#[derive(Clone, Debug)]
pub struct Route {
    /// The annotations just before the route (`@handler`, `@doc`, ...).
    pub annotations: Vec<Annotation>,
    /// The HTTP method as written (`get`, `post`, ...).
    pub method: String,
    /// The route path (`/user/info/:id`).
    pub path: String,
    /// The request type name of `(Req)`.
    pub request: Option<String>,
    /// The response type name of `returns (Resp)`.
    pub response: Option<String>,
}

#[derive(Clone, Debug)]
pub struct TypeDef {
    pub name: String,
    pub fields: Vec<Field>,
}

#[derive(Clone, Debug)]
pub struct Field {
    pub name: String,
    pub ty: String,
    /// The tag text without its backticks.
    pub tag: Option<String>,
}

#[derive(Clone, Debug)]
pub struct Annotation {
    /// The name without `@`.
    pub name: String,
    pub args: AnnotationArgs,
}

/// The `key: value` properties of the `info (...)` block, in order.
#[derive(Clone, Debug)]
pub struct Info {
    pub properties: Vec<(String, String)>,
}

#[derive(Clone, Debug)]
pub enum AnnotationArgs {
    /// No argument: `@server` or `@server()`.
    Empty,
    /// One value: `@doc "foo"`, `@handler login`.
    Str(String),
    /// `key: value` pairs: `@server (prefix: /v1 group: Foo)`.
    KeyValues(Vec<(String, String)>),
}

// ---------------------------------------------------------------------
// Mathematical views
// ---------------------------------------------------------------------
pub open spec fn opt_str(o: Option<String>) -> Option<Seq<char>> {
    match o {
        Some(s) => Some(s@),
        None => None,
    }
}

pub open spec fn pairs_view(v: Seq<(String, String)>) -> Seq<(Seq<char>, Seq<char>)> {
    v.map_values(|p: (String, String)| (p.0@, p.1@))
}

pub enum ArgsView {
    Empty,
    Str(Seq<char>),
    KeyValues(Seq<(Seq<char>, Seq<char>)>),
}

pub struct AnnotationView {
    pub name: Seq<char>,
    pub args: ArgsView,
}

impl View for Annotation {
    type V = AnnotationView;

    open spec fn view(&self) -> AnnotationView {
        AnnotationView {
            name: self.name@,
            args: match self.args {
                AnnotationArgs::Empty => ArgsView::Empty,
                AnnotationArgs::Str(s) => ArgsView::Str(s@),
                AnnotationArgs::KeyValues(kv) => ArgsView::KeyValues(pairs_view(kv@)),
            },
        }
    }
}

pub open spec fn anns_view(v: Seq<Annotation>) -> Seq<AnnotationView> {
    v.map_values(|a: Annotation| a@)
}

pub struct RouteView {
    pub annotations: Seq<AnnotationView>,
    pub method: Seq<char>,
    pub path: Seq<char>,
    pub request: Option<Seq<char>>,
    pub response: Option<Seq<char>>,
}

impl View for Route {
    type V = RouteView;

    open spec fn view(&self) -> RouteView {
        RouteView {
            annotations: anns_view(self.annotations@),
            method: self.method@,
            path: self.path@,
            request: opt_str(self.request),
            response: opt_str(self.response),
        }
    }
}

pub struct ServiceView {
    pub name: Seq<char>,
    pub annotations: Seq<AnnotationView>,
    pub routes: Seq<RouteView>,
}

impl View for Service {
    type V = ServiceView;

    open spec fn view(&self) -> ServiceView {
        ServiceView {
            name: self.name@,
            annotations: anns_view(self.annotations@),
            routes: self.routes@.map_values(|r: Route| r@),
        }
    }
}

pub struct FieldView {
    pub name: Seq<char>,
    pub ty: Seq<char>,
    pub tag: Option<Seq<char>>,
}

impl View for Field {
    type V = FieldView;

    open spec fn view(&self) -> FieldView {
        FieldView { name: self.name@, ty: self.ty@, tag: opt_str(self.tag) }
    }
}

pub struct TypeDefView {
    pub name: Seq<char>,
    pub fields: Seq<FieldView>,
}

impl View for TypeDef {
    type V = TypeDefView;

    open spec fn view(&self) -> TypeDefView {
        TypeDefView { name: self.name@, fields: self.fields@.map_values(|f: Field| f@) }
    }
}

pub enum ItemView {
    Service(ServiceView),
    Route(RouteView),
    Type(TypeDefView),
}

impl View for Item {
    type V = ItemView;

    open spec fn view(&self) -> ItemView {
        match self {
            Item::Service(s) => ItemView::Service(s@),
            Item::Route(r) => ItemView::Route(r@),
            Item::Type(t) => ItemView::Type(t@),
        }
    }
}

pub struct AstView {
    pub items: Seq<ItemView>,
    pub info: Option<Seq<(Seq<char>, Seq<char>)>>,
    pub imports: Seq<Seq<char>>,
}

impl View for Ast {
    type V = AstView;

    open spec fn view(&self) -> AstView {
        AstView {
            items: self.items@.map_values(|i: Item| i@),
            info: match self.info {
                Some(i) => Some(pairs_view(i.properties@)),
                None => None,
            },
            imports: self.imports@.map_values(|s: String| s@),
        }
    }
}

} // verus!
