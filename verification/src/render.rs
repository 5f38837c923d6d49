//! Template rendering: a JSON context, and minijinja to render with it.
use vstd::prelude::*;

use crate::json::{json_text, json_view, members_insert, members_set, members_view, to_json_text, Json, JsonView};
use crate::text::{ascii_lower_seq, lower_str, owned};

verus! {

#[verifier::external_type_specification]
#[verifier::external_body]
pub struct ExTemplateEnv<'source>(minijinja::Environment<'source>);

/// What minijinja renders for a template source and a context given as
/// JSON text, or `None` where it refuses the source or the context.
pub uninterp spec fn rendered(source: Seq<char>, context: Seq<char>) -> Option<Seq<char>>;

/// `minijinja::Environment::new`: an environment with the default
/// filters, tests and globals and no templates. Nothing is claimed of it.
#[verifier::external_body]
fn template_env() -> (env: minijinja::Environment<'static>) {
    minijinja::Environment::new()
}

/// `minijinja::Environment::render_str` on `source`, with the context read
/// from its JSON text by `serde_json::from_str`. The contract claims only
/// that the outcome is the one [`rendered`] names for these two texts; an
/// error comes back as its message.
#[verifier::external_body]
fn render_json_context(env: &minijinja::Environment<'static>, source: &str, context: &str) -> (r: Result<
    String,
    String,
>)
    ensures
        match r {
            Ok(s) => rendered(source@, context@) == Some(s@),
            Err(_) => rendered(source@, context@) is None,
        },
{
    let value: minijinja::Value = match serde_json::from_str(context) {
        Ok(v) => v,
        Err(e) => return Err(e.to_string()),
    };
    match env.render_str(source, value) {
        Ok(s) => Ok(s),
        Err(e) => Err(e.to_string()),
    }
}

/// A template that could not be rendered, with the renderer's message.
#[derive(Clone, Debug)]
pub struct RenderError {
    pub detail: String,
}

/// Template variables. Every key is also stored under its ASCII
/// lower-case form, so that templates may use either spelling.
pub struct Context {
    pub members: Vec<(String, Json)>,
}

/// The members after setting `key` and its lower-case form to `v`.
#[verifier::opaque]
pub open spec fn ctx_set(ms: Seq<(Seq<char>, JsonView)>, key: Seq<char>, v: JsonView) -> Seq<(Seq<char>, JsonView)> {
    members_set(members_set(ms, key, v), ascii_lower_seq(key), v)
}

/// The JSON text a context is rendered with.
pub open spec fn context_text(ms: Seq<(Seq<char>, JsonView)>) -> Seq<char> {
    json_text(JsonView::Obj(ms))
}

impl View for Context {
    type V = Seq<(Seq<char>, JsonView)>;

    open spec fn view(&self) -> Seq<(Seq<char>, JsonView)> {
        members_view(self.members@)
    }
}

impl Context {
    pub fn new() -> (c: Context)
        ensures
            c@ == Seq::<(Seq<char>, JsonView)>::empty(),
    {
        let c = Context { members: Vec::new() };
        assert(c@ =~= Seq::<(Seq<char>, JsonView)>::empty());
        c
    }

    /// Sets `key` (and its lower-case form) to a JSON value.
    pub fn set_json(self, key: &str, val: Json) -> (r: Context)
        ensures
            r@ == ctx_set(self@, key@, val@),
    {
        proof {
            reveal(ctx_set);
        }
        let mut me = self;
        let second = val.clone();
        members_insert(&mut me.members, owned(key), val);
        members_insert(&mut me.members, lower_str(key), second);
        me
    }

    /// Sets `key` (and its lower-case form) to a string.
    pub fn set_str(self, key: &str, val: &str) -> (r: Context)
        ensures
            r@ == ctx_set(self@, key@, JsonView::Str(val@)),
    {
        self.set_json(key, Json::Str(owned(val)))
    }

    /// Sets `key` (and its lower-case form) to a boolean.
    pub fn set_bool(self, key: &str, val: bool) -> (r: Context)
        ensures
            r@ == ctx_set(self@, key@, JsonView::Bool(val)),
    {
        self.set_json(key, Json::Bool(val))
    }

    /// The context as one JSON object.
    pub fn as_json(&self) -> (j: Json)
        ensures
            j@ == JsonView::Obj(self@),
    {
        let mut ms: Vec<(String, Json)> = Vec::new();
        let mut i: usize = 0;
        while i < self.members.len()
            invariant
                i <= self.members@.len(),
                ms@.len() == i,
                forall|k: int|
                    0 <= k < i ==> (#[trigger] ms@[k]).0@ == self.members@[k].0@ && json_view(ms@[k].1)
                        == json_view(self.members@[k].1),
            decreases self.members@.len() - i,
        {
            let v = self.members[i].1.clone();
            ms.push((self.members[i].0.clone(), v));
            i = i + 1;
        }
        let j = Json::Obj(ms);
        assert(json_view(j)->Obj_0 =~= self@);
        j
    }

}

impl Clone for Context {
    fn clone(&self) -> (c: Context)
        ensures
            c@ == self@,
    {
        match self.as_json() {
            Json::Obj(ms) => Context { members: ms },
            _ => Context::new(),
        }
    }
}

/// Renders `input` with the variables of `ctx`.
pub fn render(input: &str, ctx: &Context) -> (r: Result<String, RenderError>)
    ensures
        match r {
            Ok(s) => rendered(input@, context_text(ctx@)) == Some(s@),
            Err(_) => rendered(input@, context_text(ctx@)) is None,
        },
{
    let text = to_json_text(&ctx.as_json());
    let env = template_env();
    match render_json_context(&env, input, text.as_str()) {
        Ok(s) => Ok(s),
        Err(detail) => Err(RenderError { detail }),
    }
}

} // verus!
