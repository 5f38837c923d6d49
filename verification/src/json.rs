//! A JSON value model used for request data, documents and template contexts.
use vstd::prelude::*;

verus! {

/// A JSON value; objects keep their members in insertion order.
#[derive(Debug, PartialEq)]
pub enum Json {
    Null,
    Bool(bool),
    Int(i64),
    Str(String),
    Arr(Vec<Json>),
    Obj(Vec<(String, Json)>),
}

/// The mathematical value of a [`Json`].
pub enum JsonView {
    Null,
    Bool(bool),
    Int(int),
    Str(Seq<char>),
    Arr(Seq<JsonView>),
    Obj(Seq<(Seq<char>, JsonView)>),
}

pub open spec fn json_view(j: Json) -> JsonView
    decreases j,
{
    match j {
        Json::Null => JsonView::Null,
        Json::Bool(b) => JsonView::Bool(b),
        Json::Int(n) => JsonView::Int(n as int),
        Json::Str(s) => JsonView::Str(s@),
        Json::Arr(v) => JsonView::Arr(
            Seq::new(
                v@.len(),
                |i: int|
                    if 0 <= i < v@.len() {
                        json_view(v@[i])
                    } else {
                        JsonView::Null
                    },
            ),
        ),
        Json::Obj(v) => JsonView::Obj(
            Seq::new(
                v@.len(),
                |i: int|
                    if 0 <= i < v@.len() {
                        (v@[i].0@, json_view(v@[i].1))
                    } else {
                        (Seq::empty(), JsonView::Null)
                    },
            ),
        ),
    }
}

impl Clone for Json {
    fn clone(&self) -> (r: Json)
        ensures
            r@ == self@,
        decreases self,
    {
    match self {
        Json::Null => Json::Null,
        Json::Bool(b) => Json::Bool(*b),
        Json::Int(n) => Json::Int(*n),
        Json::Str(s) => Json::Str(s.clone()),
        Json::Arr(items) => {
            let mut out: Vec<Json> = Vec::new();
            let mut i: usize = 0;
            while i < items.len()
                invariant
                    i <= items@.len(),
                    out@.len() == i,
                    *self == Json::Arr(*items),
                    forall|k: int| 0 <= k < i ==> json_view(#[trigger] out@[k]) == json_view(items@[k]),
                decreases items@.len() - i,
            {
                proof {
                    assert(decreases_to!(*self => (*self)->Arr_0));
                    assert(decreases_to!(*items => items@));
                    assert(decreases_to!(items@ => items@[i as int]));
                }
                out.push(items[i].clone());
                i = i + 1;
            }
            let r = Json::Arr(out);
            assert(json_view(r)->Arr_0 =~= json_view(*self)->Arr_0);
            r
        },
        Json::Obj(ms) => {
            let mut out: Vec<(String, Json)> = Vec::new();
            let mut i: usize = 0;
            while i < ms.len()
                invariant
                    i <= ms@.len(),
                    out@.len() == i,
                    *self == Json::Obj(*ms),
                    forall|k: int|
                        0 <= k < i ==> (#[trigger] out@[k]).0@ == ms@[k].0@ && json_view(out@[k].1)
                            == json_view(ms@[k].1),
                decreases ms@.len() - i,
            {
                proof {
                    assert(decreases_to!(*self => (*self)->Obj_0));
                    assert(decreases_to!(*ms => ms@));
                    assert(decreases_to!(ms@ => ms@[i as int]));
                    assert(decreases_to!(ms@[i as int] => ms@[i as int].1));
                }
                let v = ms[i].1.clone();
                out.push((ms[i].0.clone(), v));
                i = i + 1;
            }
            let r = Json::Obj(out);
            assert(json_view(r)->Obj_0 =~= json_view(*self)->Obj_0);
            r
        },
    }
}
}

impl View for Json {
    type V = JsonView;

    open spec fn view(&self) -> JsonView {
        json_view(*self)
    }
}

/// Object members after setting `k` to `v`: the first member named `k`
/// gets the new value, or the member is appended.
#[verifier::opaque]
pub open spec fn members_set(ms: Seq<(Seq<char>, JsonView)>, k: Seq<char>, v: JsonView) -> Seq<
    (Seq<char>, JsonView),
> {
    if exists|i: int| 0 <= i < ms.len() && ms[i].0 == k {
        let i = choose|i: int| 0 <= i < ms.len() && ms[i].0 == k && forall|j: int| 0 <= j < i ==> ms[j].0 != k;
        ms.update(i, (k, v))
    } else {
        ms.push((k, v))
    }
}

pub open spec fn members_view(v: Seq<(String, Json)>) -> Seq<(Seq<char>, JsonView)> {
    Seq::new(v.len(), |i: int| (v[i].0@, json_view(v[i].1)))
}

/// The view of an object is the view of its members.
pub proof fn lemma_obj_view(j: Json)
    requires
        j is Obj,
    ensures
        json_view(j) == JsonView::Obj(members_view(j->Obj_0@)),
{
    assert(json_view(j)->Obj_0 =~= members_view(j->Obj_0@));
}

/// Sets member `k` of an object's member list to `v`.
pub fn members_insert(ms: &mut Vec<(String, Json)>, k: String, v: Json)
    ensures
        members_view(final(ms)@) == members_set(members_view(old(ms)@), k@, v@),
{
    reveal(members_set);
    let ghost old_v = members_view(ms@);
    let mut i: usize = 0;
    while i < ms.len()
        invariant
            i <= ms@.len(),
            ms@ == old(ms)@,
            old_v == members_view(ms@),
            forall|j: int| 0 <= j < i ==> ms@[j].0@ != k@,
        decreases ms@.len() - i,
    {
        if crate::text::str_eq(ms[i].0.as_str(), k.as_str()) {
            let ghost kv = k@;
            let ghost vv = v@;
            proof {
                reveal(members_set);
                assert(old_v[i as int].0 == kv);
                let c = choose|c: int| 0 <= c < old_v.len() && old_v[c].0 == kv && forall|j: int| 0 <= j < c ==> old_v[j].0 != kv;
                assert(0 <= c < old_v.len() && old_v[c].0 == kv && forall|j: int| 0 <= j < c ==> old_v[j].0 != kv);
                if c < i {
                    assert(old_v[c].0 == ms@[c].0@);
                }
                if i < c {
                    assert(old_v[i as int].0 != kv);
                }
            }
            ms.set(i, (k, v));
            assert(members_view(ms@) =~= old_v.update(i as int, (kv, vv)));
            return;
        }
        i = i + 1;
    }
    let ghost kv = k@;
    let ghost vv = v@;
    ms.push((k, v));
    assert(members_view(ms@) =~= old_v.push((kv, vv)));
    proof {
        reveal(members_set);
    }
}

/// `s` as a JSON integer when it parses as an `i64`, else as a string.
pub open spec fn scalar_spec(s: Seq<char>) -> JsonView {
    match crate::text::parse_i64_spec(s) {
        Some(n) => JsonView::Int(n as int),
        None => JsonView::Str(s),
    }
}

pub fn str_to_json_value(s: &str) -> (j: Json)
    ensures
        j@ == scalar_spec(s@),
{
    match crate::text::parse_i64(s) {
        Some(n) => Json::Int(n),
        None => Json::Str(crate::text::owned(s)),
    }
}

// ---------------------------------------------------------------------
// JSON text
// ---------------------------------------------------------------------
pub open spec fn hex_char(d: int) -> char {
    if d < 10 {
        ((d + 48) as u32) as char
    } else {
        ((d + 87) as u32) as char
    }
}

/// One character of a JSON string body.
pub open spec fn escape_char(c: char) -> Seq<char> {
    if c == '"' {
        seq!['\\', '"']
    } else if c == '\\' {
        seq!['\\', '\\']
    } else if c == '\n' {
        seq!['\\', 'n']
    } else if c == '\r' {
        seq!['\\', 'r']
    } else if c == '\t' {
        seq!['\\', 't']
    } else if (c as u32) < 0x20 {
        seq!['\\', 'u', '0', '0', hex_char((c as u32) as int / 16), hex_char((c as u32) as int % 16)]
    } else {
        seq![c]
    }
}

pub open spec fn escape_text(s: Seq<char>) -> Seq<char>
    decreases s.len(),
{
    if s.len() == 0 {
        Seq::empty()
    } else {
        escape_text(s.drop_last()) + escape_char(s.last())
    }
}

/// A string as a JSON string literal.
pub open spec fn quoted(s: Seq<char>) -> Seq<char> {
    seq!['"'] + escape_text(s) + seq!['"']
}

/// The compact JSON text of a value; object members keep their order.
pub open spec fn json_text(j: JsonView) -> Seq<char>
    decreases j,
{
    match j {
        JsonView::Null => "null"@,
        JsonView::Bool(b) => if b {
            "true"@
        } else {
            "false"@
        },
        JsonView::Int(n) => crate::text::int_text(n),
        JsonView::Str(s) => quoted(s),
        JsonView::Arr(items) => seq!['['] + items_text(items) + seq![']'],
        JsonView::Obj(ms) => seq!['{'] + members_text(ms) + seq!['}'],
    }
}

/// Array items separated by commas.
pub open spec fn items_text(items: Seq<JsonView>) -> Seq<char>
    decreases items,
{
    if items.len() == 0 {
        Seq::empty()
    } else if items.len() == 1 {
        json_text(items[0])
    } else {
        items_text(items.drop_last()) + seq![','] + json_text(items.last())
    }
}

/// Object members `"key":value` separated by commas.
pub open spec fn members_text(ms: Seq<(Seq<char>, JsonView)>) -> Seq<char>
    decreases ms,
{
    if ms.len() == 0 {
        Seq::empty()
    } else if ms.len() == 1 {
        quoted(ms[0].0) + seq![':'] + json_text(ms[0].1)
    } else {
        members_text(ms.drop_last()) + seq![','] + quoted(ms.last().0) + seq![':'] + json_text(
            ms.last().1,
        )
    }
}

fn hex_exec(d: u32) -> (c: char)
    requires
        d < 16,
    ensures
        c == hex_char(d as int),
{
    if d < 10 {
        let b: u8 = (d as u8) + 48;
        b as char
    } else {
        let b: u8 = (d as u8) + 87;
        b as char
    }
}

fn push_escaped(out: &mut String, s: &str)
    ensures
        final(out)@ == old(out)@ + escape_text(s@),
{
    let v = crate::text::chars_of(s);
    let mut i: usize = 0;
    assert(escape_text(v@.subrange(0, 0)) =~= Seq::<char>::empty());
    assert(out@ =~= old(out)@ + Seq::<char>::empty());
    while i < v.len()
        invariant
            i <= v@.len(),
            v@ == s@,
            out@ == old(out)@ + escape_text(v@.subrange(0, i as int)),
        decreases v@.len() - i,
    {
        let c = v[i];
        let ghost before = out@;
        if c == '"' {
            crate::text::push_char(out, '\\');
            crate::text::push_char(out, '"');
        } else if c == '\\' {
            crate::text::push_char(out, '\\');
            crate::text::push_char(out, '\\');
        } else if c == '\n' {
            crate::text::push_char(out, '\\');
            crate::text::push_char(out, 'n');
        } else if c == '\r' {
            crate::text::push_char(out, '\\');
            crate::text::push_char(out, 'r');
        } else if c == '\t' {
            crate::text::push_char(out, '\\');
            crate::text::push_char(out, 't');
        } else if (c as u32) < 0x20 {
            crate::text::push_char(out, '\\');
            crate::text::push_char(out, 'u');
            crate::text::push_char(out, '0');
            crate::text::push_char(out, '0');
            crate::text::push_char(out, hex_exec((c as u32) / 16));
            crate::text::push_char(out, hex_exec((c as u32) % 16));
        } else {
            crate::text::push_char(out, c);
        }
        assert(out@ =~= before + escape_char(c));
        assert(v@.subrange(0, i + 1).drop_last() =~= v@.subrange(0, i as int));
        assert(out@ =~= old(out)@ + escape_text(v@.subrange(0, i + 1)));
        i = i + 1;
    }
    assert(v@.subrange(0, v@.len() as int) =~= v@);
}

fn push_quoted(out: &mut String, s: &str)
    ensures
        final(out)@ == old(out)@ + quoted(s@),
{
    crate::text::push_char(out, '"');
    push_escaped(out, s);
    crate::text::push_char(out, '"');
    assert(out@ =~= old(out)@ + quoted(s@));
}

/// Appends the JSON text of `j` to `out`.
pub fn write_json(j: &Json, out: &mut String)
    ensures
        final(out)@ == old(out)@ + json_text(j@),
    decreases j,
{
    match j {
        Json::Null => {
            proof {
                reveal_strlit("null");
            }
            crate::text::push_str(out, "null");
        },
        Json::Bool(b) => {
            proof {
                reveal_strlit("true");
                reveal_strlit("false");
            }
            if *b {
                crate::text::push_str(out, "true");
            } else {
                crate::text::push_str(out, "false");
            }
        },
        Json::Int(n) => {
            let t = crate::text::i64_text(*n);
            crate::text::push_str(out, t.as_str());
        },
        Json::Str(s) => {
            push_quoted(out, s.as_str());
        },
        Json::Arr(items) => {
            let ghost iv = json_view(*j)->Arr_0;
            crate::text::push_char(out, '[');
            let ghost start = out@;
            let mut i: usize = 0;
            assert(iv.subrange(0, 0) =~= Seq::<JsonView>::empty());
            assert(out@ =~= start + items_text(iv.subrange(0, 0)));
            while i < items.len()
                invariant
                    i <= items@.len(),
                    iv.len() == items@.len(),
                    forall|k: int| 0 <= k < items@.len() ==> iv[k] == #[trigger] json_view(items@[k]),
                    out@ == start + items_text(iv.subrange(0, i as int)),
                    *j == Json::Arr(*items),
                decreases items@.len() - i,
            {
                let ghost before = out@;
                if i > 0 {
                    crate::text::push_char(out, ',');
                }
                proof {
                    assert(decreases_to!(*j => (*j)->Arr_0));
                    assert(decreases_to!(*items => items@));
                    assert(decreases_to!(items@ => items@[i as int]));
                }
                write_json(&items[i], out);
                assert(iv.subrange(0, i + 1).drop_last() =~= iv.subrange(0, i as int));
                if i == 0 {
                    assert(out@ =~= start + items_text(iv.subrange(0, i + 1)));
                } else {
                    assert(out@ =~= start + items_text(iv.subrange(0, i + 1)));
                }
                i = i + 1;
            }
            assert(iv.subrange(0, items@.len() as int) =~= iv);
            crate::text::push_char(out, ']');
            assert(out@ =~= old(out)@ + json_text(j@));
        },
        Json::Obj(ms) => {
            let ghost mv = json_view(*j)->Obj_0;
            crate::text::push_char(out, '{');
            let ghost start = out@;
            let mut i: usize = 0;
            assert(mv.subrange(0, 0) =~= Seq::<(Seq<char>, JsonView)>::empty());
            assert(out@ =~= start + members_text(mv.subrange(0, 0)));
            while i < ms.len()
                invariant
                    i <= ms@.len(),
                    mv.len() == ms@.len(),
                    forall|k: int|
                        0 <= k < ms@.len() ==> mv[k] == (ms@[k].0@, #[trigger] json_view(ms@[k].1)),
                    out@ == start + members_text(mv.subrange(0, i as int)),
                    *j == Json::Obj(*ms),
                decreases ms@.len() - i,
            {
                if i > 0 {
                    crate::text::push_char(out, ',');
                }
                push_quoted(out, ms[i].0.as_str());
                crate::text::push_char(out, ':');
                proof {
                    assert(decreases_to!(*j => (*j)->Obj_0));
                    assert(decreases_to!(*ms => ms@));
                    assert(decreases_to!(ms@ => ms@[i as int]));
                    assert(decreases_to!(ms@[i as int] => ms@[i as int].1));
                }
                write_json(&ms[i].1, out);
                assert(mv.subrange(0, i + 1).drop_last() =~= mv.subrange(0, i as int));
                assert(out@ =~= start + members_text(mv.subrange(0, i + 1)));
                i = i + 1;
            }
            assert(mv.subrange(0, ms@.len() as int) =~= mv);
            crate::text::push_char(out, '}');
            assert(out@ =~= old(out)@ + json_text(j@));
        },
    }
}

/// The JSON text of `j`.
pub fn to_json_text(j: &Json) -> (s: String)
    ensures
        s@ == json_text(j@),
{
    let mut s = String::new();
    write_json(j, &mut s);
    assert(s@ =~= Seq::<char>::empty() + json_text(j@));
    s
}

} // verus!
