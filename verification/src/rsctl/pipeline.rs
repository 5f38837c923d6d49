//! The decisions of the generation pipelines: what they check, what they
//! fill in and where they write. Reading and writing files is the caller's.
use vstd::prelude::*;

use crate::rsctl::apispec::{
    opt_view, validate_spec, validate_view, InfoView, Spec, SpecErrView, SpecError, SpecView,
};
use crate::rsctl::ast;
use crate::text::{
    ascii_lower_seq, char_from, char_from_exec, chars_of, concat2, eq_ignore_case, find_from,
    first_occurrence_from, is_ws, lemma_char_from, lower_str, owned, push_str, skip_while,
    skip_back_while, string_of_range, trim, trim_bounds, trim_by, trim_char, trim_char_bounds,
    trim_str, ws, ws_pred,
};

pub mod go;
pub mod openapi;
pub mod rs;

verus! {

/// A path made absolute: a leading `/` is added when missing.
pub open spec fn rooted(p: Seq<char>) -> Seq<char> {
    if p.len() > 0 && p[0] != '/' {
        "/"@ + p
    } else {
        p
    }
}

fn rooted_exec(p: String) -> (r: String)
    ensures
        r@ == rooted(p@),
{
    let v = chars_of(p.as_str());
    if v.len() > 0 && v[0] != '/' {
        concat2("/", p.as_str())
    } else {
        p
    }
}

// ---------------------------------------------------------------------
// The root prefix of an `.api` file
// ---------------------------------------------------------------------
/// The first non-empty `root_prefix` (any case) of the `info` block,
/// without quotes, trimmed and rooted.
pub open spec fn root_prefix_from(props: Seq<(Seq<char>, Seq<char>)>) -> Option<Seq<char>>
    decreases props.len(),
{
    if props.len() == 0 {
        None
    } else if ascii_lower_seq(props[0].0) == ascii_lower_seq("root_prefix"@) && rooted(trim(trim_char(props[0].1, '"'))).len() > 0 {
        Some(rooted(trim(trim_char(props[0].1, '"'))))
    } else {
        root_prefix_from(props.drop_first())
    }
}

pub open spec fn root_prefix_of_ast(a: ast::AstView) -> Option<Seq<char>> {
    match a.info {
        Some(props) => root_prefix_from(props),
        None => None,
    }
}

fn prefix_value(v: &str) -> (r: String)
    ensures
        r@ == rooted(trim(trim_char(v@, '"'))),
{
    let c = chars_of(v);
    let (a, b) = trim_char_bounds(c.as_slice(), '"');
    let unq = string_of_range(c.as_slice(), a, b);
    let t = trim_str(unq.as_str());
    rooted_exec(t)
}

/// The root prefix the `info` block of a parsed file sets, if any.
pub fn extract_root_prefix(a: &ast::Ast) -> (r: Option<String>)
    ensures
        crate::rsctl::apispec::opt_view(r) == root_prefix_of_ast(a@),
{
    let info = match &a.info {
        Some(i) => i,
        None => {
            return None;
        },
    };
    let props = &info.properties;
    let ghost pv = ast::pairs_view(props@);
    let mut i: usize = 0;
    assert(pv.subrange(0, pv.len() as int) =~= pv);
    proof {
        reveal_strlit("root_prefix");
    }
    while i < props.len()
        invariant
            i <= props@.len(),
            pv == ast::pairs_view(props@),
            root_prefix_of_ast(a@) == root_prefix_from(pv),
            root_prefix_from(pv) == root_prefix_from(pv.subrange(i as int, pv.len() as int)),
        decreases props@.len() - i,
    {
        let ghost rest = pv.subrange(i as int, pv.len() as int);
        assert(rest.drop_first() =~= pv.subrange(i + 1, pv.len() as int));
        assert(rest[0] == (props@[i as int].0@, props@[i as int].1@));
        if eq_ignore_case(props[i].0.as_str(), "root_prefix") {
            let p = prefix_value(props[i].1.as_str());
            if !p.as_str().is_empty() {
                return Some(p);
            }
        }
        i = i + 1;
    }
    None
}

/// The characters of `s` before the first one that satisfies `p`.
pub open spec fn take_until(s: Seq<char>, p: spec_fn(char) -> bool) -> Seq<char>
    decreases s.len(),
{
    if s.len() == 0 || p(s[0]) {
        Seq::empty()
    } else {
        seq![s[0]] + take_until(s.drop_first(), p)
    }
}

pub open spec fn punct_pred() -> spec_fn(char) -> bool {
    |c: char| c == '"' || c == ',' || c == ')'
}

pub open spec fn token_end_pred() -> spec_fn(char) -> bool {
    |c: char| is_ws(c) || c == '"' || c == ',' || c == ')'
}

/// The first index of `c` in `s`.
pub open spec fn index_of(s: Seq<char>, c: char) -> Option<int> {
    if char_from(s, c, 0) < s.len() {
        Some(char_from(s, c, 0))
    } else {
        None
    }
}

/// The root prefix read from the raw text of an `.api` file, after the
/// first `root_prefix` (any case): a quoted value, else the word after a
/// colon, else the path that starts at the next `/`.
pub open spec fn root_prefix_in_text(content: Seq<char>) -> Option<Seq<char>> {
    match first_occurrence_from(ascii_lower_seq(content), "root_prefix"@, 0) {
        None => None,
        Some(idx) => {
            let rest = content.subrange(idx + 11, content.len() as int);
            let quoted = match index_of(rest, '"') {
                Some(sq) => {
                    let rq = rest.subrange(sq + 1, rest.len() as int);
                    match index_of(rq, '"') {
                        Some(eq) => rooted(trim(rq.subrange(0, eq))),
                        None => Seq::empty(),
                    }
                },
                None => Seq::empty(),
            };
            let after_colon = match index_of(rest, ':') {
                Some(cp) => {
                    let tail = skip_while(rest.subrange(cp + 1, rest.len() as int), ws_pred());
                    rooted(trim(trim_by(take_until(tail, ws_pred()), punct_pred())))
                },
                None => Seq::empty(),
            };
            let slash = match index_of(rest, '/') {
                Some(sp) => rooted(trim(take_until(rest.subrange(sp, rest.len() as int), token_end_pred()))),
                None => Seq::empty(),
            };
            if quoted.len() > 0 {
                Some(quoted)
            } else if after_colon.len() > 0 {
                Some(after_colon)
            } else if slash.len() > 0 {
                Some(slash)
            } else {
                None
            }
        },
    }
}

fn index_of_exec(s: &[char], c: char) -> (r: Option<usize>)
    ensures
        match r {
            Some(i) => index_of(s@, c) == Some(i as int) && i < s@.len(),
            None => index_of(s@, c) is None,
        },
{
    let i = char_from_exec(s, c, 0);
    if i < s.len() {
        Some(i)
    } else {
        None
    }
}

fn take_until_ws(s: &[char]) -> (r: usize)
    ensures
        r <= s@.len(),
        take_until(s@, ws_pred()) == s@.subrange(0, r as int),
{
    let mut i: usize = 0;
    assert(s@.subrange(0, s@.len() as int) =~= s@);
    while i < s.len() && !ws(s[i])
        invariant
            i <= s@.len(),
            take_until(s@, ws_pred()) == s@.subrange(0, i as int) + take_until(s@.subrange(i as int, s@.len() as int), ws_pred()),
        decreases s@.len() - i,
    {
        let ghost rest = s@.subrange(i as int, s@.len() as int);
        assert(rest.drop_first() =~= s@.subrange(i + 1, s@.len() as int));
        assert(s@.subrange(0, i + 1) =~= s@.subrange(0, i as int) + seq![s@[i as int]]);
        i = i + 1;
    }
    assert(take_until(s@.subrange(i as int, s@.len() as int), ws_pred()) =~= Seq::<char>::empty());
    assert(s@.subrange(0, i as int) + Seq::<char>::empty() =~= s@.subrange(0, i as int));
    i
}

fn is_token_end(c: char) -> (r: bool)
    ensures
        r == (token_end_pred())(c),
{
    ws(c) || c == '"' || c == ',' || c == ')'
}

fn take_until_token_end(s: &[char]) -> (r: usize)
    ensures
        r <= s@.len(),
        take_until(s@, token_end_pred()) == s@.subrange(0, r as int),
{
    let mut i: usize = 0;
    assert(s@.subrange(0, 0) + take_until(s@.subrange(0, s@.len() as int), token_end_pred()) =~= take_until(s@, token_end_pred())) by {
        assert(s@.subrange(0, s@.len() as int) =~= s@);
    }
    while i < s.len() && !is_token_end(s[i])
        invariant
            i <= s@.len(),
            take_until(s@, token_end_pred()) == s@.subrange(0, i as int) + take_until(
                s@.subrange(i as int, s@.len() as int),
                token_end_pred(),
            ),
        decreases s@.len() - i,
    {
        let ghost rest = s@.subrange(i as int, s@.len() as int);
        assert(rest.drop_first() =~= s@.subrange(i + 1, s@.len() as int));
        assert(s@.subrange(0, i + 1) =~= s@.subrange(0, i as int) + seq![s@[i as int]]);
        i = i + 1;
    }
    assert(take_until(s@.subrange(i as int, s@.len() as int), token_end_pred()) =~= Seq::<char>::empty());
    assert(s@.subrange(0, i as int) + Seq::<char>::empty() =~= s@.subrange(0, i as int));
    i
}

fn is_punct(c: char) -> (r: bool)
    ensures
        r == (punct_pred())(c),
{
    c == '"' || c == ',' || c == ')'
}

/// `trim_by(s, punct_pred())` as a string.
fn trim_punct(s: &[char]) -> (r: String)
    ensures
        r@ == trim_by(s@, punct_pred()),
{
    let n = s.len();
    let mut a: usize = 0;
    assert(s@.subrange(0, n as int) =~= s@);
    while a < n && is_punct(s[a])
        invariant
            a <= n == s@.len(),
            skip_while(s@, punct_pred()) == skip_while(s@.subrange(a as int, n as int), punct_pred()),
        decreases n - a,
    {
        proof {
            crate::text::lemma_skip_while_step(s@, punct_pred(), a as int);
        }
        a = a + 1;
    }
    assert(skip_while(s@.subrange(a as int, n as int), punct_pred()) == s@.subrange(a as int, n as int));
    let mut b: usize = n;
    assert(s@.subrange(a as int, n as int).subrange(0, (n - a) as int) =~= s@.subrange(a as int, n as int));
    while b > a && is_punct(s[b - 1])
        invariant
            a <= b <= n == s@.len(),
            trim_by(s@, punct_pred()) == skip_back_while(s@.subrange(a as int, b as int), punct_pred()),
        decreases b,
    {
        proof {
            crate::text::lemma_skip_back_step(s@, punct_pred(), a as int, b as int);
        }
        b = b - 1;
    }
    string_of_range(s, a, b)
}

/// The root prefix written in the raw text of an `.api` file, if any.
pub fn extract_root_prefix_text(content: &str) -> (r: Option<String>)
    ensures
        crate::rsctl::apispec::opt_view(r) == root_prefix_in_text(content@),
{
    let c = chars_of(content);
    let lowered = lower_str(content);
    let lv = chars_of(lowered.as_str());
    let key = chars_of("root_prefix");
    proof {
        reveal_strlit("root_prefix");
    }
    let idx = match find_from(lv.as_slice(), key.as_slice(), 0) {
        Some(i) => i,
        None => {
            return None;
        },
    };
    assert(crate::text::occurs_at(lv@, key@, idx as int));
    assert(key@.len() == 11);
    assert(lv@.len() == c@.len());
    let n = c.len();
    assert(idx + 11 <= n);
    let rest = crate::text::sub_vec(c.as_slice(), idx + 11, n);
    assert(rest@ == content@.subrange(idx + 11, content@.len() as int));
    let quoted = match index_of_exec(rest.as_slice(), '"') {
        Some(sq) => {
            let rq = crate::text::sub_vec(rest.as_slice(), sq + 1, rest.len());
            match index_of_exec(rq.as_slice(), '"') {
                Some(eq) => {
                    let inner = string_of_range(rq.as_slice(), 0, eq);
                    rooted_exec(trim_str(inner.as_str()))
                },
                None => String::new(),
            }
        },
        None => String::new(),
    };
    if !quoted.as_str().is_empty() {
        return Some(quoted);
    }
    let after_colon = match index_of_exec(rest.as_slice(), ':') {
        Some(cp) => {
            let tail0 = crate::text::sub_vec(rest.as_slice(), cp + 1, rest.len());
            let (a, b) = trim_bounds(tail0.as_slice());
            let tail = crate::text::sub_vec(tail0.as_slice(), a, tail0.len());
            let e = take_until_ws(tail.as_slice());
            let word = crate::text::sub_vec(tail.as_slice(), 0, e);
            let unp = trim_punct(word.as_slice());
            rooted_exec(trim_str(unp.as_str()))
        },
        None => String::new(),
    };
    if !after_colon.as_str().is_empty() {
        return Some(after_colon);
    }
    let slash = match index_of_exec(rest.as_slice(), '/') {
        Some(sp) => {
            let tail = crate::text::sub_vec(rest.as_slice(), sp, rest.len());
            let e = take_until_token_end(tail.as_slice());
            let tok = string_of_range(tail.as_slice(), 0, e);
            rooted_exec(trim_str(tok.as_str()))
        },
        None => String::new(),
    };
    if !slash.as_str().is_empty() {
        Some(slash)
    } else {
        None
    }
}

// ---------------------------------------------------------------------
// Preparing a description for generation
// ---------------------------------------------------------------------
/// The service name: the description's, or the file's stem when that is
/// blank, or `api` when there is no stem either.
pub open spec fn service_name_choice(name: Seq<char>, stem: Option<Seq<char>>) -> Seq<char> {
    if trim(name).len() == 0 {
        match stem {
            Some(s) => s,
            None => "api"@,
        }
    } else {
        name
    }
}

/// The view of a spec once the root prefix found for the file is set and the
/// service name falls back to the file stem (or `api`) when blank.
pub open spec fn prepared_view(v: SpecView, stem: Option<Seq<char>>, root_prefix: Option<Seq<char>>) -> SpecView {
    SpecView {
        info: InfoView {
            title: v.info.title,
            desc: v.info.desc,
            version: v.info.version,
            author: v.info.author,
            email: v.info.email,
            properties: v.info.properties,
            root_prefix: match root_prefix {
                Some(p) => p,
                None => v.info.root_prefix,
            },
        },
        service_name: service_name_choice(v.service_name, stem),
        groups: v.groups,
        types: v.types,
    }
}

/// Sets the root prefix found for the file and the fallback service name,
/// then validates the description.
pub fn prepare_spec(spec: Spec, file_stem: Option<String>, root_prefix: Option<String>) -> (r: Result<Spec, SpecError>)
    ensures
        match r {
            Ok(s) => s@ == prepared_view(spec@, opt_view(file_stem), opt_view(root_prefix))
                && validate_view(s@) is Ok && validate_spec(s) is Ok,
            Err(e) => validate_view(prepared_view(spec@, opt_view(file_stem), opt_view(root_prefix)))
                == Err::<(), SpecErrView>(e@),
        },
{
    let mut s = spec;
    match root_prefix {
        Some(p) => {
            s.info.root_prefix = p;
        },
        None => {},
    }
    let t = trim_str(s.service.name.as_str());
    if t.as_str().is_empty() {
        s.service.name = match file_stem {
            Some(stem) => stem,
            None => owned("api"),
        };
    }
    assert(s@ == prepared_view(spec@, opt_view(file_stem), opt_view(root_prefix)));
    match s.validate() {
        Ok(()) => Ok(s),
        Err(e) => Err(e),
    }
}

/// `<filename>.<ext>` of the OpenAPI output: `openapi` by default, `yaml`
/// for the YAML format (any case), else `json`.
pub open spec fn openapi_file_name(filename: Seq<char>, format: Seq<char>) -> Seq<char> {
    (if filename.len() == 0 {
        "openapi"@
    } else {
        filename
    }) + "."@ + if is_yaml_format(format) {
        "yaml"@
    } else {
        "json"@
    }
}

pub open spec fn is_yaml_format(format: Seq<char>) -> bool {
    ascii_lower_seq(format) == ascii_lower_seq("yaml"@)
}

pub fn is_yaml(format: &str) -> (r: bool)
    ensures
        r == is_yaml_format(format@),
{
    eq_ignore_case(format, "yaml")
}

pub fn output_file_name(filename: &str, format: &str) -> (r: String)
    ensures
        r@ == openapi_file_name(filename@, format@),
{
    let mut s = if filename.is_empty() {
        owned("openapi")
    } else {
        owned(filename)
    };
    push_str(&mut s, ".");
    if is_yaml(format) {
        push_str(&mut s, "yaml");
    } else {
        push_str(&mut s, "json");
    }
    s
}

/// Why the options of a pipeline are refused before any work.
pub open spec fn options_error(out_dir: Option<Seq<char>>, api_file: Seq<char>) -> Option<Seq<char>> {
    if out_dir matches Some(d) && d.len() == 0 {
        Some("--dir is required"@)
    } else if api_file.len() == 0 {
        Some("--api is required"@)
    } else {
        None
    }
}

/// Checks the output directory (when the pipeline takes one) and the API
/// file are given.
pub fn check_options(out_dir: Option<&str>, api_file: &str) -> (r: Result<(), String>)
    ensures
        match r {
            Ok(_) => options_error(
                match out_dir {
                    Some(d) => Some(d@),
                    None => None,
                },
                api_file@,
            ) is None,
            Err(m) => options_error(
                match out_dir {
                    Some(d) => Some(d@),
                    None => None,
                },
                api_file@,
            ) == Some(m@),
        },
{
    match out_dir {
        Some(d) => if d.is_empty() {
            return Err(owned("--dir is required"));
        },
        None => {},
    }
    if api_file.is_empty() {
        return Err(owned("--api is required"));
    }
    Ok(())
}

} // verus!
