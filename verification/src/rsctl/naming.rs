//! Naming styles, Rust type mapping and validation attributes used when
//! generating Rust code from an API description.
use vstd::prelude::*;

use crate::rsctl::apispec::{Type, TypeView};
use crate::text::{
    ascii_lower_seq, char_from, char_from_exec, chars_of, concat2, int_text, i64_text,
    is_ascii_lower, is_ascii_upper, lemma_char_from, lower_str, owned, parse_i64, parse_i64_spec,
    push_all, push_char, push_str, split, split_chars, str_eq, string_of_range, sub_vec, trim,
    trim_chars, trim_end_char, trim_end_char_bound, ascii_upper,
};

verus! {

/// File naming style of generated sources.
#[derive(Clone, Copy, Debug, PartialEq, Eq, Structural)]
pub enum Style {
    Snake,
    LowerCamel,
    UpperCamel,
}

pub open spec fn style_of(s: Seq<char>) -> Option<Style> {
    if s == "rust_zero"@ {
        Some(Style::Snake)
    } else if s == "rustZero"@ {
        Some(Style::LowerCamel)
    } else if s == "RustZero"@ {
        Some(Style::UpperCamel)
    } else {
        None
    }
}

pub open spec fn style_error_text(s: Seq<char>) -> Seq<char> {
    "unsupported style: "@ + s + " (expected rust_zero|rustZero|RustZero)"@
}

/// The style named `style`; the error message names the unknown style.
pub fn parse_style(style: &str) -> (r: Result<Style, String>)
    ensures
        match r {
            Ok(st) => style_of(style@) == Some(st),
            Err(msg) => style_of(style@) is None && msg@ == style_error_text(style@),
        },
{
    if str_eq(style, "rust_zero") {
        Ok(Style::Snake)
    } else if str_eq(style, "rustZero") {
        Ok(Style::LowerCamel)
    } else if str_eq(style, "RustZero") {
        Ok(Style::UpperCamel)
    } else {
        let mut msg = owned("unsupported style: ");
        push_str(&mut msg, style);
        push_str(&mut msg, " (expected rust_zero|rustZero|RustZero)");
        Err(msg)
    }
}

/// `snake`: the name trimmed and lower-cased (ASCII letters only).
pub open spec fn snake_spec(s: Seq<char>) -> Seq<char> {
    ascii_lower_seq(trim(s))
}

pub fn snake(s: &str) -> (r: String)
    ensures
        r@ == snake_spec(s@),
{
    let v = chars_of(s);
    let t = trim_chars(v.as_slice());
    let ts = string_of_range(t.as_slice(), 0, t.len());
    assert(t@.subrange(0, t@.len() as int) =~= t@);
    lower_str(ts.as_str())
}

/// The characters that `char::to_uppercase` yields for `c`.
pub uninterp spec fn upper_mapping(c: char) -> Seq<char>;

/// The characters that `char::to_lowercase` yields for `c`.
pub uninterp spec fn lower_mapping(c: char) -> Seq<char>;

/// `char::to_uppercase`, collected. For an ASCII character the result is
/// its ASCII upper case.
#[verifier::external_body]
fn char_to_upper(c: char) -> (r: Vec<char>)
    ensures
        r@ == upper_mapping(c),
        (c as u32) < 128 ==> r@ == seq![ascii_upper(c)],
{
    c.to_uppercase().collect()
}

/// `char::to_lowercase`, collected. For an ASCII character the result is
/// its ASCII lower case.
#[verifier::external_body]
fn char_to_lower(c: char) -> (r: Vec<char>)
    ensures
        r@ == lower_mapping(c),
        (c as u32) < 128 ==> r@ == seq![crate::text::ascii_lower(c)],
{
    c.to_lowercase().collect()
}

/// The upper case of `c` as `char::to_uppercase` gives it: the ASCII upper
/// case for an ASCII character.
pub open spec fn upper_chars(c: char) -> Seq<char> {
    if (c as u32) < 128 {
        seq![ascii_upper(c)]
    } else {
        upper_mapping(c)
    }
}

/// The lower case of `c` as `char::to_lowercase` gives it: the ASCII lower
/// case for an ASCII character.
pub open spec fn lower_chars(c: char) -> Seq<char> {
    if (c as u32) < 128 {
        seq![crate::text::ascii_lower(c)]
    } else {
        lower_mapping(c)
    }
}

/// PascalCase from a `snake_case` or `kebab-case` name: `_` and `-` are
/// dropped and the character after them (and the first one) upper-cased.
pub open spec fn pascal_from(s: Seq<char>, upper: bool) -> Seq<char>
    decreases s.len(),
{
    if s.len() == 0 {
        Seq::empty()
    } else if s[0] == '_' || s[0] == '-' {
        pascal_from(s.drop_first(), true)
    } else if upper {
        upper_chars(s[0]) + pascal_from(s.drop_first(), false)
    } else {
        seq![s[0]] + pascal_from(s.drop_first(), false)
    }
}

pub open spec fn pascal_spec(s: Seq<char>) -> Seq<char> {
    pascal_from(s, true)
}

pub fn pascal(s: &str) -> (r: String)
    ensures
        r@ == pascal_spec(s@),
{
    let v = chars_of(s);
    let n = v.len();
    let mut out = String::new();
    let mut upper = true;
    let mut i: usize = 0;
    assert(v@.subrange(0, n as int) =~= v@);
    while i < n
        invariant
            i <= n == v@.len(),
            v@ == s@,
            out@ + pascal_from(v@.subrange(i as int, n as int), upper) == pascal_spec(s@),
        decreases n - i,
    {
        let ch = v[i];
        let ghost rest = v@.subrange(i as int, n as int);
        assert(rest.drop_first() =~= v@.subrange(i + 1, n as int));
        assert(rest[0] == ch);
        if ch == '_' || ch == '-' {
            upper = true;
        } else if upper {
            let u = char_to_upper(ch);
            let ghost before = out@;
            push_all(&mut out, u.as_slice());
            assert(before + (u@ + pascal_from(v@.subrange(i + 1, n as int), false)) =~= out@
                + pascal_from(v@.subrange(i + 1, n as int), false));
            upper = false;
        } else {
            let ghost before = out@;
            push_char(&mut out, ch);
            assert(before + (seq![ch] + pascal_from(v@.subrange(i + 1, n as int), false)) =~= out@
                + pascal_from(v@.subrange(i + 1, n as int), false));
        }
        i = i + 1;
    }
    assert(pascal_from(v@.subrange(n as int, n as int), upper) =~= Seq::<char>::empty());
    assert(out@ + Seq::<char>::empty() =~= out@);
    out
}

/// A PascalCase name made from ASCII text holds no `_` and no `-`.
pub proof fn law_pascal_drops_separators(s: Seq<char>, upper: bool)
    requires
        forall|i: int| 0 <= i < s.len() ==> (#[trigger] s[i] as u32) < 128,
    ensures
        forall|i: int|
            0 <= i < pascal_from(s, upper).len() ==> #[trigger] pascal_from(s, upper)[i] != '_'
                && pascal_from(s, upper)[i] != '-',
    decreases s.len(),
{
    if s.len() > 0 {
        assert forall|i: int| 0 <= i < s.drop_first().len() implies (#[trigger] s.drop_first()[i] as u32) < 128 by {
            assert(s.drop_first()[i] == s[i + 1]);
        }
        law_pascal_drops_separators(s.drop_first(), true);
        law_pascal_drops_separators(s.drop_first(), false);
        let c = s[0];
        if c == '_' || c == '-' {
            let t = pascal_from(s.drop_first(), true);
            assert(pascal_from(s, upper) == t);
            assert forall|i: int| 0 <= i < t.len() implies #[trigger] t[i] != '_' && t[i] != '-' by {}
        } else {
            let h = if upper { upper_chars(c) } else { seq![c] };
            assert(h.len() == 1 && h[0] != '_' && h[0] != '-') by {
                if upper && is_ascii_lower(c) {
                    assert(('a' as u32) <= (c as u32) <= ('z' as u32));
                    assert(ascii_upper(c) as u32 == (c as u32) - 32);
                }
            }
            let t = pascal_from(s.drop_first(), false);
            assert(pascal_from(s, upper) == h + t);
            assert forall|i: int| 0 <= i < (h + t).len() implies #[trigger] (h + t)[i] != '_' && (h + t)[i] != '-' by {
                if i > 0 {
                    assert((h + t)[i] == t[i - 1]);
                }
            }
        }
    }
}

/// lowerCamelCase: the PascalCase name with its first character lower-cased.
pub open spec fn lower_camel_spec(s: Seq<char>) -> Seq<char> {
    let p = pascal_spec(s);
    if p.len() == 0 {
        Seq::empty()
    } else {
        lower_chars(p[0]) + p.drop_first()
    }
}

pub fn lower_camel_from_snake(s: &str) -> (r: String)
    ensures
        r@ == lower_camel_spec(s@),
{
    let p = pascal(s);
    let pv = chars_of(p.as_str());
    if pv.len() == 0 {
        return String::new();
    }
    let first = char_to_lower(pv[0]);
    let mut out = String::new();
    push_all(&mut out, first.as_slice());
    let rest = sub_vec(pv.as_slice(), 1, pv.len());
    push_all(&mut out, rest.as_slice());
    assert(pv@.subrange(1, pv@.len() as int) =~= pv@.drop_first());
    out
}

pub open spec fn group_file_base_spec(g: Seq<char>, st: Style) -> Seq<char> {
    match st {
        Style::Snake => g,
        Style::LowerCamel => lower_camel_spec(g),
        Style::UpperCamel => pascal_spec(g),
    }
}

/// The file name (without extension) of a group's module in the given style.
pub fn group_file_base(group_snake: &str, style: Style) -> (r: String)
    ensures
        r@ == group_file_base_spec(group_snake@, style),
{
    match style {
        Style::Snake => owned(group_snake),
        Style::LowerCamel => lower_camel_from_snake(group_snake),
        Style::UpperCamel => pascal(group_snake),
    }
}

pub open spec fn mod_decl_spec(parent: Seq<char>, module: Seq<char>, file_base: Seq<char>) -> Seq<
    char,
> {
    if module == file_base {
        "pub mod "@ + module + ";\n"@
    } else {
        "#[path = \""@ + parent + "/"@ + file_base + ".rs\"]\npub mod "@ + module + ";\n"@
    }
}

/// A module declaration; when the file name differs from the module name
/// the declaration carries a `#[path]` attribute.
pub fn mod_decl_with_path(parent_dir: &str, module: &str, file_base: &str) -> (r: String)
    ensures
        r@ == mod_decl_spec(parent_dir@, module@, file_base@),
{
    if str_eq(module, file_base) {
        let mut s = owned("pub mod ");
        push_str(&mut s, module);
        push_str(&mut s, ";\n");
        s
    } else {
        let mut s = owned("#[path = \"");
        push_str(&mut s, parent_dir);
        push_str(&mut s, "/");
        push_str(&mut s, file_base);
        push_str(&mut s, ".rs\"]\npub mod ");
        push_str(&mut s, module);
        push_str(&mut s, ";\n");
        s
    }
}

/// The Rust spelling of an API primitive type name.
pub open spec fn primitive_rust(p: Seq<char>) -> Seq<char> {
    if p == "string"@ {
        "String"@
    } else if p == "bool"@ {
        "bool"@
    } else if p == "int"@ || p == "int64"@ {
        "i64"@
    } else if p == "int32"@ {
        "i32"@
    } else if p == "uint"@ || p == "uint64"@ {
        "u64"@
    } else if p == "uint32"@ {
        "u32"@
    } else if p == "float32"@ {
        "f32"@
    } else if p == "float64"@ {
        "f64"@
    } else {
        p
    }
}

/// The Rust type for an API type, named types living in the group's
/// `types` module.
pub open spec fn rust_type_spec(g: Seq<char>, t: TypeView) -> Seq<char>
    decreases t,
{
    match t {
        TypeView::Any => "serde_json::Value"@,
        TypeView::Primitive(p) => primitive_rust(p),
        TypeView::Ident(name) => if trim(g).len() == 0 {
            "crate::types::"@ + name
        } else {
            "crate::types::"@ + g + "::types::"@ + name
        },
        TypeView::Array(inner) => "Vec<"@ + rust_type_spec(g, *inner) + ">"@,
        TypeView::Pointer(inner) => "Box<"@ + rust_type_spec(g, *inner) + ">"@,
        TypeView::MapType { key, value } => "std::collections::BTreeMap<"@ + rust_type_spec(g, *key)
            + ", "@ + rust_type_spec(g, *value) + ">"@,
    }
}

fn primitive_to_rust(p: &str) -> (r: String)
    ensures
        r@ == primitive_rust(p@),
{
    if str_eq(p, "string") {
        owned("String")
    } else if str_eq(p, "bool") {
        owned("bool")
    } else if str_eq(p, "int") || str_eq(p, "int64") {
        owned("i64")
    } else if str_eq(p, "int32") {
        owned("i32")
    } else if str_eq(p, "uint") || str_eq(p, "uint64") {
        owned("u64")
    } else if str_eq(p, "uint32") {
        owned("u32")
    } else if str_eq(p, "float32") {
        owned("f32")
    } else if str_eq(p, "float64") {
        owned("f64")
    } else {
        owned(p)
    }
}

pub fn type_to_rust(group_snake: &str, api_ty: &Type) -> (r: String)
    ensures
        r@ == rust_type_spec(group_snake@, api_ty@),
    decreases api_ty,
{
    match api_ty {
        Type::Any => owned("serde_json::Value"),
        Type::Primitive(p) => primitive_to_rust(p.as_str()),
        Type::Ident(name) => {
            let g = crate::text::trim_str(group_snake);
            if g.as_str().is_empty() {
                concat2("crate::types::", name.as_str())
            } else {
                let mut s = owned("crate::types::");
                push_str(&mut s, group_snake);
                push_str(&mut s, "::types::");
                push_str(&mut s, name.as_str());
                s
            }
        },
        Type::Array(inner) => {
            let t = type_to_rust(group_snake, inner);
            let mut s = owned("Vec<");
            push_str(&mut s, t.as_str());
            push_str(&mut s, ">");
            s
        },
        Type::Pointer(inner) => {
            let t = type_to_rust(group_snake, inner);
            let mut s = owned("Box<");
            push_str(&mut s, t.as_str());
            push_str(&mut s, ">");
            s
        },
        Type::MapType { key, value } => {
            let k = type_to_rust(group_snake, key);
            let v = type_to_rust(group_snake, value);
            let mut s = owned("std::collections::BTreeMap<");
            push_str(&mut s, k.as_str());
            push_str(&mut s, ", ");
            push_str(&mut s, v.as_str());
            push_str(&mut s, ">");
            s
        },
    }
}

// ---------------------------------------------------------------------
// `validate:"..."` tags to `validator` attributes
// ---------------------------------------------------------------------
/// The non-empty trimmed comma-separated items of a validate tag.
pub open spec fn validate_items(tag: Seq<char>) -> Seq<Seq<char>> {
    nonempty_items(split(tag, ',').map_values(|p: Seq<char>| trim(p)))
}

/// The non-empty members of `s`, in order.
pub open spec fn nonempty_items(s: Seq<Seq<char>>) -> Seq<Seq<char>>
    decreases s.len(),
{
    if s.len() == 0 {
        Seq::empty()
    } else if s.last().len() > 0 {
        nonempty_items(s.drop_last()).push(s.last())
    } else {
        nonempty_items(s.drop_last())
    }
}

/// The attribute an item stands for by itself (`email`, `url`, `required`).
pub open spec fn flag_attr(it: Seq<char>) -> Option<Seq<char>> {
    if it == "email"@ {
        Some("#[validate(email)]"@)
    } else if it == "url"@ {
        Some("#[validate(url)]"@)
    } else if it == "required"@ {
        Some("#[validate(required)]"@)
    } else {
        None
    }
}

/// For `key=value` items whose key (trimmed) is `key`: the value as an
/// `i64`, if the untrimmed value text parses.
pub open spec fn item_bound(it: Seq<char>, key: Seq<char>) -> Option<i64> {
    let eq = char_from(it, '=', 0);
    if flag_attr(it) is None && eq < it.len() && trim(it.subrange(0, eq)) == key {
        parse_i64_spec(it.subrange(eq + 1, it.len() as int))
    } else {
        None
    }
}

/// The last bound for `key` among the items.
pub open spec fn last_bound(items: Seq<Seq<char>>, key: Seq<char>) -> Option<i64>
    decreases items.len(),
{
    if items.len() == 0 {
        None
    } else {
        match item_bound(items.last(), key) {
            Some(n) => Some(n),
            None => last_bound(items.drop_last(), key),
        }
    }
}

/// The flag attributes of the items, in item order.
pub open spec fn flag_attrs(items: Seq<Seq<char>>) -> Seq<Seq<char>>
    decreases items.len(),
{
    if items.len() == 0 {
        Seq::empty()
    } else {
        match flag_attr(items.last()) {
            Some(a) => flag_attrs(items.drop_last()).push(a),
            None => flag_attrs(items.drop_last()),
        }
    }
}

pub open spec fn is_num_type(t: Seq<char>) -> bool {
    t == "i64"@ || t == "i32"@ || t == "u64"@ || t == "u32"@ || t == "f64"@ || t == "f32"@
}

pub open spec fn bound_part(key: Seq<char>, b: Option<i64>, positive_only: bool) -> Seq<Seq<char>> {
    match b {
        Some(n) => if !positive_only || n > 0 {
            seq![key + " = "@ + int_text(n as int)]
        } else {
            Seq::empty()
        },
        None => Seq::empty(),
    }
}

/// `a, b` joined with `", "`, for one or two parts.
pub open spec fn join_parts(parts: Seq<Seq<char>>) -> Seq<char> {
    if parts.len() == 1 {
        parts[0]
    } else {
        parts[0] + ", "@ + parts[1]
    }
}

/// The length/range attribute derived from the min/max bounds, if any.
pub open spec fn bounds_attr(ty: Seq<char>, items: Seq<Seq<char>>) -> Seq<Seq<char>> {
    let min_v = last_bound(items, "min"@);
    let max_v = last_bound(items, "max"@);
    if ty == "String"@ {
        let parts = bound_part("min"@, min_v, true) + bound_part("max"@, max_v, true);
        if parts.len() == 0 {
            Seq::empty()
        } else {
            seq!["#[validate(length("@ + join_parts(parts) + "))]"@]
        }
    } else if is_num_type(ty) {
        let parts = bound_part("min"@, min_v, false) + bound_part("max"@, max_v, false);
        if parts.len() == 0 {
            Seq::empty()
        } else {
            seq!["#[validate(range("@ + join_parts(parts) + "))]"@]
        }
    } else {
        Seq::empty()
    }
}

pub open spec fn validate_attrs_spec(ty: Seq<char>, tag: Seq<char>) -> Seq<Seq<char>> {
    flag_attrs(validate_items(tag)) + bounds_attr(ty, validate_items(tag))
}

/// The trimmed non-empty comma-separated items of `tag`.
fn tag_items(tag: &str) -> (r: Vec<Vec<char>>)
    ensures
        r@.len() == validate_items(tag@).len(),
        forall|i: int| 0 <= i < r@.len() ==> #[trigger] r@[i]@ == validate_items(tag@)[i],
{
    let v = chars_of(tag);
    let pieces = split_chars(v.as_slice(), ',');
    let ghost trimmed = split(tag@, ',').map_values(|p: Seq<char>| trim(p));
    let mut out: Vec<Vec<char>> = Vec::new();
    let mut i: usize = 0;
    while i < pieces.len()
        invariant
            v@ == tag@,
            i <= pieces@.len(),
            pieces@.len() == split(v@, ',').len(),
            forall|j: int| 0 <= j < pieces@.len() ==> #[trigger] pieces@[j]@ == split(v@, ',')[j],
            trimmed == split(tag@, ',').map_values(|p: Seq<char>| trim(p)),
            out@.len() == nonempty_items(trimmed.subrange(0, i as int)).len(),
            forall|j: int| 0 <= j < out@.len() ==> #[trigger] out@[j]@ == nonempty_items(trimmed.subrange(0, i as int))[j],
        decreases pieces@.len() - i,
    {
        let t = trim_chars(pieces[i].as_slice());
        let ghost before = trimmed.subrange(0, i as int);
        assert(trimmed.subrange(0, i + 1).drop_last() =~= before);
        assert(t@ == trimmed[i as int]);
        if t.len() > 0 {
            out.push(t);
        }
        i = i + 1;
    }
    assert(trimmed.subrange(0, pieces@.len() as int) =~= trimmed);
    out
}

fn flag_attr_exec(it: &Vec<char>) -> (r: Option<String>)
    ensures
        match r {
            Some(s) => flag_attr(it@) == Some(s@),
            None => flag_attr(it@) is None,
        },
{
    let s = string_of_range(it.as_slice(), 0, it.len());
    assert(it@.subrange(0, it@.len() as int) =~= it@);
    if str_eq(s.as_str(), "email") {
        Some(owned("#[validate(email)]"))
    } else if str_eq(s.as_str(), "url") {
        Some(owned("#[validate(url)]"))
    } else if str_eq(s.as_str(), "required") {
        Some(owned("#[validate(required)]"))
    } else {
        None
    }
}

fn item_bound_exec(it: &Vec<char>, key: &str) -> (r: Option<i64>)
    requires
        flag_attr(it@) is None,
    ensures
        r == item_bound(it@, key@),
{
    let eq = char_from_exec(it.as_slice(), '=', 0);
    if eq >= it.len() {
        return None;
    }
    let k = sub_vec(it.as_slice(), 0, eq);
    let kt = trim_chars(k.as_slice());
    let ks = string_of_range(kt.as_slice(), 0, kt.len());
    assert(kt@.subrange(0, kt@.len() as int) =~= kt@);
    if !str_eq(ks.as_str(), key) {
        return None;
    }
    let vs = string_of_range(it.as_slice(), eq + 1, it.len());
    parse_i64(vs.as_str())
}

fn push_bound(parts: &mut Vec<String>, key: &str, b: Option<i64>, positive_only: bool)
    ensures
        final(parts)@.map_values(|s: String| s@) == old(parts)@.map_values(|s: String| s@) + bound_part(
            key@,
            b,
            positive_only,
        ),
{
    let ghost before = parts@.map_values(|s: String| s@);
    match b {
        Some(n) => {
            if !positive_only || n > 0 {
                let mut s = owned(key);
                push_str(&mut s, " = ");
                let t = i64_text(n);
                push_str(&mut s, t.as_str());
                parts.push(s);
                assert(parts@.map_values(|s: String| s@) =~= before + bound_part(key@, b, positive_only));
            } else {
                assert(before + bound_part(key@, b, positive_only) =~= before);
            }
        },
        None => {
            assert(before + bound_part(key@, b, positive_only) =~= before);
        },
    }
}

fn bounds_attr_text(kind: &str, parts: &Vec<String>) -> (r: String)
    requires
        1 <= parts@.len() <= 2,
    ensures
        r@ == "#[validate("@ + kind@ + "("@ + join_parts(parts@.map_values(|s: String| s@)) + "))]"@,
{
    let mut s = owned("#[validate(");
    push_str(&mut s, kind);
    push_str(&mut s, "(");
    push_str(&mut s, parts[0].as_str());
    if parts.len() == 2 {
        push_str(&mut s, ", ");
        push_str(&mut s, parts[1].as_str());
    }
    push_str(&mut s, "))]");
    s
}

/// Maps a `validate:"..."` tag to `validator` attributes: `email`, `url`
/// and `required` by name, and `min=`/`max=` as `length` bounds of a
/// `String` (positive bounds only) or as `range` bounds of a number.
pub fn validate_tag_to_attrs(field_rust_ty: &str, validate_tag: &str) -> (r: Vec<String>)
    ensures
        r@.map_values(|s: String| s@) == validate_attrs_spec(field_rust_ty@, validate_tag@),
{
    let items = tag_items(validate_tag);
    let ghost its = validate_items(validate_tag@);
    let mut out: Vec<String> = Vec::new();
    let mut min_v: Option<i64> = None;
    let mut max_v: Option<i64> = None;
    let mut i: usize = 0;
    while i < items.len()
        invariant
            i <= items@.len(),
            items@.len() == its.len(),
            forall|j: int| 0 <= j < items@.len() ==> #[trigger] items@[j]@ == its[j],
            its == validate_items(validate_tag@),
            out@.map_values(|s: String| s@) == flag_attrs(its.subrange(0, i as int)),
            min_v == last_bound(its.subrange(0, i as int), "min"@),
            max_v == last_bound(its.subrange(0, i as int), "max"@),
        decreases items@.len() - i,
    {
        let ghost pre = its.subrange(0, i as int);
        let ghost nxt = its.subrange(0, i + 1);
        assert(nxt.drop_last() =~= pre);
        assert(nxt.last() == items@[i as int]@);
        match flag_attr_exec(&items[i]) {
            Some(a) => {
                out.push(a);
                assert(out@.map_values(|s: String| s@) =~= flag_attrs(nxt));
                assert(item_bound(nxt.last(), "min"@) is None);
                assert(item_bound(nxt.last(), "max"@) is None);
            },
            None => {
                proof {
                    reveal_strlit("min");
                    reveal_strlit("max");
                }
                match item_bound_exec(&items[i], "min") {
                    Some(n) => {
                        min_v = Some(n);
                    },
                    None => {},
                }
                match item_bound_exec(&items[i], "max") {
                    Some(n) => {
                        max_v = Some(n);
                    },
                    None => {},
                }
            },
        }
        i = i + 1;
    }
    assert(its.subrange(0, items@.len() as int) =~= its);
    let is_string = str_eq(field_rust_ty, "String");
    let is_num = str_eq(field_rust_ty, "i64") || str_eq(field_rust_ty, "i32") || str_eq(
        field_rust_ty,
        "u64",
    ) || str_eq(field_rust_ty, "u32") || str_eq(field_rust_ty, "f64") || str_eq(
        field_rust_ty,
        "f32",
    );
    let ghost flags = out@.map_values(|s: String| s@);
    if is_string || is_num {
        let mut parts: Vec<String> = Vec::new();
        assert(parts@.map_values(|s: String| s@) =~= Seq::<Seq<char>>::empty());
        push_bound(&mut parts, "min", min_v, is_string);
        push_bound(&mut parts, "max", max_v, is_string);
        proof {
            reveal_strlit("min");
            reveal_strlit("max");
            assert(Seq::<Seq<char>>::empty() + bound_part("min"@, min_v, is_string) + bound_part(
                "max"@,
                max_v,
                is_string,
            ) =~= bound_part("min"@, min_v, is_string) + bound_part("max"@, max_v, is_string));
        }
        if parts.len() > 0 {
            let kind = if is_string { "length" } else { "range" };
            let a = bounds_attr_text(kind, &parts);
            proof {
                reveal_strlit("length");
                reveal_strlit("range");
                reveal_strlit("#[validate(");
                reveal_strlit("#[validate(length(");
                reveal_strlit("#[validate(range(");
                reveal_strlit("(");
                assert("#[validate("@ + "length"@ + "("@ =~= "#[validate(length("@);
                assert("#[validate("@ + "range"@ + "("@ =~= "#[validate(range("@);
            }
            out.push(a);
            assert(out@.map_values(|s: String| s@) =~= flags + bounds_attr(field_rust_ty@, its));
        } else {
            assert(flags + bounds_attr(field_rust_ty@, its) =~= flags);
        }
    } else {
        assert(flags + bounds_attr(field_rust_ty@, its) =~= flags);
    }
    out
}

// ---------------------------------------------------------------------
// Paths
// ---------------------------------------------------------------------
pub open spec fn join_http_paths_spec(prefix: Seq<char>, path: Seq<char>) -> Seq<char> {
    let pfx = trim_end_char(prefix, '/');
    let p = if path.len() > 0 && path[0] == '/' {
        path
    } else {
        seq!['/'] + path
    };
    if pfx.len() == 0 {
        p
    } else if p == seq!['/'] {
        pfx
    } else {
        pfx + p
    }
}

/// Joins a group prefix and a route path: the prefix loses its trailing
/// slashes and the path gets a leading one.
pub fn join_http_paths(prefix: &str, path: &str) -> (r: String)
    ensures
        r@ == join_http_paths_spec(prefix@, path@),
        r@.len() > 0,
{
    let pv = chars_of(prefix);
    let b = trim_end_char_bound(pv.as_slice(), '/');
    let pathv = chars_of(path);
    let mut p = String::new();
    if !(pathv.len() > 0 && pathv[0] == '/') {
        push_char(&mut p, '/');
    }
    push_str(&mut p, path);
    let pv2 = chars_of(p.as_str());
    if b == 0 {
        return p;
    }
    if pv2.len() == 1 && pv2[0] == '/' {
        assert(pv2@ =~= seq!['/']);
        return string_of_range(pv.as_slice(), 0, b);
    }
    let mut out = string_of_range(pv.as_slice(), 0, b);
    push_str(&mut out, p.as_str());
    proof {
        if p@ == seq!['/'] {
            assert(pv2@.len() == 1 && pv2@[0] == '/');
        }
    }
    out
}

/// A joined path always starts with `/` when the prefix is empty or starts with `/`.
pub proof fn law_join_http_paths_rooted(prefix: Seq<char>, path: Seq<char>)
    requires
        prefix.len() == 0 || prefix[0] == '/',
    ensures
        join_http_paths_spec(prefix, path).len() > 0,
        join_http_paths_spec(prefix, path)[0] == '/',
{
    let pfx = trim_end_char(prefix, '/');
    lemma_skip_back_prefix(prefix, '/');
    if pfx.len() > 0 {
        assert(pfx[0] == prefix[0]);
    }
}

proof fn lemma_skip_back_prefix(s: Seq<char>, c: char)
    ensures
        trim_end_char(s, c).len() <= s.len(),
        forall|i: int| 0 <= i < trim_end_char(s, c).len() ==> trim_end_char(s, c)[i] == s[i],
    decreases s.len(),
{
    if s.len() > 0 && s.last() == c {
        assert(crate::text::eq_pred(c)(s.last()));
        assert(trim_end_char(s, c) == trim_end_char(s.drop_last(), c));
        lemma_skip_back_prefix(s.drop_last(), c);
        assert forall|i: int| 0 <= i < trim_end_char(s, c).len() implies trim_end_char(s, c)[i]
            == s[i] by {
            assert(s.drop_last()[i] == s[i]);
        }
    } else {
        assert(trim_end_char(s, c) == s);
    }
}

} // verus!
