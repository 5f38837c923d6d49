//! The `.api` description language: a recursive-descent parser over the
//! characters of a file.
//!
//! The grammar is given by the spec functions of this module, which read a
//! statement at a position and give back what it stands for and where it
//! ends; each executable parser is proved to compute exactly that.
//!
//! ```text
//! file       := stmt*
//! stmt       := "syntax" "=" value
//!             | "info" "(" kv* ")"
//!             | "import" value
//!             | "type" "(" typedef* ")" | "type" typedef
//!             | annotation | route
//!             | "service" name "{" (annotation | route)* "}"
//! typedef    := name ["struct"] "{" field* "}"
//! field      := name type [`tag`]                 (on one line)
//! annotation := "@" name [ "(" kv* ")" | value ]  (value on the same line)
//! route      := method path ["(" type ")"] ["returns" "(" type ")"]
//! kv         := name ":" value [","]
//! ```
//! Whitespace, `// line` and `/* block */` comments separate tokens.
use vstd::prelude::*;

use crate::rsctl::ast::{
    Annotation, AnnotationArgs, AnnotationView, ArgsView, Ast, AstView, Field, FieldView, Info, Item,
    ItemView, Route, RouteView, Service, ServiceView, TypeDef, TypeDefView,
};
use crate::text::{ascii_alnum, ascii_ws, chars_of, is_ascii_alnum, is_ascii_ws, string_of_range};

verus! {

// ---------------------------------------------------------------------
// Character classes and spans
// ---------------------------------------------------------------------
/// The classes of characters that make up the tokens of the language.
#[derive(Clone, Copy, Debug, PartialEq, Eq, Structural)]
pub enum CharClass {
    /// Names and keywords: ASCII letters, digits, `_` and `-`.
    Name,
    /// Route paths: anything but whitespace and parentheses.
    Path,
    /// Type expressions: anything but whitespace, parentheses and backquotes.
    TypeText,
    /// Unquoted values: anything but whitespace, parentheses and `"`.
    Value,
    /// The rest of a line.
    NotNewline,
    /// Blanks inside a line.
    Blank,
    /// The inside of a backquoted tag.
    TagText,
}

pub open spec fn in_class(k: CharClass, c: char) -> bool {
    match k {
        CharClass::Name => is_ascii_alnum(c) || c == '_' || c == '-',
        CharClass::Path => !is_ascii_ws(c) && c != '(' && c != ')',
        CharClass::TypeText => !is_ascii_ws(c) && c != '(' && c != ')' && c != '`',
        CharClass::Value => !is_ascii_ws(c) && c != '(' && c != ')' && c != '"',
        CharClass::NotNewline => c != '\n',
        CharClass::Blank => c == ' ' || c == '\t' || c == '\r',
        CharClass::TagText => c != '`',
    }
}

fn in_class_exec(k: CharClass, c: char) -> (r: bool)
    ensures
        r == in_class(k, c),
{
    match k {
        CharClass::Name => ascii_alnum(c) || c == '_' || c == '-',
        CharClass::Path => !ascii_ws(c) && c != '(' && c != ')',
        CharClass::TypeText => !ascii_ws(c) && c != '(' && c != ')' && c != '`',
        CharClass::Value => !ascii_ws(c) && c != '(' && c != ')' && c != '"',
        CharClass::NotNewline => c != '\n',
        CharClass::Blank => c == ' ' || c == '\t' || c == '\r',
        CharClass::TagText => c != '`',
    }
}

/// The end of the longest run of characters of class `k` that starts at `i`.
pub open spec fn span(s: Seq<char>, i: int, k: CharClass) -> int
    decreases s.len() - i,
{
    if 0 <= i < s.len() && in_class(k, s[i]) {
        span(s, i + 1, k)
    } else {
        i
    }
}

pub proof fn lemma_span(s: Seq<char>, i: int, k: CharClass)
    requires
        0 <= i <= s.len(),
    ensures
        i <= span(s, i, k) <= s.len(),
        forall|j: int| i <= j < span(s, i, k) ==> in_class(k, #[trigger] s[j]),
        span(s, i, k) < s.len() ==> !in_class(k, s[span(s, i, k)]),
    decreases s.len() - i,
{
    if i < s.len() && in_class(k, s[i]) {
        lemma_span(s, i + 1, k);
    }
}

fn span_exec(s: &Vec<char>, i: usize, k: CharClass) -> (r: usize)
    requires
        i <= s@.len(),
    ensures
        r == span(s@, i as int, k),
        i <= r <= s@.len(),
{
    let mut j = i;
    while j < s.len() && in_class_exec(k, s[j])
        invariant
            i <= j <= s@.len(),
            span(s@, i as int, k) == span(s@, j as int, k),
        decreases s@.len() - j,
    {
        j = j + 1;
    }
    j
}

/// The index just after the `*/` that closes a block comment whose body
/// starts at `i`, or the end of the text.
pub open spec fn comment_close(s: Seq<char>, i: int) -> int
    decreases s.len() - i,
{
    if i + 1 >= s.len() {
        s.len() as int
    } else if s[i] == '*' && s[i + 1] == '/' {
        i + 2
    } else {
        comment_close(s, i + 1)
    }
}

pub proof fn lemma_comment_close(s: Seq<char>, i: int)
    requires
        0 <= i <= s.len(),
    ensures
        i <= comment_close(s, i) <= s.len(),
    decreases s.len() - i,
{
    if i + 1 < s.len() && !(s[i] == '*' && s[i + 1] == '/') {
        lemma_comment_close(s, i + 1);
    }
}

fn comment_close_exec(s: &Vec<char>, i: usize) -> (r: usize)
    requires
        i <= s@.len(),
    ensures
        r == comment_close(s@, i as int),
{
    let mut j = i;
    while j < s.len() && j + 1 < s.len() && !(s[j] == '*' && s[j + 1] == '/')
        invariant
            i <= j <= s@.len(),
            comment_close(s@, i as int) == comment_close(s@, j as int),
        decreases s@.len() - j,
    {
        j = j + 1;
    }
    if j >= s.len() || j + 1 >= s.len() {
        s.len()
    } else {
        j + 2
    }
}

/// Whether a comment starts at `i`.
pub open spec fn comment_at(s: Seq<char>, i: int) -> bool {
    0 <= i && i + 1 < s.len() && s[i] == '/' && (s[i + 1] == '/' || s[i + 1] == '*')
}

/// The first index at or after `i` that is neither whitespace nor inside
/// a comment.
pub open spec fn skip(s: Seq<char>, i: int) -> int
    decreases s.len() - i,
{
    if 0 <= i < s.len() && is_ascii_ws(s[i]) {
        skip(s, i + 1)
    } else if comment_at(s, i) && s[i + 1] == '/' {
        let e = span(s, i, CharClass::NotNewline);
        proof {
            lemma_span(s, i, CharClass::NotNewline);
            lemma_span(s, i + 1, CharClass::NotNewline);
        }
        if e > i {
            skip(s, e)
        } else {
            i
        }
    } else if comment_at(s, i) {
        proof {
            lemma_comment_close(s, i + 2);
        }
        skip(s, comment_close(s, i + 2))
    } else {
        i
    }
}

pub proof fn lemma_skip(s: Seq<char>, i: int)
    requires
        0 <= i <= s.len(),
    ensures
        i <= skip(s, i) <= s.len(),
        skip(s, i) < s.len() ==> !is_ascii_ws(s[skip(s, i)]) && !comment_at(s, skip(s, i)),
    decreases s.len() - i,
{
    if i < s.len() && is_ascii_ws(s[i]) {
        lemma_skip(s, i + 1);
    } else if comment_at(s, i) && s[i + 1] == '/' {
        lemma_span(s, i, CharClass::NotNewline);
        lemma_span(s, i + 1, CharClass::NotNewline);
        lemma_skip(s, span(s, i, CharClass::NotNewline));
    } else if comment_at(s, i) {
        lemma_comment_close(s, i + 2);
        lemma_skip(s, comment_close(s, i + 2));
    }
}

fn skip_exec(s: &Vec<char>, i: usize) -> (r: usize)
    requires
        i <= s@.len(),
    ensures
        r == skip(s@, i as int),
        i <= r <= s@.len(),
{
    let mut j = i;
    proof {
        lemma_skip(s@, i as int);
    }
    loop
        invariant
            i <= j <= s@.len(),
            skip(s@, i as int) == skip(s@, j as int),
        decreases s@.len() - j,
    {
        if j < s.len() && ascii_ws(s[j]) {
            j = j + 1;
        } else if j < s.len() && j + 1 < s.len() && s[j] == '/' && s[j + 1] == '/' {
            let e = span_exec(s, j, CharClass::NotNewline);
            proof {
                lemma_span(s@, j as int + 1, CharClass::NotNewline);
            }
            j = e;
        } else if j < s.len() && j + 1 < s.len() && s[j] == '/' && s[j + 1] == '*' {
            let e = comment_close_exec(s, j + 2);
            proof {
                lemma_comment_close(s@, j as int + 2);
            }
            j = e;
        } else {
            return j;
        }
    }
}

/// The index just after the `"` that closes a quoted value whose body
/// starts at `i`; a backslash escapes the character after it.
pub open spec fn quote_close(s: Seq<char>, i: int) -> Option<int>
    decreases s.len() + 1 - i,
{
    if i < 0 || i >= s.len() {
        None
    } else if s[i] == '"' {
        Some(i + 1)
    } else if s[i] == '\\' {
        quote_close(s, i + 2)
    } else {
        quote_close(s, i + 1)
    }
}

pub proof fn lemma_quote_close(s: Seq<char>, i: int)
    requires
        0 <= i,
    ensures
        quote_close(s, i) matches Some(e) ==> i < e <= s.len() && s[e - 1] == '"',
    decreases s.len() + 1 - i,
{
    if i < s.len() && s[i] != '"' {
        if s[i] == '\\' {
            lemma_quote_close(s, i + 2);
        } else {
            lemma_quote_close(s, i + 1);
        }
    }
}

fn quote_close_exec(s: &Vec<char>, i: usize) -> (r: Option<usize>)
    requires
        i <= s@.len(),
    ensures
        match r {
            Some(e) => quote_close(s@, i as int) == Some(e as int),
            None => quote_close(s@, i as int) is None,
        },
{
    let mut j = i;
    while j < s.len() && s[j] != '"'
        invariant
            i <= j <= s@.len(),
            quote_close(s@, i as int) == quote_close(s@, j as int),
        decreases s@.len() - j,
    {
        if s[j] == '\\' {
            if j + 1 < s.len() {
                j = j + 2;
            } else {
                assert(quote_close(s@, j + 2) is None);
                j = s.len();
            }
        } else {
            j = j + 1;
        }
    }
    if j < s.len() {
        Some(j + 1)
    } else {
        None
    }
}

/// The body of a quoted value with each `\"` read as `"`.
pub open spec fn unescape(t: Seq<char>) -> Seq<char>
    decreases t.len(),
{
    if t.len() == 0 {
        t
    } else if t.len() >= 2 && t[0] == '\\' && t[1] == '"' {
        seq!['"'] + unescape(t.subrange(2, t.len() as int))
    } else {
        seq![t[0]] + unescape(t.drop_first())
    }
}

/// A quoted value (quotes included) without its quotes, unescaped.
pub open spec fn unquote(q: Seq<char>) -> Seq<char> {
    unescape(q.subrange(1, q.len() - 1))
}

fn unescape_range(s: &Vec<char>, a: usize, b: usize) -> (r: String)
    requires
        a <= b <= s@.len(),
    ensures
        r@ == unescape(s@.subrange(a as int, b as int)),
{
    let mut out = String::new();
    let mut i = a;
    while i < b
        invariant
            a <= i <= b <= s@.len(),
            out@ + unescape(s@.subrange(i as int, b as int)) == unescape(s@.subrange(a as int, b as int)),
        decreases b - i,
    {
        let ghost t = s@.subrange(i as int, b as int);
        if i + 1 < b && s[i] == '\\' && s[i + 1] == '"' {
            assert(t.subrange(2, t.len() as int) =~= s@.subrange(i + 2, b as int));
            crate::text::push_char(&mut out, '"');
            assert(out@ + unescape(s@.subrange(i + 2, b as int)) =~= unescape(s@.subrange(a as int, b as int)));
            i = i + 2;
        } else {
            assert(t.drop_first() =~= s@.subrange(i + 1, b as int));
            crate::text::push_char(&mut out, s[i]);
            assert(out@ + unescape(s@.subrange(i + 1, b as int)) =~= unescape(s@.subrange(a as int, b as int)));
            i = i + 1;
        }
    }
    assert(unescape(s@.subrange(b as int, b as int)) =~= Seq::<char>::empty());
    assert(out@ =~= out@ + Seq::<char>::empty());
    out
}

// ---------------------------------------------------------------------
// Errors
// ---------------------------------------------------------------------
/// What the parser looked for where it stopped.
#[derive(Clone, Copy, Debug, PartialEq, Eq, Structural)]
pub enum Expected {
    Name,
    Colon,
    Equals,
    Value,
    Quote,
    OpenParen,
    CloseParen,
    OpenBrace,
    CloseBrace,
    Path,
    TypeText,
    TagEnd,
}

/// A file that does not follow the grammar: where, and what was missing.
#[derive(Clone, Copy, Debug, PartialEq, Eq, Structural)]
pub struct ParseError {
    /// Index of the character (not byte) where parsing stopped.
    pub pos: usize,
    pub expected: Expected,
}

pub open spec fn expected_text(e: Expected) -> Seq<char> {
    match e {
        Expected::Name => "a name"@,
        Expected::Colon => "':'"@,
        Expected::Equals => "'='"@,
        Expected::Value => "a value"@,
        Expected::Quote => "a closing '\"'"@,
        Expected::OpenParen => "'('"@,
        Expected::CloseParen => "')'"@,
        Expected::OpenBrace => "'{'"@,
        Expected::CloseBrace => "'}'"@,
        Expected::Path => "a route path"@,
        Expected::TypeText => "a type"@,
        Expected::TagEnd => "a closing '`'"@,
    }
}

pub open spec fn parse_error_text(e: ParseError) -> Seq<char> {
    "parse api dsl: expected "@ + expected_text(e.expected) + " at character "@ + crate::text::int_text(
        e.pos as int,
    )
}

impl ParseError {
    pub fn message(&self) -> (s: String)
        ensures
            s@ == parse_error_text(*self),
    {
        let what = match self.expected {
            Expected::Name => "a name",
            Expected::Colon => "':'",
            Expected::Equals => "'='",
            Expected::Value => "a value",
            Expected::Quote => "a closing '\"'",
            Expected::OpenParen => "'('",
            Expected::CloseParen => "')'",
            Expected::OpenBrace => "'{'",
            Expected::CloseBrace => "'}'",
            Expected::Path => "a route path",
            Expected::TypeText => "a type",
            Expected::TagEnd => "a closing '`'",
        };
        let mut s = crate::text::owned("parse api dsl: expected ");
        crate::text::push_str(&mut s, what);
        crate::text::push_str(&mut s, " at character ");
        let n = crate::text::u64_text(self.pos as u64);
        crate::text::push_str(&mut s, n.as_str());
        s
    }
}

/// The spec form of a parser's outcome: a value and the index after it,
/// or where it stopped and what it looked for.
pub open spec fn outcome<T: View>(r: Result<(T, usize), ParseError>) -> Result<(T::V, int), (int, Expected)> {
    match r {
        Ok((x, e)) => Ok((x@, e as int)),
        Err(er) => Err((er.pos as int, er.expected)),
    }
}

pub open spec fn fail<T>(er: ParseError) -> Result<T, (int, Expected)> {
    Err((er.pos as int, er.expected))
}

fn err<T>(pos: usize, expected: Expected) -> (r: Result<T, ParseError>)
    ensures
        r == Err::<T, ParseError>(ParseError { pos, expected }),
{
    Err(ParseError { pos, expected })
}

// ---------------------------------------------------------------------
// Values and key/value lists
// ---------------------------------------------------------------------
/// A value at `v`: a quoted value (quotes kept) or a run of value characters.
pub open spec fn value_at(s: Seq<char>, v: int) -> Result<(Seq<char>, int), (int, Expected)> {
    if 0 <= v < s.len() && s[v] == '"' {
        match quote_close(s, v + 1) {
            Some(e) => Ok((s.subrange(v, e), e)),
            None => Err((v, Expected::Quote)),
        }
    } else {
        let e = span(s, v, CharClass::Value);
        if e > v {
            Ok((s.subrange(v, e), e))
        } else {
            Err((v, Expected::Value))
        }
    }
}

pub proof fn lemma_value_at(s: Seq<char>, v: int)
    requires
        0 <= v <= s.len(),
    ensures
        value_at(s, v) matches Ok((t, e)) ==> v < e <= s.len() && t == s.subrange(v, e),
{
    lemma_span(s, v, CharClass::Value);
    if v < s.len() && s[v] == '"' {
        lemma_quote_close(s, v + 1);
    }
}

/// A value as written: quoted values lose their quotes.
pub open spec fn value_text(t: Seq<char>) -> Seq<char> {
    if t.len() >= 2 && t[0] == '"' {
        unquote(t)
    } else {
        t
    }
}

fn value_exec(s: &Vec<char>, v: usize) -> (r: Result<(String, usize), ParseError>)
    requires
        v <= s@.len(),
    ensures
        outcome(r) == value_at(s@, v as int),
        r matches Ok((_, e)) ==> v < e <= s@.len(),
{
    proof {
        lemma_value_at(s@, v as int);
    }
    if v < s.len() && s[v] == '"' {
        match quote_close_exec(s, v + 1) {
            Some(e) => {
                proof {
                    lemma_quote_close(s@, v + 1);
                }
                Ok((string_of_range(s.as_slice(), v, e), e))
            },
            None => err(v, Expected::Quote),
        }
    } else {
        let e = span_exec(s, v, CharClass::Value);
        if e > v {
            Ok((string_of_range(s.as_slice(), v, e), e))
        } else {
            err(v, Expected::Value)
        }
    }
}

fn value_text_exec(t: String) -> (r: String)
    ensures
        r@ == value_text(t@),
{
    let v = chars_of(t.as_str());
    if v.len() >= 2 && v[0] == '"' {
        unescape_range(&v, 1, v.len() - 1)
    } else {
        t
    }
}

pub open spec fn pairs_of(v: Seq<(String, String)>) -> Seq<(Seq<char>, Seq<char>)> {
    crate::rsctl::ast::pairs_view(v)
}

/// `key: value` pairs up to the closing `)`, optionally separated by
/// commas; with `unq`, quoted values lose their quotes.
pub open spec fn kv_list(s: Seq<char>, i: int, acc: Seq<(Seq<char>, Seq<char>)>, unq: bool) -> Result<
    (Seq<(Seq<char>, Seq<char>)>, int),
    (int, Expected),
>
    decreases s.len() - i,
    when 0 <= i <= s.len()
{
    let j = skip(s, i);
    proof {
        lemma_skip(s, i);
    }
    if j >= s.len() {
        Err((j, Expected::CloseParen))
    } else if s[j] == ')' {
        Ok((acc, j + 1))
    } else if s[j] == ',' {
        kv_list(s, j + 1, acc, unq)
    } else {
        let ke = span(s, j, CharClass::Name);
        proof {
            lemma_span(s, j, CharClass::Name);
            lemma_skip(s, ke);
        }
        if ke == j {
            Err((j, Expected::Name))
        } else {
            let c = skip(s, ke);
            if c >= s.len() || s[c] != ':' {
                Err((c, Expected::Colon))
            } else {
                let v = skip(s, c + 1);
                proof {
                    lemma_skip(s, c + 1);
                    lemma_value_at(s, v);
                }
                match value_at(s, v) {
                    Err(e) => Err(e),
                    Ok((raw, ve)) => kv_list(
                        s,
                        ve,
                        acc.push((s.subrange(j, ke), if unq { value_text(raw) } else { raw })),
                        unq,
                    ),
                }
            }
        }
    }
}

pub proof fn lemma_kv_list(s: Seq<char>, i: int, acc: Seq<(Seq<char>, Seq<char>)>, unq: bool)
    requires
        0 <= i <= s.len(),
    ensures
        kv_list(s, i, acc, unq) matches Ok((_, e)) ==> i < e <= s.len(),
    decreases s.len() - i,
{
    let j = skip(s, i);
    lemma_skip(s, i);
    if j < s.len() && s[j] != ')' {
        if s[j] == ',' {
            lemma_kv_list(s, j + 1, acc, unq);
        } else {
            let ke = span(s, j, CharClass::Name);
            lemma_span(s, j, CharClass::Name);
            lemma_skip(s, ke);
            let c = skip(s, ke);
            if ke != j && c < s.len() && s[c] == ':' {
                let v = skip(s, c + 1);
                lemma_skip(s, c + 1);
                lemma_value_at(s, v);
                if let Ok((raw, ve)) = value_at(s, v) {
                    lemma_kv_list(
                        s,
                        ve,
                        acc.push((s.subrange(j, ke), if unq { value_text(raw) } else { raw })),
                        unq,
                    );
                }
            }
        }
    }
}

fn kv_list_exec(s: &Vec<char>, i: usize, unq: bool) -> (r: Result<(Vec<(String, String)>, usize), ParseError>)
    requires
        i <= s@.len(),
    ensures
        match r {
            Ok((kvs, e)) => kv_list(s@, i as int, Seq::empty(), unq) == Ok::<
                (Seq<(Seq<char>, Seq<char>)>, int),
                (int, Expected),
            >((pairs_of(kvs@), e as int)) && i < e <= s@.len(),
            Err(er) => kv_list(s@, i as int, Seq::empty(), unq) == fail::<
                (Seq<(Seq<char>, Seq<char>)>, int),
            >(er),
        },
{
    let mut acc: Vec<(String, String)> = Vec::new();
    let mut k = i;
    proof {
        lemma_kv_list(s@, i as int, Seq::empty(), unq);
        assert(pairs_of(acc@) =~= Seq::<(Seq<char>, Seq<char>)>::empty());
    }
    loop
        invariant
            i <= k <= s@.len(),
            kv_list(s@, i as int, Seq::empty(), unq) == kv_list(s@, k as int, pairs_of(acc@), unq),
            kv_list(s@, i as int, Seq::empty(), unq) matches Ok((_, e)) ==> i < e <= s@.len(),
        decreases s@.len() - k,
    {
        let j = skip_exec(s, k);
        if j >= s.len() {
            return err(j, Expected::CloseParen);
        } else if s[j] == ')' {
            return Ok((acc, j + 1));
        } else if s[j] == ',' {
            k = j + 1;
        } else {
            let ke = span_exec(s, j, CharClass::Name);
            if ke == j {
                return err(j, Expected::Name);
            }
            let c = skip_exec(s, ke);
            if c >= s.len() || s[c] != ':' {
                return err(c, Expected::Colon);
            }
            let v = skip_exec(s, c + 1);
            match value_exec(s, v) {
                Err(er) => {
                    return Err(er);
                },
                Ok((raw, ve)) => {
                    let key = string_of_range(s.as_slice(), j, ke);
                    let val = if unq {
                        value_text_exec(raw)
                    } else {
                        raw
                    };
                    let ghost before = pairs_of(acc@);
                    acc.push((key, val));
                    assert(pairs_of(acc@) =~= before.push((s@.subrange(j as int, ke as int), val@)));
                    k = ve;
                },
            }
        }
    }
}

// ---------------------------------------------------------------------
// Annotations
// ---------------------------------------------------------------------
/// `@name`, then `( kv* )`, or a quoted or bare value on the same line.
pub open spec fn annotation_at(s: Seq<char>, j: int) -> Result<(AnnotationView, int), (int, Expected)> {
    let ne = span(s, j + 1, CharClass::Name);
    if ne == j + 1 {
        Err((j + 1, Expected::Name))
    } else {
        let name = s.subrange(j + 1, ne);
        let a = span(s, ne, CharClass::Blank);
        if a < s.len() && s[a] == '(' {
            match kv_list(s, a + 1, Seq::empty(), true) {
                Err(e) => Err(e),
                Ok((kvs, e)) => Ok(
                    (
                        AnnotationView {
                            name,
                            args: if kvs.len() == 0 {
                                ArgsView::Empty
                            } else {
                                ArgsView::KeyValues(kvs)
                            },
                        },
                        e,
                    ),
                ),
            }
        } else if a < s.len() && s[a] == '"' {
            match value_at(s, a) {
                Err(e) => Err(e),
                Ok((raw, e)) => Ok((AnnotationView { name, args: ArgsView::Str(unquote(raw)) }, e)),
            }
        } else if a < s.len() && in_class(CharClass::Value, s[a]) && !comment_at(s, a) {
            let e = span(s, a, CharClass::Value);
            Ok((AnnotationView { name, args: ArgsView::Str(s.subrange(a, e)) }, e))
        } else {
            Ok((AnnotationView { name, args: ArgsView::Empty }, ne))
        }
    }
}

pub proof fn lemma_annotation_at(s: Seq<char>, j: int)
    requires
        0 <= j < s.len(),
    ensures
        annotation_at(s, j) matches Ok((_, e)) ==> j < e <= s.len(),
{
    let ne = span(s, j + 1, CharClass::Name);
    lemma_span(s, j + 1, CharClass::Name);
    lemma_span(s, ne, CharClass::Blank);
    let a = span(s, ne, CharClass::Blank);
    if a < s.len() {
        lemma_kv_list(s, a + 1, Seq::empty(), true);
        lemma_value_at(s, a);
        lemma_span(s, a, CharClass::Value);
    }
}

fn annotation_exec(s: &Vec<char>, j: usize) -> (r: Result<(Annotation, usize), ParseError>)
    requires
        j < s.len(),
    ensures
        outcome(r) == annotation_at(s@, j as int),
        r matches Ok((_, e)) ==> j < e <= s@.len(),
{
    proof {
        lemma_annotation_at(s@, j as int);
    }
    let ne = span_exec(s, j + 1, CharClass::Name);
    if ne == j + 1 {
        return err(j + 1, Expected::Name);
    }
    let name = string_of_range(s.as_slice(), j + 1, ne);
    let a = span_exec(s, ne, CharClass::Blank);
    if a < s.len() && s[a] == '(' {
        match kv_list_exec(s, a + 1, true) {
            Err(er) => Err(er),
            Ok((kvs, e)) => {
                let args = if kvs.len() == 0 {
                    AnnotationArgs::Empty
                } else {
                    AnnotationArgs::KeyValues(kvs)
                };
                Ok((Annotation { name, args }, e))
            },
        }
    } else if a < s.len() && s[a] == '"' {
        match value_exec(s, a) {
            Err(er) => Err(er),
            Ok((raw, e)) => {
                let v = chars_of(raw.as_str());
                proof {
                    lemma_quote_close(s@, a + 1);
                }
                let t = unescape_range(&v, 1, v.len() - 1);
                Ok((Annotation { name, args: AnnotationArgs::Str(t) }, e))
            },
        }
    } else if a < s.len() && in_class_exec(CharClass::Value, s[a]) && !(a + 1 < s.len() && s[a]
        == '/' && (s[a + 1] == '/' || s[a + 1] == '*')) {
        let e = span_exec(s, a, CharClass::Value);
        Ok((Annotation { name, args: AnnotationArgs::Str(string_of_range(s.as_slice(), a, e)) }, e))
    } else {
        Ok((Annotation { name, args: AnnotationArgs::Empty }, ne))
    }
}

// ---------------------------------------------------------------------
// Types
// ---------------------------------------------------------------------
/// `name type [`tag`]`, all on one line.
pub open spec fn field_at(s: Seq<char>, j: int) -> Result<(FieldView, int), (int, Expected)> {
    let ne = span(s, j, CharClass::Name);
    if ne == j {
        Err((j, Expected::Name))
    } else {
        let t = span(s, ne, CharClass::Blank);
        let te = span(s, t, CharClass::TypeText);
        if te == t {
            Err((t, Expected::TypeText))
        } else {
            let g = span(s, te, CharClass::Blank);
            if g < s.len() && s[g] == '`' {
                let ge = span(s, g + 1, CharClass::TagText);
                if ge >= s.len() {
                    Err((g, Expected::TagEnd))
                } else {
                    Ok(
                        (
                            FieldView {
                                name: s.subrange(j, ne),
                                ty: s.subrange(t, te),
                                tag: Some(s.subrange(g + 1, ge)),
                            },
                            ge + 1,
                        ),
                    )
                }
            } else {
                Ok((FieldView { name: s.subrange(j, ne), ty: s.subrange(t, te), tag: None }, te))
            }
        }
    }
}

pub proof fn lemma_field_at(s: Seq<char>, j: int)
    requires
        0 <= j <= s.len(),
    ensures
        field_at(s, j) matches Ok((_, e)) ==> j < e <= s.len(),
{
    let ne = span(s, j, CharClass::Name);
    lemma_span(s, j, CharClass::Name);
    lemma_span(s, ne, CharClass::Blank);
    let t = span(s, ne, CharClass::Blank);
    lemma_span(s, t, CharClass::TypeText);
    let te = span(s, t, CharClass::TypeText);
    lemma_span(s, te, CharClass::Blank);
    let g = span(s, te, CharClass::Blank);
    if g < s.len() {
        lemma_span(s, g + 1, CharClass::TagText);
    }
}

/// A run of characters of class `k` from `i` to `e`, ended by the end of
/// the text or a character outside the class, is what `span` skips.
proof fn lemma_span_to(s: Seq<char>, i: int, e: int, k: CharClass)
    requires
        0 <= i <= e <= s.len(),
        forall|m: int| i <= m < e ==> in_class(k, #[trigger] s[m]),
        e == s.len() || !in_class(k, s[e]),
    ensures
        span(s, i, k) == e,
    decreases e - i,
{
    if i < e {
        lemma_span_to(s, i + 1, e, k);
    }
}

/// A field line `name type `text`` keeps its tag: the field is named
/// `name`, has the type `type`, and its tag is the text between the
/// backquotes; parsing goes on right after the closing backquote. Blanks
/// (spaces, tabs) separate the name from the type, and may stand before
/// the tag.
pub proof fn law_field_keeps_tag(n: Seq<char>, b1: Seq<char>, ty: Seq<char>, b2: Seq<char>, x: Seq<char>, rest: Seq<char>)
    requires
        n.len() > 0,
        forall|i: int| 0 <= i < n.len() ==> in_class(CharClass::Name, #[trigger] n[i]),
        b1.len() > 0,
        forall|i: int| 0 <= i < b1.len() ==> in_class(CharClass::Blank, #[trigger] b1[i]),
        ty.len() > 0,
        forall|i: int| 0 <= i < ty.len() ==> in_class(CharClass::TypeText, #[trigger] ty[i]),
        forall|i: int| 0 <= i < b2.len() ==> in_class(CharClass::Blank, #[trigger] b2[i]),
        forall|i: int| 0 <= i < x.len() ==> #[trigger] x[i] != '`',
    ensures
        field_at(n + b1 + ty + b2 + seq!['`'] + x + seq!['`'] + rest, 0) == Ok::<(FieldView, int), (int, Expected)>(
            (FieldView { name: n, ty: ty, tag: Some(x) }, (n.len() + b1.len() + ty.len() + b2.len() + x.len() + 2) as int),
        ),
{
    let s = n + b1 + ty + b2 + seq!['`'] + x + seq!['`'] + rest;
    let ne = n.len() as int;
    let t = ne + b1.len();
    let te = t + ty.len();
    let g = te + b2.len();
    let ge = g + 1 + x.len();
    assert forall|m: int| 0 <= m < ne implies in_class(CharClass::Name, #[trigger] s[m]) by {
        assert(s[m] == n[m]);
    }
    assert(s[ne] == b1[0]);
    lemma_span_to(s, 0, ne, CharClass::Name);
    assert forall|m: int| ne <= m < t implies in_class(CharClass::Blank, #[trigger] s[m]) by {
        assert(s[m] == b1[m - ne]);
    }
    assert(s[t] == ty[0]);
    lemma_span_to(s, ne, t, CharClass::Blank);
    assert forall|m: int| t <= m < te implies in_class(CharClass::TypeText, #[trigger] s[m]) by {
        assert(s[m] == ty[m - t]);
    }
    if b2.len() > 0 {
        assert(s[te] == b2[0]);
    } else {
        assert(s[te] == '`');
    }
    lemma_span_to(s, t, te, CharClass::TypeText);
    assert forall|m: int| te <= m < g implies in_class(CharClass::Blank, #[trigger] s[m]) by {
        assert(s[m] == b2[m - te]);
    }
    assert(s[g] == '`');
    lemma_span_to(s, te, g, CharClass::Blank);
    assert forall|m: int| g + 1 <= m < ge implies in_class(CharClass::TagText, #[trigger] s[m]) by {
        assert(s[m] == x[m - g - 1]);
    }
    assert(s[ge] == '`');
    lemma_span_to(s, g + 1, ge, CharClass::TagText);
    assert(s.subrange(0, ne) =~= n);
    assert(s.subrange(t, te) =~= ty);
    assert(s.subrange(g + 1, ge) =~= x);
}

fn field_exec(s: &Vec<char>, j: usize) -> (r: Result<(Field, usize), ParseError>)
    requires
        j <= s@.len(),
    ensures
        outcome(r) == field_at(s@, j as int),
        r matches Ok((_, e)) ==> j < e <= s@.len(),
{
    proof {
        lemma_field_at(s@, j as int);
    }
    let ne = span_exec(s, j, CharClass::Name);
    if ne == j {
        return err(j, Expected::Name);
    }
    let t = span_exec(s, ne, CharClass::Blank);
    let te = span_exec(s, t, CharClass::TypeText);
    if te == t {
        return err(t, Expected::TypeText);
    }
    let name = string_of_range(s.as_slice(), j, ne);
    let ty = string_of_range(s.as_slice(), t, te);
    let g = span_exec(s, te, CharClass::Blank);
    if g < s.len() && s[g] == '`' {
        let ge = span_exec(s, g + 1, CharClass::TagText);
        if ge >= s.len() {
            err(g, Expected::TagEnd)
        } else {
            Ok((Field { name, ty, tag: Some(string_of_range(s.as_slice(), g + 1, ge)) }, ge + 1))
        }
    } else {
        Ok((Field { name, ty, tag: None }, te))
    }
}

/// Fields up to the closing `}`.
pub open spec fn fields_from(s: Seq<char>, i: int, acc: Seq<FieldView>) -> Result<(Seq<FieldView>, int), (int, Expected)>
    decreases s.len() - i,
    when 0 <= i <= s.len()
{
    let j = skip(s, i);
    proof {
        lemma_skip(s, i);
        lemma_field_at(s, j);
    }
    if j >= s.len() {
        Err((j, Expected::CloseBrace))
    } else if s[j] == '}' {
        Ok((acc, j + 1))
    } else {
        match field_at(s, j) {
            Err(e) => Err(e),
            Ok((f, e)) => fields_from(s, e, acc.push(f)),
        }
    }
}

pub proof fn lemma_fields_from(s: Seq<char>, i: int, acc: Seq<FieldView>)
    requires
        0 <= i <= s.len(),
    ensures
        fields_from(s, i, acc) matches Ok((_, e)) ==> i < e <= s.len(),
    decreases s.len() - i,
{
    let j = skip(s, i);
    lemma_skip(s, i);
    lemma_field_at(s, j);
    if j < s.len() && s[j] != '}' {
        if let Ok((f, e)) = field_at(s, j) {
            lemma_fields_from(s, e, acc.push(f));
        }
    }
}

pub open spec fn fields_of(v: Seq<Field>) -> Seq<FieldView> {
    v.map_values(|f: Field| f@)
}

fn fields_exec(s: &Vec<char>, i: usize) -> (r: Result<(Vec<Field>, usize), ParseError>)
    requires
        i <= s@.len(),
    ensures
        match r {
            Ok((fs, e)) => fields_from(s@, i as int, Seq::empty()) == Ok::<(Seq<FieldView>, int), (int, Expected)>(
                (fields_of(fs@), e as int),
            ) && i < e <= s@.len(),
            Err(er) => fields_from(s@, i as int, Seq::empty()) == fail::<(Seq<FieldView>, int)>(er),
        },
{
    let mut acc: Vec<Field> = Vec::new();
    let mut k = i;
    proof {
        lemma_fields_from(s@, i as int, Seq::empty());
        assert(fields_of(acc@) =~= Seq::<FieldView>::empty());
    }
    loop
        invariant
            i <= k <= s@.len(),
            fields_from(s@, i as int, Seq::empty()) == fields_from(s@, k as int, fields_of(acc@)),
            fields_from(s@, i as int, Seq::empty()) matches Ok((_, e)) ==> i < e <= s@.len(),
        decreases s@.len() - k,
    {
        let j = skip_exec(s, k);
        if j >= s.len() {
            return err(j, Expected::CloseBrace);
        } else if s[j] == '}' {
            return Ok((acc, j + 1));
        }
        match field_exec(s, j) {
            Err(er) => {
                return Err(er);
            },
            Ok((f, e)) => {
                let ghost before = fields_of(acc@);
                let ghost fv = f@;
                acc.push(f);
                assert(fields_of(acc@) =~= before.push(fv));
                k = e;
            },
        }
    }
}

/// Whether the name at `b` is `word`.
pub open spec fn word_is(s: Seq<char>, b: int, word: Seq<char>) -> bool {
    s.subrange(b, span(s, b, CharClass::Name)) == word
}

fn word_is_exec(s: &Vec<char>, b: usize, word: &str) -> (r: bool)
    requires
        b <= s@.len(),
    ensures
        r == word_is(s@, b as int, word@),
{
    let e = span_exec(s, b, CharClass::Name);
    let w = chars_of(word);
    if e - b != w.len() {
        assert(s@.subrange(b as int, e as int).len() != w@.len());
        return false;
    }
    let mut k: usize = 0;
    while k < w.len()
        invariant
            k <= w@.len() == e - b,
            b <= e <= s@.len(),
            e == span(s@, b as int, CharClass::Name),
            w@ == word@,
            forall|m: int| 0 <= m < k ==> s@[b + m] == w@[m],
        decreases w@.len() - k,
    {
        if s[b + k] != w[k] {
            assert(s@.subrange(b as int, e as int)[k as int] == s@[b + k]);
            assert(!(s@.subrange(b as int, e as int) =~= w@));
            return false;
        }
        k = k + 1;
    }
    assert(s@.subrange(b as int, e as int) =~= w@);
    true
}

/// `name ["struct"] { field* }`
pub open spec fn typedef_at(s: Seq<char>, j: int) -> Result<(TypeDefView, int), (int, Expected)> {
    let ne = span(s, j, CharClass::Name);
    if ne == j {
        Err((j, Expected::Name))
    } else {
        let b = skip(s, ne);
        let b2 = if word_is(s, b, "struct"@) {
            skip(s, span(s, b, CharClass::Name))
        } else {
            b
        };
        if b2 < s.len() && s[b2] == '{' {
            match fields_from(s, b2 + 1, Seq::empty()) {
                Err(e) => Err(e),
                Ok((fs, e)) => Ok((TypeDefView { name: s.subrange(j, ne), fields: fs }, e)),
            }
        } else {
            Err((b2, Expected::OpenBrace))
        }
    }
}

pub proof fn lemma_typedef_at(s: Seq<char>, j: int)
    requires
        0 <= j <= s.len(),
    ensures
        typedef_at(s, j) matches Ok((_, e)) ==> j < e <= s.len(),
{
    let ne = span(s, j, CharClass::Name);
    lemma_span(s, j, CharClass::Name);
    lemma_skip(s, ne);
    let b = skip(s, ne);
    lemma_span(s, b, CharClass::Name);
    lemma_skip(s, span(s, b, CharClass::Name));
    let b2 = if word_is(s, b, "struct"@) {
        skip(s, span(s, b, CharClass::Name))
    } else {
        b
    };
    if b2 < s.len() {
        lemma_fields_from(s, b2 + 1, Seq::empty());
    }
}

fn typedef_exec(s: &Vec<char>, j: usize) -> (r: Result<(TypeDef, usize), ParseError>)
    requires
        j <= s@.len(),
    ensures
        outcome(r) == typedef_at(s@, j as int),
        r matches Ok((_, e)) ==> j < e <= s@.len(),
{
    proof {
        lemma_typedef_at(s@, j as int);
    }
    let ne = span_exec(s, j, CharClass::Name);
    if ne == j {
        return err(j, Expected::Name);
    }
    let b = skip_exec(s, ne);
    let b2 = if word_is_exec(s, b, "struct") {
        let we = span_exec(s, b, CharClass::Name);
        skip_exec(s, we)
    } else {
        b
    };
    if b2 < s.len() && s[b2] == '{' {
        match fields_exec(s, b2 + 1) {
            Err(er) => Err(er),
            Ok((fields, e)) => {
                let t = TypeDef { name: string_of_range(s.as_slice(), j, ne), fields };
                assert(t@.fields =~= fields_of(t.fields@));
                Ok((t, e))
            },
        }
    } else {
        err(b2, Expected::OpenBrace)
    }
}

/// Type definitions up to the closing `)` of `type ( ... )`.
pub open spec fn type_group(s: Seq<char>, i: int, acc: Seq<TypeDefView>) -> Result<(Seq<TypeDefView>, int), (int, Expected)>
    decreases s.len() - i,
    when 0 <= i <= s.len()
{
    let j = skip(s, i);
    proof {
        lemma_skip(s, i);
        lemma_typedef_at(s, j);
    }
    if j >= s.len() {
        Err((j, Expected::CloseParen))
    } else if s[j] == ')' {
        Ok((acc, j + 1))
    } else {
        match typedef_at(s, j) {
            Err(e) => Err(e),
            Ok((t, e)) => type_group(s, e, acc.push(t)),
        }
    }
}

pub proof fn lemma_type_group(s: Seq<char>, i: int, acc: Seq<TypeDefView>)
    requires
        0 <= i <= s.len(),
    ensures
        type_group(s, i, acc) matches Ok((_, e)) ==> i < e <= s.len(),
    decreases s.len() - i,
{
    let j = skip(s, i);
    lemma_skip(s, i);
    lemma_typedef_at(s, j);
    if j < s.len() && s[j] != ')' {
        if let Ok((t, e)) = typedef_at(s, j) {
            lemma_type_group(s, e, acc.push(t));
        }
    }
}

pub open spec fn typedefs_of(v: Seq<TypeDef>) -> Seq<TypeDefView> {
    v.map_values(|t: TypeDef| t@)
}

fn type_group_exec(s: &Vec<char>, i: usize) -> (r: Result<(Vec<TypeDef>, usize), ParseError>)
    requires
        i <= s@.len(),
    ensures
        match r {
            Ok((ts, e)) => type_group(s@, i as int, Seq::empty()) == Ok::<(Seq<TypeDefView>, int), (int, Expected)>(
                (typedefs_of(ts@), e as int),
            ) && i < e <= s@.len(),
            Err(er) => type_group(s@, i as int, Seq::empty()) == fail::<(Seq<TypeDefView>, int)>(er),
        },
{
    let mut acc: Vec<TypeDef> = Vec::new();
    let mut k = i;
    proof {
        lemma_type_group(s@, i as int, Seq::empty());
        assert(typedefs_of(acc@) =~= Seq::<TypeDefView>::empty());
    }
    loop
        invariant
            i <= k <= s@.len(),
            type_group(s@, i as int, Seq::empty()) == type_group(s@, k as int, typedefs_of(acc@)),
            type_group(s@, i as int, Seq::empty()) matches Ok((_, e)) ==> i < e <= s@.len(),
        decreases s@.len() - k,
    {
        let j = skip_exec(s, k);
        if j >= s.len() {
            return err(j, Expected::CloseParen);
        } else if s[j] == ')' {
            return Ok((acc, j + 1));
        }
        match typedef_exec(s, j) {
            Err(er) => {
                return Err(er);
            },
            Ok((t, e)) => {
                let ghost before = typedefs_of(acc@);
                let ghost tv = t@;
                acc.push(t);
                assert(typedefs_of(acc@) =~= before.push(tv));
                k = e;
            },
        }
    }
}

// ---------------------------------------------------------------------
// Routes and services
// ---------------------------------------------------------------------
/// `( type )` with the `(` at `q`.
pub open spec fn paren_type(s: Seq<char>, q: int) -> Result<(Seq<char>, int), (int, Expected)> {
    let a = skip(s, q + 1);
    let te = span(s, a, CharClass::TypeText);
    if te == a {
        Err((a, Expected::TypeText))
    } else {
        let c = skip(s, te);
        if c < s.len() && s[c] == ')' {
            Ok((s.subrange(a, te), c + 1))
        } else {
            Err((c, Expected::CloseParen))
        }
    }
}

pub proof fn lemma_paren_type(s: Seq<char>, q: int)
    requires
        0 <= q < s.len(),
    ensures
        paren_type(s, q) matches Ok((_, e)) ==> q < e <= s.len(),
{
    lemma_skip(s, q + 1);
    let a = skip(s, q + 1);
    lemma_span(s, a, CharClass::TypeText);
    lemma_skip(s, span(s, a, CharClass::TypeText));
}

fn paren_type_exec(s: &Vec<char>, q: usize) -> (r: Result<(String, usize), ParseError>)
    requires
        q < s.len(),
    ensures
        outcome(r) == paren_type(s@, q as int),
        r matches Ok((_, e)) ==> q < e <= s@.len(),
{
    proof {
        lemma_paren_type(s@, q as int);
    }
    let a = skip_exec(s, q + 1);
    let te = span_exec(s, a, CharClass::TypeText);
    if te == a {
        return err(a, Expected::TypeText);
    }
    let c = skip_exec(s, te);
    if c < s.len() && s[c] == ')' {
        Ok((string_of_range(s.as_slice(), a, te), c + 1))
    } else {
        err(c, Expected::CloseParen)
    }
}

/// An optional `( type )` after the route path, which ends at `k`.
pub open spec fn request_at(s: Seq<char>, k: int) -> Result<(Option<Seq<char>>, int), (int, Expected)> {
    let q = skip(s, k);
    if q < s.len() && s[q] == '(' {
        match paren_type(s, q) {
            Err(e) => Err(e),
            Ok((t, e)) => Ok((Some(t), e)),
        }
    } else {
        Ok((None, k))
    }
}

/// An optional `returns ( type )` after position `k`.
pub open spec fn response_at(s: Seq<char>, k: int) -> Result<(Option<Seq<char>>, int), (int, Expected)> {
    let r = skip(s, k);
    if word_is(s, r, "returns"@) {
        let b = skip(s, span(s, r, CharClass::Name));
        if b < s.len() && s[b] == '(' {
            match paren_type(s, b) {
                Err(e) => Err(e),
                Ok((t, e)) => Ok((Some(t), e)),
            }
        } else {
            Err((b, Expected::OpenParen))
        }
    } else {
        Ok((None, k))
    }
}

pub proof fn lemma_request_response(s: Seq<char>, k: int)
    requires
        0 <= k <= s.len(),
    ensures
        request_at(s, k) matches Ok((_, e)) ==> k <= e <= s.len(),
        response_at(s, k) matches Ok((_, e)) ==> k <= e <= s.len(),
{
    lemma_skip(s, k);
    let q = skip(s, k);
    if q < s.len() {
        lemma_paren_type(s, q);
    }
    lemma_span(s, q, CharClass::Name);
    lemma_skip(s, span(s, q, CharClass::Name));
    let b = skip(s, span(s, q, CharClass::Name));
    if b < s.len() {
        lemma_paren_type(s, b);
    }
}

fn opt_type_exec(s: &Vec<char>, k: usize, returns: bool) -> (r: Result<(Option<String>, usize), ParseError>)
    requires
        k <= s@.len(),
    ensures
        match r {
            Ok((t, e)) => (if returns {
                response_at(s@, k as int)
            } else {
                request_at(s@, k as int)
            }) == Ok::<(Option<Seq<char>>, int), (int, Expected)>((crate::rsctl::ast::opt_str(t), e as int))
                && k <= e <= s@.len(),
            Err(er) => (if returns {
                response_at(s@, k as int)
            } else {
                request_at(s@, k as int)
            }) == fail::<(Option<Seq<char>>, int)>(er),
        },
{
    proof {
        lemma_request_response(s@, k as int);
        reveal_strlit("returns");
    }
    let q = skip_exec(s, k);
    let b = if returns {
        if !word_is_exec(s, q, "returns") {
            return Ok((None, k));
        }
        let we = span_exec(s, q, CharClass::Name);
        let b = skip_exec(s, we);
        if !(b < s.len() && s[b] == '(') {
            return err(b, Expected::OpenParen);
        }
        b
    } else {
        if !(q < s.len() && s[q] == '(') {
            return Ok((None, k));
        }
        q
    };
    match paren_type_exec(s, b) {
        Err(er) => Err(er),
        Ok((t, e)) => Ok((Some(t), e)),
    }
}

/// `method path [( type )] [returns ( type )]`, without annotations.
pub open spec fn route_at(s: Seq<char>, j: int) -> Result<(RouteView, int), (int, Expected)> {
    let me = span(s, j, CharClass::Name);
    if me == j {
        Err((j, Expected::Name))
    } else {
        let p = span(s, me, CharClass::Blank);
        let pe = span(s, p, CharClass::Path);
        if pe == p {
            Err((p, Expected::Path))
        } else {
            match request_at(s, pe) {
                Err(e) => Err(e),
                Ok((req, k)) => match response_at(s, k) {
                    Err(e) => Err(e),
                    Ok((resp, e)) => Ok(
                        (
                            RouteView {
                                annotations: Seq::empty(),
                                method: s.subrange(j, me),
                                path: s.subrange(p, pe),
                                request: req,
                                response: resp,
                            },
                            e,
                        ),
                    ),
                },
            }
        }
    }
}

pub proof fn lemma_route_at(s: Seq<char>, j: int)
    requires
        0 <= j <= s.len(),
    ensures
        route_at(s, j) matches Ok((_, e)) ==> j < e <= s.len(),
{
    let me = span(s, j, CharClass::Name);
    lemma_span(s, j, CharClass::Name);
    lemma_span(s, me, CharClass::Blank);
    let p = span(s, me, CharClass::Blank);
    lemma_span(s, p, CharClass::Path);
    let pe = span(s, p, CharClass::Path);
    lemma_request_response(s, pe);
    if let Ok((_, k)) = request_at(s, pe) {
        lemma_request_response(s, k);
    }
}

fn route_exec(s: &Vec<char>, j: usize) -> (r: Result<(Route, usize), ParseError>)
    requires
        j <= s@.len(),
    ensures
        outcome(r) == route_at(s@, j as int),
        r matches Ok((_, e)) ==> j < e <= s@.len(),
{
    proof {
        lemma_route_at(s@, j as int);
    }
    let me = span_exec(s, j, CharClass::Name);
    if me == j {
        return err(j, Expected::Name);
    }
    let p = span_exec(s, me, CharClass::Blank);
    let pe = span_exec(s, p, CharClass::Path);
    if pe == p {
        return err(p, Expected::Path);
    }
    let (request, k) = match opt_type_exec(s, pe, false) {
        Err(er) => {
            return Err(er);
        },
        Ok(x) => x,
    };
    let (response, e) = match opt_type_exec(s, k, true) {
        Err(er) => {
            return Err(er);
        },
        Ok(x) => x,
    };
    let route = Route {
        annotations: Vec::new(),
        method: string_of_range(s.as_slice(), j, me),
        path: string_of_range(s.as_slice(), p, pe),
        request,
        response,
    };
    assert(route@.annotations =~= Seq::<AnnotationView>::empty());
    Ok((route, e))
}

pub open spec fn with_annotations(r: RouteView, anns: Seq<AnnotationView>) -> RouteView {
    RouteView {
        annotations: anns,
        method: r.method,
        path: r.path,
        request: r.request,
        response: r.response,
    }
}

/// The routes of a service body up to its closing `}`; each route takes
/// the annotations written since the previous one.
pub open spec fn service_body(
    s: Seq<char>,
    i: int,
    routes: Seq<RouteView>,
    pending: Seq<AnnotationView>,
) -> Result<(Seq<RouteView>, int), (int, Expected)>
    decreases s.len() - i,
    when 0 <= i <= s.len()
{
    let j = skip(s, i);
    proof {
        lemma_skip(s, i);
        lemma_route_at(s, j);
        if j < s.len() {
            lemma_annotation_at(s, j);
        }
    }
    if j >= s.len() {
        Err((j, Expected::CloseBrace))
    } else if s[j] == '}' {
        Ok((routes, j + 1))
    } else if s[j] == '@' {
        match annotation_at(s, j) {
            Err(e) => Err(e),
            Ok((a, e)) => service_body(s, e, routes, pending.push(a)),
        }
    } else {
        match route_at(s, j) {
            Err(e) => Err(e),
            Ok((r, e)) => service_body(s, e, routes.push(with_annotations(r, pending)), Seq::empty()),
        }
    }
}

pub proof fn lemma_service_body(s: Seq<char>, i: int, routes: Seq<RouteView>, pending: Seq<AnnotationView>)
    requires
        0 <= i <= s.len(),
    ensures
        service_body(s, i, routes, pending) matches Ok((_, e)) ==> i < e <= s.len(),
    decreases s.len() - i,
{
    let j = skip(s, i);
    lemma_skip(s, i);
    lemma_route_at(s, j);
    if j < s.len() && s[j] != '}' {
        if s[j] == '@' {
            lemma_annotation_at(s, j);
            if let Ok((a, e)) = annotation_at(s, j) {
                lemma_service_body(s, e, routes, pending.push(a));
            }
        } else {
            if let Ok((r, e)) = route_at(s, j) {
                lemma_service_body(s, e, routes.push(with_annotations(r, pending)), Seq::empty());
            }
        }
    }
}

pub open spec fn routes_of(v: Seq<Route>) -> Seq<RouteView> {
    v.map_values(|r: Route| r@)
}

pub open spec fn anns_of(v: Seq<Annotation>) -> Seq<AnnotationView> {
    crate::rsctl::ast::anns_view(v)
}

fn service_body_exec(s: &Vec<char>, i: usize) -> (r: Result<(Vec<Route>, usize), ParseError>)
    requires
        i <= s@.len(),
    ensures
        match r {
            Ok((rs, e)) => service_body(s@, i as int, Seq::empty(), Seq::empty()) == Ok::<
                (Seq<RouteView>, int),
                (int, Expected),
            >((routes_of(rs@), e as int)) && i < e <= s@.len(),
            Err(er) => service_body(s@, i as int, Seq::empty(), Seq::empty()) == fail::<(Seq<RouteView>, int)>(er),
        },
{
    let mut routes: Vec<Route> = Vec::new();
    let mut pending: Vec<Annotation> = Vec::new();
    let mut k = i;
    proof {
        lemma_service_body(s@, i as int, Seq::empty(), Seq::empty());
        assert(routes_of(routes@) =~= Seq::<RouteView>::empty());
        assert(anns_of(pending@) =~= Seq::<AnnotationView>::empty());
    }
    loop
        invariant
            i <= k <= s@.len(),
            service_body(s@, i as int, Seq::empty(), Seq::empty()) == service_body(
                s@,
                k as int,
                routes_of(routes@),
                anns_of(pending@),
            ),
            service_body(s@, i as int, Seq::empty(), Seq::empty()) matches Ok((_, e)) ==> i < e <= s@.len(),
        decreases s@.len() - k,
    {
        let j = skip_exec(s, k);
        if j >= s.len() {
            return err(j, Expected::CloseBrace);
        } else if s[j] == '}' {
            return Ok((routes, j + 1));
        } else if s[j] == '@' {
            match annotation_exec(s, j) {
                Err(er) => {
                    return Err(er);
                },
                Ok((a, e)) => {
                    let ghost before = anns_of(pending@);
                    let ghost av = a@;
                    pending.push(a);
                    assert(anns_of(pending@) =~= before.push(av));
                    k = e;
                },
            }
        } else {
            match route_exec(s, j) {
                Err(er) => {
                    return Err(er);
                },
                Ok((rt, e)) => {
                    let ghost before = routes_of(routes@);
                    let ghost rv = rt@;
                    let ghost pv = anns_of(pending@);
                    let mut rt = rt;
                    rt.annotations = pending;
                    pending = Vec::new();
                    assert(rt@ == with_annotations(rv, pv));
                    routes.push(rt);
                    assert(routes_of(routes@) =~= before.push(with_annotations(rv, pv)));
                    assert(anns_of(pending@) =~= Seq::<AnnotationView>::empty());
                    k = e;
                },
            }
        }
    }
}

/// `name { body }` after the keyword `service`, which ends at `we`.
pub open spec fn service_at(s: Seq<char>, we: int) -> Result<(ServiceView, int), (int, Expected)> {
    let n = skip(s, we);
    let ne = span(s, n, CharClass::Name);
    if ne == n {
        Err((n, Expected::Name))
    } else {
        let b = skip(s, ne);
        if b < s.len() && s[b] == '{' {
            match service_body(s, b + 1, Seq::empty(), Seq::empty()) {
                Err(e) => Err(e),
                Ok((rs, e)) => Ok((ServiceView { name: s.subrange(n, ne), annotations: Seq::empty(), routes: rs }, e)),
            }
        } else {
            Err((b, Expected::OpenBrace))
        }
    }
}

pub proof fn lemma_service_at(s: Seq<char>, we: int)
    requires
        0 <= we <= s.len(),
    ensures
        service_at(s, we) matches Ok((_, e)) ==> we < e <= s.len(),
{
    lemma_skip(s, we);
    let n = skip(s, we);
    lemma_span(s, n, CharClass::Name);
    let ne = span(s, n, CharClass::Name);
    lemma_skip(s, ne);
    let b = skip(s, ne);
    if b < s.len() {
        lemma_service_body(s, b + 1, Seq::empty(), Seq::empty());
    }
}

fn service_exec(s: &Vec<char>, we: usize) -> (r: Result<(Service, usize), ParseError>)
    requires
        we <= s@.len(),
    ensures
        outcome(r) == service_at(s@, we as int),
        r matches Ok((_, e)) ==> we < e <= s@.len(),
{
    proof {
        lemma_service_at(s@, we as int);
    }
    let n = skip_exec(s, we);
    let ne = span_exec(s, n, CharClass::Name);
    if ne == n {
        return err(n, Expected::Name);
    }
    let b = skip_exec(s, ne);
    if b < s.len() && s[b] == '{' {
        match service_body_exec(s, b + 1) {
            Err(er) => Err(er),
            Ok((routes, e)) => {
                let svc = Service { name: string_of_range(s.as_slice(), n, ne), annotations: Vec::new(), routes };
                assert(svc@.annotations =~= Seq::<AnnotationView>::empty());
                assert(svc@.routes =~= routes_of(svc.routes@));
                Ok((svc, e))
            },
        }
    } else {
        err(b, Expected::OpenBrace)
    }
}

// ---------------------------------------------------------------------
// Statements and files
// ---------------------------------------------------------------------
/// What one top-level statement stands for.
pub enum StmtView {
    Syntax,
    Info(Seq<(Seq<char>, Seq<char>)>),
    Import(Seq<char>),
    Types(Seq<TypeDefView>),
    Type(TypeDefView),
    Annotation(AnnotationView),
    Route(RouteView),
    Service(ServiceView),
}

/// The statement that starts at `j`.
#[verifier::opaque]
pub open spec fn stmt_at(s: Seq<char>, j: int) -> Result<(StmtView, int), (int, Expected)> {
    if s[j] == '@' {
        match annotation_at(s, j) {
            Err(e) => Err(e),
            Ok((a, e)) => Ok((StmtView::Annotation(a), e)),
        }
    } else {
        let we = span(s, j, CharClass::Name);
        let b = skip(s, we);
        if word_is(s, j, "syntax"@) {
            if b < s.len() && s[b] == '=' {
                match value_at(s, skip(s, b + 1)) {
                    Err(e) => Err(e),
                    Ok((_, e)) => Ok((StmtView::Syntax, e)),
                }
            } else {
                Err((b, Expected::Equals))
            }
        } else if word_is(s, j, "info"@) {
            if b < s.len() && s[b] == '(' {
                match kv_list(s, b + 1, Seq::empty(), false) {
                    Err(e) => Err(e),
                    Ok((kvs, e)) => Ok((StmtView::Info(kvs), e)),
                }
            } else {
                Err((b, Expected::OpenParen))
            }
        } else if word_is(s, j, "import"@) {
            match value_at(s, b) {
                Err(e) => Err(e),
                Ok((raw, e)) => Ok((StmtView::Import(value_text(raw)), e)),
            }
        } else if word_is(s, j, "type"@) {
            if b < s.len() && s[b] == '(' {
                match type_group(s, b + 1, Seq::empty()) {
                    Err(e) => Err(e),
                    Ok((ts, e)) => Ok((StmtView::Types(ts), e)),
                }
            } else {
                match typedef_at(s, b) {
                    Err(e) => Err(e),
                    Ok((t, e)) => Ok((StmtView::Type(t), e)),
                }
            }
        } else if word_is(s, j, "service"@) {
            match service_at(s, we) {
                Err(e) => Err(e),
                Ok((v, e)) => Ok((StmtView::Service(v), e)),
            }
        } else {
            match route_at(s, j) {
                Err(e) => Err(e),
                Ok((r, e)) => Ok((StmtView::Route(r), e)),
            }
        }
    }
}

pub proof fn lemma_stmt_at(s: Seq<char>, j: int)
    requires
        0 <= j < s.len(),
    ensures
        stmt_at(s, j) matches Ok((_, e)) ==> j < e <= s.len(),
{
    reveal(stmt_at);
    lemma_annotation_at(s, j);
    lemma_span(s, j, CharClass::Name);
    let we = span(s, j, CharClass::Name);
    lemma_skip(s, we);
    let b = skip(s, we);
    lemma_value_at(s, b);
    lemma_typedef_at(s, b);
    lemma_service_at(s, we);
    lemma_route_at(s, j);
    if b < s.len() {
        lemma_skip(s, b + 1);
        lemma_value_at(s, skip(s, b + 1));
        lemma_kv_list(s, b + 1, Seq::empty(), false);
        lemma_type_group(s, b + 1, Seq::empty());
    }
}

/// What the statements read so far have given.
pub struct FileView {
    pub items: Seq<ItemView>,
    /// Annotations not yet attached to a route or a service.
    pub pending: Seq<AnnotationView>,
    pub info: Option<Seq<(Seq<char>, Seq<char>)>>,
    pub imports: Seq<Seq<char>>,
}

pub open spec fn apply_stmt(st: FileView, x: StmtView) -> FileView {
    match x {
        StmtView::Syntax => st,
        StmtView::Info(kvs) => FileView { info: Some(kvs), ..st },
        StmtView::Import(p) => FileView { imports: st.imports.push(p), ..st },
        StmtView::Types(ts) => FileView {
            items: st.items + ts.map_values(|t: TypeDefView| ItemView::Type(t)),
            ..st
        },
        StmtView::Type(t) => FileView { items: st.items.push(ItemView::Type(t)), ..st },
        StmtView::Annotation(a) => FileView { pending: st.pending.push(a), ..st },
        StmtView::Route(r) => FileView {
            items: st.items.push(ItemView::Route(with_annotations(r, st.pending))),
            pending: Seq::empty(),
            ..st
        },
        StmtView::Service(v) => FileView {
            items: st.items.push(
                ItemView::Service(ServiceView { name: v.name, annotations: st.pending, routes: v.routes }),
            ),
            pending: Seq::empty(),
            ..st
        },
    }
}

/// The statements from `i` to the end of the file.
pub open spec fn file_from(s: Seq<char>, i: int, st: FileView) -> Result<FileView, (int, Expected)>
    decreases s.len() - i,
    when 0 <= i <= s.len()
{
    let j = skip(s, i);
    proof {
        lemma_skip(s, i);
        if j < s.len() {
            lemma_stmt_at(s, j);
        }
    }
    if j >= s.len() {
        Ok(st)
    } else {
        match stmt_at(s, j) {
            Err(e) => Err(e),
            Ok((x, e)) => file_from(s, e, apply_stmt(st, x)),
        }
    }
}

pub open spec fn empty_file() -> FileView {
    FileView { items: Seq::empty(), pending: Seq::empty(), info: None, imports: Seq::empty() }
}

/// The syntax tree of a whole `.api` file, or where it breaks the grammar.
pub open spec fn parse_spec(s: Seq<char>) -> Result<AstView, (int, Expected)> {
    match file_from(s, 0, empty_file()) {
        Err(e) => Err(e),
        Ok(st) => Ok(AstView { items: st.items, info: st.info, imports: st.imports }),
    }
}

pub open spec fn items_of(v: Seq<Item>) -> Seq<ItemView> {
    v.map_values(|x: Item| x@)
}

pub open spec fn strings_of(v: Seq<String>) -> Seq<Seq<char>> {
    v.map_values(|x: String| x@)
}

pub open spec fn info_of(o: Option<Info>) -> Option<Seq<(Seq<char>, Seq<char>)>> {
    match o {
        Some(i) => Some(pairs_of(i.properties@)),
        None => None,
    }
}

/// One top-level statement.
pub enum Stmt {
    Syntax,
    Info(Vec<(String, String)>),
    Import(String),
    Types(Vec<TypeDef>),
    Type(TypeDef),
    Annotation(Annotation),
    Route(Route),
    Service(Service),
}

impl View for Stmt {
    type V = StmtView;

    open spec fn view(&self) -> StmtView {
        match self {
            Stmt::Syntax => StmtView::Syntax,
            Stmt::Info(kvs) => StmtView::Info(pairs_of(kvs@)),
            Stmt::Import(p) => StmtView::Import(p@),
            Stmt::Types(ts) => StmtView::Types(typedefs_of(ts@)),
            Stmt::Type(t) => StmtView::Type(t@),
            Stmt::Annotation(a) => StmtView::Annotation(a@),
            Stmt::Route(r) => StmtView::Route(r@),
            Stmt::Service(v) => StmtView::Service(v@),
        }
    }
}

fn stmt_exec(s: &Vec<char>, j: usize) -> (r: Result<(Stmt, usize), ParseError>)
    requires
        j < s.len(),
    ensures
        outcome(r) == stmt_at(s@, j as int),
        r matches Ok((_, e)) ==> j < e <= s@.len(),
{
    proof {
        reveal(stmt_at);
        lemma_stmt_at(s@, j as int);
        reveal_strlit("syntax");
        reveal_strlit("info");
        reveal_strlit("import");
        reveal_strlit("type");
        reveal_strlit("service");
    }
    if s[j] == '@' {
        return match annotation_exec(s, j) {
            Err(er) => Err(er),
            Ok((a, e)) => Ok((Stmt::Annotation(a), e)),
        };
    }
    let we = span_exec(s, j, CharClass::Name);
    let b = skip_exec(s, we);
    if word_is_exec(s, j, "syntax") {
        if !(b < s.len() && s[b] == '=') {
            return err(b, Expected::Equals);
        }
        let v = skip_exec(s, b + 1);
        match value_exec(s, v) {
            Err(er) => Err(er),
            Ok((_, e)) => Ok((Stmt::Syntax, e)),
        }
    } else if word_is_exec(s, j, "info") {
        if !(b < s.len() && s[b] == '(') {
            return err(b, Expected::OpenParen);
        }
        match kv_list_exec(s, b + 1, false) {
            Err(er) => Err(er),
            Ok((kvs, e)) => Ok((Stmt::Info(kvs), e)),
        }
    } else if word_is_exec(s, j, "import") {
        match value_exec(s, b) {
            Err(er) => Err(er),
            Ok((raw, e)) => Ok((Stmt::Import(value_text_exec(raw)), e)),
        }
    } else if word_is_exec(s, j, "type") {
        if b < s.len() && s[b] == '(' {
            match type_group_exec(s, b + 1) {
                Err(er) => Err(er),
                Ok((ts, e)) => Ok((Stmt::Types(ts), e)),
            }
        } else {
            match typedef_exec(s, b) {
                Err(er) => Err(er),
                Ok((t, e)) => Ok((Stmt::Type(t), e)),
            }
        }
    } else if word_is_exec(s, j, "service") {
        match service_exec(s, we) {
            Err(er) => Err(er),
            Ok((v, e)) => Ok((Stmt::Service(v), e)),
        }
    } else {
        match route_exec(s, j) {
            Err(er) => Err(er),
            Ok((rt, e)) => Ok((Stmt::Route(rt), e)),
        }
    }
}

/// The state of a file being read.
struct FileState {
    items: Vec<Item>,
    pending: Vec<Annotation>,
    info: Option<Info>,
    imports: Vec<String>,
}

impl View for FileState {
    type V = FileView;

    closed spec fn view(&self) -> FileView {
        FileView {
            items: items_of(self.items@),
            pending: anns_of(self.pending@),
            info: info_of(self.info),
            imports: strings_of(self.imports@),
        }
    }
}

impl FileState {
    fn apply(&mut self, x: Stmt)
        ensures
            final(self)@ == apply_stmt(old(self)@, x@),
    {
        let ghost st = self@;
        match x {
            Stmt::Syntax => {},
            Stmt::Info(kvs) => {
                self.info = Some(Info { properties: kvs });
            },
            Stmt::Import(p) => {
                let ghost pv = p@;
                self.imports.push(p);
                assert(strings_of(self.imports@) =~= st.imports.push(pv));
            },
            Stmt::Types(ts) => {
                let ghost tv = typedefs_of(ts@);
                let ghost tsv = ts@;
                let n = ts.len();
                let mut rev = crate::text::into_reversed(ts);
                let mut m: usize = 0;
                while rev.len() > 0
                    invariant
                        m <= tsv.len() == n,
                        rev@ == tsv.subrange(m as int, tsv.len() as int).reverse(),
                        tv == typedefs_of(tsv),
                        items_of(self.items@) == st.items + tv.subrange(0, m as int).map_values(
                            |t: TypeDefView| ItemView::Type(t),
                        ),
                        anns_of(self.pending@) == st.pending,
                        info_of(self.info) == st.info,
                        strings_of(self.imports@) == st.imports,
                    decreases rev@.len(),
                {
                    let ghost before = items_of(self.items@);
                    assert(rev@.last() == tsv[m as int]);
                    let t = rev.pop().unwrap();
                    assert(rev@ =~= tsv.subrange(m + 1, tsv.len() as int).reverse());
                    self.items.push(Item::Type(t));
                    assert(tv.subrange(0, m + 1).map_values(|t: TypeDefView| ItemView::Type(t))
                        =~= tv.subrange(0, m as int).map_values(|t: TypeDefView| ItemView::Type(t)).push(
                        ItemView::Type(tv[m as int]),
                    ));
                    assert(items_of(self.items@) =~= before.push(ItemView::Type(tv[m as int])));
                    m = m + 1;
                }
                assert(tv.subrange(0, m as int) =~= tv);
            },
            Stmt::Type(t) => {
                let ghost tv = t@;
                self.items.push(Item::Type(t));
                assert(items_of(self.items@) =~= st.items.push(ItemView::Type(tv)));
            },
            Stmt::Annotation(a) => {
                let ghost av = a@;
                self.pending.push(a);
                assert(anns_of(self.pending@) =~= st.pending.push(av));
            },
            Stmt::Route(rt) => {
                let mut rt = rt;
                let mut anns: Vec<Annotation> = Vec::new();
                std::mem::swap(&mut anns, &mut self.pending);
                rt.annotations = anns;
                let ghost rv = rt@;
                self.items.push(Item::Route(rt));
                assert(items_of(self.items@) =~= st.items.push(ItemView::Route(rv)));
                assert(anns_of(self.pending@) =~= Seq::<AnnotationView>::empty());
            },
            Stmt::Service(svc) => {
                let mut svc = svc;
                let mut anns: Vec<Annotation> = Vec::new();
                std::mem::swap(&mut anns, &mut self.pending);
                svc.annotations = anns;
                let ghost nv = svc@;
                self.items.push(Item::Service(svc));
                assert(items_of(self.items@) =~= st.items.push(ItemView::Service(nv)));
                assert(anns_of(self.pending@) =~= Seq::<AnnotationView>::empty());
            },
        }
    }
}

/// Parses the text of an `.api` file.
pub fn parse(input: &str) -> (r: Result<Ast, ParseError>)
    ensures
        match r {
            Ok(a) => parse_spec(input@) == Ok::<AstView, (int, Expected)>(a@),
            Err(er) => parse_spec(input@) == fail::<AstView>(er),
        },
{
    let s = chars_of(input);
    let mut st = FileState { items: Vec::new(), pending: Vec::new(), info: None, imports: Vec::new() };
    let mut k: usize = 0;
    let ghost start = empty_file();
    assert(st@ == start) by {
        assert(items_of(st.items@) =~= Seq::<ItemView>::empty());
        assert(anns_of(st.pending@) =~= Seq::<AnnotationView>::empty());
        assert(strings_of(st.imports@) =~= Seq::<Seq<char>>::empty());
    }
    loop
        invariant
            k <= s@.len(),
            s@ == input@,
            start == empty_file(),
            file_from(s@, 0, start) == file_from(s@, k as int, st@),
        decreases s@.len() - k,
    {
        let j = skip_exec(&s, k);
        if j >= s.len() {
            let FileState { items, pending: _, info, imports } = st;
            let a = Ast { items, info, imports };
            assert(a@.items =~= items_of(a.items@));
            assert(a@.imports =~= strings_of(a.imports@));
            return Ok(a);
        }
        match stmt_exec(&s, j) {
            Err(er) => {
                return Err(er);
            },
            Ok((x, e)) => {
                st.apply(x);
                k = e;
            },
        }
    }
}

} // verus!
