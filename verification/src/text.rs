//! Character-level text primitives shared by the whole library.
//!
//! Every function here works on the `Seq<char>` view of a string, so that
//! the contracts of the higher layers can be written over plain sequences.
use vstd::prelude::*;

verus! {

// ---------------------------------------------------------------------
// Character classes
// ---------------------------------------------------------------------
/// ASCII whitespace as `char::is_ascii_whitespace` defines it.
pub open spec fn is_ascii_ws(c: char) -> bool {
    c == ' ' || c == '\t' || c == '\n' || c == '\x0C' || c == '\r'
}

/// The Unicode `White_Space` property, which `char::is_whitespace` tests.
pub open spec fn is_ws(c: char) -> bool {
    ||| ('\t' <= c && c <= '\r')
    ||| c == ' '
    ||| c == '\u{85}'
    ||| c == '\u{A0}'
    ||| c == '\u{1680}'
    ||| ('\u{2000}' <= c && c <= '\u{200A}')
    ||| c == '\u{2028}'
    ||| c == '\u{2029}'
    ||| c == '\u{202F}'
    ||| c == '\u{205F}'
    ||| c == '\u{3000}'
}

pub open spec fn is_ascii_digit(c: char) -> bool {
    '0' <= c && c <= '9'
}

pub open spec fn is_ascii_upper(c: char) -> bool {
    'A' <= c && c <= 'Z'
}

pub open spec fn is_ascii_lower(c: char) -> bool {
    'a' <= c && c <= 'z'
}

pub open spec fn is_ascii_alnum(c: char) -> bool {
    is_ascii_digit(c) || is_ascii_upper(c) || is_ascii_lower(c)
}

pub open spec fn ascii_lower(c: char) -> char {
    if is_ascii_upper(c) {
        ((c as u32) + 32) as char
    } else {
        c
    }
}

pub open spec fn ascii_upper(c: char) -> char {
    if is_ascii_lower(c) {
        ((c as u32) - 32) as char
    } else {
        c
    }
}

pub open spec fn ascii_lower_seq(s: Seq<char>) -> Seq<char> {
    s.map_values(|c: char| ascii_lower(c))
}

pub fn ws(c: char) -> (b: bool)
    ensures
        b == is_ws(c),
{
    ('\t' <= c && c <= '\r') || c == ' ' || c == '\u{85}' || c == '\u{A0}' || c == '\u{1680}'
        || ('\u{2000}' <= c && c <= '\u{200A}') || c == '\u{2028}' || c == '\u{2029}' || c
        == '\u{202F}' || c == '\u{205F}' || c == '\u{3000}'
}

pub fn ascii_ws(c: char) -> (b: bool)
    ensures
        b == is_ascii_ws(c),
{
    c == ' ' || c == '\t' || c == '\n' || c == '\x0C' || c == '\r'
}

pub fn ascii_alnum(c: char) -> (b: bool)
    ensures
        b == is_ascii_alnum(c),
{
    ('0' <= c && c <= '9') || ('A' <= c && c <= 'Z') || ('a' <= c && c <= 'z')
}

pub fn lower_char(c: char) -> (r: char)
    ensures
        r == ascii_lower(c),
{
    if 'A' <= c && c <= 'Z' {
        let u: u8 = (c as u8) + 32;
        u as char
    } else {
        c
    }
}

// ---------------------------------------------------------------------
// Conversions between `str`/`String` and `Vec<char>`
// ---------------------------------------------------------------------
/// Appends one character to a string (`String::push`).
#[verifier::external_body]
pub fn push_char(s: &mut String, c: char)
    ensures
        final(s)@ == old(s)@.push(c),
{
    s.push(c)
}

/// The characters of `s`, in order.
pub fn chars_of(s: &str) -> (v: Vec<char>)
    ensures
        v@ == s@,
{
    let mut v: Vec<char> = Vec::new();
    for c in it: s.chars()
        invariant
            v@ == it.seq().take(it.index() as int),
            it.seq() == s@,
    {
        v.push(c);
    }
    v
}

/// The string made of the characters of `v@.subrange(from, to)`.
pub fn string_of_range(v: &[char], from: usize, to: usize) -> (s: String)
    requires
        from <= to <= v@.len(),
    ensures
        s@ == v@.subrange(from as int, to as int),
{
    let mut s = String::new();
    let mut i = from;
    while i < to
        invariant
            from <= i <= to <= v@.len(),
            s@ == v@.subrange(from as int, i as int),
        decreases to - i,
    {
        push_char(&mut s, v[i]);
        assert(v@.subrange(from as int, i + 1) == v@.subrange(from as int, i as int).push(v@[i as int]));
        i = i + 1;
    }
    s
}

/// The string made of the characters of `v`.
pub fn string_of(v: &[char]) -> (s: String)
    ensures
        s@ == v@,
{
    let s = string_of_range(v, 0, v.len());
    assert(v@.subrange(0, v@.len() as int) == v@);
    s
}

/// Appends all characters of `v` to `s`.
pub fn push_all(s: &mut String, v: &[char])
    ensures
        final(s)@ == old(s)@ + v@,
{
    let mut i: usize = 0;
    while i < v.len()
        invariant
            i <= v@.len(),
            s@ == old(s)@ + v@.subrange(0, i as int),
        decreases v@.len() - i,
    {
        push_char(s, v[i]);
        assert(v@.subrange(0, i + 1) == v@.subrange(0, i as int).push(v@[i as int]));
        i = i + 1;
    }
    assert(v@.subrange(0, v@.len() as int) == v@);
}

/// Appends a string slice to `s`.
pub fn push_str(s: &mut String, t: &str)
    ensures
        final(s)@ == old(s)@ + t@,
{
    s.append(t);
}

/// A fresh string equal to `t`.
pub fn owned(t: &str) -> (s: String)
    ensures
        s@ == t@,
{
    String::from_str(t)
}

/// Concatenation of two string slices.
pub fn concat2(a: &str, b: &str) -> (s: String)
    ensures
        s@ == a@ + b@,
{
    let mut s = String::from_str(a);
    s.append(b);
    s
}

/// Concatenation of three string slices.
pub fn concat3(a: &str, b: &str, c: &str) -> (s: String)
    ensures
        s@ == a@ + b@ + c@,
{
    let mut s = String::from_str(a);
    s.append(b);
    s.append(c);
    s
}

/// Equality of two string slices by their characters.
pub fn str_eq(a: &str, b: &str) -> (r: bool)
    ensures
        r == (a@ == b@),
{
    let x = String::from_str(a);
    let y = String::from_str(b);
    x == y
}

// ---------------------------------------------------------------------
// Prefixes, suffixes, searching
// ---------------------------------------------------------------------
pub open spec fn has_prefix(s: Seq<char>, p: Seq<char>) -> bool {
    p.len() <= s.len() && s.subrange(0, p.len() as int) == p
}

pub open spec fn has_suffix(s: Seq<char>, p: Seq<char>) -> bool {
    p.len() <= s.len() && s.subrange(s.len() - p.len(), s.len() as int) == p
}

/// Does `p` occur in `s` at position `i`?
pub open spec fn occurs_at(s: Seq<char>, p: Seq<char>, i: int) -> bool {
    0 <= i && i + p.len() <= s.len() && s.subrange(i, i + p.len()) == p
}

pub fn starts_with(s: &[char], p: &[char]) -> (r: bool)
    ensures
        r == has_prefix(s@, p@),
{
    if p.len() > s.len() {
        return false;
    }
    let mut i: usize = 0;
    while i < p.len()
        invariant
            p@.len() <= s@.len(),
            i <= p@.len(),
            forall|k: int| 0 <= k < i ==> s@[k] == p@[k],
        decreases p@.len() - i,
    {
        if s[i] != p[i] {
            assert(s@.subrange(0, p@.len() as int)[i as int] != p@[i as int]);
            return false;
        }
        i = i + 1;
    }
    assert(s@.subrange(0, p@.len() as int) =~= p@);
    true
}

pub fn ends_with(s: &[char], p: &[char]) -> (r: bool)
    ensures
        r == has_suffix(s@, p@),
{
    if p.len() > s.len() {
        return false;
    }
    let off = s.len() - p.len();
    let mut i: usize = 0;
    while i < p.len()
        invariant
            p@.len() <= s@.len(),
            off == s@.len() - p@.len(),
            off + p@.len() == s.len(),
            i <= p@.len(),
            forall|k: int| 0 <= k < i ==> s@[off + k] == p@[k],
        decreases p@.len() - i,
    {
        if s[off + i] != p[i] {
            assert(s@.subrange(off as int, s@.len() as int)[i as int] != p@[i as int]);
            return false;
        }
        i = i + 1;
    }
    assert(s@.subrange(off as int, s@.len() as int) =~= p@);
    true
}

/// Does `p` occur in `s` at position `i`?
pub fn matches_at(s: &[char], p: &[char], i: usize) -> (r: bool)
    requires
        i <= s@.len(),
    ensures
        r == occurs_at(s@, p@, i as int),
{
    if p.len() > s.len() - i {
        return false;
    }
    let m = s.len();
    let mut k: usize = 0;
    while k < p.len()
        invariant
            m == s@.len(),
            i + p@.len() <= m,
            k <= p@.len(),
            forall|j: int| 0 <= j < k ==> s@[i + j] == p@[j],
        decreases p@.len() - k,
    {
        if s[i + k] != p[k] {
            assert(s@.subrange(i as int, i + p@.len())[k as int] != p@[k as int]);
            return false;
        }
        k = k + 1;
    }
    assert(s@.subrange(i as int, i + p@.len()) =~= p@);
    true
}

/// Index of the first occurrence of `p` in `s` at or after `from`.
pub open spec fn first_occurrence_from(s: Seq<char>, p: Seq<char>, from: int) -> Option<int> {
    if exists|i: int| from <= i && occurs_at(s, p, i) {
        Some(choose|i: int| from <= i && occurs_at(s, p, i) && forall|j: int| from <= j < i ==> !occurs_at(s, p, j))
    } else {
        None
    }
}

/// The position of the first occurrence of `p` in `s` at or after `from`.
pub fn find_from(s: &[char], p: &[char], from: usize) -> (r: Option<usize>)
    requires
        from <= s@.len(),
    ensures
        match r {
            Some(i) => from <= i && occurs_at(s@, p@, i as int) && forall|j: int|
                from <= j < i ==> !occurs_at(s@, p@, j),
            None => forall|j: int| from <= j ==> !occurs_at(s@, p@, j),
        },
        match r {
            Some(i) => first_occurrence_from(s@, p@, from as int) == Some(i as int),
            None => first_occurrence_from(s@, p@, from as int) is None,
        },
{
    let r = find_from_scan(s, p, from);
    proof {
        match r {
            Some(i) => {
                let c = choose|c: int| from <= c && occurs_at(s@, p@, c) && forall|j: int| from <= j < c ==> !occurs_at(s@, p@, j);
                assert(from <= c && occurs_at(s@, p@, c) && forall|j: int| from <= j < c ==> !occurs_at(s@, p@, j));
                if c < i {
                    assert(!occurs_at(s@, p@, c));
                }
                if i < c {
                    assert(!occurs_at(s@, p@, i as int));
                }
            },
            None => {},
        }
    }
    r
}

fn find_from_scan(s: &[char], p: &[char], from: usize) -> (r: Option<usize>)
    requires
        from <= s@.len(),
    ensures
        match r {
            Some(i) => from <= i && occurs_at(s@, p@, i as int) && forall|j: int|
                from <= j < i ==> !occurs_at(s@, p@, j),
            None => forall|j: int| from <= j ==> !occurs_at(s@, p@, j),
        },
{
    let mut i = from;
    while i < s.len()
        invariant
            from <= i <= s@.len(),
            forall|j: int| from <= j < i ==> !occurs_at(s@, p@, j),
        decreases s@.len() - i,
    {
        if matches_at(s, p, i) {
            return Some(i);
        }
        i = i + 1;
    }
    if matches_at(s, p, i) {
        return Some(i);
    }
    assert forall|j: int| from <= j implies !occurs_at(s@, p@, j) by {
        if j > s@.len() {
        }
    }
    None
}

/// The position of the first `c` in `s`, if any.
pub fn find_char(s: &[char], c: char) -> (r: Option<usize>)
    ensures
        match r {
            Some(i) => i < s@.len() && s@[i as int] == c && forall|j: int| 0 <= j < i ==> s@[j] != c,
            None => !s@.contains(c),
        },
{
    let mut i: usize = 0;
    while i < s.len()
        invariant
            i <= s@.len(),
            forall|j: int| 0 <= j < i ==> s@[j] != c,
        decreases s@.len() - i,
    {
        if s[i] == c {
            return Some(i);
        }
        i = i + 1;
    }
    None
}

// ---------------------------------------------------------------------
// Trimming
// ---------------------------------------------------------------------
/// `s` without its leading characters that satisfy `p`.
pub open spec fn skip_while(s: Seq<char>, p: spec_fn(char) -> bool) -> Seq<char>
    decreases s.len(),
{
    if s.len() > 0 && p(s[0]) {
        skip_while(s.drop_first(), p)
    } else {
        s
    }
}

/// `s` without its trailing characters that satisfy `p`.
pub open spec fn skip_back_while(s: Seq<char>, p: spec_fn(char) -> bool) -> Seq<char>
    decreases s.len(),
{
    if s.len() > 0 && p(s.last()) {
        skip_back_while(s.drop_last(), p)
    } else {
        s
    }
}

pub open spec fn trim_by(s: Seq<char>, p: spec_fn(char) -> bool) -> Seq<char> {
    skip_back_while(skip_while(s, p), p)
}

pub open spec fn ws_pred() -> spec_fn(char) -> bool {
    |c: char| is_ws(c)
}

pub open spec fn eq_pred(x: char) -> spec_fn(char) -> bool {
    |c: char| c == x
}

/// `str::trim`: leading and trailing Unicode whitespace removed.
pub open spec fn trim(s: Seq<char>) -> Seq<char> {
    trim_by(s, ws_pred())
}

/// `str::trim_matches` with a single character.
pub open spec fn trim_char(s: Seq<char>, c: char) -> Seq<char> {
    trim_by(s, eq_pred(c))
}

/// `str::trim_start_matches` with a single character.
pub open spec fn trim_start_char(s: Seq<char>, c: char) -> Seq<char> {
    skip_while(s, eq_pred(c))
}

/// `str::trim_end_matches` with a single character.
pub open spec fn trim_end_char(s: Seq<char>, c: char) -> Seq<char> {
    skip_back_while(s, eq_pred(c))
}

/// Trimming never lengthens a string.
pub proof fn lemma_skip_while_len(s: Seq<char>, p: spec_fn(char) -> bool)
    ensures
        skip_while(s, p).len() <= s.len(),
    decreases s.len(),
{
    if s.len() > 0 && p(s[0]) {
        lemma_skip_while_len(s.drop_first(), p);
    }
}

pub proof fn lemma_skip_back_while_len(s: Seq<char>, p: spec_fn(char) -> bool)
    ensures
        skip_back_while(s, p).len() <= s.len(),
    decreases s.len(),
{
    if s.len() > 0 && p(s.last()) {
        lemma_skip_back_while_len(s.drop_last(), p);
    }
}

/// A text that neither starts nor ends with whitespace is its own trim.
pub proof fn lemma_trim_plain(s: Seq<char>)
    requires
        s.len() > 0,
        !is_ws(s[0]),
        !is_ws(s.last()),
    ensures
        trim(s) == s,
{
    assert(skip_while(s, ws_pred()) == s);
    assert(skip_back_while(s, ws_pred()) == s);
}

pub proof fn lemma_trim_len(s: Seq<char>)
    ensures
        trim(s).len() <= s.len(),
{
    lemma_skip_while_len(s, ws_pred());
    lemma_skip_back_while_len(skip_while(s, ws_pred()), ws_pred());
}

pub proof fn lemma_skip_while_step(s: Seq<char>, p: spec_fn(char) -> bool, i: int)
    requires
        0 <= i < s.len(),
        p(s[i]),
    ensures
        skip_while(s.subrange(i, s.len() as int), p) == skip_while(s.subrange(i + 1, s.len() as int), p),
{
    let t = s.subrange(i, s.len() as int);
    assert(t.drop_first() =~= s.subrange(i + 1, s.len() as int));
}

pub proof fn lemma_skip_back_step(s: Seq<char>, p: spec_fn(char) -> bool, lo: int, j: int)
    requires
        0 <= lo < j <= s.len(),
        p(s[j - 1]),
    ensures
        skip_back_while(s.subrange(lo, j), p) == skip_back_while(s.subrange(lo, j - 1), p),
{
    let t = s.subrange(lo, j);
    assert(t.drop_last() =~= s.subrange(lo, j - 1));
}

/// Index range `[a, b)` of `trim_by(s, p)` inside `s`, for `p` = Unicode whitespace.
pub fn trim_bounds(s: &[char]) -> (r: (usize, usize))
    ensures
        r.0 <= r.1 <= s@.len(),
        trim(s@) == s@.subrange(r.0 as int, r.1 as int),
        skip_while(s@, ws_pred()) == s@.subrange(r.0 as int, s@.len() as int),
{
    let n = s.len();
    let mut a: usize = 0;
    assert(s@.subrange(0, n as int) =~= s@);
    while a < n && ws(s[a])
        invariant
            a <= n == s@.len(),
            skip_while(s@, ws_pred()) == skip_while(s@.subrange(a as int, n as int), ws_pred()),
        decreases n - a,
    {
        proof {
            lemma_skip_while_step(s@, ws_pred(), a as int);
        }
        a = a + 1;
    }
    assert(skip_while(s@.subrange(a as int, n as int), ws_pred()) == s@.subrange(a as int, n as int));
    let mut b: usize = n;
    assert(s@.subrange(a as int, n as int).subrange(0, (n - a) as int) =~= s@.subrange(a as int, n as int));
    while b > a && ws(s[b - 1])
        invariant
            a <= b <= n == s@.len(),
            trim(s@) == skip_back_while(s@.subrange(a as int, b as int), ws_pred()),
        decreases b,
    {
        proof {
            lemma_skip_back_step(s@, ws_pred(), a as int, b as int);
        }
        b = b - 1;
    }
    (a, b)
}

/// `str::trim` on a character vector.
pub fn trim_chars(s: &[char]) -> (r: Vec<char>)
    ensures
        r@ == trim(s@),
{
    let (a, b) = trim_bounds(s);
    sub_vec(s, a, b)
}

/// `str::trim`, giving a new string.
pub fn trim_str(s: &str) -> (r: String)
    ensures
        r@ == trim(s@),
{
    let v = chars_of(s);
    let (a, b) = trim_bounds(v.as_slice());
    string_of_range(v.as_slice(), a, b)
}

/// Index range of `trim_char(s, c)` inside `s`, and of its two halves.
pub fn trim_char_bounds(s: &[char], c: char) -> (r: (usize, usize))
    ensures
        r.0 <= r.1 <= s@.len(),
        trim_char(s@, c) == s@.subrange(r.0 as int, r.1 as int),
        trim_start_char(s@, c) == s@.subrange(r.0 as int, s@.len() as int),
{
    let n = s.len();
    let mut a: usize = 0;
    assert(s@.subrange(0, n as int) =~= s@);
    while a < n && s[a] == c
        invariant
            a <= n == s@.len(),
            skip_while(s@, eq_pred(c)) == skip_while(s@.subrange(a as int, n as int), eq_pred(c)),
        decreases n - a,
    {
        proof {
            lemma_skip_while_step(s@, eq_pred(c), a as int);
        }
        a = a + 1;
    }
    assert(skip_while(s@.subrange(a as int, n as int), eq_pred(c)) == s@.subrange(a as int, n as int));
    let mut b: usize = n;
    while b > a && s[b - 1] == c
        invariant
            a <= b <= n == s@.len(),
            trim_char(s@, c) == skip_back_while(s@.subrange(a as int, b as int), eq_pred(c)),
        decreases b,
    {
        proof {
            lemma_skip_back_step(s@, eq_pred(c), a as int, b as int);
        }
        b = b - 1;
    }
    (a, b)
}

/// End index of `trim_end_char(s, c)`.
pub fn trim_end_char_bound(s: &[char], c: char) -> (b: usize)
    ensures
        b <= s@.len(),
        trim_end_char(s@, c) == s@.subrange(0, b as int),
{
    let n = s.len();
    let mut b: usize = n;
    assert(s@.subrange(0, n as int) =~= s@);
    while b > 0 && s[b - 1] == c
        invariant
            b <= n == s@.len(),
            trim_end_char(s@, c) == skip_back_while(s@.subrange(0, b as int), eq_pred(c)),
        decreases b,
    {
        proof {
            lemma_skip_back_step(s@, eq_pred(c), 0, b as int);
        }
        b = b - 1;
    }
    b
}

/// A copy of `s@.subrange(a, b)`.
pub fn sub_vec(s: &[char], a: usize, b: usize) -> (r: Vec<char>)
    requires
        a <= b <= s@.len(),
    ensures
        r@ == s@.subrange(a as int, b as int),
{
    let mut r: Vec<char> = Vec::new();
    let mut i = a;
    while i < b
        invariant
            a <= i <= b <= s@.len(),
            r@ == s@.subrange(a as int, i as int),
        decreases b - i,
    {
        r.push(s[i]);
        assert(s@.subrange(a as int, i + 1) == s@.subrange(a as int, i as int).push(s@[i as int]));
        i = i + 1;
    }
    r
}

/// `str::to_ascii_lowercase`.
pub fn lower_str(s: &str) -> (r: String)
    ensures
        r@ == ascii_lower_seq(s@),
{
    let v = chars_of(s);
    let mut r = String::new();
    let mut i: usize = 0;
    while i < v.len()
        invariant
            v@ == s@,
            i <= v@.len(),
            r@ == ascii_lower_seq(v@.subrange(0, i as int)),
        decreases v@.len() - i,
    {
        let c = lower_char(v[i]);
        push_char(&mut r, c);
        assert(ascii_lower_seq(v@.subrange(0, i + 1)) =~= ascii_lower_seq(v@.subrange(0, i as int)).push(c));
        i = i + 1;
    }
    assert(v@.subrange(0, v@.len() as int) =~= v@);
    r
}

/// `eq_ignore_ascii_case`.
pub fn eq_ignore_case(a: &str, b: &str) -> (r: bool)
    ensures
        r == (ascii_lower_seq(a@) == ascii_lower_seq(b@)),
{
    let x = lower_str(a);
    let y = lower_str(b);
    x == y
}

// ---------------------------------------------------------------------
// Splitting
// ---------------------------------------------------------------------
/// Pieces of `s` between the occurrences of `c`, `cur` being the piece
/// already read; this is `str::split` with a single character.
pub open spec fn split_from(s: Seq<char>, c: char, cur: Seq<char>) -> Seq<Seq<char>>
    decreases s.len(),
{
    if s.len() == 0 {
        seq![cur]
    } else if s[0] == c {
        seq![cur] + split_from(s.drop_first(), c, Seq::empty())
    } else {
        split_from(s.drop_first(), c, cur.push(s[0]))
    }
}

pub open spec fn split(s: Seq<char>, c: char) -> Seq<Seq<char>> {
    split_from(s, c, Seq::empty())
}

/// `str::split` with a single-character separator.
pub fn split_chars(s: &[char], c: char) -> (r: Vec<Vec<char>>)
    ensures
        r@.len() == split(s@, c).len(),
        forall|i: int| 0 <= i < r@.len() ==> #[trigger] r@[i]@ == split(s@, c)[i],
{
    let mut out: Vec<Vec<char>> = Vec::new();
    let mut cur: Vec<char> = Vec::new();
    let ghost mut done: Seq<Seq<char>> = Seq::empty();
    let n = s.len();
    let mut i: usize = 0;
    assert(s@.subrange(0, n as int) =~= s@);
    while i < n
        invariant
            i <= n == s@.len(),
            out@.len() == done.len(),
            forall|k: int| 0 <= k < out@.len() ==> #[trigger] out@[k]@ == done[k],
            done + split_from(s@.subrange(i as int, n as int), c, cur@) == split(s@, c),
        decreases n - i,
    {
        let ghost rest = s@.subrange(i as int, n as int);
        assert(rest.drop_first() =~= s@.subrange(i + 1, n as int));
        if s[i] == c {
            let piece = cur;
            proof {
                assert(done.push(piece@) + split_from(s@.subrange(i + 1, n as int), c, Seq::empty())
                    =~= done + (seq![piece@] + split_from(s@.subrange(i + 1, n as int), c, Seq::empty())));
                done = done.push(piece@);
            }
            out.push(piece);
            cur = Vec::new();
        } else {
            cur.push(s[i]);
        }
        i = i + 1;
    }
    proof {
        assert(s@.subrange(n as int, n as int) =~= Seq::<char>::empty());
        assert(done + seq![cur@] == split(s@, c));
        done = done.push(cur@);
    }
    out.push(cur);
    out
}

// ---------------------------------------------------------------------
// Numbers
// ---------------------------------------------------------------------
pub open spec fn digit_char(d: nat) -> char
    recommends
        d < 10,
{
    ((d + 48) as u32) as char
}

/// Decimal digits of `n` (no sign, no leading zeros; `"0"` for zero).
pub open spec fn nat_digits(n: nat) -> Seq<char>
    decreases n,
{
    if n < 10 {
        seq![digit_char(n)]
    } else {
        nat_digits(n / 10).push(digit_char(n % 10))
    }
}

/// Decimal text of an integer, as `Display` writes it.
pub open spec fn int_text(n: int) -> Seq<char> {
    if n < 0 {
        seq!['-'] + nat_digits((-n) as nat)
    } else {
        nat_digits(n as nat)
    }
}

fn digit(d: u64) -> (c: char)
    requires
        d < 10,
    ensures
        c == digit_char(d as nat),
{
    let b: u8 = (d as u8) + 48;
    b as char
}

/// Decimal text of an unsigned integer.
pub fn u64_text(n: u64) -> (s: String)
    ensures
        s@ == nat_digits(n as nat),
    decreases n,
{
    if n < 10 {
        let mut s = String::new();
        push_char(&mut s, digit(n));
        s
    } else {
        let mut s = u64_text(n / 10);
        push_char(&mut s, digit(n % 10));
        s
    }
}

/// Decimal text of a signed integer.
pub fn i64_text(n: i64) -> (s: String)
    ensures
        s@ == int_text(n as int),
{
    if n < 0 {
        let m: u64 = if n == i64::MIN {
            9223372036854775808u64
        } else {
            (-n) as u64
        };
        let d = u64_text(m);
        let mut s = String::new();
        push_char(&mut s, '-');
        push_all_string(&mut s, &d);
        s
    } else {
        u64_text(n as u64)
    }
}

/// Appends a string to a string.
pub fn push_all_string(s: &mut String, t: &String)
    ensures
        final(s)@ == old(s)@ + t@,
{
    s.append(t.as_str());
}

pub open spec fn digit_value(c: char) -> int {
    (c as int) - 48
}

/// Value of a non-empty run of decimal digits.
pub open spec fn digits_value(s: Seq<char>) -> int
    decreases s.len(),
{
    if s.len() == 0 {
        0
    } else {
        digits_value(s.drop_last()) * 10 + digit_value(s.last())
    }
}

pub open spec fn all_digits(s: Seq<char>) -> bool {
    forall|i: int| 0 <= i < s.len() ==> is_ascii_digit(#[trigger] s[i])
}

/// What `str::parse::<i64>` gives: an optional sign, then at least one
/// decimal digit and nothing else, with the value in range.
pub open spec fn parse_i64_spec(s: Seq<char>) -> Option<i64> {
    let neg = s.len() > 0 && s[0] == '-';
    let signed = s.len() > 0 && (s[0] == '-' || s[0] == '+');
    let body = if signed { s.drop_first() } else { s };
    let v = if neg { -digits_value(body) } else { digits_value(body) };
    if body.len() > 0 && all_digits(body) && i64::MIN <= v <= i64::MAX {
        Some(v as i64)
    } else {
        None
    }
}

proof fn lemma_digits_value_nonneg(s: Seq<char>)
    requires
        all_digits(s),
    ensures
        digits_value(s) >= 0,
    decreases s.len(),
{
    if s.len() > 0 {
        assert(all_digits(s.drop_last()));
        lemma_digits_value_nonneg(s.drop_last());
        assert(is_ascii_digit(s[s.len() - 1]));
    }
}

pub proof fn lemma_digits_value_mono(s: Seq<char>, i: int)
    requires
        all_digits(s),
        0 <= i <= s.len(),
    ensures
        digits_value(s.subrange(0, i)) <= digits_value(s),
    decreases s.len() - i,
{
    if i < s.len() {
        let t = s.subrange(0, i + 1);
        assert(t.drop_last() =~= s.subrange(0, i));
        assert(all_digits(t));
        assert(is_ascii_digit(t.last()));
        lemma_digits_value_nonneg(s.subrange(0, i));
        lemma_digits_value_mono(s, i + 1);
    } else {
        assert(s.subrange(0, i) =~= s);
    }
}

/// `str::parse::<i64>`.
pub fn parse_i64(t: &str) -> (r: Option<i64>)
    ensures
        r == parse_i64_spec(t@),
{
    let s = chars_of(t);
    let n = s.len();
    let neg = n > 0 && s[0] == '-';
    let signed = n > 0 && (s[0] == '-' || s[0] == '+');
    let start: usize = if signed { 1 } else { 0 };
    let ghost body = if signed { s@.drop_first() } else { s@ };
    let ghost v = if neg { -digits_value(body) } else { digits_value(body) };
    assert(body =~= s@.subrange(start as int, n as int));
    assert(parse_i64_spec(t@) == (if body.len() > 0 && all_digits(body) && i64::MIN <= v <= i64::MAX {
        Some(v as i64)
    } else {
        None::<i64>
    }));
    if start >= n {
        return None;
    }
    // Accumulate the magnitude, bounded by 2^63.
    let mut acc: u64 = 0;
    let mut i = start;
    while i < n
        invariant
            start <= i <= n == s@.len(),
            body == s@.subrange(start as int, n as int),
            parse_i64_spec(t@) == (if body.len() > 0 && all_digits(body) && i64::MIN <= v <= i64::MAX {
                Some(v as i64)
            } else {
                None::<i64>
            }),
            v == (if neg { -digits_value(body) } else { digits_value(body) }),
            all_digits(s@.subrange(start as int, i as int)),
            acc as int == digits_value(s@.subrange(start as int, i as int)),
            acc <= 9223372036854775808u64,
        decreases n - i,
    {
        let c = s[i];
        if !('0' <= c && c <= '9') {
            proof {
                assert(body[i - start] == c);
                assert(!is_ascii_digit(body[i - start]));
                assert(!all_digits(body));
            }
            return None;
        }
        let d: u64 = (c as u64) - 48;
        let ghost pre = s@.subrange(start as int, i as int);
        let ghost nxt = s@.subrange(start as int, i + 1);
        assert(nxt.drop_last() =~= pre);
        assert(all_digits(nxt)) by {
            assert forall|k: int| 0 <= k < nxt.len() implies is_ascii_digit(#[trigger] nxt[k]) by {
                if k < pre.len() {
                    assert(nxt[k] == pre[k]);
                }
            }
        }
        if acc > 922337203685477580u64 || (acc == 922337203685477580u64 && d > 8) {
            proof {
                assert(digits_value(nxt) > 9223372036854775808);
                assert(body.subrange(0, i + 1 - start) =~= nxt);
                if all_digits(body) {
                    lemma_digits_value_mono(body, i + 1 - start);
                    assert(digits_value(body) > 9223372036854775808);
                }
            }
            return None;
        }
        acc = acc * 10 + d;
        i = i + 1;
    }
    assert(s@.subrange(start as int, n as int) =~= body);
    if neg {
        if acc == 9223372036854775808u64 {
            Some(i64::MIN)
        } else {
            Some(-(acc as i64))
        }
    } else {
        if acc > 9223372036854775807u64 {
            None
        } else {
            Some(acc as i64)
        }
    }
}

// ---------------------------------------------------------------------
// Scanning
// ---------------------------------------------------------------------
/// First index at or after `i` that is not ASCII whitespace.
pub open spec fn skip_ws_from(s: Seq<char>, i: int) -> int
    decreases s.len() - i,
{
    if 0 <= i < s.len() && is_ascii_ws(s[i]) {
        skip_ws_from(s, i + 1)
    } else {
        i
    }
}

/// First index at or after `i` that is not an ASCII letter or digit.
pub open spec fn alnum_end(s: Seq<char>, i: int) -> int
    decreases s.len() - i,
{
    if 0 <= i < s.len() && is_ascii_alnum(s[i]) {
        alnum_end(s, i + 1)
    } else {
        i
    }
}

/// First index at or after `i` that holds `c`, or `s.len()`.
pub open spec fn char_from(s: Seq<char>, c: char, i: int) -> int
    decreases s.len() - i,
{
    if 0 <= i < s.len() && s[i] != c {
        char_from(s, c, i + 1)
    } else {
        i
    }
}

pub proof fn lemma_skip_ws_from(s: Seq<char>, i: int)
    requires
        0 <= i,
    ensures
        i <= skip_ws_from(s, i),
        i <= s.len() ==> skip_ws_from(s, i) <= s.len(),
        skip_ws_from(s, i) < s.len() ==> !is_ascii_ws(s[skip_ws_from(s, i)]),
    decreases s.len() - i,
{
    if 0 <= i < s.len() && is_ascii_ws(s[i]) {
        lemma_skip_ws_from(s, i + 1);
    }
}

pub proof fn lemma_alnum_end(s: Seq<char>, i: int)
    requires
        0 <= i,
    ensures
        i <= alnum_end(s, i),
        i <= s.len() ==> alnum_end(s, i) <= s.len(),
        forall|k: int| i <= k < alnum_end(s, i) ==> is_ascii_alnum(s[k]),
    decreases s.len() - i,
{
    if 0 <= i < s.len() && is_ascii_alnum(s[i]) {
        lemma_alnum_end(s, i + 1);
    }
}

pub proof fn lemma_char_from(s: Seq<char>, c: char, i: int)
    requires
        0 <= i,
    ensures
        i <= char_from(s, c, i),
        i <= s.len() ==> char_from(s, c, i) <= s.len(),
        char_from(s, c, i) < s.len() ==> s[char_from(s, c, i)] == c,
        forall|k: int| i <= k < char_from(s, c, i) ==> s[k] != c,
    decreases s.len() - i,
{
    if 0 <= i < s.len() && s[i] != c {
        lemma_char_from(s, c, i + 1);
    }
}

pub fn skip_ws_exec(s: &[char], i: usize) -> (r: usize)
    requires
        i <= s@.len(),
    ensures
        r == skip_ws_from(s@, i as int),
        r <= s@.len(),
{
    let mut k = i;
    while k < s.len() && ascii_ws(s[k])
        invariant
            i <= k <= s@.len(),
            skip_ws_from(s@, i as int) == skip_ws_from(s@, k as int),
        decreases s@.len() - k,
    {
        k = k + 1;
    }
    k
}

pub fn alnum_end_exec(s: &[char], i: usize) -> (r: usize)
    requires
        i <= s@.len(),
    ensures
        r == alnum_end(s@, i as int),
        r <= s@.len(),
{
    let mut k = i;
    while k < s.len() && ascii_alnum(s[k])
        invariant
            i <= k <= s@.len(),
            alnum_end(s@, i as int) == alnum_end(s@, k as int),
        decreases s@.len() - k,
    {
        k = k + 1;
    }
    k
}

pub fn char_from_exec(s: &[char], c: char, i: usize) -> (r: usize)
    requires
        i <= s@.len(),
    ensures
        r == char_from(s@, c, i as int),
        r <= s@.len(),
{
    let mut k = i;
    while k < s.len() && s[k] != c
        invariant
            i <= k <= s@.len(),
            char_from(s@, c, i as int) == char_from(s@, c, k as int),
        decreases s@.len() - k,
    {
        k = k + 1;
    }
    k
}

// ---------------------------------------------------------------------
// Joining
// ---------------------------------------------------------------------
/// `parts` joined with `sep` (`[T]::join`).
pub open spec fn join_seqs(parts: Seq<Seq<char>>, sep: Seq<char>) -> Seq<char>
    decreases parts.len(),
{
    if parts.len() == 0 {
        Seq::empty()
    } else if parts.len() == 1 {
        parts[0]
    } else {
        join_seqs(parts.drop_last(), sep) + sep + parts.last()
    }
}

pub open spec fn views(v: Seq<String>) -> Seq<Seq<char>> {
    v.map_values(|s: String| s@)
}

/// The strings of `parts` joined with `sep`.
pub fn join_strings(parts: &Vec<String>, sep: &str) -> (r: String)
    ensures
        r@ == join_seqs(views(parts@), sep@),
{
    let mut r = String::new();
    let mut i: usize = 0;
    while i < parts.len()
        invariant
            i <= parts@.len(),
            r@ == join_seqs(views(parts@.subrange(0, i as int)), sep@),
        decreases parts@.len() - i,
    {
        let ghost pre = views(parts@.subrange(0, i as int));
        let ghost nxt = views(parts@.subrange(0, i + 1));
        assert(nxt.drop_last() =~= pre);
        if i > 0 {
            push_str(&mut r, sep);
        }
        push_str(&mut r, parts[i].as_str());
        proof {
            if i == 0 {
                assert(nxt.len() == 1);
                assert(r@ =~= nxt[0]);
            }
        }
        i = i + 1;
    }
    assert(parts@.subrange(0, parts@.len() as int) =~= parts@);
    r
}

/// The elements of `v` in reverse order.
pub fn into_reversed<T>(v: Vec<T>) -> (r: Vec<T>)
    ensures
        r@ == v@.reverse(),
{
    let mut rs = v;
    let ghost orig = rs@;
    let mut out: Vec<T> = Vec::new();
    while rs.len() > 0
        invariant
            out@.len() + rs@.len() == orig.len(),
            rs@ == orig.subrange(0, rs@.len() as int),
            out@ == orig.subrange(rs@.len() as int, orig.len() as int).reverse(),
        decreases rs@.len(),
    {
        let ghost k = rs@.len();
        let x = rs.pop().unwrap();
        out.push(x);
        assert(rs@ =~= orig.subrange(0, rs@.len() as int));
        assert(out@ =~= orig.subrange(rs@.len() as int, orig.len() as int).reverse());
    }
    assert(orig.subrange(0, orig.len() as int) =~= orig);
    out
}

// ---------------------------------------------------------------------
// Words
// ---------------------------------------------------------------------
/// The maximal runs of non-whitespace characters (`str::split_whitespace`),
/// `cur` being the run being read.
pub open spec fn words_from(s: Seq<char>, cur: Seq<char>) -> Seq<Seq<char>>
    decreases s.len(),
{
    if s.len() == 0 {
        if cur.len() > 0 {
            seq![cur]
        } else {
            Seq::empty()
        }
    } else if is_ws(s[0]) {
        if cur.len() > 0 {
            seq![cur] + words_from(s.drop_first(), Seq::empty())
        } else {
            words_from(s.drop_first(), Seq::empty())
        }
    } else {
        words_from(s.drop_first(), cur.push(s[0]))
    }
}

pub open spec fn words(s: Seq<char>) -> Seq<Seq<char>> {
    words_from(s, Seq::empty())
}

/// `str::split_whitespace`.
pub fn split_words(t: &str) -> (r: Vec<String>)
    ensures
        views(r@) == words(t@),
{
    let s = chars_of(t);
    let n = s.len();
    let mut out: Vec<String> = Vec::new();
    let mut cur: Vec<char> = Vec::new();
    let mut i: usize = 0;
    assert(s@.subrange(0, n as int) =~= s@);
    while i < n
        invariant
            i <= n == s@.len(),
            s@ == t@,
            views(out@) + words_from(s@.subrange(i as int, n as int), cur@) == words(t@),
        decreases n - i,
    {
        let ghost rest = s@.subrange(i as int, n as int);
        assert(rest.drop_first() =~= s@.subrange(i + 1, n as int));
        let c = s[i];
        assert(rest[0] == c);
        if ws(c) {
            if cur.len() > 0 {
                let w = string_of(cur.as_slice());
                let ghost before = views(out@);
                out.push(w);
                assert(views(out@) =~= before.push(cur@));
                assert(before + (seq![cur@] + words_from(s@.subrange(i + 1, n as int), Seq::empty()))
                    =~= views(out@) + words_from(s@.subrange(i + 1, n as int), Seq::empty()));
                cur = Vec::new();
            } else {
                assert(cur@ =~= Seq::<char>::empty());
            }
        } else {
            cur.push(c);
        }
        i = i + 1;
    }
    if cur.len() > 0 {
        let w = string_of(cur.as_slice());
        let ghost before = views(out@);
        out.push(w);
        assert(views(out@) =~= before.push(cur@));
        assert(before + seq![cur@] =~= views(out@));
    } else {
        assert(views(out@) + Seq::<Seq<char>>::empty() =~= views(out@));
    }
    out
}

// ---------------------------------------------------------------------
// Ordering of strings and sorted sets
// ---------------------------------------------------------------------
/// The order of `String`s: lexicographic by code point, a proper prefix
/// coming first (UTF-8 byte order agrees with code point order).
pub open spec fn lex_lt(a: Seq<char>, b: Seq<char>) -> bool
    decreases a.len(),
{
    if a.len() == 0 {
        b.len() > 0
    } else if b.len() == 0 {
        false
    } else if a[0] != b[0] {
        a[0] < b[0]
    } else {
        lex_lt(a.drop_first(), b.drop_first())
    }
}

/// `a < b` for strings.
pub fn str_lt(a: &str, b: &str) -> (r: bool)
    ensures
        r == lex_lt(a@, b@),
{
    let x = chars_of(a);
    let y = chars_of(b);
    let mut i: usize = 0;
    assert(x@.subrange(0, x@.len() as int) =~= x@);
    assert(y@.subrange(0, y@.len() as int) =~= y@);
    while i < x.len() && i < y.len() && x[i] == y[i]
        invariant
            i <= x@.len(),
            i <= y@.len(),
            x@ == a@,
            y@ == b@,
            lex_lt(a@, b@) == lex_lt(x@.subrange(i as int, x@.len() as int), y@.subrange(i as int, y@.len() as int)),
        decreases x@.len() - i,
    {
        let ghost xs = x@.subrange(i as int, x@.len() as int);
        let ghost ys = y@.subrange(i as int, y@.len() as int);
        assert(xs.drop_first() =~= x@.subrange(i + 1, x@.len() as int));
        assert(ys.drop_first() =~= y@.subrange(i + 1, y@.len() as int));
        i = i + 1;
    }
    let ghost xs = x@.subrange(i as int, x@.len() as int);
    let ghost ys = y@.subrange(i as int, y@.len() as int);
    if i == x.len() {
        i < y.len()
    } else if i == y.len() {
        false
    } else {
        assert(xs[0] == x@[i as int] && ys[0] == y@[i as int]);
        x[i] < y[i]
    }
}

/// `x` put into `xs` before the first element it is below, unless `x`
/// is met first.
pub open spec fn insert_sorted(xs: Seq<Seq<char>>, x: Seq<char>) -> Seq<Seq<char>>
    decreases xs.len(),
{
    if xs.len() == 0 {
        seq![x]
    } else if xs[0] == x {
        xs
    } else if lex_lt(x, xs[0]) {
        seq![x] + xs
    } else {
        seq![xs[0]] + insert_sorted(xs.drop_first(), x)
    }
}

/// The distinct elements of `xs` in ascending order (`BTreeSet` order).
pub open spec fn sorted_distinct(xs: Seq<Seq<char>>) -> Seq<Seq<char>>
    decreases xs.len(),
{
    if xs.len() == 0 {
        Seq::empty()
    } else {
        insert_sorted(sorted_distinct(xs.drop_last()), xs.last())
    }
}

proof fn lemma_insert_sorted_skip(xs: Seq<Seq<char>>, x: Seq<char>, i: int)
    requires
        0 <= i <= xs.len(),
        forall|k: int| 0 <= k < i ==> xs[k] != x && !lex_lt(x, #[trigger] xs[k]),
    ensures
        insert_sorted(xs, x) == xs.subrange(0, i) + insert_sorted(xs.subrange(i, xs.len() as int), x),
    decreases i,
{
    if i == 0 {
        assert(xs.subrange(0, 0) + insert_sorted(xs.subrange(0, xs.len() as int), x) =~= insert_sorted(xs, x)) by {
            assert(xs.subrange(0, xs.len() as int) =~= xs);
        }
    } else {
        let t = xs.drop_first();
        assert forall|k: int| 0 <= k < i - 1 implies t[k] != x && !lex_lt(x, #[trigger] t[k]) by {
            assert(t[k] == xs[k + 1]);
        }
        lemma_insert_sorted_skip(t, x, i - 1);
        assert(t.subrange(i - 1, t.len() as int) =~= xs.subrange(i, xs.len() as int));
        assert(xs.subrange(0, i) =~= seq![xs[0]] + t.subrange(0, i - 1));
        assert(insert_sorted(xs, x) == seq![xs[0]] + insert_sorted(t, x));
    }
}

/// Adds `x` to the ascending distinct list `v` (a `BTreeSet` insert).
pub fn sorted_insert(v: &mut Vec<String>, x: String)
    ensures
        views(final(v)@) == insert_sorted(views(old(v)@), x@),
{
    let ghost xs = views(v@);
    let mut i: usize = 0;
    while i < v.len() && !str_eq(v[i].as_str(), x.as_str()) && !str_lt(x.as_str(), v[i].as_str())
        invariant
            i <= v@.len(),
            v@ == old(v)@,
            xs == views(v@),
            forall|k: int| 0 <= k < i ==> xs[k] != x@ && !lex_lt(x@, #[trigger] xs[k]),
        decreases v@.len() - i,
    {
        i = i + 1;
    }
    proof {
        lemma_insert_sorted_skip(xs, x@, i as int);
    }
    let ghost rest = xs.subrange(i as int, xs.len() as int);
    if i == v.len() {
        let ghost xv = x@;
        v.push(x);
        assert(insert_sorted(rest, xv) =~= seq![xv]);
        assert(views(v@) =~= xs + seq![xv]);
        assert(xs.subrange(0, i as int) =~= xs);
    } else if str_eq(v[i].as_str(), x.as_str()) {
        assert(rest[0] == xs[i as int]);
        assert(xs.subrange(0, i as int) + rest =~= xs);
    } else {
        let ghost xv = x@;
        assert(rest[0] == xs[i as int]);
        v.insert(i, x);
        assert(views(v@) =~= xs.subrange(0, i as int) + (seq![xv] + rest));
    }
}

/// Concatenation of all parts.
pub open spec fn concat_all(parts: Seq<Seq<char>>) -> Seq<char>
    decreases parts.len(),
{
    if parts.len() == 0 {
        Seq::empty()
    } else {
        concat_all(parts.drop_last()) + parts.last()
    }
}

/// Every element strictly below the ones after it.
pub open spec fn strictly_sorted(s: Seq<Seq<char>>) -> bool {
    forall|i: int, j: int| 0 <= i < j < s.len() ==> lex_lt(#[trigger] s[i], #[trigger] s[j])
}

pub proof fn lemma_lex_irreflexive(a: Seq<char>)
    ensures
        !lex_lt(a, a),
    decreases a.len(),
{
    if a.len() > 0 {
        lemma_lex_irreflexive(a.drop_first());
    }
}

pub proof fn lemma_lex_transitive(a: Seq<char>, b: Seq<char>, c: Seq<char>)
    requires
        lex_lt(a, b),
        lex_lt(b, c),
    ensures
        lex_lt(a, c),
    decreases a.len(),
{
    if a.len() > 0 && b.len() > 0 && c.len() > 0 && a[0] == b[0] && b[0] == c[0] {
        lemma_lex_transitive(a.drop_first(), b.drop_first(), c.drop_first());
    }
}

pub proof fn lemma_lex_total(a: Seq<char>, b: Seq<char>)
    requires
        a != b,
    ensures
        lex_lt(a, b) || lex_lt(b, a),
    decreases a.len(),
{
    if a.len() > 0 && b.len() > 0 && a[0] == b[0] {
        if a.drop_first() == b.drop_first() {
            assert(a =~= seq![a[0]] + a.drop_first());
            assert(b =~= seq![b[0]] + b.drop_first());
        }
        lemma_lex_total(a.drop_first(), b.drop_first());
    } else if a.len() == 0 && b.len() == 0 {
        assert(a =~= b);
    }
}

pub proof fn lemma_lex_asymmetric(a: Seq<char>, b: Seq<char>)
    requires
        lex_lt(a, b),
    ensures
        !lex_lt(b, a),
{
    if lex_lt(b, a) {
        lemma_lex_transitive(a, b, a);
        lemma_lex_irreflexive(a);
    }
}

/// Inserting into a strictly sorted list keeps it strictly sorted and adds
/// exactly the new element.
pub proof fn lemma_insert_sorted(xs: Seq<Seq<char>>, x: Seq<char>)
    requires
        strictly_sorted(xs),
    ensures
        strictly_sorted(insert_sorted(xs, x)),
        insert_sorted(xs, x).to_set() == xs.to_set().insert(x),
        insert_sorted(xs, x).len() <= xs.len() + 1,
    decreases xs.len(),
{
    if xs.len() == 0 {
        assert(seq![x].to_set() =~= Set::<Seq<char>>::empty().insert(x)) by {
            assert(seq![x][0] == x);
        }
        assert(xs.to_set() =~= Set::<Seq<char>>::empty());
    } else if xs[0] == x {
        assert(xs.to_set() =~= xs.to_set().insert(x)) by {
            assert(xs.contains(x));
        }
    } else if lex_lt(x, xs[0]) {
        let r = seq![x] + xs;
        assert forall|i: int, j: int| 0 <= i < j < r.len() implies lex_lt(#[trigger] r[i], #[trigger] r[j]) by {
            if i == 0 {
                if j > 1 {
                    lemma_lex_transitive(x, xs[0], xs[j - 1]);
                }
            } else {
                assert(r[i] == xs[i - 1] && r[j] == xs[j - 1]);
            }
        }
        assert(r.to_set() =~= xs.to_set().insert(x)) by {
            assert forall|y: Seq<char>| r.contains(y) <==> xs.to_set().insert(x).contains(y) by {
                if r.contains(y) {
                    let k = choose|k: int| 0 <= k < r.len() && r[k] == y;
                    if k > 0 {
                        assert(xs[k - 1] == y);
                    }
                }
                if xs.contains(y) {
                    let k = choose|k: int| 0 <= k < xs.len() && xs[k] == y;
                    assert(r[k + 1] == y);
                }
                if y == x {
                    assert(r[0] == y);
                }
            }
        }
    } else {
        let t = xs.drop_first();
        assert(strictly_sorted(t)) by {
            assert forall|i: int, j: int| 0 <= i < j < t.len() implies lex_lt(#[trigger] t[i], #[trigger] t[j]) by {
                assert(t[i] == xs[i + 1] && t[j] == xs[j + 1]);
            }
        }
        lemma_insert_sorted(t, x);
        let it = insert_sorted(t, x);
        let r = seq![xs[0]] + it;
        lemma_lex_total(x, xs[0]);
        assert forall|i: int, j: int| 0 <= i < j < r.len() implies lex_lt(#[trigger] r[i], #[trigger] r[j]) by {
            if i == 0 {
                let y = r[j];
                assert(it.contains(y)) by {
                    assert(it[j - 1] == y);
                }
                assert(t.to_set().insert(x).contains(y));
                if y == x {
                } else {
                    let k = choose|k: int| 0 <= k < t.len() && t[k] == y;
                    assert(xs[k + 1] == y);
                }
            } else {
                assert(r[i] == it[i - 1] && r[j] == it[j - 1]);
            }
        }
        assert(r.to_set() =~= xs.to_set().insert(x)) by {
            assert forall|y: Seq<char>| r.contains(y) <==> xs.to_set().insert(x).contains(y) by {
                if r.contains(y) {
                    let k = choose|k: int| 0 <= k < r.len() && r[k] == y;
                    if k > 0 {
                        assert(it.contains(y)) by {
                            assert(it[k - 1] == y);
                        }
                        assert(t.to_set().insert(x).contains(y));
                        if y != x {
                            let m = choose|m: int| 0 <= m < t.len() && t[m] == y;
                            assert(xs[m + 1] == y);
                        }
                    } else {
                        assert(xs[0] == y);
                    }
                }
                if xs.contains(y) {
                    let k = choose|k: int| 0 <= k < xs.len() && xs[k] == y;
                    if k == 0 {
                        assert(r[0] == y);
                    } else {
                        assert(t[k - 1] == y);
                        assert(t.to_set().insert(x).contains(y));
                        assert(it.contains(y));
                        let m = choose|m: int| 0 <= m < it.len() && it[m] == y;
                        assert(r[m + 1] == y);
                    }
                }
                if y == x {
                    assert(t.to_set().insert(x).contains(y));
                    assert(it.contains(y));
                    let m = choose|m: int| 0 <= m < it.len() && it[m] == y;
                    assert(r[m + 1] == y);
                }
            }
        }
    }
}

/// `sorted_distinct` gives a strictly sorted list of the same elements.
pub proof fn lemma_sorted_distinct(xs: Seq<Seq<char>>)
    ensures
        strictly_sorted(sorted_distinct(xs)),
        sorted_distinct(xs).to_set() == xs.to_set(),
    decreases xs.len(),
{
    if xs.len() == 0 {
        assert(xs.to_set() =~= Set::<Seq<char>>::empty());
        assert(sorted_distinct(xs).to_set() =~= Set::<Seq<char>>::empty());
    } else {
        lemma_sorted_distinct(xs.drop_last());
        lemma_insert_sorted(sorted_distinct(xs.drop_last()), xs.last());
        assert(xs.to_set() =~= xs.drop_last().to_set().insert(xs.last())) by {
            assert forall|y: Seq<char>| xs.contains(y) <==> xs.drop_last().to_set().insert(xs.last()).contains(y) by {
                if xs.contains(y) {
                    let k = choose|k: int| 0 <= k < xs.len() && xs[k] == y;
                    if k < xs.len() - 1 {
                        assert(xs.drop_last()[k] == y);
                    }
                }
                if xs.drop_last().contains(y) {
                    let k = choose|k: int| 0 <= k < xs.drop_last().len() && xs.drop_last()[k] == y;
                    assert(xs[k] == y);
                }
            }
        }
    }
}

/// Two strictly sorted lists with the same elements are the same list.
pub proof fn lemma_sorted_unique(a: Seq<Seq<char>>, b: Seq<Seq<char>>)
    requires
        strictly_sorted(a),
        strictly_sorted(b),
        a.to_set() == b.to_set(),
    ensures
        a == b,
    decreases a.len(),
{
    if a.len() == 0 {
        if b.len() > 0 {
            assert(b.to_set().contains(b[0]));
        }
        assert(a =~= b);
    } else if b.len() == 0 {
        assert(a.to_set().contains(a[0]));
    } else {
        assert(b.to_set().contains(a[0]));
        assert(a.to_set().contains(b[0]));
        let ka = choose|k: int| 0 <= k < b.len() && b[k] == a[0];
        let kb = choose|k: int| 0 <= k < a.len() && a[k] == b[0];
        if a[0] != b[0] {
            if ka > 0 {
                assert(lex_lt(b[0], b[ka]));
            }
            if kb > 0 {
                assert(lex_lt(a[0], a[kb]));
            }
            lemma_lex_asymmetric(a[0], b[0]);
        }
        let ta = a.drop_first();
        let tb = b.drop_first();
        assert(strictly_sorted(ta)) by {
            assert forall|i: int, j: int| 0 <= i < j < ta.len() implies lex_lt(#[trigger] ta[i], #[trigger] ta[j]) by {
                assert(ta[i] == a[i + 1] && ta[j] == a[j + 1]);
            }
        }
        assert(strictly_sorted(tb)) by {
            assert forall|i: int, j: int| 0 <= i < j < tb.len() implies lex_lt(#[trigger] tb[i], #[trigger] tb[j]) by {
                assert(tb[i] == b[i + 1] && tb[j] == b[j + 1]);
            }
        }
        assert(ta.to_set() =~= tb.to_set()) by {
            assert forall|y: Seq<char>| ta.contains(y) <==> tb.contains(y) by {
                if ta.contains(y) {
                    let k = choose|k: int| 0 <= k < ta.len() && ta[k] == y;
                    assert(a[k + 1] == y);
                    assert(lex_lt(a[0], y));
                    lemma_lex_irreflexive(y);
                    assert(b.to_set().contains(y));
                    let m = choose|m: int| 0 <= m < b.len() && b[m] == y;
                    assert(m != 0);
                    assert(tb[m - 1] == y);
                }
                if tb.contains(y) {
                    let k = choose|k: int| 0 <= k < tb.len() && tb[k] == y;
                    assert(b[k + 1] == y);
                    assert(lex_lt(b[0], y));
                    lemma_lex_irreflexive(y);
                    assert(a.to_set().contains(y));
                    let m = choose|m: int| 0 <= m < a.len() && a[m] == y;
                    assert(m != 0);
                    assert(ta[m - 1] == y);
                }
            }
        }
        lemma_sorted_unique(ta, tb);
        assert(a =~= seq![a[0]] + ta);
        assert(b =~= seq![b[0]] + tb);
    }
}

} // verus!
