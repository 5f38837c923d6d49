//! The table of registered routes: rows ordered by group, path and method
//! without repeats, laid out in columns as wide as their widest cell.
use vstd::prelude::*;

use crate::text::{
    chars_of, lemma_lex_total, lemma_lex_transitive,
    lex_lt, owned, push_char, push_str, str_eq, str_lt, views,
};

verus! {

/// The order of rows `(group, method, path)`: by group, then path, then method.
pub open spec fn row_lt(a: (Seq<char>, Seq<char>, Seq<char>), b: (Seq<char>, Seq<char>, Seq<char>)) -> bool {
    ||| lex_lt(a.0, b.0)
    ||| a.0 == b.0 && lex_lt(a.2, b.2)
    ||| a.0 == b.0 && a.2 == b.2 && lex_lt(a.1, b.1)
}

/// `x` put into `xs` before the first row it is below, unless `x` is met first.
pub open spec fn insert_row(xs: Seq<(Seq<char>, Seq<char>, Seq<char>)>, x: (Seq<char>, Seq<char>, Seq<char>)) -> Seq<
    (Seq<char>, Seq<char>, Seq<char>),
>
    decreases xs.len(),
{
    if xs.len() == 0 {
        seq![x]
    } else if xs[0] == x {
        xs
    } else if row_lt(x, xs[0]) {
        seq![x] + xs
    } else {
        seq![xs[0]] + insert_row(xs.drop_first(), x)
    }
}

/// The distinct rows of `xs` in ascending order.
pub open spec fn sorted_rows(xs: Seq<(Seq<char>, Seq<char>, Seq<char>)>) -> Seq<(Seq<char>, Seq<char>, Seq<char>)>
    decreases xs.len(),
{
    if xs.len() == 0 {
        Seq::empty()
    } else {
        insert_row(sorted_rows(xs.drop_last()), xs.last())
    }
}

pub open spec fn rows_strictly_sorted(s: Seq<(Seq<char>, Seq<char>, Seq<char>)>) -> bool {
    forall|i: int, j: int| 0 <= i < j < s.len() ==> row_lt(#[trigger] s[i], #[trigger] s[j])
}

pub open spec fn rows_view(v: Seq<(String, String, String)>) -> Seq<(Seq<char>, Seq<char>, Seq<char>)> {
    v.map_values(|r: (String, String, String)| (r.0@, r.1@, r.2@))
}

proof fn lemma_row_transitive(a: (Seq<char>, Seq<char>, Seq<char>), b: (Seq<char>, Seq<char>, Seq<char>), c: (
    Seq<char>,
    Seq<char>,
    Seq<char>,
))
    requires
        row_lt(a, b),
        row_lt(b, c),
    ensures
        row_lt(a, c),
{
    if lex_lt(a.0, b.0) && lex_lt(b.0, c.0) {
        lemma_lex_transitive(a.0, b.0, c.0);
    }
    if a.0 == b.0 && b.0 == c.0 && lex_lt(a.2, b.2) && lex_lt(b.2, c.2) {
        lemma_lex_transitive(a.2, b.2, c.2);
    }
    if a.0 == b.0 && b.0 == c.0 && a.2 == b.2 && b.2 == c.2 && lex_lt(a.1, b.1) && lex_lt(b.1, c.1) {
        lemma_lex_transitive(a.1, b.1, c.1);
    }
}

proof fn lemma_row_total(a: (Seq<char>, Seq<char>, Seq<char>), b: (Seq<char>, Seq<char>, Seq<char>))
    requires
        a != b,
    ensures
        row_lt(a, b) || row_lt(b, a),
{
    if a.0 != b.0 {
        lemma_lex_total(a.0, b.0);
    } else if a.2 != b.2 {
        lemma_lex_total(a.2, b.2);
    } else {
        lemma_lex_total(a.1, b.1);
    }
}

proof fn lemma_insert_row_skip(xs: Seq<(Seq<char>, Seq<char>, Seq<char>)>, x: (Seq<char>, Seq<char>, Seq<char>), i: int)
    requires
        0 <= i <= xs.len(),
        forall|k: int| 0 <= k < i ==> xs[k] != x && !row_lt(x, #[trigger] xs[k]),
    ensures
        insert_row(xs, x) == xs.subrange(0, i) + insert_row(xs.subrange(i, xs.len() as int), x),
    decreases i,
{
    if i == 0 {
        assert(xs.subrange(0, xs.len() as int) =~= xs);
        assert(xs.subrange(0, 0) + insert_row(xs, x) =~= insert_row(xs, x));
    } else {
        let t = xs.drop_first();
        assert forall|k: int| 0 <= k < i - 1 implies t[k] != x && !row_lt(x, #[trigger] t[k]) by {
            assert(t[k] == xs[k + 1]);
        }
        lemma_insert_row_skip(t, x, i - 1);
        assert(t.subrange(i - 1, t.len() as int) =~= xs.subrange(i, xs.len() as int));
        assert(xs.subrange(0, i) =~= seq![xs[0]] + t.subrange(0, i - 1));
        assert(insert_row(xs, x) == seq![xs[0]] + insert_row(t, x));
    }
}

/// Inserting into a strictly sorted list of rows keeps it strictly sorted
/// and adds exactly the new row.
proof fn lemma_insert_row(xs: Seq<(Seq<char>, Seq<char>, Seq<char>)>, x: (Seq<char>, Seq<char>, Seq<char>))
    requires
        rows_strictly_sorted(xs),
    ensures
        rows_strictly_sorted(insert_row(xs, x)),
        insert_row(xs, x).to_set() == xs.to_set().insert(x),
    decreases xs.len(),
{
    if xs.len() == 0 {
        assert(seq![x].to_set() =~= Set::<(Seq<char>, Seq<char>, Seq<char>)>::empty().insert(x)) by {
            assert(seq![x][0] == x);
        }
        assert(xs.to_set() =~= Set::<(Seq<char>, Seq<char>, Seq<char>)>::empty());
    } else if xs[0] == x {
        assert(xs.to_set() =~= xs.to_set().insert(x)) by {
            assert(xs.contains(x));
        }
    } else if row_lt(x, xs[0]) {
        let r = seq![x] + xs;
        assert forall|i: int, j: int| 0 <= i < j < r.len() implies row_lt(#[trigger] r[i], #[trigger] r[j]) by {
            if i == 0 {
                if j > 1 {
                    lemma_row_transitive(x, xs[0], xs[j - 1]);
                }
            } else {
                assert(r[i] == xs[i - 1] && r[j] == xs[j - 1]);
            }
        }
        assert(r.to_set() =~= xs.to_set().insert(x)) by {
            assert forall|y: (Seq<char>, Seq<char>, Seq<char>)| r.contains(y) <==> xs.to_set().insert(x).contains(y) by {
                if r.contains(y) {
                    let k = choose|k: int| 0 <= k < r.len() && r[k] == y;
                    if k > 0 {
                        assert(xs[k - 1] == y);
                    }
                }
                if xs.contains(y) {
                    let k = choose|k: int| 0 <= k < xs.len() && xs[k] == y;
                    assert(r[k + 1] == y);
                }
                if y == x {
                    assert(r[0] == y);
                }
            }
        }
    } else {
        let t = xs.drop_first();
        assert(rows_strictly_sorted(t)) by {
            assert forall|i: int, j: int| 0 <= i < j < t.len() implies row_lt(#[trigger] t[i], #[trigger] t[j]) by {
                assert(t[i] == xs[i + 1] && t[j] == xs[j + 1]);
            }
        }
        lemma_insert_row(t, x);
        let it = insert_row(t, x);
        let r = seq![xs[0]] + it;
        lemma_row_total(x, xs[0]);
        assert forall|i: int, j: int| 0 <= i < j < r.len() implies row_lt(#[trigger] r[i], #[trigger] r[j]) by {
            if i == 0 {
                let y = r[j];
                assert(it.contains(y)) by {
                    assert(it[j - 1] == y);
                }
                assert(t.to_set().insert(x).contains(y));
                if y == x {
                } else {
                    let k = choose|k: int| 0 <= k < t.len() && t[k] == y;
                    assert(xs[k + 1] == y);
                }
            } else {
                assert(r[i] == it[i - 1] && r[j] == it[j - 1]);
            }
        }
        assert(r.to_set() =~= xs.to_set().insert(x)) by {
            assert forall|y: (Seq<char>, Seq<char>, Seq<char>)| r.contains(y) <==> xs.to_set().insert(x).contains(y) by {
                if r.contains(y) {
                    let k = choose|k: int| 0 <= k < r.len() && r[k] == y;
                    if k > 0 {
                        assert(it.contains(y)) by {
                            assert(it[k - 1] == y);
                        }
                        assert(t.to_set().insert(x).contains(y));
                        if y != x {
                            let m = choose|m: int| 0 <= m < t.len() && t[m] == y;
                            assert(xs[m + 1] == y);
                        }
                    } else {
                        assert(xs[0] == y);
                    }
                }
                if xs.contains(y) {
                    let k = choose|k: int| 0 <= k < xs.len() && xs[k] == y;
                    if k == 0 {
                        assert(r[0] == y);
                    } else {
                        assert(t[k - 1] == y);
                        assert(t.to_set().insert(x).contains(y));
                        assert(it.contains(y));
                        let m = choose|m: int| 0 <= m < it.len() && it[m] == y;
                        assert(r[m + 1] == y);
                    }
                }
                if y == x {
                    assert(t.to_set().insert(x).contains(y));
                    assert(it.contains(y));
                    let m = choose|m: int| 0 <= m < it.len() && it[m] == y;
                    assert(r[m + 1] == y);
                }
            }
        }
    }
}

/// The table lists every registered row exactly once, in ascending order:
/// its rows are strictly sorted and are the set of the rows given.
pub proof fn law_sorted_rows(xs: Seq<(Seq<char>, Seq<char>, Seq<char>)>)
    ensures
        rows_strictly_sorted(sorted_rows(xs)),
        sorted_rows(xs).to_set() == xs.to_set(),
    decreases xs.len(),
{
    if xs.len() == 0 {
        assert(xs.to_set() =~= Set::<(Seq<char>, Seq<char>, Seq<char>)>::empty());
        assert(sorted_rows(xs).to_set() =~= Set::<(Seq<char>, Seq<char>, Seq<char>)>::empty());
    } else {
        law_sorted_rows(xs.drop_last());
        lemma_insert_row(sorted_rows(xs.drop_last()), xs.last());
        assert(xs.to_set() =~= xs.drop_last().to_set().insert(xs.last())) by {
            assert forall|y: (Seq<char>, Seq<char>, Seq<char>)| xs.contains(y) <==> xs.drop_last().to_set().insert(
                xs.last(),
            ).contains(y) by {
                if xs.contains(y) {
                    let k = choose|k: int| 0 <= k < xs.len() && xs[k] == y;
                    if k < xs.len() - 1 {
                        assert(xs.drop_last()[k] == y);
                    }
                }
                if xs.drop_last().contains(y) {
                    let k = choose|k: int| 0 <= k < xs.drop_last().len() && xs.drop_last()[k] == y;
                    assert(xs[k] == y);
                }
            }
        }
    }
}

fn row_lt_exec(a: &(String, String, String), b: &(String, String, String)) -> (r: bool)
    ensures
        r == row_lt((a.0@, a.1@, a.2@), (b.0@, b.1@, b.2@)),
{
    if str_lt(a.0.as_str(), b.0.as_str()) {
        return true;
    }
    if !str_eq(a.0.as_str(), b.0.as_str()) {
        return false;
    }
    if str_lt(a.2.as_str(), b.2.as_str()) {
        return true;
    }
    if !str_eq(a.2.as_str(), b.2.as_str()) {
        return false;
    }
    str_lt(a.1.as_str(), b.1.as_str())
}

fn row_eq_exec(a: &(String, String, String), b: &(String, String, String)) -> (r: bool)
    ensures
        r == ((a.0@, a.1@, a.2@) == (b.0@, b.1@, b.2@)),
{
    str_eq(a.0.as_str(), b.0.as_str()) && str_eq(a.1.as_str(), b.1.as_str()) && str_eq(a.2.as_str(), b.2.as_str())
}

fn copy_row(r: &(String, String, String)) -> (c: (String, String, String))
    ensures
        (c.0@, c.1@, c.2@) == (r.0@, r.1@, r.2@),
{
    (owned(r.0.as_str()), owned(r.1.as_str()), owned(r.2.as_str()))
}

fn insert_row_exec(v: &mut Vec<(String, String, String)>, x: (String, String, String))
    ensures
        rows_view(final(v)@) == insert_row(rows_view(old(v)@), (x.0@, x.1@, x.2@)),
{
    let ghost xs = rows_view(v@);
    let ghost xv = (x.0@, x.1@, x.2@);
    let mut i: usize = 0;
    while i < v.len() && !row_eq_exec(&v[i], &x) && !row_lt_exec(&x, &v[i])
        invariant
            i <= v@.len(),
            v@ == old(v)@,
            xs == rows_view(v@),
            xv == (x.0@, x.1@, x.2@),
            forall|k: int| 0 <= k < i ==> xs[k] != xv && !row_lt(xv, #[trigger] xs[k]),
        decreases v@.len() - i,
    {
        i = i + 1;
    }
    proof {
        lemma_insert_row_skip(xs, xv, i as int);
    }
    let ghost rest = xs.subrange(i as int, xs.len() as int);
    if i == v.len() {
        v.push(x);
        assert(insert_row(rest, xv) =~= seq![xv]);
        assert(rows_view(v@) =~= xs + seq![xv]);
        assert(xs.subrange(0, i as int) =~= xs);
    } else if row_eq_exec(&v[i], &x) {
        assert(rest[0] == xs[i as int]);
        assert(xs.subrange(0, i as int) + rest =~= xs);
    } else {
        assert(rest[0] == xs[i as int]);
        v.insert(i, x);
        assert(rows_view(v@) =~= xs.subrange(0, i as int) + (seq![xv] + rest));
    }
}

/// The distinct rows in ascending order (see [`sorted_rows`]).
pub fn sort_rows(rows: &Vec<(String, String, String)>) -> (r: Vec<(String, String, String)>)
    ensures
        rows_view(r@) == sorted_rows(rows_view(rows@)),
{
    let mut out: Vec<(String, String, String)> = Vec::new();
    let mut i: usize = 0;
    assert(rows_view(out@) =~= sorted_rows(rows_view(rows@).subrange(0, 0)));
    while i < rows.len()
        invariant
            i <= rows@.len(),
            rows_view(out@) == sorted_rows(rows_view(rows@).subrange(0, i as int)),
        decreases rows@.len() - i,
    {
        let c = copy_row(&rows[i]);
        insert_row_exec(&mut out, c);
        let ghost pre = rows_view(rows@).subrange(0, i + 1);
        assert(pre.drop_last() =~= rows_view(rows@).subrange(0, i as int));
        assert(pre.last() == rows_view(rows@)[i as int]);
        i = i + 1;
    }
    assert(rows_view(rows@).subrange(0, rows@.len() as int) =~= rows_view(rows@));
    out
}

/// Bytes that `c` takes in UTF-8.
pub open spec fn utf8_width(c: char) -> nat {
    if (c as u32) < 0x80 {
        1
    } else if (c as u32) < 0x800 {
        2
    } else if (c as u32) < 0x10000 {
        3
    } else {
        4
    }
}

/// The UTF-8 length of a string (`str::len`).
pub open spec fn utf8_len(s: Seq<char>) -> nat
    decreases s.len(),
{
    if s.len() == 0 {
        0
    } else {
        utf8_len(s.drop_last()) + utf8_width(s.last())
    }
}

proof fn lemma_utf8_len_prefix(s: Seq<char>, i: int, j: int)
    requires
        0 <= i <= j <= s.len(),
    ensures
        utf8_len(s.subrange(0, i)) <= utf8_len(s.subrange(0, j)),
    decreases j - i,
{
    if i < j {
        lemma_utf8_len_prefix(s, i, j - 1);
        assert(s.subrange(0, j).drop_last() =~= s.subrange(0, j - 1));
    }
}

fn utf8_len_exec(s: &str) -> (n: usize)
    requires
        utf8_len(s@) <= usize::MAX,
    ensures
        n == utf8_len(s@),
{
    let v = chars_of(s);
    let mut acc: usize = 0;
    let mut i: usize = 0;
    assert(v@.subrange(0, 0) =~= Seq::<char>::empty());
    while i < v.len()
        invariant
            i <= v@.len(),
            v@ == s@,
            utf8_len(s@) <= usize::MAX,
            acc == utf8_len(v@.subrange(0, i as int)),
        decreases v@.len() - i,
    {
        proof {
            lemma_utf8_len_prefix(v@, i + 1, v@.len() as int);
            assert(v@.subrange(0, v@.len() as int) =~= v@);
            assert(v@.subrange(0, i + 1).drop_last() =~= v@.subrange(0, i as int));
        }
        let c = v[i];
        let w: usize = if (c as u32) < 0x80 {
            1
        } else if (c as u32) < 0x800 {
            2
        } else if (c as u32) < 0x10000 {
            3
        } else {
            4
        };
        acc = acc + w;
        i = i + 1;
    }
    assert(v@.subrange(0, v@.len() as int) =~= v@);
    acc
}

/// Column `col` of a row.
pub open spec fn cell(r: (Seq<char>, Seq<char>, Seq<char>), col: int) -> Seq<char> {
    if col == 0 {
        r.0
    } else if col == 1 {
        r.1
    } else {
        r.2
    }
}

/// The width of a column: the largest UTF-8 length of its cells, at least `base`.
pub open spec fn col_width(rows: Seq<(Seq<char>, Seq<char>, Seq<char>)>, col: int, base: nat) -> nat
    decreases rows.len(),
{
    if rows.len() == 0 {
        base
    } else {
        let w = col_width(rows.drop_last(), col, base);
        let c = utf8_len(cell(rows.last(), col));
        if c > w {
            c
        } else {
            w
        }
    }
}

/// `s` padded with spaces to `w` characters.
pub open spec fn pad_right(s: Seq<char>, w: nat) -> Seq<char> {
    if s.len() < w {
        s + Seq::new((w - s.len()) as nat, |i: int| ' ')
    } else {
        s
    }
}

pub open spec fn column_sep() -> Seq<char> {
    seq![' ', '|', ' ']
}

/// One table line: the three cells padded to their widths, separated by ` | `.
pub open spec fn table_row(r: (Seq<char>, Seq<char>, Seq<char>), gw: nat, mw: nat, pw: nat) -> Seq<char> {
    pad_right(r.0, gw) + column_sep() + pad_right(r.1, mw) + column_sep() + pad_right(r.2, pw)
}

/// The line under the header: dashes joined by `-+-`.
pub open spec fn dash_line(gw: nat, mw: nat, pw: nat) -> Seq<char> {
    Seq::new(gw, |i: int| '-') + seq!['-', '+', '-'] + Seq::new(mw, |i: int| '-') + seq!['-', '+', '-']
        + Seq::new(pw, |i: int| '-')
}

/// One table line per row.
pub open spec fn table_body(rows: Seq<(Seq<char>, Seq<char>, Seq<char>)>, gw: nat, mw: nat, pw: nat) -> Seq<Seq<char>> {
    rows.map_values(|r: (Seq<char>, Seq<char>, Seq<char>)| table_row(r, gw, mw, pw))
}

/// The lines of the table: title, header, dash line, one line per row.
pub open spec fn table_lines(title: Seq<char>, rows: Seq<(Seq<char>, Seq<char>, Seq<char>)>) -> Seq<Seq<char>> {
    let gw = col_width(rows, 0, 5);
    let mw = col_width(rows, 1, 6);
    let pw = col_width(rows, 2, 4);
    seq![title, table_row(("Group"@, "Method"@, "Path"@), gw, mw, pw), dash_line(gw, mw, pw)]
        + table_body(rows, gw, mw, pw)
}

/// The UTF-8 length of each cell of the row fits in `usize`.
pub open spec fn utf8_fits(r: (Seq<char>, Seq<char>, Seq<char>)) -> bool {
    utf8_len(r.0) <= usize::MAX && utf8_len(r.1) <= usize::MAX && utf8_len(r.2) <= usize::MAX
}

/// Every cell's UTF-8 length fits in `usize`.
pub open spec fn cells_fit(rows: Seq<(Seq<char>, Seq<char>, Seq<char>)>) -> bool {
    forall|k: int| 0 <= k < rows.len() ==> utf8_fits(#[trigger] rows[k])
}

fn push_padded(out: &mut String, s: &str, w: usize)
    ensures
        final(out)@ == old(out)@ + pad_right(s@, w as nat),
{
    push_str(out, s);
    let n = chars_of(s).len();
    if n < w {
        let ghost base = out@;
        let mut k = n;
        while k < w
            invariant
                n <= k <= w,
                out@ == base + Seq::new((k - n) as nat, |i: int| ' '),
            decreases w - k,
        {
            push_char(out, ' ');
            assert(Seq::new((k + 1 - n) as nat, |i: int| ' ') =~= Seq::new((k - n) as nat, |i: int| ' ').push(' '));
            k = k + 1;
        }
    }
}

fn push_dashes(out: &mut String, w: usize)
    ensures
        final(out)@ == old(out)@ + Seq::new(w as nat, |i: int| '-'),
{
    let ghost base = out@;
    let mut k: usize = 0;
    while k < w
        invariant
            k <= w,
            out@ == base + Seq::new(k as nat, |i: int| '-'),
        decreases w - k,
    {
        push_char(out, '-');
        assert(Seq::new((k + 1) as nat, |i: int| '-') =~= Seq::new(k as nat, |i: int| '-').push('-'));
        k = k + 1;
    }
}

fn table_row_exec(a: &str, b: &str, c: &str, gw: usize, mw: usize, pw: usize) -> (r: String)
    ensures
        r@ == table_row((a@, b@, c@), gw as nat, mw as nat, pw as nat),
{
    let mut out = String::new();
    push_padded(&mut out, a, gw);
    push_str(&mut out, " | ");
    push_padded(&mut out, b, mw);
    push_str(&mut out, " | ");
    push_padded(&mut out, c, pw);
    proof {
        reveal_strlit(" | ");
        assert(" | "@ =~= column_sep());
    }
    out
}

/// Lays the rows out as a table under `title` (see [`table_lines`]).
pub fn render_table(title: &str, rows: &Vec<(String, String, String)>) -> (r: Vec<String>)
    requires
        cells_fit(rows_view(rows@)),
    ensures
        views(r@) == table_lines(title@, rows_view(rows@)),
{
    let ghost rv = rows_view(rows@);
    let mut gw: usize = 5;
    let mut mw: usize = 6;
    let mut pw: usize = 4;
    let mut i: usize = 0;
    while i < rows.len()
        invariant
            i <= rows@.len(),
            rv == rows_view(rows@),
            cells_fit(rv),
            gw == col_width(rv.subrange(0, i as int), 0, 5),
            mw == col_width(rv.subrange(0, i as int), 1, 6),
            pw == col_width(rv.subrange(0, i as int), 2, 4),
        decreases rows@.len() - i,
    {
        assert(rv[i as int] == (rows@[i as int].0@, rows@[i as int].1@, rows@[i as int].2@));
        let g = utf8_len_exec(rows[i].0.as_str());
        let m = utf8_len_exec(rows[i].1.as_str());
        let p = utf8_len_exec(rows[i].2.as_str());
        if g > gw {
            gw = g;
        }
        if m > mw {
            mw = m;
        }
        if p > pw {
            pw = p;
        }
        assert(rv.subrange(0, i + 1).drop_last() =~= rv.subrange(0, i as int));
        assert(rv.subrange(0, i + 1).last() == rv[i as int]);
        i = i + 1;
    }
    assert(rv.subrange(0, rows@.len() as int) =~= rv);
    let mut lines: Vec<String> = Vec::new();
    lines.push(owned(title));
    lines.push(table_row_exec("Group", "Method", "Path", gw, mw, pw));
    let mut dash = String::new();
    push_dashes(&mut dash, gw);
    push_str(&mut dash, "-+-");
    push_dashes(&mut dash, mw);
    push_str(&mut dash, "-+-");
    push_dashes(&mut dash, pw);
    proof {
        reveal_strlit("-+-");
        assert("-+-"@ =~= seq!['-', '+', '-']);
    }
    lines.push(dash);
    let ghost gwn = gw as nat;
    let ghost mwn = mw as nat;
    let ghost pwn = pw as nat;
    let ghost head = views(lines@);
    let mut j: usize = 0;
    while j < rows.len()
        invariant
            j <= rows@.len(),
            rv == rows_view(rows@),
            views(lines@) == head + table_body(rv.subrange(0, j as int), gwn, mwn, pwn),
            gwn == gw && mwn == mw && pwn == pw,
        decreases rows@.len() - j,
    {
        assert(rv[j as int] == (rows@[j as int].0@, rows@[j as int].1@, rows@[j as int].2@));
        let line = table_row_exec(rows[j].0.as_str(), rows[j].1.as_str(), rows[j].2.as_str(), gw, mw, pw);
        assert(line@ == table_row(rv[j as int], gwn, mwn, pwn));
        let ghost prev = lines@;
        let ghost lv = line@;
        lines.push(line);
        assert(views(lines@) =~= views(prev).push(lv));
        assert(table_body(rv.subrange(0, j + 1), gwn, mwn, pwn) =~= table_body(rv.subrange(0, j as int), gwn, mwn, pwn).push(
            table_row(rv[j as int], gwn, mwn, pwn)));
        j = j + 1;
    }
    assert(rv.subrange(0, rows@.len() as int) =~= rv);
    assert(views(lines@) =~= table_lines(title@, rv));
    lines
}

} // verus!
