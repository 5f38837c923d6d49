//! Request data: header attributes, form values and the merged view of a
//! request's path, query/form and JSON body.
use vstd::prelude::*;

use crate::json::{json_view, members_insert, members_set, members_view, scalar_spec, str_to_json_value, Json, JsonView};
use crate::strmap::{seq_pairs_map, StrMap};
use crate::text::{
    char_from, char_from_exec, chars_of, ends_with, find_from, has_suffix, occurs_at, owned,
    split, split_chars, str_eq, string_of_range, trim, trim_chars,
};

verus! {

/// Most form values one request may carry.
pub const MAX_FORM_PARAM_COUNT: usize = 2048;

// ---------------------------------------------------------------------
// Header attributes
// ---------------------------------------------------------------------
/// The `key=value` pairs of `a=1; b=2`: fields split on `;` and trimmed;
/// fields without `=` are skipped; the key is what precedes the first `=`.
pub open spec fn header_pairs(fields: Seq<Seq<char>>) -> Seq<(Seq<char>, Seq<char>)>
    decreases fields.len(),
{
    if fields.len() == 0 {
        Seq::empty()
    } else {
        let rest = header_pairs(fields.drop_last());
        let t = trim(fields.last());
        let e = char_from(t, '=', 0);
        if t.len() > 0 && e < t.len() {
            rest.push((t.subrange(0, e), t.subrange(e + 1, t.len() as int)))
        } else {
            rest
        }
    }
}

pub open spec fn parse_header_spec(value: Seq<char>) -> Map<Seq<char>, Seq<char>> {
    seq_pairs_map(header_pairs(split(value, ';')))
}

/// Parses header attributes like `a=1; b=2`; a later key wins.
pub fn parse_header(header_value: &str) -> (r: StrMap)
    ensures
        r@ == parse_header_spec(header_value@),
{
    let v = chars_of(header_value);
    let fields = split_chars(v.as_slice(), ';');
    let ghost fs = split(header_value@, ';');
    let mut ret = StrMap::new();
    let mut i: usize = 0;
    while i < fields.len()
        invariant
            v@ == header_value@,
            fs == split(header_value@, ';'),
            i <= fields@.len(),
            fields@.len() == fs.len(),
            forall|j: int| 0 <= j < fields@.len() ==> #[trigger] fields@[j]@ == fs[j],
            ret@ == seq_pairs_map(header_pairs(fs.subrange(0, i as int))),
        decreases fields@.len() - i,
    {
        let ghost pre = fs.subrange(0, i as int);
        let ghost nxt = fs.subrange(0, i + 1);
        assert(nxt.drop_last() =~= pre);
        let t = trim_chars(fields[i].as_slice());
        assert(nxt.last() == fields@[i as int]@);
        if t.len() > 0 {
            let e = char_from_exec(t.as_slice(), '=', 0);
            if e < t.len() {
                let k = string_of_range(t.as_slice(), 0, e);
                let val = string_of_range(t.as_slice(), e + 1, t.len());
                assert(header_pairs(nxt) == header_pairs(pre).push((k@, val@)));
                assert(header_pairs(pre).push((k@, val@)).drop_last() =~= header_pairs(pre));
                ret.insert(k, val);
            } else {
                assert(header_pairs(nxt) == header_pairs(pre));
            }
        } else {
            assert(header_pairs(nxt) == header_pairs(pre));
        }
        i = i + 1;
    }
    assert(fs.subrange(0, fields@.len() as int) =~= fs);
    ret
}

// ---------------------------------------------------------------------
// Form values
// ---------------------------------------------------------------------
/// Form values by key, keys in first-seen order.
#[derive(Clone, Debug)]
pub struct FormValues {
    pub entries: Vec<(String, Vec<String>)>,
}

pub open spec fn strings_view(v: Seq<String>) -> Seq<Seq<char>> {
    v.map_values(|s: String| s@)
}

pub open spec fn form_entries_view(e: Seq<(String, Vec<String>)>) -> Seq<(Seq<char>, Seq<Seq<char>>)> {
    e.map_values(|p: (String, Vec<String>)| (p.0@, strings_view(p.1@)))
}

impl View for FormValues {
    type V = Seq<(Seq<char>, Seq<Seq<char>>)>;

    open spec fn view(&self) -> Seq<(Seq<char>, Seq<Seq<char>>)> {
        form_entries_view(self.entries@)
    }
}

/// Appends `vals` to the values of `k`, adding `k` at the end when new.
pub open spec fn form_add(e: Seq<(Seq<char>, Seq<Seq<char>>)>, k: Seq<char>, vals: Seq<Seq<char>>) -> Seq<(Seq<char>, Seq<Seq<char>>)> {
    if exists|i: int| 0 <= i < e.len() && e[i].0 == k {
        let i = choose|i: int| 0 <= i < e.len() && e[i].0 == k && forall|j: int| 0 <= j < i ==> e[j].0 != k;
        e.update(i, (k, e[i].1 + vals))
    } else {
        e.push((k, vals))
    }
}

/// The values of the first entry named `k`.
pub open spec fn form_get(e: Seq<(Seq<char>, Seq<Seq<char>>)>, k: Seq<char>) -> Option<Seq<Seq<char>>> {
    if exists|i: int| 0 <= i < e.len() && e[i].0 == k {
        let i = choose|i: int| 0 <= i < e.len() && e[i].0 == k && forall|j: int| 0 <= j < i ==> e[j].0 != k;
        Some(e[i].1)
    } else {
        None
    }
}

impl FormValues {
    pub fn new() -> (f: FormValues)
        ensures
            f@ == Seq::<(Seq<char>, Seq<Seq<char>>)>::empty(),
    {
        let f = FormValues { entries: Vec::new() };
        assert(f@ =~= Seq::<(Seq<char>, Seq<Seq<char>>)>::empty());
        f
    }

    /// The values given for `key`.
    pub fn get(&self, key: &str) -> (r: Option<&Vec<String>>)
        ensures
            match r {
                Some(v) => form_get(self@, key@) == Some(strings_view(v@)),
                None => form_get(self@, key@) is None,
            },
    {
        let mut i: usize = 0;
        while i < self.entries.len()
            invariant
                i <= self.entries@.len(),
                forall|j: int| 0 <= j < i ==> #[trigger] self@[j].0 != key@,
            decreases self.entries@.len() - i,
        {
            assert(self@[i as int].0 == self.entries@[i as int].0@);
            if str_eq(self.entries[i].0.as_str(), key) {
                proof {
                    let e = self@;
                    assert(e[i as int].0 == key@);
                    let c = choose|c: int| 0 <= c < e.len() && e[c].0 == key@ && forall|j: int| 0 <= j < c ==> e[j].0 != key@;
                    assert(0 <= c < e.len() && e[c].0 == key@ && forall|j: int| 0 <= j < c ==> e[j].0 != key@);
                    if c < i {
                        assert(e[c].0 != key@);
                    }
                    if i < c {
                        assert(e[i as int].0 != key@);
                    }
                }
                return Some(&self.entries[i].1);
            }
            i = i + 1;
        }
        None
    }

    /// Appends values to a key (see [`form_add`]).
    pub fn add(&mut self, key: String, vals: Vec<String>)
        ensures
            final(self)@ == form_add(old(self)@, key@, strings_view(vals@)),
    {
        let ghost e0 = self@;
        let ghost kv = key@;
        let ghost vv = strings_view(vals@);
        let mut i: usize = 0;
        while i < self.entries.len()
            invariant
                i <= self.entries@.len(),
                self@ == e0,
                e0 == old(self)@,
                kv == key@,
                vv == strings_view(vals@),
                forall|j: int| 0 <= j < i ==> #[trigger] e0[j].0 != kv,
            decreases self.entries@.len() - i,
        {
            assert(self@[i as int] == (self.entries@[i as int].0@, strings_view(self.entries@[i as int].1@)));
            assert(e0[i as int].0 == self.entries@[i as int].0@);
            if str_eq(self.entries[i].0.as_str(), key.as_str()) {
                proof {
                    assert(e0[i as int].0 == kv);
                    let c = choose|c: int| 0 <= c < e0.len() && e0[c].0 == kv && forall|j: int| 0 <= j < c ==> e0[j].0 != kv;
                    assert(0 <= c < e0.len() && e0[c].0 == kv && forall|j: int| 0 <= j < c ==> e0[j].0 != kv);
                    if c < i {
                        assert(e0[c].0 != kv);
                    }
                    if i < c {
                        assert(e0[i as int].0 != kv);
                    }
                    assert(c == i);
                    assert(form_add(e0, kv, vv) == e0.update(i as int, (kv, e0[i as int].1 + vv)));
                }
                let ghost old_entries = self.entries@;
                let (k0, mut cur) = self.entries.remove(i);
                let ghost cur0 = strings_view(cur@);
                let mut rest = vals;
                let ghost vals0 = rest@;
                let mut j: usize = 0;
                let mut pending = crate::text::into_reversed(rest);
                while pending.len() > 0
                    invariant
                        pending@.len() <= vals0.len(),
                        pending@ == vals0.subrange(vals0.len() - pending@.len(), vals0.len() as int).reverse(),
                        strings_view(cur@) == cur0 + strings_view(vals0.subrange(0, vals0.len() - pending@.len())),
                    decreases pending@.len(),
                {
                    let ghost k = vals0.len() - pending@.len();
                    let x = pending.pop().unwrap();
                    assert(x == vals0[k]);
                    let ghost before = strings_view(cur@);
                    cur.push(x);
                    assert(strings_view(cur@) =~= before.push(x@));
                    assert(strings_view(vals0.subrange(0, k + 1)) =~= strings_view(vals0.subrange(0, k)).push(vals0[k]@));
                    assert(strings_view(cur@) =~= cur0 + strings_view(vals0.subrange(0, vals0.len() - pending@.len())));
                    assert(pending@ =~= vals0.subrange(vals0.len() - pending@.len(), vals0.len() as int).reverse());
                }
                assert(vals0.subrange(0, vals0.len() as int) =~= vals0);
                let ghost newe = (k0, cur);
                self.entries.insert(i, (k0, cur));
                assert(self.entries@ =~= old_entries.update(i as int, newe));
                assert(self@ =~= e0.update(i as int, (kv, e0[i as int].1 + vv)));
                return;
            }
            i = i + 1;
        }
        self.entries.push((key, vals));
        assert(self@ =~= e0.push((kv, vv)));
    }
}

/// `key=value` pairs decoded from `application/x-www-form-urlencoded`
/// text, or `None` when the text does not decode.
pub uninterp spec fn urlencoded_pairs(raw: Seq<char>) -> Option<Seq<(Seq<char>, Seq<char>)>>;

/// `serde_urlencoded::from_bytes` into string pairs.
#[verifier::external_body]
fn decode_urlencoded(raw: &str) -> (r: Option<Vec<(String, String)>>)
    ensures
        match r {
            Some(ps) => urlencoded_pairs(raw@) == Some(ps@.map_values(|p: (String, String)| (p.0@, p.1@))),
            None => urlencoded_pairs(raw@) is None,
        },
{
    serde_urlencoded::from_bytes::<Vec<(String, String)>>(raw.as_bytes()).ok()
}

/// Why form values could not be read.
#[derive(Clone, Copy, Debug, PartialEq, Eq, Structural)]
pub enum FormError {
    /// The text is not valid urlencoded data.
    Malformed,
    /// More than [`MAX_FORM_PARAM_COUNT`] values.
    TooManyValues,
}

/// The non-empty members of a sequence.
pub open spec fn nonempty(s: Seq<Seq<char>>) -> Seq<Seq<char>>
    decreases s.len(),
{
    if s.len() == 0 {
        Seq::empty()
    } else if s.last().len() > 0 {
        nonempty(s.drop_last()).push(s.last())
    } else {
        nonempty(s.drop_last())
    }
}

/// A key with one trailing `[]` removed.
pub open spec fn form_key(k: Seq<char>) -> Seq<char> {
    if has_suffix(k, "[]"@) {
        k.subrange(0, k.len() - 2)
    } else {
        k
    }
}

/// Adds decoded pairs in order: empty values are skipped; a value is split
/// on `,`, its empty pieces dropped; at the limit the next non-empty value
/// is an error. The count saturates at `usize::MAX`.
pub open spec fn form_fold(
    pairs: Seq<(Seq<char>, Seq<char>)>,
    acc: Seq<(Seq<char>, Seq<Seq<char>>)>,
    count: nat,
) -> Result<(Seq<(Seq<char>, Seq<Seq<char>>)>, nat), FormError>
    decreases pairs.len(),
{
    if pairs.len() == 0 {
        Ok((acc, count))
    } else {
        let (k, v) = pairs[0];
        if v.len() == 0 {
            form_fold(pairs.drop_first(), acc, count)
        } else if count >= MAX_FORM_PARAM_COUNT {
            Err(FormError::TooManyValues)
        } else {
            let vals = nonempty(split(v, ','));
            if vals.len() == 0 {
                form_fold(pairs.drop_first(), acc, count)
            } else {
                form_fold(pairs.drop_first(), form_add(acc, form_key(k), vals), sat_add(count, vals.len()))
            }
        }
    }
}

/// Addition on counters that stops at `usize::MAX`.
pub open spec fn sat_add(a: nat, b: nat) -> nat {
    if a + b > usize::MAX {
        usize::MAX as nat
    } else {
        a + b
    }
}

/// What reading `raw` into `acc` gives.
pub open spec fn append_pairs_spec(raw: Seq<char>, acc: Seq<(Seq<char>, Seq<Seq<char>>)>, count: nat) -> Result<(Seq<(Seq<char>, Seq<Seq<char>>)>, nat), FormError> {
    match urlencoded_pairs(raw) {
        None => Err(FormError::Malformed),
        Some(ps) => form_fold(ps, acc, count),
    }
}

fn nonempty_pieces(v: &str) -> (r: Vec<String>)
    ensures
        strings_view(r@) == nonempty(split(v@, ',')),
{
    let cs = chars_of(v);
    let pieces = split_chars(cs.as_slice(), ',');
    let ghost ps = split(v@, ',');
    let mut out: Vec<String> = Vec::new();
    let mut i: usize = 0;
    while i < pieces.len()
        invariant
            cs@ == v@,
            ps == split(v@, ','),
            i <= pieces@.len(),
            pieces@.len() == ps.len(),
            forall|j: int| 0 <= j < pieces@.len() ==> #[trigger] pieces@[j]@ == ps[j],
            strings_view(out@) == nonempty(ps.subrange(0, i as int)),
        decreases pieces@.len() - i,
    {
        let ghost pre = ps.subrange(0, i as int);
        assert(ps.subrange(0, i + 1).drop_last() =~= pre);
        if pieces[i].len() > 0 {
            let s = string_of_range(pieces[i].as_slice(), 0, pieces[i].len());
            assert(pieces@[i as int]@.subrange(0, pieces@[i as int]@.len() as int) =~= pieces@[i as int]@);
            out.push(s);
            assert(strings_view(out@) =~= nonempty(pre).push(ps[i as int]));
        }
        i = i + 1;
    }
    assert(ps.subrange(0, pieces@.len() as int) =~= ps);
    out
}

fn strip_brackets(k: &str) -> (r: String)
    ensures
        r@ == form_key(k@),
{
    let v = chars_of(k);
    let br = chars_of("[]");
    proof {
        reveal_strlit("[]");
    }
    if ends_with(v.as_slice(), br.as_slice()) {
        string_of_range(v.as_slice(), 0, v.len() - 2)
    } else {
        owned(k)
    }
}

/// Decodes `raw` and adds its values to `params` (see [`form_fold`]);
/// `count` counts the values added so far.
pub fn append_pairs(raw: &str, params: &mut FormValues, count: &mut usize) -> (r: Result<(), FormError>)
    ensures
        match append_pairs_spec(raw@, old(params)@, *old(count) as nat) {
            Ok((e, n)) => r is Ok && final(params)@ == e && *final(count) == n,
            Err(k) => r == Err::<(), FormError>(k),
        },
{
    let pairs = match decode_urlencoded(raw) {
        Some(p) => p,
        None => {
            return Err(FormError::Malformed);
        },
    };
    let ghost ps = pairs@.map_values(|p: (String, String)| (p.0@, p.1@));
    let ghost target = append_pairs_spec(raw@, params@, *count as nat);
    assert(ps.subrange(0, ps.len() as int) =~= ps);
    let mut i: usize = 0;
    while i < pairs.len()
        invariant
            i <= pairs@.len(),
            ps == pairs@.map_values(|p: (String, String)| (p.0@, p.1@)),
            target == form_fold(ps, old(params)@, *old(count) as nat),
            target == append_pairs_spec(raw@, old(params)@, *old(count) as nat),
            target == form_fold(ps.subrange(i as int, ps.len() as int), params@, *count as nat),
        decreases pairs@.len() - i,
    {
        let ghost rest = ps.subrange(i as int, ps.len() as int);
        assert(rest.drop_first() =~= ps.subrange(i + 1, ps.len() as int));
        let (k, v) = (&pairs[i].0, &pairs[i].1);
        assert(rest[0] == (k@, v@));
        if v.as_str().is_empty() {
            i = i + 1;
            continue;
        }
        if *count >= MAX_FORM_PARAM_COUNT {
            return Err(FormError::TooManyValues);
        }
        let key = strip_brackets(k.as_str());
        let vals = nonempty_pieces(v.as_str());
        if vals.len() == 0 {
            i = i + 1;
            continue;
        }
        let n = vals.len();
        params.add(key, vals);
        *count = if n > usize::MAX - *count {
            usize::MAX
        } else {
            *count + n
        };
        i = i + 1;
    }
    assert(ps.subrange(pairs@.len() as int, ps.len() as int) =~= Seq::<(Seq<char>, Seq<char>)>::empty());
    Ok(())
}

// ---------------------------------------------------------------------
// Request values as one JSON object
// ---------------------------------------------------------------------
/// Sets each member of `items` in turn.
pub open spec fn set_all(ms: Seq<(Seq<char>, JsonView)>, items: Seq<(Seq<char>, JsonView)>) -> Seq<(Seq<char>, JsonView)>
    decreases items.len(),
{
    if items.len() == 0 {
        ms
    } else {
        members_set(set_all(ms, items.drop_last()), items.last().0, items.last().1)
    }
}

/// One key's values as JSON: a single value alone, several as an array;
/// integers become numbers.
pub open spec fn values_json(vals: Seq<Seq<char>>) -> JsonView {
    if vals.len() == 1 {
        scalar_spec(vals[0])
    } else {
        JsonView::Arr(vals.map_values(|v: Seq<char>| scalar_spec(v)))
    }
}

pub open spec fn form_items(f: Seq<(Seq<char>, Seq<Seq<char>>)>) -> Seq<(Seq<char>, JsonView)> {
    f.map_values(|e: (Seq<char>, Seq<Seq<char>>)| (e.0, values_json(e.1)))
}

pub open spec fn path_items(ps: Seq<(Seq<char>, Seq<char>)>) -> Seq<(Seq<char>, JsonView)> {
    ps.map_values(|p: (Seq<char>, Seq<char>)| (p.0, scalar_spec(p.1)))
}

fn values_to_json(vals: &Vec<String>) -> (j: Json)
    ensures
        j@ == values_json(strings_view(vals@)),
{
    if vals.len() == 1 {
        return str_to_json_value(vals[0].as_str());
    }
    let mut arr: Vec<Json> = Vec::new();
    let mut i: usize = 0;
    while i < vals.len()
        invariant
            i <= vals@.len(),
            arr@.len() == i,
            forall|k: int| 0 <= k < i ==> json_view(#[trigger] arr@[k]) == scalar_spec(vals@[k]@),
        decreases vals@.len() - i,
    {
        arr.push(str_to_json_value(vals[i].as_str()));
        i = i + 1;
    }
    let j = Json::Arr(arr);
    assert(json_view(j) == values_json(strings_view(vals@))) by {
        if let JsonView::Arr(s) = json_view(j) {
            assert(s =~= strings_view(vals@).map_values(|v: Seq<char>| scalar_spec(v)));
        }
    }
    j
}

/// Sets each `(key, value)` of `items` in `members`.
fn members_set_form(members: &mut Vec<(String, Json)>, form: &FormValues)
    ensures
        members_view(final(members)@) == set_all(members_view(old(members)@), form_items(form@)),
{
    let mut i: usize = 0;
    let ghost items = form_items(form@);
    while i < form.entries.len()
        invariant
            i <= form.entries@.len(),
            items == form_items(form@),
            members_view(members@) == set_all(members_view(old(members)@), items.subrange(0, i as int)),
        decreases form.entries@.len() - i,
    {
        let ghost pre = items.subrange(0, i as int);
        assert(items.subrange(0, i + 1).drop_last() =~= pre);
        let k = form.entries[i].0.clone();
        let v = values_to_json(&form.entries[i].1);
        members_insert(members, k, v);
        i = i + 1;
    }
    assert(items.subrange(0, form.entries@.len() as int) =~= items);
}

/// The form values as one JSON object.
pub fn form_map_to_json(form: &FormValues) -> (j: Json)
    ensures
        j@ == JsonView::Obj(set_all(Seq::empty(), form_items(form@))),
{
    let mut members: Vec<(String, Json)> = Vec::new();
    assert(members_view(members@) =~= Seq::<(Seq<char>, JsonView)>::empty());
    members_set_form(&mut members, form);
    let j = Json::Obj(members);
    assert(json_view(j) == JsonView::Obj(members_view(members@))) by {
        if let JsonView::Obj(s) = json_view(j) {
            assert(s =~= members_view(members@));
        }
    }
    j
}

/// The request as one JSON object: path parameters first, then form values
/// (query, and the urlencoded body where there is one), then the members
/// of a JSON object body; a later key overrides an earlier one.
pub open spec fn merged_request_spec(
    path: Seq<(Seq<char>, Seq<char>)>,
    form: Seq<(Seq<char>, Seq<Seq<char>>)>,
    body: Option<JsonView>,
) -> JsonView {
    let base = set_all(set_all(Seq::empty(), path_items(path)), form_items(form));
    match body {
        Some(JsonView::Obj(ms)) => JsonView::Obj(set_all(base, ms)),
        _ => JsonView::Obj(base),
    }
}

pub fn merge_request(path: &Vec<(String, String)>, form: &FormValues, body: Option<Json>) -> (j: Json)
    ensures
        j@ == merged_request_spec(
            path@.map_values(|p: (String, String)| (p.0@, p.1@)),
            form@,
            match body {
                Some(b) => Some(b@),
                None => None,
            },
        ),
{
    let mut members: Vec<(String, Json)> = Vec::new();
    assert(members_view(members@) =~= Seq::<(Seq<char>, JsonView)>::empty());
    let ghost pv = path@.map_values(|p: (String, String)| (p.0@, p.1@));
    let ghost pitems = path_items(pv);
    let mut i: usize = 0;
    while i < path.len()
        invariant
            i <= path@.len(),
            pv == path@.map_values(|p: (String, String)| (p.0@, p.1@)),
            pitems == path_items(pv),
            members_view(members@) == set_all(Seq::empty(), pitems.subrange(0, i as int)),
        decreases path@.len() - i,
    {
        assert(pitems.subrange(0, i + 1).drop_last() =~= pitems.subrange(0, i as int));
        let k = path[i].0.clone();
        let v = str_to_json_value(path[i].1.as_str());
        members_insert(&mut members, k, v);
        i = i + 1;
    }
    assert(pitems.subrange(0, path@.len() as int) =~= pitems);
    members_set_form(&mut members, form);
    let ghost base = members_view(members@);
    match body {
        Some(Json::Obj(ms)) => {
            let ghost items = members_view(ms@);
            let mut rest = crate::text::into_reversed(ms);
            let ghost orig = items;
            let ghost ms0 = ms@;
            let ghost n = ms0.len();
            while rest.len() > 0
                invariant
                    rest@.len() <= n,
                    n == ms0.len(),
                    orig == members_view(ms0),
                    rest@ == ms0.subrange(n - rest@.len(), n as int).reverse(),
                    members_view(members@) == set_all(base, orig.subrange(0, n - rest@.len())),
                decreases rest@.len(),
            {
                let ghost k = n - rest@.len();
                let (key, val) = rest.pop().unwrap();
                assert((key, val) == ms0[k]);
                assert(orig.subrange(0, k + 1).drop_last() =~= orig.subrange(0, k));
                members_insert(&mut members, key, val);
                assert(rest@ =~= ms0.subrange(n - rest@.len(), n as int).reverse());
            }
            assert(orig.subrange(0, n as int) =~= orig);
            let j = Json::Obj(members);
            assert(json_view(j) == JsonView::Obj(members_view(members@))) by {
                if let JsonView::Obj(s) = json_view(j) {
                    assert(s =~= members_view(members@));
                }
            }
            assert(json_view(Json::Obj(ms)) == JsonView::Obj(orig)) by {
                if let JsonView::Obj(s) = json_view(Json::Obj(ms)) {
                    assert(s =~= orig);
                }
            }
            j
        },
        _ => {
            let j = Json::Obj(members);
            assert(json_view(j) == JsonView::Obj(members_view(members@))) by {
                if let JsonView::Obj(s) = json_view(j) {
                    assert(s =~= members_view(members@));
                }
            }
            j
        },
    }
}

/// Does `s` contain `p`?
pub open spec fn contains_text(s: Seq<char>, p: Seq<char>) -> bool {
    exists|i: int| occurs_at(s, p, i)
}

pub fn contains_str(s: &str, p: &str) -> (r: bool)
    ensures
        r == contains_text(s@, p@),
{
    let sv = chars_of(s);
    let pv = chars_of(p);
    match find_from(sv.as_slice(), pv.as_slice(), 0) {
        Some(i) => true,
        None => {
            assert forall|i: int| !occurs_at(s@, p@, i) by {
                if i < 0 {
                }
            }
            false
        },
    }
}

/// Is the body urlencoded form data, judging by its content type?
pub fn is_form_content_type(content_type: &str) -> (r: bool)
    ensures
        r == contains_text(content_type@, "application/x-www-form-urlencoded"@),
{
    contains_str(content_type, "application/x-www-form-urlencoded")
}

/// The form values of a query and of a urlencoded body, in that order.
pub open spec fn form_outcome(query: Option<Seq<char>>, form_body: Option<Seq<char>>) -> Result<
    Seq<(Seq<char>, Seq<Seq<char>>)>,
    FormError,
> {
    let first = match query {
        Some(q) => append_pairs_spec(q, Seq::empty(), 0),
        None => Ok((Seq::empty(), 0nat)),
    };
    match first {
        Err(e) => Err(e),
        Ok((e1, n1)) => match form_body {
            Some(b) => match append_pairs_spec(b, e1, n1) {
                Err(e) => Err(e),
                Ok((e2, _)) => Ok(e2),
            },
            None => Ok(e1),
        },
    }
}

pub open spec fn opt_str(o: Option<&str>) -> Option<Seq<char>> {
    match o {
        Some(s) => Some(s@),
        None => None,
    }
}

/// The query's values, then those of a urlencoded body.
pub fn collect_form_values(query: Option<&str>, form_body: Option<&str>) -> (r: Result<FormValues, FormError>)
    ensures
        match form_outcome(opt_str(query), opt_str(form_body)) {
            Err(e) => r == Err::<FormValues, FormError>(e),
            Ok(f) => r matches Ok(v) && v@ == f,
        },
{
    let mut params = FormValues::new();
    let mut count: usize = 0;
    if let Some(q) = query {
        if let Err(e) = append_pairs(q, &mut params, &mut count) {
            return Err(e);
        }
    }
    if let Some(b) = form_body {
        if let Err(e) = append_pairs(b, &mut params, &mut count) {
            return Err(e);
        }
    }
    Ok(params)
}

/// The request as one JSON object for `parse`: for GET and HEAD the path
/// parameters and the query only; otherwise the path parameters, the query
/// and urlencoded body values, and the members of a JSON object body.
pub fn parse_merged(
    method: crate::rest::route::Method,
    path: &Vec<(String, String)>,
    query: Option<&str>,
    form_body: Option<&str>,
    json_body: Option<Json>,
) -> (r: Result<Json, FormError>)
    ensures
        ({
            let read_only = method is Get || method is Head;
            let pv = path@.map_values(|p: (String, String)| (p.0@, p.1@));
            match form_outcome(opt_str(query), if read_only { None } else { opt_str(form_body) }) {
                Err(e) => r == Err::<Json, FormError>(e),
                Ok(f) => r matches Ok(j) && j@ == merged_request_spec(
                    pv,
                    f,
                    if read_only {
                        None
                    } else {
                        match json_body {
                            Some(b) => Some(b@),
                            None => None,
                        }
                    },
                ),
            }
        }),
{
    let read_only = match method {
        crate::rest::route::Method::Get | crate::rest::route::Method::Head => true,
        _ => false,
    };
    if read_only {
        match collect_form_values(query, None) {
            Err(e) => Err(e),
            Ok(f) => Ok(merge_request(path, &f, None)),
        }
    } else {
        match collect_form_values(query, form_body) {
            Err(e) => Err(e),
            Ok(f) => Ok(merge_request(path, &f, json_body)),
        }
    }
}

/// `usize` parse of a decimal text with an optional `+`.
pub open spec fn parse_usize_spec(s: Seq<char>) -> Option<usize> {
    let body = if s.len() > 0 && s[0] == '+' { s.drop_first() } else { s };
    if body.len() > 0 && crate::text::all_digits(body) && crate::text::digits_value(body) <= usize::MAX {
        Some(crate::text::digits_value(body) as usize)
    } else {
        None
    }
}

/// Is there a JSON body: a content type mentioning `application/json`
/// and a positive content length?
pub open spec fn has_json_body_spec(content_type: Option<Seq<char>>, content_length: Option<Seq<char>>) -> bool {
    &&& content_type matches Some(ct) && contains_text(ct, "application/json"@)
    &&& content_length matches Some(cl) && parse_usize_spec(cl) matches Some(n) && n > 0
}

pub fn parse_usize(t: &str) -> (r: Option<usize>)
    ensures
        r == parse_usize_spec(t@),
{
    let s = chars_of(t);
    let n = s.len();
    let start: usize = if n > 0 && s[0] == '+' { 1 } else { 0 };
    let ghost body = if n > 0 && s@[0] == '+' { s@.drop_first() } else { s@ };
    assert(body =~= s@.subrange(start as int, n as int));
    if start >= n {
        return None;
    }
    let mut acc: usize = 0;
    let mut i = start;
    while i < n
        invariant
            start <= i <= n == s@.len(),
            s@ == t@,
            body == s@.subrange(start as int, n as int),
            body == (if n > 0 && s@[0] == '+' { s@.drop_first() } else { s@ }),
            crate::text::all_digits(s@.subrange(start as int, i as int)),
            acc as int == crate::text::digits_value(s@.subrange(start as int, i as int)),
        decreases n - i,
    {
        let c = s[i];
        if !('0' <= c && c <= '9') {
            assert(body[i - start] == c);
            return None;
        }
        let d: usize = ((c as u32) - 48) as usize;
        let ghost pre = s@.subrange(start as int, i as int);
        let ghost nxt = s@.subrange(start as int, i + 1);
        assert(nxt.drop_last() =~= pre);
        assert(crate::text::all_digits(nxt)) by {
            assert forall|k: int| 0 <= k < nxt.len() implies crate::text::is_ascii_digit(#[trigger] nxt[k]) by {
                if k < pre.len() {
                    assert(nxt[k] == pre[k]);
                }
            }
        }
        if acc > (usize::MAX - d) / 10 {
            proof {
                assert(crate::text::digits_value(nxt) > usize::MAX) by (nonlinear_arith)
                    requires
                        crate::text::digits_value(nxt) == acc * 10 + d,
                        acc > (usize::MAX - d) / 10,
                        d < 10,
                ;
                if crate::text::all_digits(body) {
                    lemma_digits_prefix(body, i + 1 - start);
                    assert(body.subrange(0, i + 1 - start) =~= nxt);
                }
            }
            return None;
        }
        acc = acc * 10 + d;
        i = i + 1;
    }
    assert(s@.subrange(start as int, n as int) =~= body);
    Some(acc)
}

proof fn lemma_digits_prefix(s: Seq<char>, i: int)
    requires
        crate::text::all_digits(s),
        0 <= i <= s.len(),
    ensures
        crate::text::digits_value(s.subrange(0, i)) <= crate::text::digits_value(s),
    decreases s.len() - i,
{
    crate::text::lemma_digits_value_mono(s, i);
}

pub fn has_json_body(content_type: Option<&str>, content_length: Option<&str>) -> (r: bool)
    ensures
        r == has_json_body_spec(
            match content_type { Some(c) => Some(c@), None => None },
            match content_length { Some(c) => Some(c@), None => None },
        ),
{
    let is_json = match content_type {
        Some(ct) => contains_str(ct, "application/json"),
        None => false,
    };
    if !is_json {
        return false;
    }
    match content_length {
        Some(cl) => match parse_usize(cl) {
            Some(n) => n > 0,
            None => false,
        },
        None => false,
    }
}

/// The client address: a non-empty `X-Forwarded-For`, else the peer
/// address, else `unknown`.
pub open spec fn remote_addr_spec(forwarded_for: Option<Seq<char>>, peer: Option<Seq<char>>) -> Seq<char> {
    match forwarded_for {
        Some(f) if f.len() > 0 => f,
        _ => match peer {
            Some(p) => p,
            None => "unknown"@,
        },
    }
}

pub fn get_remote_addr(forwarded_for: Option<&str>, peer: Option<String>) -> (r: String)
    ensures
        r@ == remote_addr_spec(
            match forwarded_for { Some(f) => Some(f@), None => None },
            match peer { Some(p) => Some(p@), None => None },
        ),
{
    if let Some(f) = forwarded_for {
        if !f.is_empty() {
            return owned(f);
        }
    }
    match peer {
        Some(p) => p,
        None => owned("unknown"),
    }
}

} // verus!
