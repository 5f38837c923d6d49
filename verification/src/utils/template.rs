//! Where the templates come from: the default lookup under the user's
//! directory, a local directory, or a repository cloned from a URL. The
//! directory checks and the clone are the caller's.
use vstd::prelude::*;

use crate::text::{
    chars_of, ends_with, has_prefix, has_suffix, nat_digits, owned, push_str, starts_with, string_of_range, trim,
    trim_str, u64_text,
};
use crate::utils::path::{joined_name, path_join_name, plain_name};

verus! {

/// Does the template source name a repository to clone: an `http://`,
/// `https://`, `git@` or `ssh://` address, or anything ending in `.git`?
pub open spec fn looks_like_remote(s: Seq<char>) -> bool {
    ||| has_prefix(s, "http://"@)
    ||| has_prefix(s, "https://"@)
    ||| has_prefix(s, "git@"@)
    ||| has_prefix(s, "ssh://"@)
    ||| has_suffix(s, ".git"@)
}

pub fn looks_like_url_or_git(s: &str) -> (r: bool)
    ensures
        r == looks_like_remote(s@),
{
    let v = chars_of(s);
    let a = chars_of("http://");
    let b = chars_of("https://");
    let c = chars_of("git@");
    let d = chars_of("ssh://");
    let e = chars_of(".git");
    starts_with(v.as_slice(), a.as_slice()) || starts_with(v.as_slice(), b.as_slice()) || starts_with(
        v.as_slice(),
        c.as_slice(),
    ) || starts_with(v.as_slice(), d.as_slice()) || ends_with(v.as_slice(), e.as_slice())
}

/// What follows the last `/` or `:`.
pub open spec fn last_segment(s: Seq<char>) -> Seq<char>
    decreases s.len(),
{
    if s.len() == 0 {
        s
    } else if s.last() == '/' || s.last() == ':' {
        Seq::empty()
    } else {
        last_segment(s.drop_last()).push(s.last())
    }
}

/// Index of the last `.`.
pub open spec fn last_dot(n: Seq<char>) -> Option<int>
    decreases n.len(),
{
    if n.len() == 0 {
        None
    } else if n.last() == '.' {
        Some(n.len() - 1)
    } else {
        last_dot(n.drop_last())
    }
}

/// The stem of a file name (`Path::file_stem`): the name before its last
/// dot, unless that dot starts the name; `..` stays as it is.
pub open spec fn name_stem(n: Seq<char>) -> Seq<char> {
    if n == seq!['.', '.'] {
        n
    } else {
        match last_dot(n) {
            Some(k) => if k > 0 {
                n.subrange(0, k)
            } else {
                n
            },
            None => n,
        }
    }
}

/// The repository name of a remote: the stem of its last segment, if that
/// is not empty.
pub open spec fn repo_basename(remote: Seq<char>) -> Option<Seq<char>> {
    let l = last_segment(remote);
    if l.len() == 0 {
        None
    } else {
        Some(name_stem(l))
    }
}

proof fn lemma_last_segment_from(s: Seq<char>, i: int)
    requires
        0 <= i <= s.len(),
        forall|k: int| i <= k < s.len() ==> s[k] != '/' && s[k] != ':',
        i == 0 || s[i - 1] == '/' || s[i - 1] == ':',
    ensures
        last_segment(s) == s.subrange(i, s.len() as int),
    decreases s.len(),
{
    if s.len() == 0 {
    } else if i == s.len() {
        assert(s.subrange(i, s.len() as int) =~= Seq::<char>::empty());
    } else {
        lemma_last_segment_from(s.drop_last(), i);
        assert(s.subrange(i, s.len() as int) =~= s.drop_last().subrange(i, s.len() - 1).push(s.last()));
    }
}

proof fn lemma_last_dot_at(n: Seq<char>, k: int)
    requires
        0 <= k < n.len(),
        n[k] == '.',
        forall|j: int| k < j < n.len() ==> n[j] != '.',
    ensures
        last_dot(n) == Some(k),
    decreases n.len(),
{
    if k < n.len() - 1 {
        lemma_last_dot_at(n.drop_last(), k);
    }
}

proof fn lemma_last_dot_none(n: Seq<char>)
    requires
        forall|j: int| 0 <= j < n.len() ==> n[j] != '.',
    ensures
        last_dot(n) is None,
    decreases n.len(),
{
    if n.len() > 0 {
        lemma_last_dot_none(n.drop_last());
    }
}

/// The repository name of a remote (see [`repo_basename`]).
pub fn remote_repo_basename(remote: &str) -> (r: Option<String>)
    ensures
        match repo_basename(remote@) {
            Some(b) => r is Some && r->0@ == b,
            None => r is None,
        },
{
    let v = chars_of(remote);
    let n = v.len();
    let mut i: usize = n;
    while i > 0 && v[i - 1] != '/' && v[i - 1] != ':'
        invariant
            i <= n == v@.len(),
            forall|k: int| i <= k < n ==> v@[k] != '/' && v@[k] != ':',
        decreases i,
    {
        i = i - 1;
    }
    proof {
        lemma_last_segment_from(v@, i as int);
    }
    let ghost seg = v@.subrange(i as int, n as int);
    if i == n {
        return None;
    }
    if n - i == 2 && v[i] == '.' && v[i + 1] == '.' {
        assert(seg =~= seq!['.', '.']);
        return Some(string_of_range(v.as_slice(), i, n));
    }
    assert(seg != seq!['.', '.']);
    let mut j: usize = n;
    while j > i && v[j - 1] != '.'
        invariant
            i <= j <= n == v@.len(),
            forall|k: int| j <= k < n ==> v@[k] != '.',
        decreases j,
    {
        j = j - 1;
    }
    if j > i {
        proof {
            lemma_last_dot_at(seg, j - 1 - i);
        }
        if j - 1 > i {
            assert(seg.subrange(0, j - 1 - i) =~= v@.subrange(i as int, j - 1));
            return Some(string_of_range(v.as_slice(), i, j - 1));
        }
        return Some(string_of_range(v.as_slice(), i, n));
    }
    proof {
        lemma_last_dot_none(seg);
    }
    Some(string_of_range(v.as_slice(), i, n))
}

/// Where the templates come from.
#[derive(Clone, Debug)]
pub enum TemplateSource {
    /// The default lookup (see [`default_template_root`]).
    Default,
    /// A local directory.
    Local(String),
    /// A repository to clone.
    Remote(String),
}

pub open spec fn source_of(remote: Option<Seq<char>>) -> (Option<Seq<char>>, bool) {
    match remote {
        None => (None, false),
        Some(s) => if trim(s).len() == 0 {
            (None, false)
        } else {
            (Some(trim(s)), looks_like_remote(trim(s)))
        },
    }
}

/// The template source named on the command line: none or a blank value
/// means the default lookup; otherwise the trimmed value is a repository to
/// clone when it looks like one, else a local directory.
pub fn resolve_template_root(remote: Option<&str>) -> (r: TemplateSource)
    ensures
        match source_of(match remote { Some(s) => Some(s@), None => None }) {
            (None, _) => r is Default,
            (Some(t), true) => r is Remote && r->Remote_0@ == t,
            (Some(t), false) => r is Local && r->Local_0@ == t,
        },
{
    match remote {
        None => TemplateSource::Default,
        Some(s) => {
            let t = trim_str(s);
            if t.as_str().is_empty() {
                TemplateSource::Default
            } else if looks_like_url_or_git(t.as_str()) {
                TemplateSource::Remote(t)
            } else {
                TemplateSource::Local(t)
            }
        },
    }
}

/// The directory name a remote is cloned into: its repository name (or
/// `templates`), a dash and the time in milliseconds.
pub fn clone_dir_name(remote: &str, millis: u64) -> (r: String)
    ensures
        r@ == (match repo_basename(remote@) {
            Some(b) => b,
            None => "templates"@,
        }) + "-"@ + nat_digits(millis as nat),
{
    let mut s = match remote_repo_basename(remote) {
        Some(b) => b,
        None => owned("templates"),
    };
    push_str(&mut s, "-");
    let d = u64_text(millis);
    push_str(&mut s, d.as_str());
    s
}

/// The directories the default lookup tries, in order, once the tool's
/// directory is known: `<version>` inside it (when a version is given),
/// then `templates` inside it, then the directory itself. `None` when the
/// home directory is unknown: there is no such directory to try, and the
/// lookup goes straight on to searching upwards from the working directory
/// (which it also does when none of these directories exists).
pub fn default_template_root(rsctl_home: Option<String>, version: Option<&str>) -> (r: Option<Vec<String>>)
    ensures
        rsctl_home is None ==> r is None,
        rsctl_home is Some ==> r is Some && {
            let h = rsctl_home->0@;
            let c = r->0@;
            let versioned = version is Some && version->0@.len() > 0;
            &&& c.len() == if versioned { 3int } else { 2int }
            &&& versioned && plain_name(version->0@) ==> joined_name(h, version->0@, c[0]@)
            &&& joined_name(h, "templates"@, c[c.len() - 2]@)
            &&& c[c.len() - 1]@ == h
        },
{
    match rsctl_home {
        None => None,
        Some(h) => {
            let mut c: Vec<String> = Vec::new();
            match version {
                Some(v) => if !v.is_empty() {
                    c.push(path_join_name(h.as_str(), v));
                },
                None => {},
            }
            proof {
                reveal_strlit("templates");
            }
            c.push(path_join_name(h.as_str(), "templates"));
            c.push(h);
            Some(c)
        },
    }
}

} // verus!
