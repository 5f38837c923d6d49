//! The user's home directory and the tool's directories under it. Reading
//! the environment is the caller's: the values are handed in.
use vstd::prelude::*;

use crate::text::owned;

verus! {

/// A single file name: not empty, and without `/`, `\` or `:`.
pub open spec fn plain_name(s: Seq<char>) -> bool {
    s.len() > 0 && forall|i: int| 0 <= i < s.len() ==> s[i] != '/' && s[i] != '\\' && s[i] != ':'
}

/// `joined` is `base` extended by the name `name`: the name alone for an
/// empty base; no separator after a base that ends with `/`; one
/// separator (`/` or `\`, by platform) after a base that ends with neither
/// a separator nor `:`; after a trailing `\` or `:`, whose meaning depends
/// on the platform, one separator or none.
pub open spec fn joined_name(base: Seq<char>, name: Seq<char>, joined: Seq<char>) -> bool {
    if base.len() == 0 {
        joined == name
    } else if base.last() == '/' {
        joined == base + name
    } else if base.last() == '\\' || base.last() == ':' {
        ||| joined == base + name
        ||| joined == base + seq!['/'] + name
        ||| joined == base + seq!['\\'] + name
    } else {
        ||| joined == base + seq!['/'] + name
        ||| joined == base + seq!['\\'] + name
    }
}

/// A drive name such as `C:`: one ASCII letter and a colon.
pub open spec fn drive_name(s: Seq<char>) -> bool {
    s.len() == 2 && s[1] == ':' && (('a' <= s[0] && s[0] <= 'z') || ('A' <= s[0] && s[0] <= 'Z'))
}

/// A Windows path from the root of a drive, such as `\Users\x`: it starts
/// with `\` and holds no `/` and no `:`.
pub open spec fn backslash_rooted(s: Seq<char>) -> bool {
    s.len() > 0 && s[0] == '\\' && forall|i: int| 0 <= i < s.len() ==> s[i] != '/' && s[i] != ':'
}

/// `std::path::Path::join`, read back as text. When `rel` is a plain file
/// name (a relative path), `base` is extended by it, a separator being
/// added where `base` does not end with one (see [`joined_name`]). A drive
/// name joined with a path from the drive's root gives that path on the
/// drive where `\` is a separator (Windows: a rooted path keeps only the
/// base's prefix), and the two joined by `/` where it is not (the path is
/// then relative). Of other arguments nothing is stated.
#[verifier::external_body]
pub(crate) fn path_join_name(base: &str, rel: &str) -> (r: String)
    ensures
        plain_name(rel@) ==> joined_name(base@, rel@, r@),
        drive_name(base@) && backslash_rooted(rel@) ==> (r@ == base@ + rel@ || r@ == base@ + seq!['/'] + rel@),
{
    std::path::Path::new(base).join(rel).to_string_lossy().into_owned()
}

/// A value that is present and not empty.
pub open spec fn given(v: Option<&str>) -> bool {
    v is Some && v->0@.len() > 0
}

/// The home directory from the environment's values: `HOME`, else
/// `USERPROFILE`, else `HOMEDRIVE` joined with `HOMEPATH`; empty values
/// count as missing.
pub fn home_dir(home: Option<&str>, userprofile: Option<&str>, homedrive: Option<&str>, homepath: Option<&str>) -> (r: Option<String>)
    ensures
        given(home) ==> r is Some && r->0@ == home->0@,
        !given(home) && given(userprofile) ==> r is Some && r->0@ == userprofile->0@,
        !given(home) && !given(userprofile) ==> (r is Some <==> given(homedrive) && given(homepath)),
        !given(home) && !given(userprofile) && given(homedrive) && given(homepath) && plain_name(homepath->0@)
            ==> joined_name(homedrive->0@, homepath->0@, r->0@),
        !given(home) && !given(userprofile) && given(homedrive) && given(homepath) && drive_name(homedrive->0@)
            && backslash_rooted(homepath->0@) ==> (r->0@ == homedrive->0@ + homepath->0@ || r->0@ == homedrive->0@ + seq![
            '/',
        ] + homepath->0@),
{
    match home {
        Some(h) => if !h.is_empty() {
            return Some(owned(h));
        },
        None => {},
    }
    match userprofile {
        Some(u) => if !u.is_empty() {
            return Some(owned(u));
        },
        None => {},
    }
    match (homedrive, homepath) {
        (Some(d), Some(q)) => if !d.is_empty() && !q.is_empty() {
            Some(path_join_name(d, q))
        } else {
            None
        },
        _ => None,
    }
}

/// The tool's directory `<home>/.rsctl`, when the home directory is known.
pub fn rsctl_home_dir(home: Option<String>) -> (r: Option<String>)
    ensures
        home is None ==> r is None,
        home is Some ==> r is Some && joined_name(home->0@, ".rsctl"@, r->0@),
{
    match home {
        None => None,
        Some(h) => {
            proof {
                reveal_strlit(".rsctl");
            }
            Some(path_join_name(h.as_str(), ".rsctl"))
        },
    }
}

/// The tool's directory and the directory of `version` inside it; an error
/// when the home directory is unknown.
pub fn rsctl_version_dir(home: Option<String>, version: &str) -> (r: Result<(String, String), String>)
    ensures
        home is None ==> r is Err && r->Err_0@ == "cannot resolve user home dir"@,
        home is Some ==> r is Ok && joined_name(home->0@, ".rsctl"@, r->Ok_0.0@) && (plain_name(version@)
            ==> joined_name(r->Ok_0.0@, version@, r->Ok_0.1@)),
{
    match rsctl_home_dir(home) {
        None => Err(owned("cannot resolve user home dir")),
        Some(rh) => {
            let vd = path_join_name(rh.as_str(), version);
            Ok((rh, vd))
        },
    }
}

} // verus!
