//! Paths as text. Joining, home expansion, `..` detection and file
//! extensions are computed here; the component-wise operations of
//! `std::path` (parent, file name, prefix tests, equality and order) are
//! called through the wrappers below, whose results are named.
use std::path::Path;
use vstd::prelude::*;

use crate::text::{
    eq_ignore_case, eq_ignore_ascii_case, opt_view, push_char, str_eq, to_owned_string, trailing_end,
    trim_end_char,
};

verus! {

/// What `Path::parent` returns for a path, as text.
pub uninterp spec fn parent_of(p: Seq<char>) -> Option<Seq<char>>;

/// What `Path::file_name` returns for a path, as text.
pub uninterp spec fn file_name_of(p: Seq<char>) -> Option<Seq<char>>;

/// What `Path::starts_with` says of a path and a base.
pub uninterp spec fn has_path_prefix(p: Seq<char>, base: Seq<char>) -> bool;

/// What `Path::strip_prefix` returns for a path and a base, as text.
pub uninterp spec fn suffix_after(p: Seq<char>, base: Seq<char>) -> Option<Seq<char>>;

/// What `==` on two paths says.
pub uninterp spec fn same_path(a: Seq<char>, b: Seq<char>) -> bool;

/// What `<` on two paths says.
pub uninterp spec fn path_precedes(a: Seq<char>, b: Seq<char>) -> bool;

/// What `str::to_lowercase` returns.
pub uninterp spec fn lowercase_of(s: Seq<char>) -> Seq<char>;

/// `Path::parent`. Its documentation says that it returns the path
/// without its final component, and `None` for the empty path. The claims:
/// the result is named `parent_of`, is shorter than the argument, and is
/// `None` for the empty path. Which component counts as final is not stated.
#[verifier::external_body]
pub(crate) fn path_parent(p: &str) -> (r: Option<String>)
    ensures
        match r {
            Some(q) => parent_of(p@) == Some(q@) && q@.len() < p@.len(),
            None => parent_of(p@) is None,
        },
        p@.len() == 0 ==> r is None,
{
    match Path::new(p).parent() {
        Some(q) => Some(q.to_string_lossy().into_owned()),
        None => None,
    }
}

/// `Path::file_name`: the final component of a path when it is a normal
/// name. The claim is only that the result is named `file_name_of`.
#[verifier::external_body]
pub(crate) fn path_file_name(p: &str) -> (r: Option<String>)
    ensures
        match r {
            Some(n) => file_name_of(p@) == Some(n@),
            None => file_name_of(p@) is None,
        },
{
    match Path::new(p).file_name() {
        Some(n) => Some(n.to_string_lossy().into_owned()),
        None => None,
    }
}

/// `Path::starts_with`, which documents that it tests whether `base` is a
/// prefix of the path, comparing whole components. The claims: the result
/// is named `has_path_prefix`, and a path starts with itself.
#[verifier::external_body]
pub(crate) fn path_starts_with(p: &str, base: &str) -> (r: bool)
    ensures
        r == has_path_prefix(p@, base@),
        p@ == base@ ==> r,
{
    Path::new(p).starts_with(Path::new(base))
}

/// `Path::strip_prefix`, which documents that it fails exactly when
/// `starts_with` is false. The claims: the result is named `suffix_after`,
/// and it is present exactly when `has_path_prefix` holds.
#[verifier::external_body]
pub(crate) fn path_strip_prefix(p: &str, base: &str) -> (r: Option<String>)
    ensures
        match r {
            Some(s) => suffix_after(p@, base@) == Some(s@),
            None => suffix_after(p@, base@) is None,
        },
        r is Some <==> has_path_prefix(p@, base@),
{
    match Path::new(p).strip_prefix(Path::new(base)) {
        Ok(s) => Some(s.to_string_lossy().into_owned()),
        Err(_) => None,
    }
}

/// `==` on paths, which compares components. The claims: the result is
/// named `same_path`, and equal text is the same path (`Eq` is reflexive).
#[verifier::external_body]
pub(crate) fn paths_equal(a: &str, b: &str) -> (r: bool)
    ensures
        r == same_path(a@, b@),
        a@ == b@ ==> r,
{
    Path::new(a) == Path::new(b)
}

/// `<` on paths, the order of `Ord for Path`. The claims: the result is
/// named `path_precedes`, and the order is asymmetric, as an `Ord` is.
#[verifier::external_body]
pub(crate) fn path_less(a: &str, b: &str) -> (r: bool)
    ensures
        r == path_precedes(a@, b@),
        r ==> !path_precedes(b@, a@),
        r ==> a@ != b@,
{
    Path::new(a) < Path::new(b)
}

/// `str::to_lowercase`; the claim is only that the result is named
/// `lowercase_of`.
#[verifier::external_body]
pub(crate) fn to_lowercase(s: &str) -> (r: String)
    ensures
        r@ == lowercase_of(s@),
{
    s.to_lowercase()
}

/// `Path::join` on Unix: an absolute `rel` replaces `base`; otherwise a
/// separator is put between the two unless `base` is empty or already ends
/// with one.
pub open spec fn join_path(base: Seq<char>, rel: Seq<char>) -> Seq<char> {
    if rel.len() > 0 && rel[0] == '/' {
        rel
    } else if base.len() == 0 || base.last() == '/' {
        base + rel
    } else {
        base.push('/') + rel
    }
}

/// `Path::is_absolute` on Unix: the path starts with the root.
pub open spec fn is_absolute(p: Seq<char>) -> bool {
    p.len() > 0 && p[0] == '/'
}

pub open spec fn home_not_set() -> Seq<char> {
    "HOME is not set"@
}

/// A leading `~` stands for the home directory, alone or before `/`.
pub open spec fn expand_home_spec(p: Seq<char>, home: Option<Seq<char>>) -> Result<Seq<char>, Seq<char>> {
    if p =~= seq!['~'] {
        match home {
            Some(h) => Ok(h),
            None => Err(home_not_set()),
        }
    } else if p.len() >= 2 && p[0] == '~' && p[1] == '/' {
        match home {
            Some(h) => Ok(join_path(h, p.skip(2))),
            None => Err(home_not_set()),
        }
    } else {
        Ok(p)
    }
}

/// Whether a path written relative holds a `..` component: a `..` between
/// separators or the ends of the text.
pub open spec fn has_parent_ref(p: Seq<char>) -> bool {
    exists|i: int| #[trigger] is_parent_ref_at(p, i)
}

pub open spec fn is_parent_ref_at(p: Seq<char>, i: int) -> bool {
    &&& 0 <= i
    &&& i + 2 <= p.len()
    &&& p[i] == '.'
    &&& p[i + 1] == '.'
    &&& (i == 0 || p[i - 1] == '/')
    &&& (i + 2 == p.len() || p[i + 2] == '/')
}

/// Index of the last `.` in `name[..j]`, or -1.
pub open spec fn last_dot(name: Seq<char>, j: int) -> int
    decreases j,
{
    if j <= 0 || j > name.len() {
        -1
    } else if name[j - 1] == '.' {
        j - 1
    } else {
        last_dot(name, j - 1)
    }
}

/// `Path::extension`, as its documentation gives it from the file name:
/// none without a file name or without an embedded `.`, none when the only
/// `.` starts the name, otherwise what follows the final `.`.
pub open spec fn extension_of(file_name: Option<Seq<char>>) -> Option<Seq<char>> {
    match file_name {
        None => None,
        Some(n) => {
            let k = last_dot(n, n.len() as int);
            if k <= 0 {
                None
            } else {
                Some(n.skip(k + 1))
            }
        },
    }
}

pub open spec fn is_pdf_spec(p: Seq<char>) -> bool {
    match extension_of(file_name_of(p)) {
        Some(e) => eq_ignore_case(e, "pdf"@),
        None => false,
    }
}

/// The name shown for a folder: its file name, or the whole path when it
/// has none.
pub open spec fn folder_name_spec(p: Seq<char>) -> Seq<char> {
    match file_name_of(p) {
        Some(n) => n,
        None => p,
    }
}

/// `base.join(rel)`.
pub fn join(base: &str, rel: &str) -> (r: String)
    ensures
        r@ == join_path(base@, rel@),
{
    let n = base.unicode_len();
    let m = rel.unicode_len();
    if m > 0 && rel.get_char(0) == '/' {
        return to_owned_string(rel);
    }
    let mut out = to_owned_string(base);
    if !(n == 0 || base.get_char(n - 1) == '/') {
        push_char(&mut out, '/');
    }
    out.append(rel);
    out
}

/// Replaces a leading `~` by `home`; `Err` when the path needs the home
/// directory and `home` is `None`.
pub fn expand_home(path: &str, home: Option<&str>) -> (r: Result<String, String>)
    ensures
        match r {
            Ok(s) => expand_home_spec(path@, opt_view(home)) == Ok::<Seq<char>, Seq<char>>(s@),
            Err(e) => expand_home_spec(path@, opt_view(home)) == Err::<Seq<char>, Seq<char>>(e@),
        },
{
    let n = path.unicode_len();
    let tilde_only = n == 1 && path.get_char(0) == '~';
    let tilde_slash = n >= 2 && path.get_char(0) == '~' && path.get_char(1) == '/';
    proof {
        if n == 1 && path@[0] == '~' {
            assert(path@ =~= seq!['~']);
        }
        if path@ =~= seq!['~'] {
            assert(n == 1 && path@[0] == '~');
        }
    }
    if tilde_only || tilde_slash {
        match home {
            None => Err(to_owned_string("HOME is not set")),
            Some(h) => {
                if tilde_only {
                    Ok(to_owned_string(h))
                } else {
                    let rel = path.substring_char(2, n);
                    assert(rel@ =~= path@.skip(2));
                    Ok(join(h, rel))
                }
            },
        }
    } else {
        Ok(to_owned_string(path))
    }
}

/// Whether a relative path holds a `..` component.
pub fn has_parent_component(p: &str) -> (r: bool)
    ensures
        r == has_parent_ref(p@),
{
    let n = p.unicode_len();
    let mut i: usize = 0;
    while n >= 2 && i <= n - 2
        invariant
            n == p@.len(),
            forall|k: int| 0 <= k < i ==> !#[trigger] is_parent_ref_at(p@, k),
        decreases n - i,
    {
        if p.get_char(i) == '.' && p.get_char(i + 1) == '.' && (i == 0 || p.get_char(i - 1) == '/')
            && (i + 2 == n || p.get_char(i + 2) == '/') {
            assert(is_parent_ref_at(p@, i as int));
            return true;
        }
        i = i + 1;
    }
    assert forall|k: int| !#[trigger] is_parent_ref_at(p@, k) by {
        if 0 <= k && k < i {
        }
    }
    false
}

/// `Path::extension`, from the file name.
pub fn extension(path: &str) -> (r: Option<String>)
    ensures
        match r {
            Some(e) => extension_of(file_name_of(path@)) == Some(e@),
            None => extension_of(file_name_of(path@)) is None,
        },
{
    match path_file_name(path) {
        None => None,
        Some(name) => {
            let s = name.as_str();
            let n = s.unicode_len();
            let mut j: usize = n;
            while j > 0 && s.get_char(j - 1) != '.'
                invariant
                    n == s@.len(),
                    j <= n,
                    last_dot(s@, n as int) == last_dot(s@, j as int),
                decreases j,
            {
                j = j - 1;
            }
            if j <= 1 {
                None
            } else {
                let e = s.substring_char(j, n);
                assert(e@ =~= s@.skip(j as int));
                Some(to_owned_string(e))
            }
        },
    }
}

/// Whether the path names a PDF: its extension is `pdf` in any ASCII case.
pub fn is_pdf(path: &str) -> (r: bool)
    ensures
        r == is_pdf_spec(path@),
{
    match extension(path) {
        Some(e) => eq_ignore_ascii_case(e.as_str(), "pdf"),
        None => false,
    }
}

/// The final component of a path, or the whole path when it has none.
pub fn folder_name(path: &str) -> (r: String)
    ensures
        r@ == folder_name_spec(path@),
{
    match path_file_name(path) {
        Some(n) => n,
        None => to_owned_string(path),
    }
}


/// A path as shown: with the home directory written `~` when the path is
/// the home directory or lies below it.
pub open spec fn home_display(p: Seq<char>, home: Option<Seq<char>>) -> Seq<char> {
    match home {
        Some(h) => {
            let hh = h.take(trailing_end(h, '/', h.len() as int));
            if hh.len() > 0 && hh.len() <= p.len() && p.take(hh.len() as int) == hh && (p.len()
                == hh.len() || p[hh.len() as int] == '/') {
                seq!['~'] + p.skip(hh.len() as int)
            } else {
                p
            }
        },
        None => p,
    }
}

/// A path as shown, with the home directory written `~`.
pub fn tilde_home(p: &str, home: Option<&str>) -> (r: String)
    ensures
        r@ == home_display(p@, opt_view(home)),
{
    match home {
        None => to_owned_string(p),
        Some(h) => {
            let hh = trim_end_char(h, '/');
            let k = hh.unicode_len();
            let n = p.unicode_len();
            if k > 0 && k <= n && str_eq(p.substring_char(0, k), hh) && (n == k || p.get_char(k)
                == '/') {
                assert(p@.subrange(0, k as int) =~= p@.take(k as int));
                let mut s = String::new();
                push_char(&mut s, '~');
                let rest = p.substring_char(k, n);
                assert(rest@ =~= p@.skip(k as int));
                s.append(rest);
                assert(s@ =~= seq!['~'] + p@.skip(k as int));
                s
            } else {
                proof {
                    if k > 0 && k <= n && p@.take(k as int) == hh@ {
                        assert(p@.subrange(0, k as int) =~= p@.take(k as int));
                    }
                }
                to_owned_string(p)
            }
        },
    }
}
} // verus!
