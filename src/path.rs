//! Turning a user-supplied or stored path into an absolute one.
//!
//! Nothing here reads the environment: the home directory and the current
//! directory are handed in, so the result is a function of the arguments.

use path_absolutize::Absolutize;
use vstd::prelude::*;

verus! {

/// A path is absolute when it starts at the root.
pub open spec fn is_absolute(p: Seq<char>) -> bool {
    p.len() > 0 && p[0] == '/'
}

pub open spec fn str_opt_view(o: Option<&str>) -> Option<Seq<char>> {
    match o {
        Some(s) => Some(s@),
        None => None,
    }
}

pub open spec fn string_opt_view(o: Option<String>) -> Option<Seq<char>> {
    match o {
        Some(s) => Some(s@),
        None => None,
    }
}

/// Home-directory expansion: a leading `~` that stands alone or before `/`
/// is replaced by the home directory, when one is known; `~user` forms and
/// everything else are left as they are.
pub open spec fn tilde_expanded(raw: Seq<char>, home: Option<Seq<char>>) -> Seq<char> {
    if raw.len() > 0 && raw[0] == '~' && (raw.len() == 1 || raw[1] == '/') && home is Some {
        home->0 + raw.drop_first()
    } else {
        raw
    }
}

/// What `Absolutize::absolutize_from` makes of `path` against the directory `cwd`.
pub uninterp spec fn absolute_of(path: Seq<char>, cwd: Seq<char>) -> Seq<char>;

/// What `Path::file_name` gives for `path`.
pub uninterp spec fn file_name_of(path: Seq<char>) -> Option<Seq<char>>;

/// The absolute, normalised form of `raw`, given the home and current directories.
pub open spec fn expanded(raw: Seq<char>, home: Option<Seq<char>>, cwd: Seq<char>) -> Seq<char> {
    absolute_of(tilde_expanded(raw, home), cwd)
}

/// Relies on shellexpand::tilde_with_context: it replaces a leading `~`
/// (alone, or followed by `/`) with the home directory that the closure gives,
/// and returns the input unchanged in every other case.
#[verifier::external_body]
fn tilde(raw: &str, home: Option<&str>) -> (r: String)
    ensures
        r@ == tilde_expanded(raw@, str_opt_view(home)),
{
    shellexpand::tilde_with_context(raw, move || home).into_owned()
}

/// Relies on path_absolutize's `absolutize_from` on Unix: it never fails, it
/// resolves `.` and `..` against `cwd`, and when `cwd` is absolute the result
/// starts at the root.
#[verifier::external_body]
fn absolutize(path: &str, cwd: &str) -> (r: String)
    requires
        is_absolute(cwd@),
    ensures
        r@ == absolute_of(path@, cwd@),
        is_absolute(r@),
{
    let p = std::path::Path::new(path);
    p.absolutize_from(cwd).expect("absolutize_from does not fail on Unix").to_string_lossy().into_owned()
}

/// Relies on std's `Path::file_name`: the last component of the path, if it
/// is a normal one.
#[verifier::external_body]
pub(crate) fn file_name(path: &str) -> (r: Option<String>)
    ensures
        string_opt_view(r) == file_name_of(path@),
{
    match std::path::Path::new(path).file_name() {
        Some(n) => Some(n.to_string_lossy().into_owned()),
        None => None,
    }
}

/// Expands `~` with `home`, then resolves the result against `cwd` into an
/// absolute path with no `.` or `..` left.
pub fn expand_path(raw: &str, home: Option<&str>, cwd: &str) -> (r: String)
    requires
        is_absolute(cwd@),
    ensures
        r@ == expanded(raw@, str_opt_view(home), cwd@),
        is_absolute(r@),
{
    let t = tilde(raw, home);
    absolutize(t.as_str(), cwd)
}

} // verus!
