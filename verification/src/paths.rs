//! File paths and file URIs as text.
//!
//! A path has the form of the platform that the program is built for. How that platform divides a
//! path into components is for `std::path` to say, and how a path and a URI correspond is for the
//! `url` crate: their answers have names here, over the text that they are given.
use std::path::{Path, PathBuf};
use url::Url;
use vstd::prelude::*;

verus! {

/// The last component of a path, if it is a name.
pub uninterp spec fn file_name_of(path: Seq<char>) -> Option<Seq<char>>;

/// The path without its last component, if it has one.
pub uninterp spec fn parent_of(path: Seq<char>) -> Option<Seq<char>>;

/// The components of a path.
pub uninterp spec fn components_of(path: Seq<char>) -> Seq<Seq<char>>;

/// A path put together from its components, without what separates them more than once. Two texts
/// are the same path where this form is the same.
pub uninterp spec fn normal_path(path: Seq<char>) -> Seq<char>;

/// A path taken from a base directory.
pub uninterp spec fn joined_path(base: Seq<char>, path: Seq<char>) -> Seq<char>;

/// The path seen from a base directory, if it lies under it.
pub uninterp spec fn relative_path(path: Seq<char>, base: Seq<char>) -> Option<Seq<char>>;

/// Whether a path ends with the components of another.
pub uninterp spec fn path_ends_with(path: Seq<char>, tail: Seq<char>) -> bool;

/// Whether a path is absolute.
pub uninterp spec fn is_absolute_path(path: Seq<char>) -> bool;

/// A path in quotes, with its special characters escaped.
pub uninterp spec fn quoted_path(path: Seq<char>) -> Seq<char>;

/// A text in quotes, with its special characters escaped.
pub uninterp spec fn quoted_text(text: Seq<char>) -> Seq<char>;

/// The `file` URI of a path, if the path has one.
pub uninterp spec fn file_uri_of(path: Seq<char>) -> Option<Seq<char>>;

/// The path that a URI names, as text, if it names one.
pub uninterp spec fn file_path_of(uri: Seq<char>) -> Option<Seq<char>>;

/// The text in an optional string.
pub open spec fn opt_text(text: Option<String>) -> Option<Seq<char>> {
    match text {
        Some(s) => Some(s@),
        None => None,
    }
}

/// The text in an optional string slice.
pub open spec fn opt_str(text: Option<&str>) -> Option<Seq<char>> {
    match text {
        Some(s) => Some(s@),
        None => None,
    }
}

/// `Path::file_name`. The name is a part of the path, so its text is kept as it is.
#[verifier::external_body]
pub(crate) fn path_file_name(path: &str) -> (res: Option<String>)
    ensures
        opt_text(res) == file_name_of(path@),
{
    Path::new(path).file_name().map(|name| name.to_string_lossy().into_owned())
}

/// `Path::parent`. The parent leaves out the last component, so it is the shorter text.
#[verifier::external_body]
pub(crate) fn path_parent(path: &str) -> (res: Option<String>)
    ensures
        opt_text(res) == parent_of(path@),
        res is Some ==> res->0@.len() < path@.len(),
{
    Path::new(path).parent().map(|parent| parent.to_string_lossy().into_owned())
}

/// `Path::components`, each component by its text.
#[verifier::external_body]
pub(crate) fn path_components(path: &str) -> (res: Vec<String>)
    ensures
        crate::text::texts(res@) == components_of(path@),
{
    Path::new(path).components().map(|c| c.as_os_str().to_string_lossy().into_owned()).collect()
}

/// A `PathBuf` collected from `Path::components`.
#[verifier::external_body]
pub(crate) fn path_normal(path: &str) -> (res: String)
    ensures
        res@ == normal_path(path@),
{
    let normal: PathBuf = Path::new(path).components().collect();
    normal.to_string_lossy().into_owned()
}

/// `Path::join`.
#[verifier::external_body]
pub(crate) fn path_join(base: &str, path: &str) -> (res: String)
    ensures
        res@ == joined_path(base@, path@),
{
    Path::new(base).join(path).to_string_lossy().into_owned()
}

/// `Path::strip_prefix`, with nothing in place of its error.
#[verifier::external_body]
pub(crate) fn path_strip_prefix(path: &str, base: &str) -> (res: Option<String>)
    ensures
        opt_text(res) == relative_path(path@, base@),
{
    Path::new(path).strip_prefix(base).ok().map(|rest| rest.to_string_lossy().into_owned())
}

/// `Path::ends_with`.
#[verifier::external_body]
pub(crate) fn path_has_tail(path: &str, tail: &str) -> (res: bool)
    ensures
        res == path_ends_with(path@, tail@),
{
    Path::new(path).ends_with(tail)
}

/// `Path::is_absolute`.
#[verifier::external_body]
pub(crate) fn path_is_absolute(path: &str) -> (res: bool)
    ensures
        res == is_absolute_path(path@),
{
    Path::new(path).is_absolute()
}

/// The form that `{:?}` gives a path, by the `Debug` of `Path`.
#[verifier::external_body]
pub(crate) fn quote_path(path: &str) -> (res: String)
    ensures
        res@ == quoted_path(path@),
{
    format!("{:?}", Path::new(path))
}

/// The form that `{:?}` gives a text, by the `Debug` of `str`.
#[verifier::external_body]
pub(crate) fn quote_text(text: &str) -> (res: String)
    ensures
        res@ == quoted_text(text@),
{
    format!("{:?}", text)
}

/// `Url::from_file_path`, with nothing in place of its error. It refuses every path that is not
/// absolute, and what it gives starts with the scheme.
#[verifier::external_body]
pub(crate) fn path_to_uri(path: &str) -> (res: Option<String>)
    ensures
        opt_text(res) == file_uri_of(path@),
        res is Some ==> is_absolute_path(path@),
        res is Some ==> "file://"@.is_prefix_of(res->0@),
{
    Url::from_file_path(path).ok().map(|uri| uri.to_string())
}

/// `Url::to_file_path` of the URI that a text is, with nothing in place of its error or where the
/// text is no URI. The path comes as text to look at and to show: what is not Unicode in it stands
/// as replacement characters.
#[verifier::external_body]
pub(crate) fn uri_to_path(uri: &str) -> (res: Option<String>)
    ensures
        opt_text(res) == file_path_of(uri@),
{
    Url::parse(uri).ok()?.to_file_path().ok().map(|path| path.to_string_lossy().into_owned())
}

/// The path starts with a tilde that stands for the home directory.
pub open spec fn starts_at_home(path: Seq<char>) -> bool {
    path.len() > 0 && path[0] == '~' && (path.len() > 1 ==> path[1] == '/')
}

/// The path starts with a tilde and a backslash, which is a separator on some systems only.
pub open spec fn may_start_at_home(path: Seq<char>) -> bool {
    path.len() > 1 && path[0] == '~' && path[1] == '\\'
}

/// Whether a path is the expansion of another, by the home directory if there is one.
pub open spec fn expands_to(path: Seq<char>, home: Option<Seq<char>>, expanded: Seq<char>) -> bool {
    match home {
        Some(home) => {
            &&& starts_at_home(path) ==> expanded == home + path.skip(1)
            &&& may_start_at_home(path) ==> expanded == path || expanded == home + path.skip(1)
            &&& !starts_at_home(path) && !may_start_at_home(path) ==> expanded == path
        },
        None => expanded == path,
    }
}

/// `shellexpand::tilde_with_context`, with the home directory as its context. A tilde at the start,
/// alone or before a separator, gives way to the home directory; where there is none, and on every
/// other text, the text stays as it is. A backslash is a separator on Windows only, so what becomes
/// of a tilde before it is left open.
#[verifier::external_body]
pub(crate) fn expand_tilde(path: &str, home: Option<&str>) -> (res: String)
    ensures
        expands_to(path@, opt_str(home), res@),
{
    shellexpand::tilde_with_context(path, || home).into_owned()
}

/// A path as a user writes it, with a tilde at its start for the home directory.
pub fn expand_path(path: &str, home: Option<&str>) -> (res: String)
    ensures
        expands_to(path@, opt_str(home), res@),
{
    expand_tilde(path, home)
}

/// A tilde at the start, alone or before a slash, means the home directory; a path that does not
/// start with one, and every path where there is no home directory, stays as it is.
pub proof fn law_tilde_means_home(
    rest: Seq<char>,
    home: Option<Seq<char>>,
    expanded: Seq<char>,
)
    ensures
        expands_to(seq!['~'], home, expanded) ==> expanded == match home {
            Some(home) => home,
            None => seq!['~'],
        },
        expands_to(seq!['~', '/'] + rest, home, expanded) ==> expanded == match home {
            Some(home) => home + (seq!['/'] + rest),
            None => seq!['~', '/'] + rest,
        },
        (rest.len() > 0 ==> rest[0] != '~') && expands_to(rest, home, expanded) ==> expanded
            == rest,
        home is None && expands_to(rest, home, expanded) ==> expanded == rest,
{
    let alone = seq!['~'];
    let below = seq!['~', '/'] + rest;
    assert(below[0] == '~' && below[1] == '/');
    assert(below.skip(1) =~= seq!['/'] + rest);
    if let Some(home) = home {
        assert(home + alone.skip(1) =~= home);
    }
}

/// An optional string has the text that is in it.
pub proof fn law_optional_text_is_that_of_the_string(text: Option<String>, part: Option<&str>)
    ensures
        opt_text(text) is Some <==> text is Some,
        text is Some ==> opt_text(text)->0 == text->0@,
        opt_str(part) is Some <==> part is Some,
        part is Some ==> opt_str(part)->0 == part->0@,
{
}

}
