//! File URLs, as text.
use crate::path::{
    appended, bytes_name_paths, is_absolute, names_in, path_bytes, FilePath, PathView, SLASH,
};
use crate::text::option_view;
use vstd::prelude::*;

verus! {

/// The URL that `url::Url::from_file_path` makes of a path; `None` where it makes none.
pub uninterp spec fn file_url(path: Seq<u8>) -> Option<Seq<char>>;

/// The path that a URL names by `url::Url::parse` and `url::Url::to_file_path`; `None` if it is
/// no URL, or names no local path.
pub uninterp spec fn url_path(uri: Seq<char>) -> Option<Seq<u8>>;

/// The path starts with a slash.
pub open spec fn starts_at_root(path: Seq<u8>) -> bool {
    path.len() > 0 && path[0] == SLASH
}

/// `url::Url::from_file_path`, and the text of the URL, which `file_url` names. On Unix, whose
/// paths these are, it makes a URL of every path that starts with a slash, and of no other. The
/// bytes of the path are handed over as `serde` writes the strings of a Unix system.
#[verifier::external_body]
fn from_file_path(path: &Vec<u8>) -> (r: Option<String>)
    ensures
        option_view(r) == file_url(path@),
        r.is_some() == starts_at_root(path@),
{
    let bytes = serde_json::Value::from_iter([("Unix", path.clone())]);
    let mut path = std::path::PathBuf::new().into_os_string();
    path.clone_from(&serde_json::from_value(bytes).ok()?);
    url::Url::from_file_path(path).ok().map(|uri| uri.to_string())
}

/// `url::Url::parse` and then `url::Url::to_file_path`, whose bytes `url_path` names. On Unix
/// every path that comes out starts with a slash.
#[verifier::external_body]
fn to_file_path(uri: &str) -> (r: Option<Vec<u8>>)
    ensures
        option_view(r) == url_path(uri@),
        r matches Some(path) ==> starts_at_root(path@),
{
    let path = url::Url::parse(uri).ok()?.to_file_path().ok()?;
    Some(path.as_os_str().as_encoded_bytes().to_vec())
}

/// The URL of a file.
pub open spec fn uri_of(path: PathView) -> Seq<char> {
    file_url(path_bytes(path))->0
}

/// The URL of a file.
pub fn uri_for(path: &FilePath) -> (r: String)
    requires
        is_absolute(path@),
    ensures
        r@ == uri_of(path@),
        file_url(path_bytes(path@)) == Some(r@),
{
    match from_file_path(&path.bytes()) {
        Some(uri) => uri,
        None => String::new(),
    }
}

/// The path that a URL names, if it names one of a local file.
pub open spec fn path_named_by(uri: Seq<char>) -> Option<PathView> {
    match url_path(uri) {
        Some(bytes) => Some(appended(Seq::empty(), bytes)),
        None => None,
    }
}

/// The path that a URL names.
pub fn path_from_uri(uri: &str) -> (r: Option<FilePath>)
    ensures
        option_view(r) == path_named_by(uri@),
        r matches Some(path) ==> is_absolute(path@),
{
    match to_file_path(uri) {
        Some(bytes) => Some(FilePath::parse_bytes(&bytes)),
        None => None,
    }
}

/// The path of a URL is the one that its bytes name from the root, and there is one exactly if the
/// URL names a local file; the URL of a path is that of its bytes.
pub proof fn urls_name_paths(uri: Seq<char>, bytes: Seq<u8>, path: PathView)
    ensures
        url_path(uri) == Some(seq![SLASH] + bytes) ==> path_named_by(uri) == Some(
            seq![seq![SLASH]] + names_in(bytes),
        ),
        url_path(uri) is None ==> path_named_by(uri) is None,
        file_url(path_bytes(path)) is Some ==> file_url(path_bytes(path)) == Some(uri_of(path)),
{
    bytes_name_paths(Seq::empty(), bytes);
}

}
