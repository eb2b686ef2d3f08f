//! Document routing by file extension.

use vstd::prelude::*;
use crate::text::{chars_eq, chars_of};

verus! {

/// The language a document belongs to, decided by its file extension.
///
/// `yang` drives the YANG schema path; `xml` and `json` are candidate
/// NETCONF instance documents.
#[derive(Debug, Clone, Copy, PartialEq, Eq, Structural)]
pub enum DocLang {
    Yang,
    Xml,
    Json,
    Other,
}

/// The language of a file with extension `ext`.
pub open spec fn lang_of(ext: Option<Seq<char>>) -> DocLang {
    match ext {
        Some(e) => if e == "yang"@ {
            DocLang::Yang
        } else if e == "xml"@ {
            DocLang::Xml
        } else if e == "json"@ {
            DocLang::Json
        } else {
            DocLang::Other
        },
        None => DocLang::Other,
    }
}

/// The language of a file with extension `ext` ([`lang_of`]).
pub fn lang_of_extension(ext: Option<&str>) -> (r: DocLang)
    ensures
        r == lang_of(match ext {
            Some(e) => Some(e@),
            None => None,
        }),
{
    match ext {
        Some(e) => {
            let ec = chars_of(e);
            if chars_eq(ec.as_slice(), chars_of("yang").as_slice()) {
                DocLang::Yang
            } else if chars_eq(ec.as_slice(), chars_of("xml").as_slice()) {
                DocLang::Xml
            } else if chars_eq(ec.as_slice(), chars_of("json").as_slice()) {
                DocLang::Json
            } else {
                DocLang::Other
            }
        },
        None => DocLang::Other,
    }
}

/// The name for the extension of the file a `file://` URI names, as the
/// LSP types crate and `Path` read it for the target platform's path
/// conventions (fixed for a build).
pub uninterp spec fn uri_extension(url: Seq<char>) -> Option<Seq<char>>;

/// The extension of the file a `file://` URI names: `Uri` parsing and
/// `to_file_path` of the LSP types crate, then `Path::extension` (lossily
/// as text); the result is named [`uri_extension`] of the URI.
#[verifier::external_body]
fn url_extension(url: &str) -> (r: Option<String>)
    ensures
        match r {
            Some(e) => uri_extension(url@) == Some(e@),
            None => uri_extension(url@) is None,
        },
{
    let uri = url.parse::<tower_lsp_server::ls_types::Uri>().ok()?;
    let path = uri.to_file_path()?;
    path.extension().map(|e| e.to_string_lossy().into_owned())
}

/// The language of the document at `url`, by its file's extension.
pub fn doc_lang(url: &str) -> (r: DocLang)
    ensures
        r == lang_of(uri_extension(url@)),
{
    let ext = url_extension(url);
    match &ext {
        Some(e) => lang_of_extension(Some(e.as_str())),
        None => lang_of_extension(None),
    }
}

/// Whether the document at `url` is a YANG module.
pub fn is_yang(url: &str) -> (r: bool)
    ensures
        r == (lang_of(uri_extension(url@)) == DocLang::Yang),
{
    match doc_lang(url) {
        DocLang::Yang => true,
        _ => false,
    }
}

} // verus!
