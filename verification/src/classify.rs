//! URL classification: decide whether a URL names an internet domain or a
//! local filesystem path.

use vstd::prelude::*;

verus! {

/// Whether `url::Url::parse` accepts the string as a well-formed absolute URL.
pub uninterp spec fn url_parses(s: Seq<char>) -> bool;

/// The domain-name host of the URL that `s` parses to, as `url::Url::domain`
/// reports it (already normalized by the parser), or `None` when the parsed
/// URL's host is absent or is an IP address.
pub uninterp spec fn url_domain(s: Seq<char>) -> Option<Seq<char>>;

/// The path component of the URL that `s` parses to, as `url::Url::path`
/// reports it.
pub uninterp spec fn url_path(s: Seq<char>) -> Seq<char>;

/// Whether the URL string's group key is a domain name rather than a local path.
pub open spec fn url_is_domain(s: Seq<char>) -> bool {
    url_domain(s) is Some
}

/// The group key of a URL string: its domain name when it has one, otherwise
/// its path component.
pub open spec fn key_of_url(s: Seq<char>) -> Seq<char> {
    match url_domain(s) {
        Some(d) => d,
        None => url_path(s),
    }
}

/// The classification of one visited URL: either it names an internet domain,
/// or it is treated as a local filesystem path.
pub enum ClassifiedTarget {
    Domain(String),
    LocalPath(String),
}

/// Relies on `url::Url::parse` to decide whether the string is a valid URL,
/// and on `url::Url::domain` and `url::Url::path` to read the parsed URL's
/// host and path components. All three are pure functions of the input
/// string: `parse` consumes only the string, and `domain` and `path` return
/// slices of the parser's normalized serialization.
#[verifier::external_body]
fn classify_raw(s: &str) -> (r: Option<ClassifiedTarget>)
    ensures
        r is Some <==> url_parses(s@),
        (match r {
            Some(ClassifiedTarget::Domain(d)) => url_domain(s@) == Some(d@),
            Some(ClassifiedTarget::LocalPath(p)) => url_domain(s@) is None && p@ == url_path(s@),
            None => !url_parses(s@),
        }),
{
    match url::Url::parse(s) {
        Err(_) => None,
        Ok(u) => match u.domain() {
            Some(d) => Some(ClassifiedTarget::Domain(d.to_string())),
            None => Some(ClassifiedTarget::LocalPath(u.path().to_string())),
        },
    }
}

/// Classify one URL string. A string that is not a valid URL yields `None`
/// (the caller turns this into a parse failure); a URL whose host is a domain
/// name yields `Domain` of that host; any other valid URL yields `LocalPath`
/// of its path component. Total on valid URL strings, and always exactly one
/// of the two variants.
pub fn classify(url: &str) -> (r: Option<ClassifiedTarget>)
    ensures
        r is Some <==> url_parses(url@),
        (match r {
            Some(ClassifiedTarget::Domain(d)) => url_is_domain(url@) && d@ == key_of_url(url@),
            Some(ClassifiedTarget::LocalPath(p)) => !url_is_domain(url@) && p@ == key_of_url(
                url@,
            ),
            None => !url_parses(url@),
        }),
{
    classify_raw(url)
}

} // verus!
