//! Parsed URLs as plain values.
//!
//! The URL grammar is that of `reqwest::Url`. Its parser is called here and nowhere
//! else, and what the other modules read of a URL is handed to them as text.

use crate::text;
use vstd::prelude::*;

verus! {

/// The parts of a URL that the library reads.
#[derive(Debug, Clone)]
pub struct ParsedUrl {
    pub scheme: String,
    /// The host in its serialized form.
    pub host: Option<String>,
    /// The host where it is a domain name.
    pub domain: Option<String>,
    pub path: String,
    /// The decoded pairs of the query, in order.
    pub pairs: Vec<(String, String)>,
}

/// The texts of a `ParsedUrl`.
pub struct UrlParts {
    pub scheme: Seq<char>,
    pub host: Option<Seq<char>>,
    pub domain: Option<Seq<char>>,
    pub path: Seq<char>,
    pub pairs: Seq<(Seq<char>, Seq<char>)>,
}

pub open spec fn pair_texts(pairs: Seq<(String, String)>) -> Seq<(Seq<char>, Seq<char>)> {
    Seq::new(pairs.len(), |i: int| (pairs[i].0@, pairs[i].1@))
}

impl View for ParsedUrl {
    type V = UrlParts;

    open spec fn view(&self) -> UrlParts {
        UrlParts {
            scheme: self.scheme@,
            host: text::opt_text(self.host),
            domain: text::opt_text(self.domain),
            path: self.path@,
            pairs: pair_texts(self.pairs@),
        }
    }
}

/// The parts of the URL that `reqwest::Url::parse` reads from a text; `None` where
/// it reports an error.
pub uninterp spec fn parsed_url(text: Seq<char>) -> Option<UrlParts>;

/// Calls `reqwest::Url::parse` and copies `scheme`, `host_str`, `domain`, `path` and
/// `query_pairs` of the result. Claimed: the parts depend on the text alone.
#[verifier::external_body]
pub(crate) fn parse_url(text: &str) -> (r: Option<ParsedUrl>)
    ensures
        match r {
            Some(u) => parsed_url(text@) == Some(u@),
            None => parsed_url(text@) is None,
        },
{
    reqwest::Url::parse(text).ok().map(|url| ParsedUrl {
        scheme: url.scheme().to_owned(),
        host: url.host_str().map(|h| h.to_owned()),
        domain: url.domain().map(|d| d.to_owned()),
        path: url.path().to_owned(),
        pairs: url.query_pairs().map(|(k, v)| (k.into_owned(), v.into_owned())).collect(),
    })
}

/// The serialized URL without its query and fragment.
pub uninterp spec fn url_without_query(text: Seq<char>) -> Option<Seq<char>>;

/// Parses the text with `reqwest::Url::parse`, removes the fragment and the query with
/// `set_fragment(None)` and `set_query(None)`, and serializes the rest. Claimed: the
/// result depends on the text alone, and there is one where the text is a URL.
#[verifier::external_body]
pub(crate) fn serialize_without_query(text: &str) -> (r: Option<String>)
    ensures
        text::opt_text(r) == url_without_query(text@),
        (r is Some) == (parsed_url(text@) is Some),
{
    let mut url = reqwest::Url::parse(text).ok()?;
    url.set_fragment(None);
    url.set_query(None);
    Some(url.to_string())
}

/// The serialized URL with these pairs as its query and without a fragment.
pub uninterp spec fn url_with_pairs(
    text: Seq<char>,
    pairs: Seq<(Seq<char>, Seq<char>)>,
) -> Option<Seq<char>>;

/// Parses the text with `reqwest::Url::parse`, removes fragment and query, appends the
/// pairs with `query_pairs_mut().extend_pairs(..)` and serializes the result. Claimed:
/// the result depends on the text and on the pairs alone, and there is one where the
/// text is a URL.
#[verifier::external_body]
pub(crate) fn serialize_with_pairs(text: &str, pairs: &Vec<(String, String)>) -> (r: Option<String>)
    ensures
        text::opt_text(r) == url_with_pairs(text@, pair_texts(pairs@)),
        (r is Some) == (parsed_url(text@) is Some),
{
    let mut url = reqwest::Url::parse(text).ok()?;
    url.set_fragment(None);
    url.set_query(None);
    url.query_pairs_mut().extend_pairs(pairs.iter());
    Some(url.to_string())
}

/// The host of a URL text.
pub open spec fn host_of(text: Seq<char>) -> Option<Seq<char>> {
    match parsed_url(text) {
        Some(u) => u.host,
        None => None,
    }
}

/// The domain of a URL text.
pub open spec fn domain_of(text: Seq<char>) -> Option<Seq<char>> {
    match parsed_url(text) {
        Some(u) => u.domain,
        None => None,
    }
}

pub fn url_host(text: &str) -> (r: Option<String>)
    ensures
        text::opt_text(r) == host_of(text@),
{
    match parse_url(text) {
        Some(u) => u.host,
        None => None,
    }
}

pub fn url_domain(text: &str) -> (r: Option<String>)
    ensures
        text::opt_text(r) == domain_of(text@),
{
    match parse_url(text) {
        Some(u) => u.domain,
        None => None,
    }
}

} // verus!
