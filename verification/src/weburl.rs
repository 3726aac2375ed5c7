//! Absolute URLs, as far as this crate reads them.
//!
//! Parsing is left to the `url` crate. What comes back is kept as three plain
//! strings: the serialization of the URL, its host and its path. Two URLs are
//! the same resource exactly when their serializations agree.

use crate::error::MirrorError;
use vstd::prelude::*;

verus! {

/// Makes `url::ParseError` known as an opaque type. Nothing is said of its
/// values: a failed parse is only told apart from a successful one.
#[verifier::external_type_specification]
#[verifier::external_body]
pub struct ExParseError(url::ParseError);

/// A parsed absolute URL.
#[derive(Debug, PartialEq, Eq)]
pub struct WebUrl {
    /// The URL written out in full, normalised by the parser.
    pub href: String,
    /// The host, where the URL has one.
    pub host: Option<String>,
    /// The path, percent-encoded.
    pub path: String,
}

/// The mathematical content of a [`WebUrl`].
pub struct WebUrlView {
    pub href: Seq<char>,
    pub host: Option<Seq<char>>,
    pub path: Seq<char>,
}

impl View for WebUrl {
    type V = WebUrlView;

    open spec fn view(&self) -> WebUrlView {
        WebUrlView {
            href: self.href@,
            host: match self.host {
                Some(h) => Some(h@),
                None => None,
            },
            path: self.path@,
        }
    }
}

impl DeepView for WebUrl {
    type V = WebUrlView;

    open spec fn deep_view(&self) -> WebUrlView {
        self@
    }
}

/// What the `url` crate makes of `input`: the parts of the parsed URL, or
/// `None` where `input` is not an absolute URL.
pub uninterp spec fn parsed_url(input: Seq<char>) -> Option<WebUrlView>;

/// Calls `url::Url::parse` and copies out `as_str()`, `host_str()` and
/// `path()` of the result. The contract only names the outcome: the same
/// input always parses to the same parts, or always fails.
#[verifier::external_body]
fn parse_absolute(input: &str) -> (r: Result<WebUrl, url::ParseError>)
    ensures
        match r {
            Ok(u) => parsed_url(input@) == Some(u@),
            Err(_) => parsed_url(input@) is None,
        },
{
    let parsed = url::Url::parse(input)?;
    Ok(
        WebUrl {
            href: parsed.as_str().to_owned(),
            host: parsed.host_str().map(str::to_owned),
            path: parsed.path().to_owned(),
        },
    )
}

impl Clone for WebUrl {
    fn clone(&self) -> (r: WebUrl)
        ensures
            r@ == self@,
    {
        WebUrl {
            href: self.href.clone(),
            host: match &self.host {
                Some(h) => Some(h.clone()),
                None => None,
            },
            path: self.path.clone(),
        }
    }
}

impl WebUrl {
    /// Parses an absolute URL.
    pub fn parse(input: &str) -> (r: Result<WebUrl, MirrorError>)
        ensures
            match r {
                Ok(u) => parsed_url(input@) == Some(u@),
                Err(e) => e == MirrorError::InvalidUrl && parsed_url(input@) is None,
            },
    {
        match parse_absolute(input) {
            Ok(u) => Ok(u),
            Err(_) => Err(MirrorError::InvalidUrl),
        }
    }

    /// The URL written out in full.
    pub fn as_str(&self) -> (s: &str)
        ensures
            s@ == self@.href,
    {
        self.href.as_str()
    }

    /// The host, where the URL has one.
    pub fn host_str(&self) -> (h: Option<&str>)
        ensures
            match h {
                Some(s) => self@.host == Some(s@),
                None => self@.host is None,
            },
    {
        match &self.host {
            Some(h) => Some(h.as_str()),
            None => None,
        }
    }

    /// The path.
    pub fn path(&self) -> (s: &str)
        ensures
            s@ == self@.path,
    {
        self.path.as_str()
    }

    /// Whether both URLs name the same host, or both name none. Scheme and
    /// port play no part.
    pub fn same_host(&self, other: &WebUrl) -> (r: bool)
        ensures
            r == (self@.host == other@.host),
    {
        match (&self.host, &other.host) {
            (None, None) => true,
            (Some(a), Some(b)) => *a == *b,
            _ => false,
        }
    }

    /// Whether both values are the same URL. URLs compare like their text.
    pub fn same(&self, other: &WebUrl) -> (r: bool)
        ensures
            r == (self@.href == other@.href),
    {
        self.href == other.href
    }
}

} // verus!
