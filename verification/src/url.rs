//! The parts of a URL that connections need.
use vstd::prelude::*;

verus! {

/// Where a URL points.
#[derive(Debug)]
pub struct UrlParts {
    pub host: Option<String>,
    /// The port that is written, or the one its scheme has by default.
    pub port: Option<u16>,
}

impl View for UrlParts {
    type V = (Option<Seq<char>>, Option<u16>);

    open spec fn view(&self) -> (Option<Seq<char>>, Option<u16>) {
        (
            match self.host {
                Some(h) => Some(h@),
                None => None,
            },
            self.port,
        )
    }
}

/// What `reqwest::Url::parse` finds in a text: host and port, or nothing where
/// the text is no URL.
pub uninterp spec fn url_parts(text: Seq<char>) -> Option<(Option<Seq<char>>, Option<u16>)>;

/// Calls `reqwest::Url::parse`, and reads `host_str` and
/// `port_or_known_default` off the URL. It claims that the result depends on
/// the text alone.
#[verifier::external_body]
fn parse_with_reqwest(text: &str) -> (r: Option<UrlParts>)
    ensures
        match r {
            Some(parts) => url_parts(text@) == Some(parts@),
            None => url_parts(text@) is None,
        },
{
    reqwest::Url::parse(text).ok().map(|url| UrlParts {
        host: url.host_str().map(|h| h.to_string()),
        port: url.port_or_known_default(),
    })
}

/// Reads a URL.
pub fn parse_url(text: &str) -> (r: Option<UrlParts>)
    ensures
        match r {
            Some(parts) => url_parts(text@) == Some(parts@),
            None => url_parts(text@) is None,
        },
{
    parse_with_reqwest(text)
}

/// Whether a text is a URL.
pub fn is_url(text: &str) -> (b: bool)
    ensures
        b == (url_parts(text@) is Some),
{
    parse_with_reqwest(text).is_some()
}

} // verus!
