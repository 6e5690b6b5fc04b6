//! Taking URLs apart.
use vstd::prelude::*;

verus! {

/// The scheme and the host of a URL, as the `url` crate reads them, or
/// why it is none.
pub uninterp spec fn url_parts(s: Seq<char>) -> Result<
    (Seq<char>, Option<Seq<char>>),
    Seq<char>,
>;

/// Whether the plain values of a parsed URL are the given ones.
pub open spec fn same_parts(
    r: Result<(String, Option<String>), String>,
    parts: Result<(Seq<char>, Option<Seq<char>>), Seq<char>>,
) -> bool {
    match (r, parts) {
        (Ok((scheme, host)), Ok((s, h))) => scheme@ == s && match (host, h) {
            (Some(a), Some(b)) => a@ == b,
            (None, None) => true,
            _ => false,
        },
        (Err(e), Err(f)) => e@ == f,
        _ => false,
    }
}

/// `url::Url::parse`: the scheme and the host of the URL that it reads,
/// or its error as text. All three depend on the text alone.
#[verifier::external_body]
pub(crate) fn parse_url(s: &str) -> (r: Result<(String, Option<String>), String>)
    ensures
        same_parts(r, url_parts(s@)),
{
    match url::Url::parse(s) {
        Ok(u) => Ok((u.scheme().to_string(), u.host_str().map(str::to_string))),
        Err(e) => Err(e.to_string()),
    }
}

} // verus!
