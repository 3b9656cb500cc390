//! What the library relies on from the `url` crate.

use url::ParseError;
use url::Url;
use vstd::prelude::*;

verus! {

/// The reasons why a text is not an absolute URL.
#[derive(Clone, Copy, Debug, PartialEq, Eq, Structural)]
pub enum UrlError {
    EmptyHost,
    IdnaError,
    InvalidPort,
    InvalidIpv4Address,
    InvalidIpv6Address,
    InvalidDomainCharacter,
    RelativeUrlWithoutBase,
    Overflow,
    /// A reason that is not among these.
    Other,
}

/// What `Url::parse` makes of a text: the URL in its normal form, or the reason
/// why the text is none.
pub uninterp spec fn url_parsed(text: Seq<char>) -> Result<Seq<char>, UrlError>;

/// `Url::parse` reads an absolute URL. The outcome depends on the text alone;
/// the URL is given by its serialization, which is all there is to it.
#[verifier::external_body]
pub(crate) fn parse_url(text: &str) -> (r: Result<String, UrlError>)
    ensures
        match r {
            Ok(serialization) => url_parsed(text@) == Ok::<Seq<char>, UrlError>(serialization@),
            Err(e) => url_parsed(text@) == Err::<Seq<char>, UrlError>(e),
        },
{
    match Url::parse(text) {
        Ok(parsed) => Ok(String::from(parsed)),
        Err(ParseError::EmptyHost) => Err(UrlError::EmptyHost),
        Err(ParseError::IdnaError) => Err(UrlError::IdnaError),
        Err(ParseError::InvalidPort) => Err(UrlError::InvalidPort),
        Err(ParseError::InvalidIpv4Address) => Err(UrlError::InvalidIpv4Address),
        Err(ParseError::InvalidIpv6Address) => Err(UrlError::InvalidIpv6Address),
        Err(ParseError::InvalidDomainCharacter) => Err(UrlError::InvalidDomainCharacter),
        Err(ParseError::RelativeUrlWithoutBase) => Err(UrlError::RelativeUrlWithoutBase),
        Err(ParseError::Overflow) => Err(UrlError::Overflow),
        Err(_) => Err(UrlError::Other),
    }
}

} // verus!
