use vstd::prelude::*;
use vstd::string::StringExecFns;

verus! {

/// Errors raised while building matchers and policies.
#[derive(Debug)]
pub enum Error {
    /// A host pattern holds a byte outside `[A-Za-z0-9.-]`.
    UnexpectedCharacter(u8),
    /// An IP string is neither a CIDR prefix nor a `geo:` token.
    IllegalIpNet(String),
    /// The trie has run out of room for child pointers.
    TooManyDomains,
    /// Not exactly one list of a direct/proxy pair is given.
    ConfigInconsistency,
}

pub type Result<T> = core::result::Result<T, Error>;

/// What `Debug` writes for a byte taken as a `char`.
pub uninterp spec fn char_debug(c: u8) -> Seq<char>;

/// Relies on `Debug` for `char`: the character in single quotes, escaped
/// the way Rust escapes character literals.
#[verifier::external_body]
fn char_debug_text(c: u8) -> (r: String)
    ensures
        r@ == char_debug(c),
{
    format!("{:?}", c as char)
}

impl Error {
    /// The message that describes the error.
    pub fn message(&self) -> (r: String)
        ensures
            (self matches Error::UnexpectedCharacter(c) ==> r@ == "unknown character: '"@
                + char_debug(*c) + "'"@),
            (self matches Error::IllegalIpNet(s) ==> r@ == "illegal ipnet: '"@ + s@ + "'"@),
            (self matches Error::TooManyDomains ==> r@ == "too many domains"@),
            (self matches Error::ConfigInconsistency ==> r@
                == "exactly one of `directdomains` and `proxydomains`, and exactly one of `directips` and `proxyips`, should be set"@),
    {
        match self {
            Error::UnexpectedCharacter(c) => {
                let mut r = String::from_str("unknown character: '");
                r.append(char_debug_text(*c).as_str());
                r.append("'");
                r
            },
            Error::IllegalIpNet(s) => {
                let mut r = String::from_str("illegal ipnet: '");
                r.append(s.as_str());
                r.append("'");
                r
            },
            Error::TooManyDomains => String::from_str("too many domains"),
            Error::ConfigInconsistency => String::from_str(
                "exactly one of `directdomains` and `proxydomains`, and exactly one of `directips` and `proxyips`, should be set",
            ),
        }
    }
}

} // verus!
