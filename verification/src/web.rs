//! Addresses and replies: what the library reads of a URL and of an HTTP
//! response.
use vstd::prelude::*;
use vstd::string::*;
use crate::dom::MAX_MARKUP_CHARS;

verus! {

/// What the library reads of a parsed URL.
#[derive(Debug, Clone, PartialEq, Eq)]
pub struct Address {
    /// The URL written out in full.
    pub text: String,
    /// The scheme, without the colon.
    pub scheme: String,
    pub host: Option<String>,
}

/// An `Address` as plain values.
pub struct AddressModel {
    pub text: Seq<char>,
    pub scheme: Seq<char>,
    pub host: Option<Seq<char>>,
}

impl DeepView for Address {
    type V = AddressModel;

    open spec fn deep_view(&self) -> AddressModel {
        AddressModel { text: self.text@, scheme: self.scheme@, host: self.host.deep_view() }
    }
}

/// What `url::Url::parse` makes of `text`: nothing where it refuses the text,
/// else the URL's serialization, scheme and host.
pub uninterp spec fn parsed_address(text: Seq<char>) -> Option<AddressModel>;

/// What `url::Url::join` makes of `reference` on the URL parsed from `base`:
/// the serialization of the resulting URL, or nothing where either is refused.
pub uninterp spec fn joined_address(base: Seq<char>, reference: Seq<char>) -> Option<Seq<char>>;

/// Calls `url::Url::parse` and reads the result's `as_str`, `scheme` and
/// `host_str`. Nothing is claimed of them but that they depend on `text`
/// alone.
#[verifier::external_body]
pub(crate) fn parse_address(text: &str) -> (r: Option<Address>)
    ensures
        r.deep_view() == parsed_address(text@),
{
    url::Url::parse(text).ok().map(|u| Address {
        text: u.as_str().to_string(),
        scheme: u.scheme().to_string(),
        host: u.host_str().map(|h| h.to_string()),
    })
}

/// Calls `url::Url::join` on the URL that `url::Url::parse` makes of `base`,
/// and reads the result's `as_str`. Nothing is claimed of it but that it
/// depends on the two texts alone.
#[verifier::external_body]
pub(crate) fn join_address(base: &str, reference: &str) -> (r: Option<String>)
    ensures
        r.deep_view() == joined_address(base@, reference@),
{
    url::Url::parse(base).ok()?.join(reference).ok().map(|u| u.as_str().to_string())
}

/// The host of the URL that `text` holds, if it holds one with a host.
pub open spec fn host_of(text: Seq<char>) -> Option<Seq<char>> {
    match parsed_address(text) {
        Some(a) => a.host,
        None => None,
    }
}

/// Where the sitemap of the site of `a` is looked for: `sitemap.xml` at the
/// root of its host, if it has a host.
pub open spec fn root_sitemap_of(a: AddressModel) -> Option<Seq<char>> {
    match a.host {
        Some(h) => Some(a.scheme + "://"@ + h + "/sitemap.xml"@),
        None => None,
    }
}

/// An HTTP response as far as the library reads it.
#[derive(Debug, Clone, PartialEq, Eq)]
pub struct Reply {
    pub status: u16,
    pub body: String,
}

/// Whether an HTTP status reports success.
pub open spec fn is_success(status: u16) -> bool {
    200 <= status <= 299
}

/// The body that a fetch gave: none where it failed, where the status
/// reports no success, or where the body is longer than a page that can be
/// parsed.
pub open spec fn usable_body(reply: Option<Reply>) -> Option<Seq<char>> {
    match reply {
        Some(r) => if is_success(r.status) && r.body@.len() <= MAX_MARKUP_CHARS {
            Some(r.body@)
        } else {
            None
        },
        None => None,
    }
}

impl Address {
    /// Parses a URL.
    pub fn parse(text: &str) -> (r: Option<Address>)
        ensures
            r.deep_view() == parsed_address(text@),
    {
        parse_address(text)
    }

    /// Where the sitemap of this address's site is looked for.
    pub fn root_sitemap(&self) -> (r: Option<String>)
        ensures
            r.deep_view() == root_sitemap_of(self.deep_view()),
    {
        match &self.host {
            Some(h) => {
                let mut out = self.scheme.clone();
                out.append("://");
                out.append(h.as_str());
                out.append("/sitemap.xml");
                Some(out)
            },
            None => None,
        }
    }
}

/// The host of the URL that `text` holds, if it holds one with a host.
pub fn host(text: &str) -> (r: Option<String>)
    ensures
        r.deep_view() == host_of(text@),
{
    match parse_address(text) {
        Some(a) => a.host,
        None => None,
    }
}

impl Reply {
    /// Whether the status reports success.
    pub fn succeeded(&self) -> (r: bool)
        ensures
            r == is_success(self.status),
    {
        200 <= self.status && self.status <= 299
    }
}

/// The body that a fetch gave, if it gave one that counts.
pub fn body_of(reply: &Option<Reply>) -> (r: Option<&String>)
    ensures
        r.is_some() == usable_body(*reply).is_some(),
        r.is_some() ==> r.unwrap()@ == usable_body(*reply).unwrap(),
        r.is_some() ==> r.unwrap()@.len() <= MAX_MARKUP_CHARS,
{
    match reply {
        Some(answer) => if answer.succeeded() && answer.body.as_str().unicode_len()
            <= MAX_MARKUP_CHARS {
            Some(&answer.body)
        } else {
            None
        },
        None => None,
    }
}

} // verus!
