//! The requests that the search sends to the remote source, and what it
//! makes of the replies.

use crate::node::LinkFollower;
use crate::number::{parse_u32, unsigned_value};
use crate::text::{decimal, decimal_string, join, joined, numerals, texts};
use crate::trusted::{percent_encode, percent_encoded};
use vstd::prelude::*;
use vstd::string::*;
use vstd::utf8::encode_utf8;

verus! {

/// The most ids that one title query may name.
pub const TITLE_BATCH_LIMIT: usize = 50;

/// Why a query gave no result.
#[derive(Debug, Clone, Copy, PartialEq, Eq, Structural)]
pub enum QueryError {
    /// A title query named more ids than the remote source accepts.
    TooManyTitles,
    /// The remote source had nothing to say.
    NoContent,
    /// The remote source knows no page of that title.
    PageMissing,
    /// What the remote source gave as a page id is no page id.
    NotAPageId,
}

impl QueryError {
    /// The error in words.
    pub fn message(&self) -> (text: &'static str)
        ensures
            text@ == match *self {
                QueryError::TooManyTitles => "Too many titles"@,
                QueryError::NoContent => "No content available"@,
                QueryError::PageMissing => "Page does not exist."@,
                QueryError::NotAPageId => "Not a page id"@,
            },
    {
        match self {
            QueryError::TooManyTitles => "Too many titles",
            QueryError::NoContent => "No content available",
            QueryError::PageMissing => "Page does not exist.",
            QueryError::NotAPageId => "Not a page id",
        }
    }
}

/// The start of every request: the query endpoint of the site.
pub open spec fn endpoint(domain: Seq<char>) -> Seq<char> {
    "https://"@ + domain + "/api.php?action=query&format=json"@
}

/// The request for the id of the page with the given title.
pub open spec fn pageid_request(domain: Seq<char>, title: Seq<char>) -> Seq<char> {
    endpoint(domain) + "&redirects=1&titles="@ + percent_encoded(encode_utf8(title))
}

/// The request for the titles of the pages with the given ids.
pub open spec fn titles_request(domain: Seq<char>, pageids: Seq<u32>) -> Seq<char> {
    endpoint(domain) + "&redirects=1&pageids="@ + joined(numerals(pageids), "|"@)
}

fn endpoint_of(domain: &str) -> (uri: String)
    ensures
        uri@ == endpoint(domain@),
{
    let mut uri = String::from_str("https://");
    uri.append(domain);
    uri.append("/api.php?action=query&format=json");
    uri
}

/// Builds the request that resolves a title to the id of its page.
pub fn pageid_uri(domain: &str, title: &str) -> (uri: String)
    ensures
        uri@ == pageid_request(domain@, title@),
{
    let mut uri = endpoint_of(domain);
    uri.append("&redirects=1&titles=");
    let encoded = percent_encode(title);
    uri.append(encoded.as_str());
    uri
}

/// Builds the request that resolves up to fifty ids to their titles.
///
/// More ids than that are refused here, before anything is sent.
pub fn titles_uri(domain: &str, pageids: &Vec<u32>) -> (uri: Result<String, QueryError>)
    ensures
        match uri {
            Ok(text) => pageids.len() <= TITLE_BATCH_LIMIT && text@ == titles_request(
                domain@,
                pageids@,
            ),
            Err(error) => pageids.len() > TITLE_BATCH_LIMIT && error == QueryError::TooManyTitles,
        },
{
    if pageids.len() > TITLE_BATCH_LIMIT {
        return Err(QueryError::TooManyTitles);
    }
    let mut parts: Vec<String> = Vec::new();
    let mut i: usize = 0;
    while i < pageids.len()
        invariant
            i <= pageids.len(),
            parts@.len() == i,
            forall|k: int| 0 <= k < i ==> (#[trigger] parts@[k])@ == decimal(pageids@[k] as nat),
        decreases pageids.len() - i,
    {
        parts.push(decimal_string(pageids[i] as u64));
        i += 1;
    }
    assert(texts(parts@) =~= numerals(pageids@));
    let mut uri = endpoint_of(domain);
    uri.append("&redirects=1&pageids=");
    let list = join(&parts, "|");
    uri.append(list.as_str());
    Ok(uri)
}

/// Where a paged reply left off: what the next request has to repeat.
#[derive(Debug)]
pub struct Continuation {
    /// The general continuation marker.
    pub token: String,
    /// The position inside the list that is being paged through.
    pub cursor: String,
}

/// The part of a request that asks for the page after `continuation`; the
/// cursor goes under the name that the kind of list gives it.
pub open spec fn continued(continuation: Option<Continuation>, name: Seq<char>) -> Seq<char> {
    match continuation {
        None => Seq::empty(),
        Some(c) => "&continue="@ + c.token@ + name + percent_encoded(encode_utf8(c.cursor@)),
    }
}

/// The request for the pages that the page `node` links to.
pub open spec fn links_request(
    domain: Seq<char>,
    namespaces: Seq<char>,
    node: u32,
    continuation: Option<Continuation>,
) -> Seq<char> {
    endpoint(domain) + "&pageids="@ + decimal(node as nat)
        + "&generator=links&gpllimit=max&gplnamespace="@ + namespaces
        + "&redirects=1&indexpageids=1"@ + continued(continuation, "&gplcontinue="@)
}

/// The request for the pages that link to the page `node`; `show` says
/// whether redirects count.
pub open spec fn backlinks_request(
    domain: Seq<char>,
    namespaces: Seq<char>,
    node: u32,
    show: Seq<char>,
    continuation: Option<Continuation>,
) -> Seq<char> {
    endpoint(domain) + "&prop=linkshere&pageids="@ + decimal(node as nat)
        + "&lhprop=pageid&lhlimit=max&lhnamespace="@ + namespaces + continued(
        continuation,
        "&lhcontinue="@,
    ) + "&lhshow="@ + show
}

/// The request for the pages that redirect to the page `node`.
pub open spec fn redirects_request(
    domain: Seq<char>,
    namespaces: Seq<char>,
    node: u32,
    continuation: Option<Continuation>,
) -> Seq<char> {
    endpoint(domain) + "&prop=redirects&pageids="@ + decimal(node as nat)
        + "&rdprop=pageid&rdlimit=max&rdnamespace="@ + namespaces + continued(
        continuation,
        "&rdcontinue="@,
    )
}

/// Appends what asks for the page after `continuation`, if there is one.
fn append_continuation(uri: &mut String, continuation: &Option<Continuation>, name: &str)
    ensures
        final(uri)@ == old(uri)@ + continued(*continuation, name@),
{
    match continuation {
        None => {
            assert(uri@ + Seq::<char>::empty() =~= uri@);
        },
        Some(c) => {
            let ghost start = uri@;
            uri.append("&continue=");
            uri.append(c.token.as_str());
            uri.append(name);
            let cursor = percent_encode(c.cursor.as_str());
            uri.append(cursor.as_str());
            assert(uri@ =~= start + continued(*continuation, name@));
        },
    }
}

/// Builds the request for one page of the outgoing links of `node`: the
/// first page without a continuation, a later one with the continuation
/// that the page before it gave.
pub fn links_uri(
    domain: &str,
    namespaces: &str,
    node: u32,
    continuation: &Option<Continuation>,
) -> (uri: String)
    ensures
        uri@ == links_request(domain@, namespaces@, node, *continuation),
{
    let mut uri = endpoint_of(domain);
    uri.append("&pageids=");
    let id = decimal_string(node as u64);
    uri.append(id.as_str());
    uri.append("&generator=links&gpllimit=max&gplnamespace=");
    uri.append(namespaces);
    uri.append("&redirects=1&indexpageids=1");
    append_continuation(&mut uri, continuation, "&gplcontinue=");
    uri
}

/// Builds the request for one page of the incoming links of `node`.
pub fn backlinks_uri(
    domain: &str,
    namespaces: &str,
    node: u32,
    show: &str,
    continuation: &Option<Continuation>,
) -> (uri: String)
    ensures
        uri@ == backlinks_request(domain@, namespaces@, node, show@, *continuation),
{
    let mut uri = endpoint_of(domain);
    uri.append("&prop=linkshere&pageids=");
    let id = decimal_string(node as u64);
    uri.append(id.as_str());
    uri.append("&lhprop=pageid&lhlimit=max&lhnamespace=");
    uri.append(namespaces);
    append_continuation(&mut uri, continuation, "&lhcontinue=");
    uri.append("&lhshow=");
    uri.append(show);
    uri
}

/// Builds the request for one page of the redirects to `node`.
pub fn redirects_uri(
    domain: &str,
    namespaces: &str,
    node: u32,
    continuation: &Option<Continuation>,
) -> (uri: String)
    ensures
        uri@ == redirects_request(domain@, namespaces@, node, *continuation),
{
    let mut uri = endpoint_of(domain);
    uri.append("&prop=redirects&pageids=");
    let id = decimal_string(node as u64);
    uri.append(id.as_str());
    uri.append("&rdprop=pageid&rdlimit=max&rdnamespace=");
    uri.append(namespaces);
    append_continuation(&mut uri, continuation, "&rdcontinue=");
    uri
}

/// Reads the id of a page off the key under which the remote source lists
/// it in its reply to a title lookup.
///
/// The key `-1` says that there is no page of that title.  Any other key has
/// to be the id in decimal.
pub fn pageid_from_key(key: &str) -> (id: Result<u32, QueryError>)
    ensures
        match id {
            Ok(n) => key@ != "-1"@ && unsigned_value(key@) == Some(n as int),
            Err(error) => if key@ == "-1"@ {
                error == QueryError::PageMissing
            } else {
                &&& error == QueryError::NotAPageId
                &&& match unsigned_value(key@) {
                    Some(v) => v > u32::MAX,
                    None => true,
                }
            },
        },
{
    proof {
        reveal_strlit("-1");
    }
    let missing = key.unicode_len() == 2 && key.get_char(0) == '-' && key.get_char(1) == '1';
    if missing {
        assert(key@ =~= "-1"@);
        return Err(QueryError::PageMissing);
    }
    match parse_u32(key) {
        Some(n) => Ok(n),
        None => Err(QueryError::NotAPageId),
    }
}

/// Makes the root node of one side of the search from the key under which
/// the remote source lists the page of an endpoint.
pub fn follower_from_key(key: &str) -> (root: Result<LinkFollower, QueryError>)
    ensures
        match root {
            Ok(node) => key@ != "-1"@ && unsigned_value(key@) == Some(node.id() as int) && node@
                == seq![node.id()],
            Err(error) => if key@ == "-1"@ {
                error == QueryError::PageMissing
            } else {
                &&& error == QueryError::NotAPageId
                &&& match unsigned_value(key@) {
                    Some(v) => v > u32::MAX,
                    None => true,
                }
            },
        },
{
    match pageid_from_key(key) {
        Ok(id) => Ok(LinkFollower::new(id, None)),
        Err(error) => Err(error),
    }
}

} // verus!
