//! Locators of the scheme `http` and their parts.

use crate::text::{
    after, before, cut_once, occurs_at, stands_at, string_of, to_chars, up_to,
};
use vstd::prelude::*;

verus! {

/// Whether `url` begins with the one scheme that is supported, `http`,
/// and the `://` behind it.
pub open spec fn has_supported_scheme(url: Seq<char>) -> bool {
    occurs_at(url, "http://"@, 0)
}

/// What stands behind the first `://`; all of `url` where there is none.
pub open spec fn scheme_removed(url: Seq<char>) -> Seq<char> {
    match after(url, "://"@) {
        Some(rest) => rest,
        None => url,
    }
}

/// The host with its port: what stands between the scheme and the first
/// `/` behind it.
pub open spec fn authority(url: Seq<char>) -> Seq<char> {
    before(scheme_removed(url), "/"@)
}

/// The host: the authority up to its first `:`.
pub open spec fn host_of(url: Seq<char>) -> Seq<char> {
    before(authority(url), ":"@)
}

/// The port: what stands behind the first `:` of the authority, and `80`
/// where the authority has no `:`.
pub open spec fn port_of(url: Seq<char>) -> Seq<char> {
    match after(authority(url), ":"@) {
        Some(port) => port,
        None => "80"@,
    }
}

/// The path: what stands behind the first `/` behind the scheme, up to
/// the first `?` behind that; empty where there is no such `/`.
pub open spec fn path_of(url: Seq<char>) -> Seq<char> {
    match after(scheme_removed(url), "/"@) {
        Some(rest) => before(rest, "?"@),
        None => Seq::empty(),
    }
}

/// The search part: what stands behind the first `?` of `url`; empty
/// where there is none.
pub open spec fn searchpart_of(url: Seq<char>) -> Seq<char> {
    match after(url, "?"@) {
        Some(rest) => rest,
        None => Seq::empty(),
    }
}

/// What a locator is to the contracts: the text it was made from and the
/// four parts of it.
pub ghost struct UrlView {
    pub url: Seq<char>,
    pub host: Seq<char>,
    pub port: Seq<char>,
    pub path: Seq<char>,
    pub searchpart: Seq<char>,
}

/// The parts of the locator `url`.
pub open spec fn parts_of(url: Seq<char>) -> UrlView {
    UrlView {
        url,
        host: host_of(url),
        port: port_of(url),
        path: path_of(url),
        searchpart: searchpart_of(url),
    }
}

/// A locator of the scheme `http`, cut into its parts.
#[derive(Debug, PartialEq, Eq)]
pub struct Url {
    url: String,
    host: String,
    port: String,
    path: String,
    searchpart: String,
}

impl View for Url {
    type V = UrlView;

    closed spec fn view(&self) -> UrlView {
        UrlView {
            url: self.url@,
            host: self.host@,
            port: self.port@,
            path: self.path@,
            searchpart: self.searchpart@,
        }
    }
}

impl Clone for Url {
    fn clone(&self) -> (copy: Self)
        ensures
            copy@ == self@,
    {
        Url {
            url: self.url.clone(),
            host: self.host.clone(),
            port: self.port.clone(),
            path: self.path.clone(),
            searchpart: self.searchpart.clone(),
        }
    }
}

impl Url {
    /// Cuts `url` into its parts. A text that does not begin with
    /// `http://` is refused with the message `Invalid scheme.`.
    pub fn new(url: String) -> (result: Result<Self, String>)
        ensures
            match result {
                Ok(parsed) => has_supported_scheme(url@) && parsed@ == parts_of(url@),
                Err(message) => !has_supported_scheme(url@) && message@ == "Invalid scheme."@,
            },
    {
        if !is_supported_protocol(url.as_str()) {
            return Err(String::from_str("Invalid scheme."));
        }
        let host = extract_host(url.as_str());
        let port = extract_port(url.as_str());
        let path = extract_path(url.as_str());
        let searchpart = extract_searchpart(url.as_str());
        Ok(Url { url, host, port, path, searchpart })
    }

    /// A copy of the text that the locator was made from.
    pub fn url(&self) -> (text: String)
        ensures
            text@ == self@.url,
    {
        self.url.clone()
    }

    /// A copy of the host.
    pub fn host(&self) -> (text: String)
        ensures
            text@ == self@.host,
    {
        self.host.clone()
    }

    /// A copy of the port.
    pub fn port(&self) -> (text: String)
        ensures
            text@ == self@.port,
    {
        self.port.clone()
    }

    /// A copy of the path.
    pub fn path(&self) -> (text: String)
        ensures
            text@ == self@.path,
    {
        self.path.clone()
    }

    /// A copy of the search part.
    pub fn searchpart(&self) -> (text: String)
        ensures
            text@ == self@.searchpart,
    {
        self.searchpart.clone()
    }
}

/// Tells whether `url` begins with `http://`.
fn is_supported_protocol(url: &str) -> (yes: bool)
    ensures
        yes == has_supported_scheme(url@),
{
    let text = to_chars(url);
    let scheme = to_chars("http://");
    stands_at(&text, &scheme, 0)
}

/// What stands behind the first `://` of `url`.
fn remove_scheme(url: &str) -> (rest: Vec<char>)
    ensures
        rest@ == scheme_removed(url@),
{
    let text = to_chars(url);
    match cut_once(&text, "://") {
        Some((_, rest)) => rest,
        None => text,
    }
}

/// The host of `url`.
fn extract_host(url: &str) -> (host: String)
    ensures
        host@ == host_of(url@),
{
    string_of(&up_to(up_to(remove_scheme(url), "/"), ":"))
}

/// The port of `url`.
fn extract_port(url: &str) -> (port: String)
    ensures
        port@ == port_of(url@),
{
    let authority = up_to(remove_scheme(url), "/");
    match cut_once(&authority, ":") {
        Some((_, number)) => string_of(&number),
        None => String::from_str("80"),
    }
}

/// The path of `url`.
fn extract_path(url: &str) -> (path: String)
    ensures
        path@ == path_of(url@),
{
    match cut_once(&remove_scheme(url), "/") {
        Some((_, rest)) => string_of(&up_to(rest, "?")),
        None => String::new(),
    }
}

/// The search part of `url`.
fn extract_searchpart(url: &str) -> (searchpart: String)
    ensures
        searchpart@ == searchpart_of(url@),
{
    match cut_once(&to_chars(url), "?") {
        Some((_, rest)) => string_of(&rest),
        None => String::new(),
    }
}

} // verus!
