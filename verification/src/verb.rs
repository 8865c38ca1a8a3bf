//! The request methods (verbs) that routes are registered for.

use crate::text::same_text;
use vstd::prelude::*;

verus! {

/// The request method of the `http` crate, which the library reads by name
/// alone.
#[verifier::external_type_specification]
#[verifier::external_body]
pub struct ExHttpMethod(http::Method);

/// The name that `http::Method::as_str` returns for `method`. Which name
/// that is for a given method is the business of the `http` crate; the
/// library relies only on its being the same name whenever it is asked of
/// the same method.
pub uninterp spec fn http_method_text(method: http::Method) -> Seq<char>;

/// Calls `http::Method::as_str` and copies the name that it returns. The
/// contract claims that the name depends on the method alone: `as_str`
/// reads nothing but the method that it is called on.
#[verifier::external_body]
fn http_method_name(method: &http::Method) -> (name: String)
    ensures
        name@ == http_method_text(*method),
{
    method.as_str().to_owned()
}

/// A standard HTTP request method.
#[derive(Debug, Clone, Copy, PartialEq, Eq, Hash, Structural)]
pub enum Verb {
    Options,
    Get,
    Post,
    Put,
    Delete,
    Head,
    Trace,
    Connect,
    Patch,
}

impl Verb {
    /// The method's name as it stands in a request line.
    pub open spec fn spec_name(self) -> Seq<char> {
        match self {
            Verb::Options => "OPTIONS"@,
            Verb::Get => "GET"@,
            Verb::Post => "POST"@,
            Verb::Put => "PUT"@,
            Verb::Delete => "DELETE"@,
            Verb::Head => "HEAD"@,
            Verb::Trace => "TRACE"@,
            Verb::Connect => "CONNECT"@,
            Verb::Patch => "PATCH"@,
        }
    }

    /// The method's name as it stands in a request line.
    pub fn as_str(&self) -> (name: &'static str)
        ensures
            name@ == self.spec_name(),
    {
        match self {
            Verb::Options => "OPTIONS",
            Verb::Get => "GET",
            Verb::Post => "POST",
            Verb::Put => "PUT",
            Verb::Delete => "DELETE",
            Verb::Head => "HEAD",
            Verb::Trace => "TRACE",
            Verb::Connect => "CONNECT",
            Verb::Patch => "PATCH",
        }
    }

    /// The standard method that has the name of `method`, if one has: the
    /// verb whose name is the one that `http::Method::as_str` gives for
    /// `method`, and none where that is the name of no verb.
    pub fn from_http(method: &http::Method) -> (found: Option<Verb>)
        ensures
            match found {
                Some(verb) => http_method_text(*method) == verb.spec_name(),
                None => forall|verb: Verb| http_method_text(*method) != verb.spec_name(),
            },
    {
        let name = http_method_name(method);
        Verb::from_name(name.as_str())
    }

    /// The method that `name` names, if it names a standard one. Names are
    /// compared as they stand: `get` names no method.
    pub fn from_name(name: &str) -> (method: Option<Verb>)
        ensures
            match method {
                Some(m) => name@ == m.spec_name(),
                None => forall|m: Verb| name@ != m.spec_name(),
            },
    {
        if same_text(name, "OPTIONS") {
            Some(Verb::Options)
        } else if same_text(name, "GET") {
            Some(Verb::Get)
        } else if same_text(name, "POST") {
            Some(Verb::Post)
        } else if same_text(name, "PUT") {
            Some(Verb::Put)
        } else if same_text(name, "DELETE") {
            Some(Verb::Delete)
        } else if same_text(name, "HEAD") {
            Some(Verb::Head)
        } else if same_text(name, "TRACE") {
            Some(Verb::Trace)
        } else if same_text(name, "CONNECT") {
            Some(Verb::Connect)
        } else if same_text(name, "PATCH") {
            Some(Verb::Patch)
        } else {
            None
        }
    }
}

} // verus!
