//! The request router: the first request line alone decides between the index
//! resource and the error resource.

use crate::request::lines_view;
use crate::response::is_single_line;
use vstd::prelude::*;
use vstd::string::*;
use vstd::utf8::*;

verus! {

/// The two outcomes of routing.
#[derive(Clone, Copy, Debug, PartialEq, Eq, Structural)]
pub enum Route {
    Found,
    NotFound,
}

/// The one request line that is recognised.
pub open spec fn root_request_line() -> Seq<char> {
    "GET / HTTP/1.1"@
}

/// The route of a first request line: `Found` for exactly the root request
/// line, `NotFound` for every other sequence of characters.
pub open spec fn route_of(first_line: Seq<char>) -> Route {
    if first_line == root_request_line() {
        Route::Found
    } else {
        Route::NotFound
    }
}

impl Route {
    /// The status line that answers this route.
    pub open spec fn spec_status_line(self) -> Seq<char> {
        match self {
            Route::Found => "HTTP/1.1 200 OK"@,
            Route::NotFound => "HTTP/1.1 404 NOT FOUND"@,
        }
    }

    /// The key of the resource that is served for this route.
    pub open spec fn spec_resource_key(self) -> Seq<char> {
        match self {
            Route::Found => "hello.html"@,
            Route::NotFound => "404.html"@,
        }
    }

    /// The status line that answers this route.
    pub fn status_line(self) -> (line: &'static str)
        ensures
            line@ == self.spec_status_line(),
    {
        match self {
            Route::Found => "HTTP/1.1 200 OK",
            Route::NotFound => "HTTP/1.1 404 NOT FOUND",
        }
    }

    /// The key of the resource that is served for this route.
    pub fn resource_key(self) -> (key: &'static str)
        ensures
            key@ == self.spec_resource_key(),
    {
        match self {
            Route::Found => "hello.html",
            Route::NotFound => "404.html",
        }
    }
}

/// The routing decision for a sequence of request lines: the status line and
/// the resource key of the first line's route.
pub open spec fn routing_decision(lines: Seq<Seq<char>>) -> (Seq<char>, Seq<char>)
    recommends
        lines.len() > 0,
{
    (route_of(lines[0]).spec_status_line(), route_of(lines[0]).spec_resource_key())
}

/// Only the root request line is found: it gets the index decision, and every
/// other first line, whatever it holds, gets the error decision.
pub proof fn lemma_only_root_is_found(lines: Seq<Seq<char>>)
    requires
        lines.len() > 0,
    ensures
        lines[0] == "GET / HTTP/1.1"@ ==> routing_decision(lines) == (
            "HTTP/1.1 200 OK"@,
            "hello.html"@,
        ),
        lines[0] != "GET / HTTP/1.1"@ ==> routing_decision(lines) == (
            "HTTP/1.1 404 NOT FOUND"@,
            "404.html"@,
        ),
{
}

/// Routing reads the first line alone: two requests that begin with the same
/// line get the same decision, whatever header lines follow in either.
pub proof fn lemma_decision_ignores_headers(a: Seq<Seq<char>>, b: Seq<Seq<char>>)
    requires
        a.len() > 0,
        b.len() > 0,
        a[0] == b[0],
    ensures
        routing_decision(a) == routing_decision(b),
{
}

/// The two routes answer with different status lines and different resources.
pub proof fn lemma_routes_differ()
    ensures
        Route::Found.spec_status_line() != Route::NotFound.spec_status_line(),
        Route::Found.spec_resource_key() != Route::NotFound.spec_resource_key(),
{
    reveal_strlit("HTTP/1.1 200 OK");
    reveal_strlit("HTTP/1.1 404 NOT FOUND");
    reveal_strlit("hello.html");
    reveal_strlit("404.html");
    assert("HTTP/1.1 200 OK"@.len() != "HTTP/1.1 404 NOT FOUND"@.len());
    assert("hello.html"@.len() != "404.html"@.len());
}

/// Neither status line holds a line break.
pub proof fn lemma_status_line_is_single_line(route: Route)
    ensures
        is_single_line(encode_utf8(route.spec_status_line())),
{
    reveal_strlit("HTTP/1.1 200 OK");
    reveal_strlit("HTTP/1.1 404 NOT FOUND");
    let line = route.spec_status_line();
    assert(is_ascii_chars(line));
    is_ascii_chars_encode_utf8(line);
}

/// Whether two strings hold the same characters, decided on their bytes.
pub fn same_text(a: &str, b: &str) -> (same: bool)
    ensures
        same == (a@ == b@),
{
    let x = a.as_bytes();
    let y = b.as_bytes();
    proof {
        encode_utf8_decode_utf8(a@);
        encode_utf8_decode_utf8(b@);
    }
    if x.len() != y.len() {
        return false;
    }
    let mut i: usize = 0;
    while i < x.len()
        invariant
            i <= x.len(),
            x.len() == y.len(),
            x@ == a.spec_bytes(),
            y@ == b.spec_bytes(),
            forall|j: int| 0 <= j < i ==> x@[j] == y@[j],
        decreases x.len() - i,
    {
        if x[i] != y[i] {
            return false;
        }
        i += 1;
    }
    assert(x@ =~= y@);
    true
}

/// Routes one request line.
pub fn route_request(first_line: &str) -> (route: Route)
    ensures
        route == route_of(first_line@),
{
    if same_text(first_line, "GET / HTTP/1.1") {
        Route::Found
    } else {
        Route::NotFound
    }
}

/// Decides the response for a request from its first line alone.
pub fn parse_request<'a>(http_request: Vec<String>) -> (decision: (&'a str, &'a str))
    requires
        http_request@.len() > 0,
    ensures
        decision.0@ == routing_decision(lines_view(http_request@)).0,
        decision.1@ == routing_decision(lines_view(http_request@)).1,
{
    let route = route_request(http_request[0].as_str());
    (route.status_line(), route.resource_key())
}

} // verus!
