//! The slice of HTTP that the authentication interceptor reads and produces:
//! a request reduced to method, path and Authorization header, and a
//! response reduced to status and body.

use vstd::prelude::*;

verus! {

/// Request method, as far as the interceptor distinguishes methods.
#[derive(Clone, Copy, PartialEq, Eq, Structural, Debug)]
pub enum Method {
    Options,
    Get,
    Post,
    Delete,
    Other,
}

/// An inbound request, reduced to the fields the interceptor inspects.
pub struct Request {
    pub method: Method,
    pub path: String,
    pub authorization: Option<String>,
}

/// Mathematical image of a `Request`.
pub struct RequestView {
    pub method: Method,
    pub path: Seq<char>,
    pub authorization: Option<Seq<char>>,
}

impl View for Request {
    type V = RequestView;

    open spec fn view(&self) -> RequestView {
        RequestView {
            method: self.method,
            path: self.path@,
            authorization: match self.authorization {
                Option::Some(h) => Option::Some(h@),
                Option::None => Option::None,
            },
        }
    }
}

/// A response: status code and plain body.
pub struct Reply {
    pub status: u16,
    pub body: String,
}

/// Mathematical image of a `Reply`.
#[verifier::ext_equal]
pub struct ReplyView {
    pub status: u16,
    pub body: Seq<char>,
}

impl View for Reply {
    type V = ReplyView;

    open spec fn view(&self) -> ReplyView {
        ReplyView { status: self.status, body: self.body@ }
    }
}

/// The one rejection the interceptor ever produces: forbidden, empty body.
pub open spec fn forbidden_view() -> ReplyView {
    ReplyView { status: 403, body: Seq::<char>::empty() }
}

/// Builds the fixed rejection response.
pub fn forbidden() -> (r: Reply)
    ensures
        r@ == forbidden_view(),
{
    let r = Reply { status: 403, body: String::new() };
    proof {
        assert(r@ =~= forbidden_view());
    }
    r
}

} // verus!
