use vstd::prelude::*;

verus! {

#[verifier::external_type_specification]
#[verifier::external_body]
#[verifier::reject_recursive_types(T)]
pub struct ExRequest<T>(hyper::Request<T>);

#[verifier::external_type_specification]
#[verifier::external_body]
pub struct ExBody(hyper::Body);

#[verifier::external_type_specification]
#[verifier::external_body]
pub struct ExHttpError(hyper::http::Error);

/// One fetch: the URL, the method, and once the response has arrived its
/// status code and, for an HTML response, its body.
#[derive(Debug)]
pub struct Message {
    pub url: String,
    pub method: String,
    pub status: Option<u16>,
    pub response_body: Option<Vec<u8>>,
}

/// The method of every fetch the crawler makes.
pub open spec fn get_method() -> Seq<char> {
    seq!['G', 'E', 'T']
}

/// Whether hyper builds a request for this URL and method.
pub uninterp spec fn request_builds(url: Seq<char>, method: Seq<char>) -> bool;

impl Message {
    /// A fetch of `uri` with `method` that has not completed.
    pub fn new_message(uri: &str, method: &str) -> (r: Message)
        ensures
            r.url@ == uri@,
            r.method@ == method@,
            r.status.is_none(),
            r.response_body.is_none(),
    {
        Message { url: uri.to_owned(), method: method.to_owned(), status: None, response_body: None }
    }

    /// A GET fetch of `uri` that has not completed.
    pub fn get(uri: &str) -> (r: Message)
        ensures
            r.url@ == uri@,
            r.method@ == get_method(),
            r.status.is_none(),
            r.response_body.is_none(),
    {
        proof {
            reveal_strlit("GET");
        }
        let r = Message::new_message(uri, "GET");
        assert(r.method@ =~= get_method());
        r
    }
}

/// Relies on hyper's `Request::builder()` with `.uri(..)`, `.method(..)` and
/// `.body(Body::empty())`: the request is built when the URL parses as a URI
/// and the method as an HTTP method, which depends on the two strings alone.
#[verifier::external_body]
pub(crate) fn create_request(msg: &Message) -> (r: Result<hyper::Request<hyper::Body>, hyper::http::Error>)
    ensures
        r.is_ok() == request_builds(msg.url@, msg.method@),
{
    hyper::Request::builder().uri(msg.url.as_str()).method(msg.method.as_str()).body(
        hyper::Body::empty(),
    )
}

} // verus!
