//! The HTTP view of the store: a request path is looked up as an asset of
//! the requesting tenant and shaped into a status, headers and a body.

use crate::mime::{content_type, mime_of};
use crate::store::AssetStore;
use vstd::prelude::*;
use vstd::string::StringSliceAdditionalSpecFns;

verus! {

/// A response: status code, headers as (name, value) pairs, and body.
pub struct HttpReply {
    pub status_code: u16,
    pub headers: Vec<(String, String)>,
    pub body: Vec<u8>,
}

pub open spec fn header_views(h: Seq<(String, String)>) -> Seq<(Seq<char>, Seq<char>)> {
    h.map_values(|p: (String, String)| (p.0@, p.1@))
}

/// The characters of `url` before its first `?`.
pub open spec fn before_query(url: Seq<char>) -> Seq<char>
    decreases url.len(),
{
    if url.len() == 0 || url[0] == '?' {
        Seq::empty()
    } else {
        seq![url[0]] + before_query(url.drop_first())
    }
}

/// The asset path that a request names: its path without the query and
/// without one leading `/`.
pub open spec fn request_path(url: Seq<char>) -> Seq<char> {
    let p = before_query(url);
    if p.len() > 0 && p[0] == '/' {
        p.drop_first()
    } else {
        p
    }
}

/// The headers sent with an asset of media type `mime`.
pub open spec fn asset_headers(mime: Seq<char>) -> Seq<(Seq<char>, Seq<char>)> {
    seq![
        ("Content-Type"@, mime),
        ("Access-Control-Allow-Origin"@, "*"@),
        ("Cache-Control"@, "public, max-age=3600"@),
    ]
}

/// The headers sent with a refusal.
pub open spec fn not_found_headers() -> Seq<(Seq<char>, Seq<char>)> {
    seq![("Content-Type"@, "text/plain"@), ("Access-Control-Allow-Origin"@, "*"@)]
}

proof fn lemma_before_query(url: Seq<char>, q: int)
    requires
        0 <= q <= url.len(),
        forall|j: int| 0 <= j < q ==> url[j] != '?',
        q < url.len() ==> url[q] == '?',
    ensures
        before_query(url) == url.subrange(0, q),
    decreases url.len(),
{
    if q > 0 {
        lemma_before_query(url.drop_first(), q - 1);
        assert(url.subrange(0, q) =~= seq![url[0]] + url.drop_first().subrange(0, q - 1));
    } else {
        assert(url.subrange(0, 0) =~= Seq::<char>::empty());
    }
}

/// The path that `url` names, as text.
pub fn path_of_request(url: &str) -> (r: String)
    ensures
        r@ == request_path(url@),
{
    let n = url.unicode_len();
    let mut q: usize = 0;
    while q < n && url.get_char(q) != '?'
        invariant
            n == url@.len(),
            q <= n,
            forall|j: int| 0 <= j < q ==> url@[j] != '?',
        decreases n - q,
    {
        q = q + 1;
    }
    proof {
        lemma_before_query(url@, q as int);
    }
    let start: usize = if q > 0 && url.get_char(0) == '/' {
        1
    } else {
        0
    };
    let p = url.substring_char(start, q);
    proof {
        if start == 1 {
            assert(p@ =~= url@.subrange(0, q as int).drop_first());
        } else {
            assert(p@ =~= url@.subrange(0, q as int));
        }
    }
    p.to_owned()
}

impl AssetStore {
    /// Answers a request for `url` by `tenant`: the asset that the request
    /// path names with status 200, or status 404 where there is none.
    pub fn http_request(&self, tenant: &str, url: &str) -> (r: HttpReply)
        requires
            self.wf(),
        ensures
            ({
                let p = request_path(url@);
                if p.len() > 0 && self.assets().contains_key((tenant@, p)) {
                    &&& r.status_code == 200
                    &&& r.body@ == self.assets()[(tenant@, p)]
                    &&& header_views(r.headers@) == asset_headers(mime_of(p))
                } else {
                    &&& r.status_code == 404
                    &&& r.body@ == "not found".spec_bytes()
                    &&& header_views(r.headers@) == not_found_headers()
                }
            }),
    {
        let path = path_of_request(url);
        match self.get_asset(tenant, path.as_str()) {
            Ok(body) => {
                let mut headers: Vec<(String, String)> = Vec::new();
                headers.push(("Content-Type".to_owned(), content_type(path.as_str())));
                headers.push(("Access-Control-Allow-Origin".to_owned(), "*".to_owned()));
                headers.push(("Cache-Control".to_owned(), "public, max-age=3600".to_owned()));
                assert(header_views(headers@) =~= asset_headers(mime_of(path@)));
                HttpReply { status_code: 200, headers, body }
            },
            Err(_) => {
                let mut headers: Vec<(String, String)> = Vec::new();
                headers.push(("Content-Type".to_owned(), "text/plain".to_owned()));
                headers.push(("Access-Control-Allow-Origin".to_owned(), "*".to_owned()));
                assert(header_views(headers@) =~= not_found_headers());
                HttpReply { status_code: 404, headers, body: "not found".as_bytes_vec() }
            },
        }
    }
}

} // verus!
