use vstd::prelude::*;
use crate::cache::{Cache, CacheEntry};
use crate::text::{lossy_utf8, utf8_lossy};
use vstd::utf8::{decode_utf8, valid_utf8};
use crate::text::{append_bytes, copy_bytes};
use crate::http::{extract_host, extract_url, find_double_crlf, request_url, url_host, blank_line_at};

verus! {

/// The reply to a client whose server cannot be reached:
/// `HTTP/1.0 502 Bad Gateway\r\n\r\n`.
pub open spec fn bad_gateway_reply() -> Seq<u8> {
    seq![
        72u8, 84, 84, 80, 47, 49, 46, 48, 32, 53, 48, 50, 32, 66, 97, 100, 32, 71, 97, 116,
        101, 119, 97, 121, 13, 10, 13, 10,
    ]
}

/// The bytes of the reply to a client whose server cannot be reached.
pub fn bad_gateway() -> (reply: Vec<u8>)
    ensures
        reply@ == bad_gateway_reply(),
{
    let reply: Vec<u8> = vec![
        72u8, 84, 84, 80, 47, 49, 46, 48, 32, 53, 48, 50, 32, 66, 97, 100, 32, 71, 97, 116,
        101, 119, 97, 121, 13, 10, 13, 10,
    ];
    assert(reply@ =~= bad_gateway_reply());
    reply
}

/// Whether `data` holds a complete HTTP head.
pub open spec fn head_complete(data: Seq<u8>) -> bool {
    exists|q: int| blank_line_at(data, q)
}

/// Where a request goes once its head has been read.
pub enum Route {
    /// The response is cached: send these bytes to the client and finish.
    Cached(Vec<u8>),
    /// Not cached: connect to this host and fetch it.
    Fetch(String),
}

/// A caching HTTP proxy that serves each client on a thread of its own; the
/// cache is shared between the threads under a lock held by the caller.
pub struct Proxy {
    pub cache: Cache,
}

impl Proxy {
    /// A proxy with an empty cache.
    pub fn new() -> (p: Self)
        ensures
            p.cache.wf(),
            p.cache@ == Map::<Seq<char>, (Seq<u8>, Seq<u8>)>::empty(),
    {
        Proxy { cache: Cache::new() }
    }
}

/// The state of one client of the proxy: the request read so far, its URL
/// once known, and the response fetched so far.
pub struct ClientSession {
    request: Vec<u8>,
    url: String,
    response: Vec<u8>,
}

/// What a client session holds.
pub struct SessionState {
    pub request: Seq<u8>,
    pub url: Seq<char>,
    pub response: Seq<u8>,
}

impl View for ClientSession {
    type V = SessionState;

    closed spec fn view(&self) -> SessionState {
        SessionState { request: self.request@, url: self.url@, response: self.response@ }
    }
}

impl ClientSession {
    /// A session that has read nothing yet.
    pub fn new() -> (s: Self)
        ensures
            s@ == (SessionState {
                request: Seq::empty(),
                url: Seq::empty(),
                response: Seq::empty(),
            }),
    {
        let url = String::new();
        ClientSession { request: Vec::new(), url, response: Vec::new() }
    }

    /// Takes the next piece of the request read from the client. Answers
    /// whether the head of the request is complete, so that it can be routed.
    pub fn on_request_data(&mut self, chunk: &[u8]) -> (complete: bool)
        ensures
            final(self)@ == (SessionState { request: old(self)@.request + chunk@, ..old(self)@ }),
            complete == head_complete(final(self)@.request),
    {
        append_bytes(&mut self.request, chunk);
        match find_double_crlf(self.request.as_slice()) {
            Some(_) => true,
            None => false,
        }
    }

    /// Decides where the request goes, given the text of the request read so
    /// far: its URL is the second word of the text's first line; when the
    /// cache holds a response for the URL, that response's data is sent back;
    /// otherwise the host of the URL is fetched from.
    pub fn route_text(&mut self, text: &str, cache: &Cache) -> (r: Route)
        requires
            cache.wf(),
        ensures
            ({
                let url = request_url(text@);
                &&& final(self)@ == (SessionState { url, ..old(self)@ })
                &&& match r {
                    Route::Cached(data) => cache@.contains_key(url) && data@ == cache@[url].1,
                    Route::Fetch(host) => !cache@.contains_key(url) && host@ == url_host(url),
                }
            }),
    {
        let url = extract_url(text);
        let r = match cache.get(&url) {
            Some(entry) => Route::Cached(copy_bytes(&entry.data)),
            None => Route::Fetch(extract_host(url.as_str())),
        };
        self.url = url;
        r
    }

    /// Decides where the request goes: the request read so far is taken as
    /// text (invalid UTF-8 replaced) and routed by `route_text`.
    pub fn route(&mut self, cache: &Cache) -> (r: Route)
        requires
            cache.wf(),
        ensures
            ({
                let url = request_url(lossy_utf8(old(self)@.request));
                &&& final(self)@ == (SessionState { url, ..old(self)@ })
                &&& valid_utf8(old(self)@.request) ==> final(self)@.url == request_url(
                    decode_utf8(old(self)@.request),
                )
                &&& match r {
                    Route::Cached(data) => cache@.contains_key(url) && data@ == cache@[url].1,
                    Route::Fetch(host) => !cache@.contains_key(url) && host@ == url_host(url),
                }
            }),
    {
        let text = utf8_lossy(self.request.as_slice());
        self.route_text(text.as_str(), cache)
    }

    /// The request as read, to send on to the server.
    pub fn request(&self) -> (req: &Vec<u8>)
        ensures
            req@ == self@.request,
    {
        &self.request
    }

    /// Takes the next piece of the server's response; the caller sends the
    /// same piece on to the client.
    pub fn on_server_data(&mut self, chunk: &[u8])
        ensures
            final(self)@ == (SessionState { response: old(self)@.response + chunk@, ..old(self)@ }),
    {
        append_bytes(&mut self.response, chunk);
    }

    /// The server has finished: the whole response is kept in the cache for
    /// the request's URL.
    pub fn store_response(self, cache: &mut Cache)
        requires
            old(cache).wf(),
        ensures
            final(cache).wf(),
            final(cache)@ == old(cache)@.insert(self@.url, (Seq::<u8>::empty(), self@.response)),
    {
        let entry = CacheEntry { headers: Vec::new(), data: self.response };
        assert(entry@ == (Seq::<u8>::empty(), self@.response));
        cache.insert(self.url, entry);
    }
}

/// A response that one client's session stored is what the next client that
/// asks for the same URL is served.
pub proof fn lemma_stored_response_is_served(
    cache: Map<Seq<char>, (Seq<u8>, Seq<u8>)>,
    stored: SessionState,
    next_request: Seq<u8>,
)
    requires
        request_url(lossy_utf8(next_request)) == stored.url,
    ensures
        ({
            let after = cache.insert(stored.url, (Seq::<u8>::empty(), stored.response));
            let url = request_url(lossy_utf8(next_request));
            &&& after.contains_key(url)
            &&& after[url].1 == stored.response
        }),
{
}

} // verus!
