use vstd::prelude::*;
use crate::cache::Cache;
use crate::text::{lossy_utf8, utf8_lossy};
use vstd::utf8::{decode_utf8, valid_utf8};
use crate::http::{first_blank_line, blank_line_at, extract_host, extract_url, find_double_crlf, request_url, url_host};
use crate::text::{append_bytes, copy_bytes};

verus! {

/// Where a client of the single-threaded proxy stands.
pub enum ClientPhase {
    /// Reading the client's request.
    ReadingRequest,
    /// The request is read; waiting for the connection to the server.
    ConnectingToServer,
    /// Connected; the request went to the server.
    Forwarding,
    /// The response came from the cache.
    ServingFromCache,
    /// Finished; the client can be forgotten.
    Done,
}

/// What a non-blocking read from the client gave.
pub enum ReadEvent {
    /// The client closed the connection.
    Closed,
    /// Nothing to read yet.
    WouldBlock,
    /// The read failed.
    Failed,
    /// These bytes.
    Data(Vec<u8>),
}

/// What the caller does after a read was handled.
pub enum RequestAction {
    /// Nothing.
    Nothing,
    /// Send the cached head and then the cached data to the client.
    ServeCached { headers: Vec<u8>, data: Vec<u8> },
    /// Connect to the host, and once connected send it the request read so far.
    Connect { host: String, request: Vec<u8> },
}

/// The state of one client of the single-threaded proxy.
pub struct ClientState {
    buffer: Vec<u8>,
    phase: ClientPhase,
    server_fd: Option<i32>,
    request_url: String,
}

/// What a client state holds.
pub struct ClientView {
    pub buffer: Seq<u8>,
    pub phase: ClientPhase,
    pub server_fd: Option<i32>,
    pub request_url: Seq<char>,
}

impl View for ClientState {
    type V = ClientView;

    closed spec fn view(&self) -> ClientView {
        ClientView {
            buffer: self.buffer@,
            phase: self.phase,
            server_fd: self.server_fd,
            request_url: self.request_url@,
        }
    }
}

impl ClientState {
    /// A client that has sent nothing yet.
    pub fn new() -> (c: Self)
        ensures
            c@ == (ClientView {
                buffer: Seq::empty(),
                phase: ClientPhase::ReadingRequest,
                server_fd: None,
                request_url: Seq::empty(),
            }),
    {
        ClientState {
            buffer: Vec::new(),
            phase: ClientPhase::ReadingRequest,
            server_fd: None,
            request_url: String::new(),
        }
    }

    /// Whether the client's request is still being read: only then is a read
    /// from the client wanted, and `handle_request` acts on what it gives.
    pub fn wants_read(&self) -> (r: bool)
        ensures
            r == (self@.phase is ReadingRequest),
    {
        match self.phase {
            ClientPhase::ReadingRequest => true,
            _ => false,
        }
    }

    /// Whether the client is finished with.
    pub fn is_done(&self) -> (r: bool)
        ensures
            r == (self@.phase is Done),
    {
        match self.phase {
            ClientPhase::Done => true,
            _ => false,
        }
    }

    /// The server connection, once there is one.
    pub fn server_fd(&self) -> (fd: Option<i32>)
        ensures
            fd == self@.server_fd,
    {
        self.server_fd
    }
}

/// A caching HTTP proxy that serves all its clients from one thread,
/// waking up for whichever connection is ready.
pub struct Proxy {
    pub cache: Cache,
}

impl Proxy {
    /// A proxy with an empty cache.
    pub fn new() -> (p: Self)
        ensures
            p.cache.wf(),
            p.cache@ == Map::<Seq<char>, (Seq<u8>, Seq<u8>)>::empty(),
    {
        Proxy { cache: Cache::new() }
    }

    /// Handles what a read from a client gave. While the request is being
    /// read: a closed or failed connection finishes the client; data is added
    /// to the request, and once the head is complete its URL (the second word
    /// of the head's first line) is looked up in the cache: a cached response
    /// is served, otherwise the caller connects to the URL's host. In every
    /// other phase nothing happens.
    pub fn handle_request(&self, state: &mut ClientState, event: ReadEvent) -> (action:
        RequestAction)
        requires
            self.cache.wf(),
        ensures
            !(old(state)@.phase is ReadingRequest) ==> action is Nothing && final(state)@ == old(
                state,
            )@,
            old(state)@.phase is ReadingRequest ==> match event {
                ReadEvent::Closed => action is Nothing && final(state)@ == (ClientView {
                    phase: ClientPhase::Done,
                    ..old(state)@
                }),
                ReadEvent::Failed => action is Nothing && final(state)@ == (ClientView {
                    phase: ClientPhase::Done,
                    ..old(state)@
                }),
                ReadEvent::WouldBlock => action is Nothing && final(state)@ == old(state)@,
                ReadEvent::Data(chunk) => {
                    let buf = old(state)@.buffer + chunk@;
                    if forall|q: int| !blank_line_at(buf, q) {
                        action is Nothing && final(state)@ == (ClientView {
                            buffer: buf,
                            ..old(state)@
                        })
                    } else {
                        exists|q: int|
                            first_blank_line(buf, q) && {
                                let url = request_url(lossy_utf8(buf.take(q + 4)));
                                &&& valid_utf8(buf.take(q + 4)) ==> final(state)@.request_url
                                    == request_url(decode_utf8(buf.take(q + 4)))
                                &&& final(state)@.buffer == buf
                                &&& final(state)@.request_url == url
                                &&& final(state)@.server_fd == old(state)@.server_fd
                                &&& if self.cache@.contains_key(url) {
                                    &&& final(state)@.phase is ServingFromCache
                                    &&& action matches RequestAction::ServeCached { headers, data }
                                    &&& headers@ == self.cache@[url].0
                                    &&& data@ == self.cache@[url].1
                                } else {
                                    &&& final(state)@.phase is ConnectingToServer
                                    &&& action matches RequestAction::Connect { host, request }
                                    &&& host@ == url_host(url)
                                    &&& request@ == buf
                                }
                            }
                    }
                },
            },
    {
        match state.phase {
            ClientPhase::ReadingRequest => {},
            _ => {
                return RequestAction::Nothing;
            },
        }
        match event {
            ReadEvent::Closed => {
                state.phase = ClientPhase::Done;
                RequestAction::Nothing
            },
            ReadEvent::Failed => {
                state.phase = ClientPhase::Done;
                RequestAction::Nothing
            },
            ReadEvent::WouldBlock => RequestAction::Nothing,
            ReadEvent::Data(chunk) => {
                append_bytes(&mut state.buffer, chunk.as_slice());
                match find_double_crlf(state.buffer.as_slice()) {
                    None => RequestAction::Nothing,
                    Some(end) => {
                        let mut head = copy_bytes(&state.buffer);
                        head.truncate(end);
                        assert(head@ =~= state.buffer@.take(end as int));
                        let text = utf8_lossy(head.as_slice());
                        assert(first_blank_line(state.buffer@, end - 4));
                        self.route_head(state, text.as_str())
                    },
                }
            },
        }
    }

    /// Acts on a request whose head has been read, given the head's text: its
    /// URL (the second word of the first line) is kept; a response cached
    /// for it is served, otherwise the caller connects to the URL's host and
    /// sends the request read so far.
    pub fn route_head(&self, state: &mut ClientState, head_text: &str) -> (action: RequestAction)
        requires
            self.cache.wf(),
        ensures
            ({
                let url = request_url(head_text@);
                &&& final(state)@.buffer == old(state)@.buffer
                &&& final(state)@.request_url == url
                &&& final(state)@.server_fd == old(state)@.server_fd
                &&& if self.cache@.contains_key(url) {
                    &&& final(state)@.phase is ServingFromCache
                    &&& action matches RequestAction::ServeCached { headers, data }
                    &&& headers@ == self.cache@[url].0
                    &&& data@ == self.cache@[url].1
                } else {
                    &&& final(state)@.phase is ConnectingToServer
                    &&& action matches RequestAction::Connect { host, request }
                    &&& host@ == url_host(url)
                    &&& request@ == old(state)@.buffer
                }
            }),
    {
        let url = extract_url(head_text);
        let action = match self.cache.get(&url) {
            Some(entry) => {
                state.phase = ClientPhase::ServingFromCache;
                RequestAction::ServeCached {
                    headers: copy_bytes(&entry.headers),
                    data: copy_bytes(&entry.data),
                }
            },
            None => {
                state.phase = ClientPhase::ConnectingToServer;
                RequestAction::Connect {
                    host: extract_host(url.as_str()),
                    request: copy_bytes(&state.buffer),
                }
            },
        };
        state.request_url = url;
        action
    }

    /// The connection to the server is up and the request went out: the
    /// client is forwarded from now on.
    pub fn server_connected(&self, state: &mut ClientState, server_fd: i32)
        ensures
            old(state)@.phase is ConnectingToServer ==> final(state)@ == (ClientView {
                phase: ClientPhase::Forwarding,
                server_fd: Some(server_fd),
                ..old(state)@
            }),
            !(old(state)@.phase is ConnectingToServer) ==> final(state)@ == old(state)@,
    {
        match state.phase {
            ClientPhase::ConnectingToServer => {
                state.phase = ClientPhase::Forwarding;
                state.server_fd = Some(server_fd);
            },
            _ => {},
        }
    }

    /// The server could not be reached: the client is finished with.
    pub fn server_unreachable(&self, state: &mut ClientState)
        ensures
            old(state)@.phase is ConnectingToServer ==> final(state)@ == (ClientView {
                phase: ClientPhase::Done,
                ..old(state)@
            }),
            !(old(state)@.phase is ConnectingToServer) ==> final(state)@ == old(state)@,
    {
        match state.phase {
            ClientPhase::ConnectingToServer => {
                state.phase = ClientPhase::Done;
            },
            _ => {},
        }
    }
}

} // verus!
