//! Admission control and the per-connection exchange, as a state machine driven by events.

use vstd::prelude::*;
use crate::auth::{request_credentials, AccessView, AuthManager, Authentication, IpAddress};
use crate::error::{ErrorKind, ServerError};
use crate::request::{decoder_start, opt_view, outcome, RequestDecoder, RequestView, ServerRequest, Stage};
use crate::response::{attachment, body_bytes, header_ok, lossy_utf8, response_ok, text_plain, wire_bytes, ServerResponse};
use crate::router::{resolution, Route, RouteView, Router};
use crate::trie::{PathArguments, RouteNode};

verus! {

/// A fixed number of permits; a connection is handled only while it holds one.
#[derive(Debug)]
pub struct AdmissionPool {
    capacity: usize,
    active: usize,
}

impl View for AdmissionPool {
    /// The capacity and the number of permits out.
    type V = (nat, nat);

    closed spec fn view(&self) -> (nat, nat) {
        (self.capacity as nat, self.active as nat)
    }
}

impl AdmissionPool {
    /// Never more permits out than the pool holds.
    #[verifier::type_invariant]
    spec fn inv(&self) -> bool {
        self.active <= self.capacity
    }

    pub fn new(capacity: usize) -> (r: Self)
        ensures
            r@ == (capacity as nat, 0nat),
    {
        AdmissionPool { capacity, active: 0 }
    }

    pub fn capacity(&self) -> (r: usize)
        ensures
            r == self@.0,
    {
        self.capacity
    }

    /// The permits handed out and not yet taken back; never more than the capacity.
    pub fn active(&self) -> (r: usize)
        ensures
            r == self@.1,
            r <= self@.0,
    {
        proof { use_type_invariant(self); }
        self.active
    }

    /// Hands out a permit when one is free.
    pub fn try_admit(&mut self) -> (r: bool)
        ensures
            final(self)@.0 == old(self)@.0,
            final(self)@.1 <= final(self)@.0,
            r == (old(self)@.1 < old(self)@.0),
            final(self)@.1 == if r { old(self)@.1 + 1 } else { old(self)@.1 },
    {
        proof { use_type_invariant(&*self); }
        if self.active < self.capacity {
            self.active = self.active + 1;
            true
        } else {
            false
        }
    }

    /// Takes a permit back.
    pub fn release(&mut self)
        ensures
            final(self)@.0 == old(self)@.0,
            final(self)@.1 == if old(self)@.1 > 0 { old(self)@.1 - 1 } else { 0int },
    {
        proof { use_type_invariant(&*self); }
        if self.active > 0 {
            self.active = self.active - 1;
        }
    }
}

/// Where one connection's exchange stands.
#[derive(Clone, Copy, Debug, PartialEq, Eq, Structural)]
pub enum Phase {
    /// Reading the request.
    Decoding,
    /// Waiting for a handler's response or a file's contents.
    Dispatching,
    /// Waiting for the reply to be written.
    Replying,
    /// Done; the permit has been released.
    Closed,
}

/// What happened since the last action.
#[derive(Debug)]
pub enum Event {
    /// A line was read, without its line ending.
    Line(String),
    /// The stream ended.
    EndOfStream,
    /// Reading failed.
    ReadFailed,
    /// The handler returned.
    Handled(Result<ServerResponse, ServerError>),
    /// The resource's file was read, or could not be.
    FileRead(Option<Vec<u8>>),
    /// The reply was written, or writing it failed.
    Written,
}

/// What the connection must do next.
#[derive(Debug)]
pub enum Action<H> {
    /// Read one more line.
    ReadLine,
    /// Call the handler with the request and its path arguments.
    CallHandler(H, ServerRequest, PathArguments),
    /// Read the file at `location` for resource `name`.
    ReadFile { location: String, name: String },
    /// Write these bytes, then close the connection.
    Write(Vec<u8>),
    /// Release the permit: the exchange is over.
    Release,
    /// Nothing more to do.
    Idle,
}

/// The bytes are a plain-text reply with this status.
pub open spec fn error_reply(b: Seq<u8>, status: u16) -> bool {
    exists|text: Seq<u8>| b == #[trigger] wire_bytes(status, seq![text_plain()], text)
}

/// The request's credentials are on the allow-list.
pub open spec fn admits(access: AccessView, req: RequestView) -> bool {
    match request_credentials(req.query) {
        Some(c) => access.users.contains(c),
        None => false,
    }
}

/// The action is what the exchange does once the decoder has finished with `o`.
pub open spec fn dispatch_action<H: Copy>(
    access: AccessView,
    nodes: Seq<RouteNode<H>>,
    o: Result<RequestView, ErrorKind>,
    a: Action<H>,
    phase: Phase,
) -> bool {
    match o {
        Err(k) => phase == Phase::Replying && (a matches Action::Write(b) && error_reply(b@, k.spec_status())),
        Ok(req) => if !admits(access, req) {
            phase == Phase::Replying && (a matches Action::Write(b) && error_reply(b@, 401))
        } else {
            match resolution(nodes, req.method, req.path) {
                Err(k) => phase == Phase::Replying && (a matches Action::Write(b) && error_reply(b@, k.spec_status())),
                Ok(RouteView::Rest(h, args)) => phase == Phase::Dispatching
                    && (a matches Action::CallHandler(h2, r, pa) && h2 == h && r@ == req && pa@ == args),
                Ok(RouteView::Resource(loc, name)) => phase == Phase::Dispatching
                    && (a matches Action::ReadFile { location, name: n } && location@ == loc && n@ == name),
            }
        },
    }
}

fn reply_error(e: &ServerError) -> (r: Vec<u8>)
    ensures
        error_reply(r@, e.kind.spec_status()),
{
    let resp = ServerResponse::error_response(e);
    let r = resp.into_bytes();
    assert(resp@.headers == seq![text_plain()]);
    r
}

/// One connection's exchange: IP check, decode, credential check, route, dispatch,
/// reply, release, strictly in that order.
#[derive(Debug)]
pub struct Exchange {
    pub phase: Phase,
    pub decoder: RequestDecoder,
    pub resource: String,
}

impl Exchange {
    /// Starts the exchange of an admitted connection from `peer`. A peer that is
    /// not allowed is answered `Unauthorized` before anything is read.
    pub fn new<H: Copy>(peer: IpAddress, auth: &AuthManager) -> (r: (Exchange, Action<H>))
        ensures
            r.0.decoder@ == decoder_start(),
            auth@.addresses.contains(peer) ==> r.0.phase == Phase::Decoding && r.1 is ReadLine,
            !auth@.addresses.contains(peer) ==> r.0.phase == Phase::Replying && (r.1 matches Action::Write(b) && error_reply(b@, 401)),
    {
        let decoder = RequestDecoder::new();
        if auth.allows(peer) {
            (Exchange { phase: Phase::Decoding, decoder, resource: String::new() }, Action::ReadLine)
        } else {
            let e = ServerError::new(ErrorKind::Unauthorized, "Authentication failed");
            (Exchange { phase: Phase::Replying, decoder, resource: String::new() }, Action::Write(reply_error(&e)))
        }
    }

    fn finish_decoding<H: Copy>(&mut self, auth: &AuthManager, router: &Router<H>) -> (r: Action<H>)
        requires
            !(old(self).decoder.stage == Stage::Start || old(self).decoder.stage == Stage::Headers || old(self).decoder.stage == Stage::Body),
        ensures
            dispatch_action(auth@, router@, outcome(old(self).decoder@), r, final(self).phase),
            r matches Action::ReadFile { name, .. } ==> final(self).resource@ == name@,
    {
        let mut dec = RequestDecoder::new();
        core::mem::swap(&mut dec, &mut self.decoder);
        let request = match dec.into_request() {
            Ok(req) => req,
            Err(e) => {
                self.phase = Phase::Replying;
                return Action::Write(reply_error(&e));
            },
        };
        let allowed = match Authentication::from_request(&request) {
            Ok(user) => auth.authenticate(&user),
            Err(_) => false,
        };
        if !allowed {
            self.phase = Phase::Replying;
            let e = ServerError::new(ErrorKind::Unauthorized, "Authentication failed");
            return Action::Write(reply_error(&e));
        }
        match router.resolve(&request) {
            Err(e) => {
                self.phase = Phase::Replying;
                Action::Write(reply_error(&e))
            },
            Ok(Route::Rest(h, args)) => {
                self.phase = Phase::Dispatching;
                Action::CallHandler(h, request, args)
            },
            Ok(Route::Resource { location, name }) => {
                self.phase = Phase::Dispatching;
                self.resource = name.clone();
                Action::ReadFile { location, name }
            },
        }
    }

    /// Takes the next event and says what to do next. Every path through an
    /// exchange ends in exactly one `Release`: a failure at any stage (decoding,
    /// credentials, routing, the handler, the file, the response) leads to a
    /// written reply, and the event after the reply releases the permit.
    pub fn step<H: Copy>(&mut self, event: Event, auth: &AuthManager, router: &Router<H>) -> (r: Action<H>)
        ensures
            (r is Release) == (old(self).phase == Phase::Replying),
            r matches Action::ReadFile { name, .. } ==> final(self).resource@ == name@,
            old(self).phase == Phase::Replying ==> final(self).phase == Phase::Closed,
            old(self).phase == Phase::Closed ==> final(self).phase == Phase::Closed && r is Idle,
            old(self).phase == Phase::Dispatching ==> final(self).phase == Phase::Replying && match event {
                Event::Handled(Ok(resp)) => if response_ok(resp@) {
                    r matches Action::Write(b) && b@ == wire_bytes(resp@.status, resp@.headers, lossy_utf8(body_bytes(resp@.body)))
                } else {
                    r matches Action::Write(b) && error_reply(b@, 500)
                },
                Event::Handled(Err(e)) => r matches Action::Write(b) && error_reply(b@, e.kind.spec_status()),
                Event::FileRead(Some(c)) => if header_ok(attachment(old(self).resource@)) {
                    r matches Action::Write(b) && b@ == wire_bytes(200, seq![attachment(old(self).resource@)], lossy_utf8(c@))
                } else {
                    r matches Action::Write(b) && error_reply(b@, 500)
                },
                Event::FileRead(None) => r matches Action::Write(b) && error_reply(b@, 404),
                _ => r matches Action::Write(b) && error_reply(b@, 500),
            },
            (old(self).phase == Phase::Replying || old(self).phase == Phase::Closed) ==> final(self).decoder@ == old(self).decoder@,
            old(self).phase == Phase::Decoding ==> match event {
                Event::Line(l) => {
                    let d = crate::request::feed(old(self).decoder@, l@);
                    if d.stage == Stage::Start || d.stage == Stage::Headers || d.stage == Stage::Body {
                        r is ReadLine && final(self).phase == Phase::Decoding && final(self).decoder@ == d
                    } else {
                        dispatch_action(auth@, router@, outcome(d), r, final(self).phase)
                    }
                },
                Event::EndOfStream => dispatch_action(
                    auth@,
                    router@,
                    outcome(crate::request::close(old(self).decoder@)),
                    r,
                    final(self).phase,
                ),
                Event::ReadFailed => final(self).phase == Phase::Replying && (r matches Action::Write(b) && error_reply(b@, 400)),
                _ => final(self).phase == Phase::Replying && (r matches Action::Write(b) && error_reply(b@, 500)),
            },
    {
        match self.phase {
            Phase::Closed => Action::Idle,
            Phase::Replying => {
                self.phase = Phase::Closed;
                Action::Release
            },
            Phase::Dispatching => {
                self.phase = Phase::Replying;
                let reply = match event {
                    Event::Handled(Ok(resp)) => {
                        if resp.is_sendable() {
                            Ok(resp)
                        } else {
                            Err(ServerError::err("Invalid response"))
                        }
                    },
                    Event::Handled(Err(e)) => Err(e),
                    Event::FileRead(contents) => ServerResponse::file(self.resource.as_str(), contents),
                    _ => Err(ServerError::err("Unexpected event")),
                };
                match reply {
                    Ok(resp) => Action::Write(resp.into_bytes()),
                    Err(e) => Action::Write(reply_error(&e)),
                }
            },
            Phase::Decoding => {
                match event {
                    Event::Line(l) => {
                        self.decoder.push_line(l.as_str());
                        if self.decoder.wants_line() {
                            Action::ReadLine
                        } else {
                            self.finish_decoding(auth, router)
                        }
                    },
                    Event::EndOfStream => {
                        self.decoder.end_of_stream();
                        self.finish_decoding(auth, router)
                    },
                    Event::ReadFailed => {
                        self.phase = Phase::Replying;
                        let e = ServerError::new(ErrorKind::Parse, "Error reading request");
                        Action::Write(reply_error(&e))
                    },
                    _ => {
                        self.phase = Phase::Replying;
                        let e = ServerError::err("Unexpected event");
                        Action::Write(reply_error(&e))
                    },
                }
            },
        }
    }
}

} // verus!
