//! The server's state and its answer to each request.
//!
//! `Get` replies with the value stored under the key, `Delete` removes the
//! key and replies with the value it had, `SetValue` stores the value and
//! replies with the value the key had before; a key with no value replies
//! with the empty string.
use crate::connection::Connection;
use crate::connection::ConnectionState;
use crate::connection::Operation;
use crate::connection::Request;
use crate::connection::Parsed;
use crate::connection::parse_request;
use crate::connection::encode_request;
use crate::connection::fits_in_frames;
use crate::connection::lemma_parse_encoded_request;
use crate::connection::lemma_parse_extends;
use crate::connection::lemma_parse_takes_bytes;
use crate::error::KvError;
use crate::wire::frame;
use crate::wire::lemma_frame_len;
use std::sync::atomic::AtomicBool;
use std::sync::mpsc::Sender;
use std::sync::Arc;
use vstd::hash_map::StringHashMap;
use vstd::prelude::*;
use vstd::utf8::encode_utf8;

verus! {

/// Declares std's `mpsc::Sender` to Verus as an opaque type: the server only
/// carries it, and nothing is claimed of what it holds.
#[verifier::external_type_specification]
#[verifier::external_body]
#[verifier::reject_recursive_types(T)]
pub struct ExSender<T>(Sender<T>);

/// The value `store` holds under `key`, or the empty string.
pub open spec fn value_or_empty(store: Map<Seq<char>, Seq<char>>, key: Seq<char>) -> Seq<char> {
    if store.contains_key(key) {
        store[key]
    } else {
        Seq::empty()
    }
}

/// The store after `request`, and the reply to it.
pub open spec fn apply(store: Map<Seq<char>, Seq<char>>, request: Request) -> (Map<
    Seq<char>,
    Seq<char>,
>, Seq<char>) {
    match request {
        Request::Get { key } => (store, value_or_empty(store, key)),
        Request::Delete { key } => (store.remove(key), value_or_empty(store, key)),
        Request::SetValue { key, value } => (store.insert(key, value), value_or_empty(store, key)),
    }
}

/// A `Get` after a `SetValue` of the same key replies with the value set.
pub proof fn law_get_after_set(store: Map<Seq<char>, Seq<char>>, key: Seq<char>, value: Seq<char>)
    ensures
        apply(apply(store, Request::SetValue { key, value }).0, Request::Get { key }).1 == value,
{
}

/// A `Get` after a `Delete` of the same key replies with the empty string.
pub proof fn law_get_after_delete(store: Map<Seq<char>, Seq<char>>, key: Seq<char>)
    ensures
        apply(apply(store, Request::Delete { key }).0, Request::Get { key }).1 == Seq::<
            char,
        >::empty(),
{
}

/// A `Get` leaves the store as it was.
pub proof fn law_get_keeps_store(store: Map<Seq<char>, Seq<char>>, key: Seq<char>)
    ensures
        apply(store, Request::Get { key }).0 == store,
{
}

/// `SetValue` and `Delete` reply with what a `Get` of the same key would
/// have replied just before them.
pub proof fn law_reply_is_previous_value(
    store: Map<Seq<char>, Seq<char>>,
    key: Seq<char>,
    value: Seq<char>,
)
    ensures
        apply(store, Request::SetValue { key, value }).1 == apply(store, Request::Get { key }).1,
        apply(store, Request::Delete { key }).1 == apply(store, Request::Get { key }).1,
{
}

/// A request on one key leaves what every other key replies unchanged.
pub proof fn law_other_keys_unchanged(
    store: Map<Seq<char>, Seq<char>>,
    request: Request,
    other: Seq<char>,
)
    requires
        match request {
            Request::Get { key } => key != other,
            Request::Delete { key } => key != other,
            Request::SetValue { key, value } => key != other,
        },
    ensures
        apply(apply(store, request).0, Request::Get { key: other }).1 == apply(
            store,
            Request::Get { key: other },
        ).1,
{
}

/// What serving the bytes received on one connection comes to.
pub ghost struct Session {
    /// The store afterwards.
    pub store: Map<Seq<char>, Seq<char>>,
    /// The framed replies queued, in the order of the requests.
    pub replies: Seq<u8>,
    /// The bytes left undecoded.
    pub rest: Seq<u8>,
    /// Whether any request was carried out.
    pub answered: bool,
    /// The error that stopped the serving, if any.
    pub failed: Option<KvError>,
}

/// Serves the whole requests at the front of `input`, one after the other,
/// until an incomplete request is left, or a request cannot be decoded, or a
/// reply is too long to be framed (the store has then changed all the same).
pub open spec fn serve(store: Map<Seq<char>, Seq<char>>, input: Seq<u8>) -> Session
    decreases input.len(),
{
    match parse_request(input) {
        Parsed::Incomplete => Session {
            store,
            replies: Seq::empty(),
            rest: input,
            answered: false,
            failed: None,
        },
        Parsed::Failed(e) => Session {
            store,
            replies: Seq::empty(),
            rest: input,
            answered: false,
            failed: Some(e),
        },
        Parsed::Complete(request, n) => {
            let next = apply(store, request);
            let reply = encode_utf8(next.1);
            if reply.len() > u32::MAX {
                Session {
                    store: next.0,
                    replies: Seq::empty(),
                    rest: input.skip(n as int),
                    answered: true,
                    failed: Some(KvError::MessageTooLong),
                }
            } else {
                proof {
                    lemma_parse_takes_bytes(input);
                }
                let later = serve(next.0, input.skip(n as int));
                Session {
                    store: later.store,
                    replies: frame(reply) + later.replies,
                    rest: later.rest,
                    answered: true,
                    failed: later.failed,
                }
            }
        },
    }
}

/// Serving two stretches of input one after the other, the undecoded rest
/// of the first carried over in front of the second, comes to the same as
/// serving them in one go. When serving the first stretch fails, serving
/// both fails the same way, the second stretch left behind the rest.
pub proof fn lemma_serve_split(store: Map<Seq<char>, Seq<char>>, first: Seq<u8>, second: Seq<u8>)
    ensures
        ({
            let s1 = serve(store, first);
            let s2 = serve(s1.store, s1.rest + second);
            s1.failed is None ==> serve(store, first + second) == (Session {
                store: s2.store,
                replies: s1.replies + s2.replies,
                rest: s2.rest,
                answered: s1.answered || s2.answered,
                failed: s2.failed,
            })
        }),
        serve(store, first).failed is Some ==> serve(store, first + second) == (Session {
            rest: serve(store, first).rest + second,
            ..serve(store, first)
        }),
    decreases first.len(),
{
    let whole = first + second;
    lemma_parse_extends(first, second);
    lemma_parse_takes_bytes(first);
    match parse_request(first) {
        Parsed::Incomplete => {
            assert(first + second =~= serve(store, first).rest + second);
            assert(Seq::<u8>::empty() + serve(store, whole).replies =~= serve(store, whole).replies);
        },
        Parsed::Failed(e) => {},
        Parsed::Complete(request, n) => {
            let next = apply(store, request);
            assert(whole.skip(n as int) =~= first.skip(n as int) + second);
            lemma_serve_split(next.0, first.skip(n as int), second);
            let reply = encode_utf8(next.1);
            if reply.len() <= u32::MAX {
                let later = serve(next.0, first.skip(n as int));
                let s2 = serve(later.store, later.rest + second);
                assert(frame(reply) + later.replies + s2.replies =~= frame(reply) + (later.replies
                    + s2.replies));
            }
        },
    }
}

/// The serving that one read after another of `chunks` comes to, starting
/// with the undecoded bytes `pending`: each read is served as it arrives,
/// and serving stops at the first failure.
pub open spec fn serve_reads(
    store: Map<Seq<char>, Seq<char>>,
    pending: Seq<u8>,
    chunks: Seq<Seq<u8>>,
) -> Session
    decreases chunks.len(),
{
    if chunks.len() == 0 {
        Session { store, replies: Seq::empty(), rest: pending, answered: false, failed: None }
    } else {
        let s1 = serve(store, pending + chunks[0]);
        if s1.failed is Some {
            s1
        } else {
            let s2 = serve_reads(s1.store, s1.rest, chunks.drop_first());
            Session {
                store: s2.store,
                replies: s1.replies + s2.replies,
                rest: s2.rest,
                answered: s1.answered || s2.answered,
                failed: s2.failed,
            }
        }
    }
}

/// Serving stops without an error only where an incomplete request is left.
pub proof fn lemma_serve_rest_incomplete(store: Map<Seq<char>, Seq<char>>, input: Seq<u8>)
    ensures
        serve(store, input).failed is None ==> parse_request(serve(store, input).rest)
            == Parsed::Incomplete,
    decreases input.len(),
{
    lemma_parse_takes_bytes(input);
    if let Parsed::Complete(request, n) = parse_request(input) {
        lemma_serve_rest_incomplete(apply(store, request).0, input.skip(n as int));
    }
}

/// However the bytes a client sends are split into reads, serving each read
/// as it arrives queues the same replies, in the same order, and leaves the
/// same store as serving all the bytes at once, as long as that serving
/// meets no error.
pub proof fn law_reads_serve_as_one(
    store: Map<Seq<char>, Seq<char>>,
    pending: Seq<u8>,
    chunks: Seq<Seq<u8>>,
)
    requires
        parse_request(pending) == Parsed::Incomplete,
        serve(store, pending + chunks.flatten()).failed is None,
    ensures
        serve_reads(store, pending, chunks) == serve(store, pending + chunks.flatten()),
    decreases chunks.len(),
{
    if chunks.len() == 0 {
        assert(pending + chunks.flatten() =~= pending);
    } else {
        let tail = chunks.drop_first().flatten();
        assert(chunks.flatten() =~= chunks[0] + tail) by {
            assert(chunks =~= seq![chunks[0]] + chunks.drop_first());
            chunks.drop_first().lemma_flatten_and_flatten_alt_are_equivalent();
            chunks.lemma_flatten_and_flatten_alt_are_equivalent();
        }
        let first = pending + chunks[0];
        assert(pending + chunks.flatten() =~= first + tail);
        lemma_serve_split(store, first, tail);
        let s1 = serve(store, first);
        if s1.failed is None {
            lemma_serve_rest_incomplete(store, first);
            law_reads_serve_as_one(s1.store, s1.rest, chunks.drop_first());
            assert(s1.rest + tail =~= s1.rest + chunks.drop_first().flatten());
        }
    }
}

/// Whether `request` may change what is stored under `key`.
pub open spec fn changes_key(request: Request, key: Seq<char>) -> bool {
    match request {
        Request::Get { .. } => false,
        Request::Delete { key: k } => k == key,
        Request::SetValue { key: k, .. } => k == key,
    }
}

/// Requests that change no value under `key` leave its value in place.
pub proof fn lemma_replay_keeps_key(
    store: Map<Seq<char>, Seq<char>>,
    requests: Seq<Request>,
    key: Seq<char>,
)
    requires
        forall|i: int| 0 <= i < requests.len() ==> !changes_key(#[trigger] requests[i], key),
    ensures
        value_or_empty(replay(store, requests).0, key) == value_or_empty(store, key),
    decreases requests.len(),
{
    if requests.len() > 0 {
        let others = requests.drop_first();
        assert(!changes_key(requests[0], key));
        assert forall|i: int| 0 <= i < others.len() implies !changes_key(#[trigger] others[i], key) by {
            assert(others[i] == requests[i + 1]);
        }
        lemma_replay_keeps_key(apply(store, requests[0]).0, others, key);
    }
}

/// A `Get` replies with the value of the last `SetValue` of its key, however
/// many requests that change other keys, or change nothing, come between.
pub proof fn law_get_returns_last_set(
    store: Map<Seq<char>, Seq<char>>,
    key: Seq<char>,
    value: Seq<char>,
    between: Seq<Request>,
)
    requires
        forall|i: int| 0 <= i < between.len() ==> !changes_key(#[trigger] between[i], key),
    ensures
        apply(
            replay(apply(store, Request::SetValue { key, value }).0, between).0,
            Request::Get { key },
        ).1 == value,
{
    lemma_replay_keeps_key(apply(store, Request::SetValue { key, value }).0, between, key);
}

/// The bytes that send `requests`, one after the other.
pub open spec fn encode_all(requests: Seq<Request>) -> Seq<u8>
    decreases requests.len(),
{
    if requests.len() == 0 {
        Seq::empty()
    } else {
        encode_request(requests[0]) + encode_all(requests.drop_first())
    }
}

/// The store after `requests`, one after the other, and their framed
/// replies in the same order.
pub open spec fn replay(store: Map<Seq<char>, Seq<char>>, requests: Seq<Request>) -> (Map<
    Seq<char>,
    Seq<char>,
>, Seq<u8>)
    decreases requests.len(),
{
    if requests.len() == 0 {
        (store, Seq::empty())
    } else {
        let next = apply(store, requests[0]);
        let later = replay(next.0, requests.drop_first());
        (later.0, frame(encode_utf8(next.1)) + later.1)
    }
}

/// Every value stored has a length that a 4-byte header can carry.
pub open spec fn values_fit(store: Map<Seq<char>, Seq<char>>) -> bool {
    forall|k: Seq<char>| #[trigger]
        store.contains_key(k) ==> encode_utf8(store[k]).len() <= u32::MAX
}

/// Pipelining: requests sent back to back, followed by the start of one
/// that has not fully arrived, are answered one by one, in order, each on
/// the store the earlier ones left, and the unfinished request waits.
pub proof fn law_pipelined_session(
    store: Map<Seq<char>, Seq<char>>,
    requests: Seq<Request>,
    partial: Seq<u8>,
)
    requires
        values_fit(store),
        forall|i: int| 0 <= i < requests.len() ==> #[trigger] fits_in_frames(requests[i]),
        parse_request(partial) == Parsed::Incomplete,
    ensures
        serve(store, encode_all(requests) + partial) == (Session {
            store: replay(store, requests).0,
            replies: replay(store, requests).1,
            rest: partial,
            answered: requests.len() > 0,
            failed: None,
        }),
    decreases requests.len(),
{
    if requests.len() == 0 {
        assert(encode_all(requests) + partial =~= partial);
    } else {
        let r = requests[0];
        let others = requests.drop_first();
        assert(fits_in_frames(r));
        let buf = encode_all(requests) + partial;
        assert(buf =~= encode_request(r) + (encode_all(others) + partial));
        lemma_parse_encoded_request(r, encode_all(others) + partial);
        let n = encode_request(r).len();
        assert(buf.skip(n as int) =~= encode_all(others) + partial);
        let next = apply(store, r);
        assert(encode_utf8(next.1).len() <= u32::MAX) by {
            assert(encode_utf8(Seq::<char>::empty()) =~= Seq::<u8>::empty());
        }
        assert(values_fit(next.0));
        assert forall|i: int| 0 <= i < others.len() implies #[trigger] fits_in_frames(others[i]) by {
            assert(others[i] == requests[i + 1]);
        }
        law_pipelined_session(next.0, others, partial);
    }
}

/// The key-value server: where it listens, how it is stopped and told of
/// its port, and what it stores.
pub struct Server {
    port: u16,
    run: Arc<AtomicBool>,
    tx: Sender<String>,
    store: StringHashMap<String>,
}

impl View for Server {
    type V = Map<Seq<char>, Seq<char>>;

    /// What the server stores, each key and value as characters.
    closed spec fn view(&self) -> Map<Seq<char>, Seq<char>> {
        self.store@.map_values(|v: String| v@)
    }
}

impl Server {
    /// The port the server listens on; 0 asks the system for a free one.
    pub closed spec fn spec_port(&self) -> u16 {
        self.port
    }

    /// The flag that keeps the server running while it is set.
    pub closed spec fn spec_run(&self) -> Arc<AtomicBool> {
        self.run
    }

    /// Where the server sends the port it listens on.
    pub closed spec fn spec_tx(&self) -> Sender<String> {
        self.tx
    }

    /// A server with nothing stored, to listen on `maybe_port`, or on a port
    /// the system picks when there is none.
    pub fn new(maybe_port: Option<u16>, run: Arc<AtomicBool>, tx: Sender<String>) -> (result:
        Result<Self, KvError>)
        ensures
            result matches Ok(server) && {
                &&& server@ == Map::<Seq<char>, Seq<char>>::empty()
                &&& server.spec_port() == match maybe_port {
                    Some(p) => p,
                    None => 0u16,
                }
                &&& server.spec_run() == run
                &&& server.spec_tx() == tx
            },
    {
        let port = match maybe_port {
            Some(p) => p,
            None => 0,
        };
        let server = Server { port, run, tx, store: StringHashMap::new() };
        assert(server@ =~= Map::<Seq<char>, Seq<char>>::empty());
        Ok(server)
    }

    /// The port the server listens on; 0 asks the system for a free one.
    pub fn port(&self) -> (port: u16)
        ensures
            port == self.spec_port(),
    {
        self.port
    }

    /// The flag that keeps the server running while it is set.
    pub fn run_flag(&self) -> (run: &Arc<AtomicBool>)
        ensures
            *run == self.spec_run(),
    {
        &self.run
    }

    /// Where the server sends the port it listens on.
    pub fn port_sender(&self) -> (tx: &Sender<String>)
        ensures
            *tx == self.spec_tx(),
    {
        &self.tx
    }

    /// The value stored under `key`, if any.
    fn lookup(&self, key: &str) -> (value: Option<String>)
        ensures
            match value {
                Some(v) => self@.contains_key(key@) && v@ == self@[key@],
                None => !self@.contains_key(key@),
            },
    {
        match self.store.get(key) {
            Some(v) => Some(v.clone()),
            None => None,
        }
    }

    /// Carries out every whole request received on `connection`, in order,
    /// queuing each reply, until an incomplete request is left or something
    /// fails: what `serve` says of the received bytes.
    pub fn handle_requests(&mut self, connection: &mut Connection) -> (result: Result<
        (),
        KvError,
    >)
        ensures
            ({
                let s = serve(old(self)@, old(connection)@.input);
                &&& final(self)@ == s.store
                &&& final(connection)@ == (ConnectionState {
                    want_to_read: old(connection)@.want_to_read && !s.answered,
                    want_to_write: old(connection)@.want_to_write || s.replies.len() > 0,
                    want_close: old(connection)@.want_close,
                    input: s.rest,
                    output: old(connection)@.output + s.replies,
                })
                &&& result == match s.failed {
                    None => Ok::<(), KvError>(()),
                    Some(e) => Err(e),
                }
            }),
            final(self).spec_port() == old(self).spec_port(),
            final(self).spec_run() == old(self).spec_run(),
            final(self).spec_tx() == old(self).spec_tx(),
            result is Ok && old(connection)@.reads_or_writes() ==> final(connection)@.reads_or_writes(),
    {
        let ghost whole = serve(self@, connection@.input);
        let ghost mut done: Seq<u8> = Seq::empty();
        let ghost mut answered = false;
        loop
            invariant
                self.spec_port() == old(self).spec_port(),
                self.spec_run() == old(self).spec_run(),
                self.spec_tx() == old(self).spec_tx(),
                whole == serve(old(self)@, old(connection)@.input),
                ({
                    let cur = serve(self@, connection@.input);
                    &&& whole.store == cur.store
                    &&& whole.rest == cur.rest
                    &&& whole.failed == cur.failed
                    &&& whole.replies == done + cur.replies
                    &&& whole.answered == (answered || cur.answered)
                }),
                connection@.output == old(connection)@.output + done,
                connection@.want_to_read == (old(connection)@.want_to_read && !answered),
                connection@.want_to_write == (old(connection)@.want_to_write || done.len() > 0),
                connection@.want_close == old(connection)@.want_close,
                answered ==> done.len() > 0,
            decreases connection@.input.len(),
        {
            let ghost store_before = self@;
            let ghost input_before = connection@.input;
            proof {
                lemma_parse_takes_bytes(input_before);
            }
            match connection.handle_read() {
                Ok(None) => {
                    assert(whole.replies =~= done);
                    return Ok(());
                },
                Err(e) => {
                    assert(whole.replies =~= done);
                    return Err(e);
                },
                Ok(Some(op)) => {
                    let ghost request = op@;
                    match self.handle_request(connection, op) {
                        Ok(()) => {
                            proof {
                                let reply = encode_utf8(apply(store_before, request).1);
                                lemma_frame_len(reply);
                                let later = serve(self@, connection@.input);
                                assert(whole.replies =~= (done + frame(reply)) + later.replies);
                                done = done + frame(reply);
                                answered = true;
                            }
                        },
                        Err(e) => {
                            assert(whole.replies =~= done);
                            return Err(e);
                        },
                    }
                },
            }
        }
    }

    /// Carries out `oper` on the store and queues the reply on `connection`.
    /// The store changes even when the reply is too long to be framed.
    pub fn handle_request(&mut self, connection: &mut Connection, oper: Operation) -> (result:
        Result<(), KvError>)
        ensures
            final(self)@ == apply(old(self)@, oper@).0,
            final(self).spec_port() == old(self).spec_port(),
            final(self).spec_run() == old(self).spec_run(),
            final(self).spec_tx() == old(self).spec_tx(),
            ({
                let reply = encode_utf8(apply(old(self)@, oper@).1);
                match result {
                    Ok(()) => {
                        &&& reply.len() <= u32::MAX
                        &&& final(connection)@ == (ConnectionState {
                            want_to_read: false,
                            want_to_write: true,
                            output: old(connection)@.output + frame(reply),
                            ..old(connection)@
                        })
                    },
                    Err(e) => {
                        &&& e == KvError::MessageTooLong
                        &&& reply.len() > u32::MAX
                        &&& final(connection)@ == (ConnectionState {
                            want_to_read: false,
                            ..old(connection)@
                        })
                    },
                }
            }),
    {
        proof {
            reveal_strlit("");
        }
        match oper {
            Operation::Get { key } => {
                match self.lookup(key.as_str()) {
                    Some(v) => connection.write(v.as_str()),
                    None => connection.write(""),
                }
            },
            Operation::Delete { key } => {
                let previous = self.lookup(key.as_str());
                self.store.remove(key.as_str());
                proof {
                    assert(self@ =~= old(self)@.remove(key@));
                }
                match previous {
                    Some(v) => connection.write(v.as_str()),
                    None => connection.write(""),
                }
            },
            Operation::SetValue { key, value } => {
                let previous = self.lookup(key.as_str());
                let ghost k = key@;
                let ghost v = value@;
                self.store.insert(key, value);
                proof {
                    assert(self@ =~= old(self)@.insert(k, v));
                }
                match previous {
                    Some(p) => connection.write(p.as_str()),
                    None => connection.write(""),
                }
            },
        }
    }
}

} // verus!
