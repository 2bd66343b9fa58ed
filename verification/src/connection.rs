//! Requests and the buffering state of one client connection.
//!
//! A request is one operation byte followed by its arguments, each framed as
//! in [`crate::wire`]: `Get` and `Delete` carry a key, `SetValue` a key and a value.
//! A connection gathers the bytes that arrive, cuts whole requests off the
//! front of what it gathered, and queues framed replies until they are sent.
use crate::error::KvError;
use crate::wire::append_bytes;
use crate::wire::frame;
use crate::wire::frame_at;
use crate::wire::frame_message;
use crate::wire::lemma_frame_at_frame;
use crate::wire::lemma_frame_at_partial;
use crate::wire::lemma_frame_at_extend;
use crate::wire::lemma_frame_len;
use crate::wire::law_frame_layout;
use crate::wire::HEADER_SIZE;
use crate::wire::decode_message;
use crate::wire::header_at;
use vstd::bytes::spec_u32_from_le_bytes;
use vstd::bytes::u32_from_le_bytes;
use vstd::bytes::u32_to_le_bytes;
use vstd::prelude::*;
use vstd::slice::slice_subrange;
use vstd::slice::slice_to_vec;
use vstd::utf8::decode_utf8;
use vstd::utf8::encode_utf8;
use vstd::utf8::valid_utf8;

verus! {

/// Operation byte of a `Get` request.
pub const OP_GET: u8 = 1;

/// Operation byte of a `Delete` request.
pub const OP_DELETE: u8 = 2;

/// Operation byte of a `SetValue` request.
pub const OP_SET: u8 = 3;

/// A decoded request.
#[derive(Debug)]
pub enum Operation {
    Get { key: String },
    Delete { key: String },
    SetValue { key: String, value: String },
}

/// A request as a mathematical value: its keys and values as characters.
pub ghost enum Request {
    Get { key: Seq<char> },
    Delete { key: Seq<char> },
    SetValue { key: Seq<char>, value: Seq<char> },
}

impl View for Operation {
    type V = Request;

    open spec fn view(&self) -> Request {
        match self {
            Operation::Get { key } => Request::Get { key: key@ },
            Operation::Delete { key } => Request::Delete { key: key@ },
            Operation::SetValue { key, value } => Request::SetValue { key: key@, value: value@ },
        }
    }
}

/// The bytes that send `request`.
pub open spec fn encode_request(request: Request) -> Seq<u8> {
    match request {
        Request::Get { key } => seq![OP_GET] + frame(encode_utf8(key)),
        Request::Delete { key } => seq![OP_DELETE] + frame(encode_utf8(key)),
        Request::SetValue { key, value } => seq![OP_SET] + frame(encode_utf8(key)) + frame(
            encode_utf8(value),
        ),
    }
}

/// Whether every key and value of `request` has a length that its 4-byte
/// header can carry.
pub open spec fn fits_in_frames(request: Request) -> bool {
    match request {
        Request::Get { key } => encode_utf8(key).len() <= u32::MAX,
        Request::Delete { key } => encode_utf8(key).len() <= u32::MAX,
        Request::SetValue { key, value } => encode_utf8(key).len() <= u32::MAX && encode_utf8(
            value,
        ).len() <= u32::MAX,
    }
}

/// What the front of a buffer of received bytes holds.
pub ghost enum Parsed {
    /// Not a whole request yet: more bytes are needed.
    Incomplete,
    /// A request that can never be decoded.
    Failed(KvError),
    /// A whole request, and the number of bytes it takes up.
    Complete(Request, nat),
}

/// Decodes the request at the front of `buf`. The key is decoded first: a
/// key that is incomplete leaves the request incomplete, and one that is not
/// UTF-8 fails it, whatever the operation byte. Then the operation byte is
/// checked, and for `SetValue` the value is decoded the same way.
pub open spec fn parse_request(buf: Seq<u8>) -> Parsed {
    if buf.len() == 0 {
        Parsed::Incomplete
    } else {
        match frame_at(buf, 1) {
            None => Parsed::Incomplete,
            Some(k) => {
                if !valid_utf8(k) {
                    Parsed::Failed(KvError::InvalidUtf8)
                } else if buf[0] == OP_GET {
                    Parsed::Complete(Request::Get { key: decode_utf8(k) }, (1 + HEADER_SIZE + k.len()) as nat)
                } else if buf[0] == OP_DELETE {
                    Parsed::Complete(
                        Request::Delete { key: decode_utf8(k) },
                        (1 + HEADER_SIZE + k.len()) as nat,
                    )
                } else if buf[0] == OP_SET {
                    match frame_at(buf, 1 + HEADER_SIZE + k.len()) {
                        None => Parsed::Incomplete,
                        Some(v) => {
                            if !valid_utf8(v) {
                                Parsed::Failed(KvError::InvalidUtf8)
                            } else {
                                Parsed::Complete(
                                    Request::SetValue { key: decode_utf8(k), value: decode_utf8(v) },
                                    (1 + HEADER_SIZE + k.len() + HEADER_SIZE + v.len()) as nat,
                                )
                            }
                        },
                    }
                } else {
                    Parsed::Failed(KvError::InvalidOperation)
                }
            },
        }
    }
}

/// Decoding the bytes that send a request gives that request back, and takes
/// up exactly those bytes, whatever follows them.
pub proof fn lemma_parse_encoded_request(request: Request, rest: Seq<u8>)
    requires
        fits_in_frames(request),
    ensures
        parse_request(encode_request(request) + rest) == Parsed::Complete(
            request,
            encode_request(request).len(),
        ),
{
    broadcast use vstd::utf8::encode_utf8_valid_utf8, vstd::utf8::encode_utf8_decode_utf8;

    match request {
        Request::Get { key } => {
            let k = encode_utf8(key);
            let buf = encode_request(request) + rest;
            assert(buf =~= seq![OP_GET] + frame(k) + rest);
            lemma_frame_at_frame(k, seq![OP_GET], rest);
            lemma_frame_len(k);
            assert(buf[0] == OP_GET);
        },
        Request::Delete { key } => {
            let k = encode_utf8(key);
            let buf = encode_request(request) + rest;
            assert(buf =~= seq![OP_DELETE] + frame(k) + rest);
            lemma_frame_at_frame(k, seq![OP_DELETE], rest);
            lemma_frame_len(k);
            assert(buf[0] == OP_DELETE);
        },
        Request::SetValue { key, value } => {
            let k = encode_utf8(key);
            let v = encode_utf8(value);
            let buf = encode_request(request) + rest;
            assert(buf =~= seq![OP_SET] + frame(k) + (frame(v) + rest));
            lemma_frame_at_frame(k, seq![OP_SET], frame(v) + rest);
            assert(buf =~= (seq![OP_SET] + frame(k)) + frame(v) + rest);
            lemma_frame_at_frame(v, seq![OP_SET] + frame(k), rest);
            lemma_frame_len(k);
            lemma_frame_len(v);
            assert(buf[0] == OP_SET);
            assert((seq![OP_SET] + frame(k)).len() == 1 + HEADER_SIZE + k.len());
        },
    }
}

/// The request bytes on the wire: byte 1 asks for a key's value, byte 2
/// deletes a key, byte 3 stores a value; each argument is framed, and
/// valid UTF-8 arguments decode to the characters they encode. The request
/// is decoded from the front of whatever has arrived and takes up exactly
/// its own bytes.
pub proof fn law_request_bytes(key: Seq<u8>, value: Seq<u8>, rest: Seq<u8>)
    requires
        valid_utf8(key),
        valid_utf8(value),
        key.len() <= u32::MAX,
        value.len() <= u32::MAX,
    ensures
        parse_request(seq![1u8] + frame(key) + rest) == Parsed::Complete(
            Request::Get { key: decode_utf8(key) },
            (1 + HEADER_SIZE + key.len()) as nat,
        ),
        parse_request(seq![2u8] + frame(key) + rest) == Parsed::Complete(
            Request::Delete { key: decode_utf8(key) },
            (1 + HEADER_SIZE + key.len()) as nat,
        ),
        parse_request(seq![3u8] + frame(key) + frame(value) + rest) == Parsed::Complete(
            Request::SetValue { key: decode_utf8(key), value: decode_utf8(value) },
            (1 + HEADER_SIZE + key.len() + HEADER_SIZE + value.len()) as nat,
        ),
{
    broadcast use vstd::utf8::decode_utf8_encode_utf8;

    lemma_frame_len(key);
    lemma_frame_len(value);
    let k = decode_utf8(key);
    let v = decode_utf8(value);
    lemma_parse_encoded_request(Request::Get { key: k }, rest);
    lemma_parse_encoded_request(Request::Delete { key: k }, rest);
    lemma_parse_encoded_request(Request::SetValue { key: k, value: v }, rest);
}

/// Requests sent back to back are decoded one at a time and in order: the
/// first takes up its own bytes and leaves the second at the front.
pub proof fn lemma_pipelined_requests(first: Request, second: Request, rest: Seq<u8>)
    requires
        fits_in_frames(first),
        fits_in_frames(second),
    ensures
        ({
            let buf = encode_request(first) + encode_request(second) + rest;
            let n = encode_request(first).len();
            &&& parse_request(buf) == Parsed::Complete(first, n)
            &&& buf.skip(n as int) == encode_request(second) + rest
            &&& parse_request(buf.skip(n as int)) == Parsed::Complete(
                second,
                encode_request(second).len(),
            )
        }),
{
    let buf = encode_request(first) + encode_request(second) + rest;
    let n = encode_request(first).len();
    assert(buf =~= encode_request(first) + (encode_request(second) + rest));
    lemma_parse_encoded_request(first, encode_request(second) + rest);
    assert(buf.skip(n as int) =~= encode_request(second) + rest);
    lemma_parse_encoded_request(second, rest);
}

/// A whole request takes up at least one byte, and no more than the buffer
/// holds.
pub proof fn lemma_parse_takes_bytes(buf: Seq<u8>)
    ensures
        parse_request(buf) matches Parsed::Complete(_, n) ==> 0 < n <= buf.len(),
{
    if buf.len() > 0 {
        if let Some(k) = frame_at(buf, 1) {
            lemma_frame_at_extend(buf, 1, Seq::empty());
            if valid_utf8(k) && buf[0] == OP_SET {
                if frame_at(buf, 1 + HEADER_SIZE + k.len()) is Some {
                    lemma_frame_at_extend(buf, 1 + HEADER_SIZE + k.len(), Seq::empty());
                }
            }
        }
    }
}

/// Bytes that arrive behind a whole request, or behind one that can never
/// be decoded, change nothing of what the front of the buffer holds.
pub proof fn lemma_parse_extends(buf: Seq<u8>, more: Seq<u8>)
    ensures
        parse_request(buf) is Complete ==> parse_request(buf + more) == parse_request(buf),
        parse_request(buf) is Failed ==> parse_request(buf + more) == parse_request(buf),
{
    let whole = buf + more;
    if buf.len() > 0 {
        assert(whole[0] == buf[0]);
        if let Some(k) = frame_at(buf, 1) {
            lemma_frame_at_extend(buf, 1, more);
            if valid_utf8(k) && buf[0] == OP_SET {
                if frame_at(buf, 1 + HEADER_SIZE + k.len()) is Some {
                    lemma_frame_at_extend(buf, 1 + HEADER_SIZE + k.len(), more);
                }
            }
        }
    }
}

/// A request of which only part has arrived is left waiting for the rest.
pub proof fn lemma_parse_partial_request(request: Request, n: int)
    requires
        fits_in_frames(request),
        0 <= n < encode_request(request).len(),
    ensures
        parse_request(encode_request(request).take(n)) == Parsed::Incomplete,
{
    broadcast use vstd::utf8::encode_utf8_valid_utf8, vstd::utf8::encode_utf8_decode_utf8;

    let whole = encode_request(request);
    let buf = whole.take(n);
    if n > 0 {
        match request {
            Request::Get { key } => {
                let k = encode_utf8(key);
                lemma_frame_len(k);
                let partial = buf.skip(1);
                assert(partial =~= frame(k).take(partial.len() as int));
                assert(buf =~= seq![OP_GET] + partial);
                lemma_frame_at_partial(k, seq![OP_GET], partial);
            },
            Request::Delete { key } => {
                let k = encode_utf8(key);
                lemma_frame_len(k);
                let partial = buf.skip(1);
                assert(partial =~= frame(k).take(partial.len() as int));
                assert(buf =~= seq![OP_DELETE] + partial);
                lemma_frame_at_partial(k, seq![OP_DELETE], partial);
            },
            Request::SetValue { key, value } => {
                let k = encode_utf8(key);
                let v = encode_utf8(value);
                lemma_frame_len(k);
                lemma_frame_len(v);
                let head = seq![OP_SET] + frame(k);
                if n < head.len() {
                    let partial = buf.skip(1);
                    assert(partial =~= frame(k).take(partial.len() as int));
                    assert(buf =~= seq![OP_SET] + partial);
                    lemma_frame_at_partial(k, seq![OP_SET], partial);
                } else {
                    let partial = buf.skip(head.len() as int);
                    assert(partial =~= frame(v).take(partial.len() as int));
                    assert(buf =~= head + partial);
                    assert(buf =~= seq![OP_SET] + frame(k) + partial);
                    lemma_frame_at_frame(k, seq![OP_SET], partial);
                    assert(buf[0] == OP_SET);
                    lemma_frame_at_partial(v, head, partial);
                }
            },
        }
    }
}

/// The state of a connection as a mathematical value.
pub ghost struct ConnectionState {
    /// The connection waits for requests.
    pub want_to_read: bool,
    /// The connection has replies to send.
    pub want_to_write: bool,
    /// The peer has closed its end.
    pub want_close: bool,
    /// The bytes received and not yet decoded.
    pub input: Seq<u8>,
    /// The reply bytes queued and not yet sent.
    pub output: Seq<u8>,
}

impl ConnectionState {
    /// The connection either waits for requests or has replies to send,
    /// never both and never neither.
    pub open spec fn reads_or_writes(self) -> bool {
        self.want_to_read != self.want_to_write
    }
}

/// The buffering state of one connection.
pub struct Connection {
    want_to_read: bool,
    want_to_write: bool,
    want_close: bool,
    read_buffer: Vec<u8>,
    write_buffer: Vec<u8>,
}

impl View for Connection {
    type V = ConnectionState;

    closed spec fn view(&self) -> ConnectionState {
        ConnectionState {
            want_to_read: self.want_to_read,
            want_to_write: self.want_to_write,
            want_close: self.want_close,
            input: self.read_buffer@,
            output: self.write_buffer@,
        }
    }
}

impl Connection {
    /// A fresh connection: waiting for requests, with nothing buffered.
    pub fn new() -> (conn: Self)
        ensures
            conn@ == (ConnectionState {
                want_to_read: true,
                want_to_write: false,
                want_close: false,
                input: Seq::empty(),
                output: Seq::empty(),
            }),
            conn@.reads_or_writes(),
    {
        let conn = Connection {
            want_to_read: true,
            want_to_write: false,
            want_close: false,
            read_buffer: Vec::new(),
            write_buffer: Vec::new(),
        };
        assert(conn.read_buffer@ =~= Seq::empty());
        conn
    }

    /// Whether the connection waits for requests.
    pub fn want_to_read(&self) -> (b: bool)
        ensures
            b == self@.want_to_read,
    {
        self.want_to_read
    }

    /// Whether the connection has replies to send.
    pub fn want_to_write(&self) -> (b: bool)
        ensures
            b == self@.want_to_write,
    {
        self.want_to_write
    }

    /// Whether the peer has closed its end.
    pub fn want_close(&self) -> (b: bool)
        ensures
            b == self@.want_close,
    {
        self.want_close
    }

    /// Takes in the bytes that one read from the peer returned. An empty read
    /// means that the peer has closed its end.
    pub fn read(&mut self, data: &[u8])
        ensures
            data@.len() == 0 ==> final(self)@ == (ConnectionState { want_close: true, ..old(self)@ }),
            data@.len() > 0 ==> final(self)@ == (ConnectionState {
                input: old(self)@.input + data@,
                ..old(self)@
            }),
            old(self)@.reads_or_writes() ==> final(self)@.reads_or_writes(),
    {
        if data.len() == 0 {
            self.want_close = true;
            return ;
        }
        append_bytes(&mut self.read_buffer, data);
    }

    /// Decodes the argument framed at `index` of the received bytes.
    fn try_parse(&self, index: usize) -> (result: Result<Option<String>, KvError>)
        requires
            index <= self@.input.len(),
        ensures
            match result {
                Ok(None) => frame_at(self@.input, index as int) is None,
                Ok(Some(s)) => frame_at(self@.input, index as int) matches Some(p) && valid_utf8(p)
                    && s@ == decode_utf8(p),
                Err(e) => frame_at(self@.input, index as int) matches Some(p) && !valid_utf8(p)
                    && e == KvError::InvalidUtf8,
            },
    {
        let buf = self.read_buffer.as_slice();
        let len = buf.len();
        if len - index < HEADER_SIZE {
            return Ok(None);
        }
        let header = slice_subrange(buf, index, index + HEADER_SIZE);
        let message_len = u32_from_le_bytes(header);
        assert(message_len == header_at(buf@, index as int));
        let available = len - index - HEADER_SIZE;
        if (available as u64) < (message_len as u64) {
            return Ok(None);
        }
        let end = index + HEADER_SIZE + message_len as usize;
        let payload = slice_to_vec(slice_subrange(buf, index + HEADER_SIZE, end));
        match decode_message(payload) {
            Ok(s) => Ok(Some(s)),
            Err(e) => Err(e),
        }
    }

    /// Cuts the request at the front of the received bytes off and decodes
    /// it. Gives `None`, and keeps the bytes, while the request is
    /// incomplete; fails, and keeps the bytes, when it cannot be decoded.
    pub fn handle_read(&mut self) -> (result: Result<Option<Operation>, KvError>)
        ensures
            match parse_request(old(self)@.input) {
                Parsed::Incomplete => result matches Ok(None) && final(self)@ == old(self)@,
                Parsed::Failed(e) => result == Err::<Option<Operation>, KvError>(e) && final(self)@
                    == old(self)@,
                Parsed::Complete(request, n) => {
                    &&& result matches Ok(Some(op)) && op@ == request
                    &&& final(self)@ == (ConnectionState {
                        input: old(self)@.input.skip(n as int),
                        ..old(self)@
                    })
                },
            },
            old(self)@.reads_or_writes() ==> final(self)@.reads_or_writes(),
    {
        broadcast use vstd::utf8::decode_utf8_encode_utf8;

        if self.read_buffer.len() == 0 {
            return Ok(None);
        }
        let op = self.read_buffer[0];
        let key = match self.try_parse(1) {
            Ok(Some(k)) => k,
            Ok(None) => {
                return Ok(None);
            },
            Err(e) => {
                return Err(e);
            },
        };
        let ghost k = frame_at(self.read_buffer@, 1).unwrap();
        let key_len = key.as_str().len();
        assert(key_len == k.len());
        let mut total_len = 1 + HEADER_SIZE + key_len;
        let oper = if op == OP_GET {
            Operation::Get { key }
        } else if op == OP_DELETE {
            Operation::Delete { key }
        } else if op == OP_SET {
            let value = match self.try_parse(1 + HEADER_SIZE + key_len) {
                Ok(Some(v)) => v,
                Ok(None) => {
                    return Ok(None);
                },
                Err(e) => {
                    return Err(e);
                },
            };
            let ghost v = frame_at(self.read_buffer@, 1 + HEADER_SIZE + k.len()).unwrap();
            let value_len = value.as_str().len();
            assert(value_len == v.len());
            total_len = total_len + HEADER_SIZE + value_len;
            Operation::SetValue { key, value }
        } else {
            return Err(KvError::InvalidOperation);
        };
        let rest = self.read_buffer.split_off(total_len);
        self.read_buffer = rest;
        Ok(Some(oper))
    }

    /// Queues the framed reply `message` and stops waiting for requests
    /// until it is sent. Fails when the message is too long for its header;
    /// the connection has then stopped waiting for requests all the same.
    pub fn write(&mut self, message: &str) -> (result: Result<(), KvError>)
        ensures
            match result {
                Ok(()) => {
                    &&& encode_utf8(message@).len() <= u32::MAX
                    &&& final(self)@ == (ConnectionState {
                        want_to_read: false,
                        want_to_write: true,
                        output: old(self)@.output + frame(encode_utf8(message@)),
                        ..old(self)@
                    })
                    &&& final(self)@.output.take(old(self)@.output.len() as int) == old(self)@.output
                    &&& spec_u32_from_le_bytes(
                        final(self)@.output.subrange(
                            old(self)@.output.len() as int,
                            old(self)@.output.len() + HEADER_SIZE,
                        ),
                    ) == encode_utf8(message@).len()
                    &&& final(self)@.output.skip(old(self)@.output.len() + HEADER_SIZE)
                        == encode_utf8(message@)
                },
                Err(e) => {
                    &&& e == KvError::MessageTooLong
                    &&& encode_utf8(message@).len() > u32::MAX
                    &&& final(self)@ == (ConnectionState { want_to_read: false, ..old(self)@ })
                },
            },
            result is Ok ==> final(self)@.reads_or_writes(),
    {
        self.want_to_read = false;
        let bytes = match frame_message(message) {
            Ok(b) => b,
            Err(e) => {
                return Err(e);
            },
        };
        append_bytes(&mut self.write_buffer, bytes.as_slice());
        self.want_to_write = true;
        proof {
            law_frame_layout(encode_utf8(message@));
            let o = old(self)@.output.len() as int;
            let out = self.write_buffer@;
            assert(out.take(o) =~= old(self)@.output);
            assert(out.subrange(o, o + HEADER_SIZE) =~= bytes@.take(HEADER_SIZE as int));
            assert(out.skip(o + HEADER_SIZE) =~= bytes@.skip(HEADER_SIZE as int));
        }
        Ok(())
    }

    /// The queued reply bytes, to be sent to the peer.
    pub fn output(&self) -> (bytes: &[u8])
        ensures
            bytes@ == self@.output,
    {
        self.write_buffer.as_slice()
    }

    /// Takes note that the first `bytes_written` queued bytes were sent. Once
    /// everything is sent the connection waits for requests again.
    pub fn handle_write(&mut self, bytes_written: usize)
        requires
            bytes_written <= old(self)@.output.len(),
        ensures
            final(self)@.output == old(self)@.output.skip(bytes_written as int),
            final(self)@.input == old(self)@.input,
            final(self)@.want_close == old(self)@.want_close,
            final(self)@.output.len() == 0 ==> !final(self)@.want_to_write
                && final(self)@.want_to_read,
            final(self)@.output.len() > 0 ==> final(self)@.want_to_write == old(self)@.want_to_write
                && final(self)@.want_to_read == old(self)@.want_to_read,
            old(self)@.reads_or_writes() ==> final(self)@.reads_or_writes(),
    {
        let rest = self.write_buffer.split_off(bytes_written);
        self.write_buffer = rest;
        if self.write_buffer.len() == 0 {
            self.want_to_write = false;
            self.want_to_read = true;
        }
    }

    /// Whether the server drops this connection: on an error reported for
    /// its socket, or once the peer has closed its end.
    pub fn should_close(&self, error_event: bool) -> (close: bool)
        ensures
            close == (error_event || self@.want_close),
    {
        error_event || self.want_close
    }

    /// The request that asks for the value stored under `key`.
    pub fn get(key: &[u8]) -> (request: Vec<u8>)
        ensures
            request@ == seq![OP_GET] + frame(key@),
            request@.len() == 1 + HEADER_SIZE + key@.len(),
            request@[0] == OP_GET,
            spec_u32_from_le_bytes(request@.subrange(1, 1 + HEADER_SIZE as int)) == key@.len() as u32,
            request@.skip(1 + HEADER_SIZE as int) == key@,
    {
        Self::request(OP_GET, key)
    }

    /// The request that removes `key` and asks for the value it had.
    pub fn delete(key: &[u8]) -> (request: Vec<u8>)
        ensures
            request@ == seq![OP_DELETE] + frame(key@),
            request@.len() == 1 + HEADER_SIZE + key@.len(),
            request@[0] == OP_DELETE,
            spec_u32_from_le_bytes(request@.subrange(1, 1 + HEADER_SIZE as int)) == key@.len() as u32,
            request@.skip(1 + HEADER_SIZE as int) == key@,
    {
        Self::request(OP_DELETE, key)
    }

    /// The request that stores `val` under `key` and asks for the value
    /// `key` had.
    pub fn set(key: &[u8], val: &[u8]) -> (request: Vec<u8>)
        ensures
            request@ == seq![OP_SET] + frame(key@) + frame(val@),
            ({
                let v = 1 + HEADER_SIZE + key@.len();
                &&& request@.len() == v + HEADER_SIZE + val@.len()
                &&& request@[0] == OP_SET
                &&& spec_u32_from_le_bytes(request@.subrange(1, 1 + HEADER_SIZE as int))
                    == key@.len() as u32
                &&& request@.subrange(1 + HEADER_SIZE as int, v) == key@
                &&& spec_u32_from_le_bytes(request@.subrange(v, v + HEADER_SIZE as int))
                    == val@.len() as u32
                &&& request@.skip(v + HEADER_SIZE as int) == val@
            }),
    {
        let mut request = Self::request(OP_SET, key);
        append_bytes(&mut request, u32_to_le_bytes(val.len() as u32).as_slice());
        append_bytes(&mut request, val);
        proof {
            law_frame_layout(key@);
            law_frame_layout(val@);
            let v = 1 + HEADER_SIZE + key@.len();
            let r = request@;
            assert(r.subrange(1, 1 + HEADER_SIZE as int) =~= frame(key@).take(HEADER_SIZE as int));
            assert(r.subrange(1 + HEADER_SIZE as int, v) =~= frame(key@).skip(HEADER_SIZE as int));
            assert(r.subrange(v, v + HEADER_SIZE as int) =~= frame(val@).take(HEADER_SIZE as int));
            assert(r.skip(v + HEADER_SIZE as int) =~= frame(val@).skip(HEADER_SIZE as int));
        }
        request
    }

    /// An operation byte followed by one framed argument; the length in the
    /// header is taken modulo 2^32.
    fn request(op: u8, arg: &[u8]) -> (request: Vec<u8>)
        ensures
            request@ == seq![op] + frame(arg@),
            request@.len() == 1 + HEADER_SIZE + arg@.len(),
            request@[0] == op,
            spec_u32_from_le_bytes(request@.subrange(1, 1 + HEADER_SIZE as int)) == arg@.len() as u32,
            request@.skip(1 + HEADER_SIZE as int) == arg@,
    {
        let mut request = Vec::new();
        request.push(op);
        append_bytes(&mut request, u32_to_le_bytes(arg.len() as u32).as_slice());
        append_bytes(&mut request, arg);
        assert(request@ =~= seq![op] + frame(arg@));
        proof {
            law_frame_layout(arg@);
            assert(request@.subrange(1, 1 + HEADER_SIZE as int) =~= frame(arg@).take(
                HEADER_SIZE as int,
            ));
            assert(request@.skip(1 + HEADER_SIZE as int) =~= frame(arg@).skip(HEADER_SIZE as int));
        }
        request
    }
}

} // verus!
