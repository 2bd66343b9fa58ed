use kvstore::connection::Connection;
use kvstore::connection::Operation;
use kvstore::error::KvError;
use kvstore::server::Server;
use kvstore::wire::decode_message;
use kvstore::wire::frame_length;
use kvstore::wire::HEADER_SIZE;
use std::sync::atomic::AtomicBool;
use std::sync::mpsc;
use std::sync::Arc;

fn new_server() -> Server {
    let (tx, _rx) = mpsc::channel();
    Server::new(None, Arc::new(AtomicBool::new(true)), tx).unwrap()
}

/// Hands `bytes` to the connection as one read, handles every complete
/// request, and sends everything queued; gives back the bytes sent.
fn deliver(server: &mut Server, conn: &mut Connection, bytes: &[u8]) -> Vec<u8> {
    conn.read(bytes);
    let mut sent = Vec::new();
    while let Some(oper) = conn.handle_read().unwrap() {
        server.handle_request(conn, oper).unwrap();
        let out = conn.output().to_vec();
        sent.extend_from_slice(&out);
        conn.handle_write(out.len());
    }
    sent
}

/// Reads one reply the way a blocking client does.
fn read_reply(bytes: &[u8]) -> String {
    let len = frame_length(&bytes[..HEADER_SIZE]) as usize;
    assert_eq!(bytes.len(), HEADER_SIZE + len);
    decode_message(bytes[HEADER_SIZE..].to_vec()).unwrap()
}

#[test]
fn test_basic_opts() {
    let mut server = new_server();
    let mut stream = Connection::new();

    let response = read_reply(&deliver(&mut server, &mut stream, &Connection::set(b"hello", b"world")));
    assert_eq!(&response, "");

    let response = read_reply(&deliver(&mut server, &mut stream, &Connection::get(b"hello")));
    assert_eq!(&response, "world");

    let response = read_reply(&deliver(&mut server, &mut stream, &Connection::delete(b"hello")));
    assert_eq!(&response, "world");
}

#[test]
fn test_multiple_clients() {
    let mut server = new_server();
    let mut stream1 = Connection::new();
    let mut stream2 = Connection::new();

    let response = read_reply(&deliver(&mut server, &mut stream1, &Connection::set(b"hello", b"world")));
    assert_eq!(&response, "");
    let response = read_reply(&deliver(&mut server, &mut stream2, &Connection::get(b"hello")));
    assert_eq!(&response, "world");
}

#[test]
fn test_pipelined_requests() {
    let mut server = new_server();
    let mut stream = Connection::new();

    let buf = b"\x03\x05\x00\x00\x00hello\x05\x00\x00\x00world\x01\x05\x00\x00\x00hello\x02\x05\x00\x00\x00hello";
    let res_buf = deliver(&mut server, &mut stream, buf);
    assert_eq!(res_buf.len(), 22);
    assert_eq!(
        &res_buf[..],
        b"\x00\x00\x00\x00\x05\x00\x00\x00world\x05\x00\x00\x00world"
    );
}

#[test]
fn request_bytes_are_exact() {
    assert_eq!(Connection::get(b"ab"), b"\x01\x02\x00\x00\x00ab".to_vec());
    assert_eq!(Connection::delete(b""), b"\x02\x00\x00\x00\x00".to_vec());
    assert_eq!(
        Connection::set(b"k", b"xyz"),
        b"\x03\x01\x00\x00\x00k\x03\x00\x00\x00xyz".to_vec()
    );
}

#[test]
fn request_split_across_reads_waits_for_the_rest() {
    let mut server = new_server();
    let mut conn = Connection::new();
    let request = Connection::set(b"key", b"value");
    for cut in 0..request.len() {
        let mut c = Connection::new();
        c.read(&request[..cut]);
        assert!(c.handle_read().unwrap().is_none());
    }
    assert!(deliver(&mut server, &mut conn, &request[..4]).is_empty());
    assert!(deliver(&mut server, &mut conn, &request[4..9]).is_empty());
    let reply = deliver(&mut server, &mut conn, &request[9..]);
    assert_eq!(read_reply(&reply), "");
    let reply = deliver(&mut server, &mut conn, &Connection::get(b"key"));
    assert_eq!(read_reply(&reply), "value");
}

#[test]
fn decoded_operations_match_requests() {
    let mut conn = Connection::new();
    conn.read(&Connection::set("ké".as_bytes(), "vä".as_bytes()));
    conn.read(&Connection::delete(b"x"));
    match conn.handle_read().unwrap() {
        Some(Operation::SetValue { key, value }) => {
            assert_eq!(key, "ké");
            assert_eq!(value, "vä");
        }
        other => panic!("unexpected {:?}", other),
    }
    match conn.handle_read().unwrap() {
        Some(Operation::Delete { key }) => assert_eq!(key, "x"),
        other => panic!("unexpected {:?}", other),
    }
    assert!(conn.handle_read().unwrap().is_none());
}

#[test]
fn unknown_operation_is_refused_and_kept() {
    let mut conn = Connection::new();
    conn.read(b"\x07\x01\x00\x00\x00a");
    assert_eq!(conn.handle_read().unwrap_err(), KvError::InvalidOperation);
    assert_eq!(conn.handle_read().unwrap_err(), KvError::InvalidOperation);
}

#[test]
fn unknown_operation_with_incomplete_key_waits() {
    let mut conn = Connection::new();
    conn.read(b"\x07\x05\x00\x00\x00ab");
    assert!(conn.handle_read().unwrap().is_none());
}

#[test]
fn invalid_utf8_is_refused() {
    let mut conn = Connection::new();
    conn.read(b"\x01\x02\x00\x00\x00\xff\xfe");
    assert_eq!(conn.handle_read().unwrap_err(), KvError::InvalidUtf8);

    let mut conn = Connection::new();
    conn.read(b"\x03\x01\x00\x00\x00a\x01\x00\x00\x00\xc3");
    assert_eq!(conn.handle_read().unwrap_err(), KvError::InvalidUtf8);
}

#[test]
fn empty_read_means_closed() {
    let mut conn = Connection::new();
    assert!(!conn.want_close());
    assert!(!conn.should_close(false));
    assert!(conn.should_close(true));
    conn.read(b"");
    assert!(conn.want_close());
    assert!(conn.should_close(false));
}

#[test]
fn write_and_partial_sends() {
    let mut conn = Connection::new();
    assert!(conn.want_to_read());
    assert!(!conn.want_to_write());
    conn.write("hey").unwrap();
    assert!(!conn.want_to_read());
    assert!(conn.want_to_write());
    assert_eq!(conn.output(), b"\x03\x00\x00\x00hey");
    conn.handle_write(2);
    assert_eq!(conn.output(), b"\x00\x00hey");
    assert!(conn.want_to_write());
    assert!(!conn.want_to_read());
    conn.handle_write(5);
    assert!(conn.output().is_empty());
    assert!(!conn.want_to_write());
    assert!(conn.want_to_read());
}

#[test]
fn set_replies_previous_value_and_get_sees_new_one() {
    let mut server = new_server();
    let mut conn = Connection::new();
    let r = deliver(&mut server, &mut conn, &Connection::set(b"a", b"1"));
    assert_eq!(read_reply(&r), "");
    let r = deliver(&mut server, &mut conn, &Connection::set(b"a", b"2"));
    assert_eq!(read_reply(&r), "1");
    let r = deliver(&mut server, &mut conn, &Connection::get(b"a"));
    assert_eq!(read_reply(&r), "2");
    let r = deliver(&mut server, &mut conn, &Connection::delete(b"a"));
    assert_eq!(read_reply(&r), "2");
    let r = deliver(&mut server, &mut conn, &Connection::get(b"a"));
    assert_eq!(read_reply(&r), "");
    let r = deliver(&mut server, &mut conn, &Connection::delete(b"a"));
    assert_eq!(read_reply(&r), "");
}

#[test]
fn other_keys_are_untouched() {
    let mut server = new_server();
    let mut conn = Connection::new();
    deliver(&mut server, &mut conn, &Connection::set(b"a", b"1"));
    deliver(&mut server, &mut conn, &Connection::set(b"b", b"2"));
    deliver(&mut server, &mut conn, &Connection::delete(b"a"));
    let r = deliver(&mut server, &mut conn, &Connection::get(b"b"));
    assert_eq!(read_reply(&r), "2");
    let r = deliver(&mut server, &mut conn, &Connection::get(b"a"));
    assert_eq!(read_reply(&r), "");
}

#[test]
fn server_port_and_handles() {
    let (tx, rx) = mpsc::channel();
    let run = Arc::new(AtomicBool::new(true));
    let server = Server::new(Some(3000), Arc::clone(&run), tx).unwrap();
    assert_eq!(server.port(), 3000);
    assert!(Arc::ptr_eq(server.run_flag(), &run));
    server.port_sender().send("1234".to_string()).unwrap();
    assert_eq!(rx.recv().unwrap(), "1234");
    assert_eq!(new_server().port(), 0);
}

#[test]
fn pipelined_requests_split_across_reads() {
    let buf = b"\x03\x05\x00\x00\x00hello\x05\x00\x00\x00world\x01\x05\x00\x00\x00hello\x02\x05\x00\x00\x00hello";
    let expected = b"\x00\x00\x00\x00\x05\x00\x00\x00world\x05\x00\x00\x00world";
    for cut in [1usize, 7, 13, 19, 20, 30, 38, 39] {
        let mut server = new_server();
        let mut conn = Connection::new();
        conn.read(&buf[..cut]);
        server.handle_requests(&mut conn).unwrap();
        conn.read(&buf[cut..]);
        server.handle_requests(&mut conn).unwrap();
        assert_eq!(conn.output(), &expected[..]);
        assert!(conn.want_to_write());
        assert!(!conn.want_to_read());
        let n = conn.output().len();
        conn.handle_write(n);
        assert!(conn.want_to_read());
        assert!(!conn.want_to_write());
    }
}

#[test]
fn handle_requests_stops_at_a_bad_request() {
    let mut server = new_server();
    let mut conn = Connection::new();
    let mut bytes = Connection::set(b"a", b"1");
    bytes.extend_from_slice(b"\x09\x00\x00\x00\x00");
    bytes.extend_from_slice(&Connection::get(b"a"));
    conn.read(&bytes);
    assert_eq!(server.handle_requests(&mut conn), Err(KvError::InvalidOperation));
    assert_eq!(conn.output(), b"\x00\x00\x00\x00");
    let mut other = Connection::new();
    other.read(&Connection::get(b"a"));
    server.handle_requests(&mut other).unwrap();
    assert_eq!(other.output(), b"\x01\x00\x00\x00\x31");
}

#[test]
fn handle_requests_with_nothing_whole_changes_nothing() {
    let mut server = new_server();
    let mut conn = Connection::new();
    conn.read(b"\x01\x03\x00");
    server.handle_requests(&mut conn).unwrap();
    assert!(conn.output().is_empty());
    assert!(conn.want_to_read());
    assert!(!conn.want_to_write());
}
