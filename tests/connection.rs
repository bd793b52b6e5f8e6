use minikv::command::Command;
use minikv::session::{Connection, Step};
use minikv::store::Store;

#[test]
fn end_to_end_scenario() {
    let mut store = Store::new();
    let mut c = Connection::new();
    c.receive(b"*1\r\n$4\r\nPING\r\n");
    assert_eq!(c.next_reply(&mut store, 0), Some(b"+PONG\r\n".to_vec()));
    assert_eq!(c.next_reply(&mut store, 0), None);
    c.receive(b"*3\r\n$3\r\nSET\r\n$1\r\nk\r\n$1\r\nv\r\n");
    assert_eq!(c.next_reply(&mut store, 0), Some(b"+OK\r\n".to_vec()));
    c.receive(b"*2\r\n$3\r\nGET\r\n$1\r\nk\r\n");
    assert_eq!(c.next_reply(&mut store, 0), Some(b"$1\r\nv\r\n".to_vec()));
    c.receive(b"*2\r\n$3\r\nGET\r\n$5\r\nnokey\r\n");
    assert_eq!(c.next_reply(&mut store, 0), Some(b"$-1\r\n".to_vec()));
    assert_eq!(c.pending_len(), 0);
}

#[test]
fn malformed_frame_gets_error_and_buffer_is_dropped() {
    let mut store = Store::new();
    let mut c = Connection::new();
    c.receive(b"*2\r\n$3\r\nfoo\r\n$-5\r\n");
    assert_eq!(
        c.next_reply(&mut store, 0),
        Some(b"-Error parsing integer\r\n".to_vec())
    );
    assert_eq!(c.pending_len(), 0);
    c.receive(b"*1\r\n$4\r\nPING\r\n");
    assert_eq!(c.next_reply(&mut store, 0), Some(b"+PONG\r\n".to_vec()));
}

#[test]
fn frame_split_across_reads() {
    let mut store = Store::new();
    let mut c = Connection::new();
    c.receive(b"*2\r\n$4\r\nEC");
    assert_eq!(c.next_reply(&mut store, 0), None);
    assert_eq!(c.pending_len(), 10);
    c.receive(b"HO\r\n$2\r\nhi\r\n");
    assert_eq!(c.next_reply(&mut store, 0), Some(b"$2\r\nhi\r\n".to_vec()));
}

#[test]
fn pipelined_requests_answered_in_order() {
    let mut store = Store::new();
    let mut c = Connection::new();
    c.receive(b"*3\r\n$3\r\nSET\r\n$1\r\na\r\n$1\r\n1\r\n*2\r\n$3\r\nGET\r\n$1\r\na\r\n*1\r\n$3\r\nFLY\r\n");
    assert_eq!(c.next_reply(&mut store, 0), Some(b"+OK\r\n".to_vec()));
    assert_eq!(c.next_reply(&mut store, 0), Some(b"$1\r\n1\r\n".to_vec()));
    assert_eq!(
        c.next_reply(&mut store, 0),
        Some(b"-Invalid command: Unknown command: FLY\r\n".to_vec())
    );
    assert_eq!(c.next_reply(&mut store, 0), None);
}

#[test]
fn expiry_through_session() {
    let mut store = Store::new();
    let mut c = Connection::new();
    c.receive(b"*5\r\n$3\r\nSET\r\n$1\r\nk\r\n$1\r\nv\r\n$2\r\nPX\r\n$3\r\n100\r\n");
    assert_eq!(c.next_reply(&mut store, 1000), Some(b"+OK\r\n".to_vec()));
    c.receive(b"*2\r\n$3\r\nGET\r\n$1\r\nk\r\n");
    assert_eq!(c.next_reply(&mut store, 1050), Some(b"$1\r\nv\r\n".to_vec()));
    c.receive(b"*2\r\n$3\r\nGET\r\n$1\r\nk\r\n");
    assert_eq!(c.next_reply(&mut store, 1100), Some(b"$-1\r\n".to_vec()));
}

#[test]
fn next_step_hands_out_commands() {
    let mut c = Connection::new();
    assert!(matches!(c.next_step(), Step::Wait));
    c.receive(b"*2\r\n$3\r\nGET\r\n$1\r\nk\r\n*0\r\n");
    match c.next_step() {
        Step::Run(cmd) => assert_eq!(cmd, Command::Get("k".to_string())),
        _ => panic!("expected a command"),
    }
    match c.next_step() {
        Step::Reply(bytes) => assert_eq!(bytes, b"-Error parsing input command: Empty command array\r\n".to_vec()),
        _ => panic!("expected an error reply"),
    }
    assert!(matches!(c.next_step(), Step::Wait));
    c.receive(b"?");
    match c.next_step() {
        Step::Reply(bytes) => assert_eq!(bytes, b"-Unexpected byte 63\r\n".to_vec()),
        _ => panic!("expected an error reply"),
    }
    assert_eq!(c.pending_len(), 0);
}

#[test]
fn error_reply_is_one_frame_on_the_wire() {
    let mut store = Store::new();
    let mut c = Connection::new();
    c.receive(b"*1\r\n$4\r\na\r\nb\r\n");
    let reply = c.next_reply(&mut store, 0).unwrap();
    assert_eq!(reply, b"-Invalid command: Unknown command: A  B\r\n".to_vec());
    let (_, used) = minikv::parser::parse_resp(&reply).unwrap();
    assert_eq!(used, reply.len());
}

#[test]
fn malformed_then_ping_on_same_connection() {
    let mut store = Store::new();
    let mut c = Connection::new();
    c.receive(b"*2\r\n$3\r\nfoo\r\n$-5\r\n");
    let mut written = c.next_reply(&mut store, 0).unwrap();
    c.receive(b"*1\r\n$4\r\nPING\r\n");
    written.extend(c.next_reply(&mut store, 0).unwrap());
    assert_eq!(written, b"-Error parsing integer\r\n+PONG\r\n".to_vec());
    assert_eq!(store.get("foo", 0), None);
}
