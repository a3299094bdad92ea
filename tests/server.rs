use respkv::command::Command;
use respkv::session::{execute, failure_reply, Connection, Failure, Step};
use respkv::store::Store;
use respkv::wire::{encode_bulk, encode_integer, encode_nil, encode_simple, encode_error, push_decimal};

fn run(store: &mut Store, request: &[u8]) -> Vec<u8> {
    let mut conn = Connection::new();
    conn.receive(request);
    match conn.next_step() {
        Step::Run(cmd) => execute(store, &cmd),
        other => panic!("unexpected step {:?}", other),
    }
}

fn set(k: &[u8], v: &[u8]) -> Command {
    Command::Store(k.to_vec(), v.to_vec(), vec![])
}

fn get(k: &[u8]) -> Command {
    Command::Get(k.to_vec())
}

#[test]
fn ping_replies_pong() {
    let mut store = Store::new();
    assert_eq!(run(&mut store, b"*1\r\n$4\r\nPING\r\n"), b"+PONG\r\n".to_vec());
    assert_eq!(execute(&mut store, &Command::Ping), b"+PONG\r\n".to_vec());
}

#[test]
fn echo_hello_replies_five_byte_bulk() {
    let mut store = Store::new();
    assert_eq!(run(&mut store, b"*2\r\n$4\r\nECHO\r\n$5\r\nhello\r\n"), b"$5\r\nhello\r\n".to_vec());
}

#[test]
fn echo_round_trips_text() {
    let mut store = Store::new();
    let text = b"a b\r\nc";
    let reply = execute(&mut store, &Command::Echo(text.to_vec()));
    assert_eq!(reply, b"$6\r\na b\r\nc\r\n".to_vec());
}

#[test]
fn echo_empty_string() {
    let mut store = Store::new();
    assert_eq!(run(&mut store, b"*2\r\n$4\r\necho\r\n$0\r\n\r\n"), b"$0\r\n\r\n".to_vec());
}

#[test]
fn get_of_unset_key_is_nil() {
    let mut store = Store::new();
    assert_eq!(run(&mut store, b"*2\r\n$3\r\nGET\r\n$3\r\nkey\r\n"), b"$-1\r\n".to_vec());
    assert_eq!(store.get(b"key"), None);
}

#[test]
fn set_then_get_returns_value() {
    let mut store = Store::new();
    assert_eq!(run(&mut store, b"*3\r\n$3\r\nSET\r\n$3\r\nkey\r\n$5\r\nvalue\r\n"), b"+OK\r\n".to_vec());
    assert_eq!(run(&mut store, b"*2\r\n$3\r\nGET\r\n$3\r\nkey\r\n"), b"$5\r\nvalue\r\n".to_vec());
}

#[test]
fn last_writer_wins() {
    let mut store = Store::new();
    assert_eq!(execute(&mut store, &set(b"k", b"v1")), b"+OK\r\n".to_vec());
    assert_eq!(execute(&mut store, &set(b"k", b"v2")), b"+OK\r\n".to_vec());
    assert_eq!(execute(&mut store, &get(b"k")), b"$2\r\nv2\r\n".to_vec());
}

#[test]
fn set_with_expiry_option_still_stores() {
    let mut store = Store::new();
    let reply = run(&mut store, b"*5\r\n$3\r\nSET\r\n$1\r\nk\r\n$1\r\nv\r\n$2\r\npx\r\n$3\r\n100\r\n");
    assert_eq!(reply, b"+OK\r\n".to_vec());
    assert_eq!(store.get(b"k"), Some(b"v".to_vec()));
}

#[test]
fn sets_on_distinct_keys_both_kept_in_either_order() {
    let mut a = Store::new();
    execute(&mut a, &set(b"k1", b"one"));
    execute(&mut a, &set(b"k2", b"two"));
    let mut b = Store::new();
    execute(&mut b, &set(b"k2", b"two"));
    execute(&mut b, &set(b"k1", b"one"));
    for s in [&mut a, &mut b] {
        assert_eq!(execute(s, &get(b"k1")), b"$3\r\none\r\n".to_vec());
        assert_eq!(execute(s, &get(b"k2")), b"$3\r\ntwo\r\n".to_vec());
    }
}

#[test]
fn request_split_across_reads() {
    let mut store = Store::new();
    let mut conn = Connection::new();
    conn.receive(b"*2\r\n");
    assert_eq!(conn.next_step(), Step::NeedMore);
    conn.receive(b"$4\r\nECHO\r\n$2\r\n");
    assert_eq!(conn.next_step(), Step::NeedMore);
    conn.receive(b"hi\r\n");
    match conn.next_step() {
        Step::Run(cmd) => assert_eq!(execute(&mut store, &cmd), b"$2\r\nhi\r\n".to_vec()),
        other => panic!("unexpected step {:?}", other),
    }
    assert_eq!(conn.next_step(), Step::NeedMore);
}

#[test]
fn two_requests_in_one_read_run_in_order() {
    let mut conn = Connection::new();
    conn.receive(b"*1\r\n$4\r\nping\r\n*2\r\n$3\r\nget\r\n$1\r\nk\r\n");
    assert_eq!(conn.next_step(), Step::Run(Command::Ping));
    assert_eq!(conn.next_step(), Step::Run(Command::Get(b"k".to_vec())));
    assert_eq!(conn.next_step(), Step::NeedMore);
}

#[test]
fn malformed_bytes_fail_the_connection() {
    let mut conn = Connection::new();
    conn.receive(b"hello\r\n");
    assert_eq!(conn.next_step(), Step::Fail(Failure::Malformed));
    assert_eq!(failure_reply(Failure::Malformed), b"-ERR protocol error\r\n".to_vec());
}

#[test]
fn unknown_command_fails_the_connection() {
    let mut conn = Connection::new();
    conn.receive(b"*1\r\n$4\r\nQUIT\r\n");
    assert_eq!(conn.next_step(), Step::Fail(Failure::UnknownCommand));
    assert_eq!(failure_reply(Failure::UnknownCommand), b"-ERR unknown command\r\n".to_vec());
    assert_eq!(failure_reply(Failure::WrongType), b"-ERR wrong argument type\r\n".to_vec());
}

#[test]
fn reply_encodings() {
    assert_eq!(encode_bulk(b"abc"), b"$3\r\nabc\r\n".to_vec());
    assert_eq!(encode_simple(b"OK"), b"+OK\r\n".to_vec());
    assert_eq!(encode_error(b"ERR x"), b"-ERR x\r\n".to_vec());
    assert_eq!(encode_nil(), b"$-1\r\n".to_vec());
    assert_eq!(encode_integer(0), b":0\r\n".to_vec());
    assert_eq!(encode_integer(-42), b":-42\r\n".to_vec());
    assert_eq!(encode_integer(i64::MAX), b":9223372036854775807\r\n".to_vec());
    assert_eq!(encode_integer(i64::MIN), b":-9223372036854775808\r\n".to_vec());
}

#[test]
fn decimal_numerals() {
    let mut out = b"x".to_vec();
    push_decimal(&mut out, 1200);
    assert_eq!(out, b"x1200".to_vec());
    let mut big = Vec::new();
    push_decimal(&mut big, u64::MAX);
    assert_eq!(big, b"18446744073709551615".to_vec());
}

#[test]
fn long_value_length_prefix() {
    let mut store = Store::new();
    let value = vec![b'z'; 1234];
    execute(&mut store, &Command::Store(b"big".to_vec(), value.clone(), vec![]));
    let mut expected = b"$1234\r\n".to_vec();
    expected.extend_from_slice(&value);
    expected.extend_from_slice(b"\r\n");
    assert_eq!(execute(&mut store, &get(b"big")), expected);
}
