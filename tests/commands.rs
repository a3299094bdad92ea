use respkv::command::{parse_command, Command, CommandError};
use respkv::frame::Value;

fn bulks(items: &[&[u8]]) -> Vec<Value> {
    items.iter().map(|s| Value::Bulk(s.to_vec())).collect()
}

#[test]
fn ping_in_any_case() {
    assert_eq!(parse_command(&bulks(&[b"PING"])), Ok(Command::Ping));
    assert_eq!(parse_command(&bulks(&[b"ping"])), Ok(Command::Ping));
    assert_eq!(parse_command(&bulks(&[b"PiNg"])), Ok(Command::Ping));
}

#[test]
fn ping_with_argument_is_unknown() {
    assert_eq!(parse_command(&bulks(&[b"PING", b"x"])), Err(CommandError::Unknown));
}

#[test]
fn echo_takes_one_argument() {
    assert_eq!(parse_command(&bulks(&[b"ECHO", b"hello"])), Ok(Command::Echo(b"hello".to_vec())));
    assert_eq!(parse_command(&bulks(&[b"ECHO"])), Err(CommandError::Unknown));
    assert_eq!(parse_command(&bulks(&[b"ECHO", b"a", b"b"])), Err(CommandError::Unknown));
}

#[test]
fn get_takes_one_key() {
    assert_eq!(parse_command(&bulks(&[b"get", b"k"])), Ok(Command::Get(b"k".to_vec())));
    assert_eq!(parse_command(&bulks(&[b"GET"])), Err(CommandError::Unknown));
}

#[test]
fn set_keeps_option_tokens() {
    assert_eq!(
        parse_command(&bulks(&[b"SET", b"k", b"v"])),
        Ok(Command::Store(b"k".to_vec(), b"v".to_vec(), vec![]))
    );
    assert_eq!(
        parse_command(&bulks(&[b"set", b"k", b"v", b"px", b"100"])),
        Ok(Command::Store(b"k".to_vec(), b"v".to_vec(), vec![b"px".to_vec(), b"100".to_vec()]))
    );
    assert_eq!(parse_command(&bulks(&[b"SET", b"k"])), Err(CommandError::Unknown));
}

#[test]
fn unknown_name_and_empty_frame() {
    assert_eq!(parse_command(&bulks(&[b"DEL", b"k"])), Err(CommandError::Unknown));
    assert_eq!(parse_command(&bulks(&[b"PINGS"])), Err(CommandError::Unknown));
    assert_eq!(parse_command(&[]), Err(CommandError::Unknown));
}

#[test]
fn non_bulk_element_is_wrong_type() {
    let frame = vec![Value::Bulk(b"GET".to_vec()), Value::Integer(5)];
    assert_eq!(parse_command(&frame), Err(CommandError::WrongType));
    let frame = vec![Value::Simple(b"PING".to_vec())];
    assert_eq!(parse_command(&frame), Err(CommandError::WrongType));
}
