use resp_kv::resp_command::{CommandError, RespCommand, RespTtl};
use resp_kv::stream_chunking_service::StringCommand;

#[test]
fn test_parse_command() {
    let command = RespCommand::parse(StringCommand::new("PING\r\n".to_string()));
    assert!(command.is_ok());
}

#[test]
fn test_parse_command_unknown_command() {
    let command = RespCommand::parse(StringCommand::new("GET\r\n".to_string()));
    assert!(command.is_err());
}

#[test]
fn test_echo_command() {
    let command = RespCommand::parse(StringCommand::new("ECHO\r\nHey\r\n".to_string()));
    assert!(command.is_ok());
    let command = command.unwrap();
    match command {
        RespCommand::Echo { message } => {
            assert_eq!(message, Some("Hey".as_bytes().to_vec()));
        }
        _ => panic!("Unexpected command type"),
    }
}

#[test]
fn test_set_command() {
    let command = RespCommand::parse(StringCommand::new("SET\r\nkey\r\nvalue\r\n".to_string()));
    assert!(command.is_ok());
    let command = command.unwrap();
    match command {
        RespCommand::SetValue { key, value, ttl } => {
            assert_eq!(key, "key".as_bytes().to_vec());
            assert_eq!(value, "value".as_bytes().to_vec());
            assert_eq!(ttl, None);
        }
        _ => panic!("Unexpected command type"),
    }
}

#[test]
fn test_get_command() {
    let command = RespCommand::parse(StringCommand::new("GET\r\nkey\r\n".to_string()));
    assert!(command.is_ok());
    let command = command.unwrap();
    match command {
        RespCommand::Get { key } => {
            assert_eq!(key, "key".as_bytes().to_vec());
        }
        _ => panic!("Unexpected command type"),
    }
}

fn frame(parts: &[&[u8]]) -> StringCommand {
    StringCommand::from_parts(parts.iter().map(|p| p.to_vec()).collect()).unwrap()
}

#[test]
fn ping_takes_an_optional_message() {
    assert_eq!(RespCommand::parse(frame(&[b"PING"])), Ok(RespCommand::Ping { message: None }));
    assert_eq!(
        RespCommand::parse(frame(&[b"PING", b"hello"])),
        Ok(RespCommand::Ping { message: Some(b"hello".to_vec()) })
    );
    assert_eq!(
        RespCommand::parse(frame(&[b"PING", b"a", b"b"])),
        Err(CommandError::InvalidArguments)
    );
}

#[test]
fn command_names_match_in_any_case() {
    assert_eq!(RespCommand::parse(frame(&[b"ping"])), Ok(RespCommand::Ping { message: None }));
    assert_eq!(
        RespCommand::parse(frame(&[b"eChO", b"x"])),
        Ok(RespCommand::Echo { message: Some(b"x".to_vec()) })
    );
    assert_eq!(
        RespCommand::parse(frame(&[b"get", b"k"])),
        Ok(RespCommand::Get { key: b"k".to_vec() })
    );
    assert_eq!(
        RespCommand::parse(frame(&[b"Set", b"k", b"v"])),
        Ok(RespCommand::SetValue { key: b"k".to_vec(), value: b"v".to_vec(), ttl: None })
    );
}

#[test]
fn echo_needs_exactly_one_message() {
    assert_eq!(RespCommand::parse(frame(&[b"ECHO"])), Err(CommandError::InvalidArguments));
    assert_eq!(
        RespCommand::parse(frame(&[b"ECHO", b"a", b"b"])),
        Err(CommandError::InvalidArguments)
    );
}

#[test]
fn get_needs_exactly_one_key() {
    assert_eq!(RespCommand::parse(frame(&[b"GET"])), Err(CommandError::InvalidArguments));
    assert_eq!(
        RespCommand::parse(frame(&[b"GET", b"a", b"b"])),
        Err(CommandError::InvalidArguments)
    );
}

#[test]
fn set_reads_its_expiry() {
    assert_eq!(
        RespCommand::parse(frame(&[b"SET", b"k", b"v", b"EX", b"10"])),
        Ok(RespCommand::SetValue {
            key: b"k".to_vec(),
            value: b"v".to_vec(),
            ttl: Some(RespTtl::Seconds(10)),
        })
    );
    assert_eq!(
        RespCommand::parse(frame(&[b"SET", b"k", b"v", b"px", b"1500"])),
        Ok(RespCommand::SetValue {
            key: b"k".to_vec(),
            value: b"v".to_vec(),
            ttl: Some(RespTtl::Milliseconds(1500)),
        })
    );
}

#[test]
fn set_refuses_a_wrong_shape() {
    assert_eq!(RespCommand::parse(frame(&[b"SET", b"k"])), Err(CommandError::InvalidArguments));
    assert_eq!(
        RespCommand::parse(frame(&[b"SET", b"k", b"v", b"10"])),
        Err(CommandError::InvalidArguments)
    );
    assert_eq!(
        RespCommand::parse(frame(&[b"SET", b"k", b"v", b"XX", b"10"])),
        Err(CommandError::InvalidArguments)
    );
    assert_eq!(
        RespCommand::parse(frame(&[b"SET", b"k", b"v", b"EX", b"ten"])),
        Err(CommandError::InvalidArguments)
    );
    assert_eq!(
        RespCommand::parse(frame(&[b"SET", b"k", b"v", b"EX", b"18446744073709551616"])),
        Err(CommandError::InvalidArguments)
    );
    assert_eq!(
        RespCommand::parse(frame(&[b"SET", b"k", b"v", b"EX", b"18446744073709551615"])),
        Ok(RespCommand::SetValue {
            key: b"k".to_vec(),
            value: b"v".to_vec(),
            ttl: Some(RespTtl::Seconds(u64::MAX)),
        })
    );
}

#[test]
fn unknown_names_are_reported_as_given() {
    assert_eq!(
        RespCommand::parse(frame(&[b"Flush", b"x"])),
        Err(CommandError::UnknownCommand(b"Flush".to_vec()))
    );
    assert_eq!(
        CommandError::UnknownCommand(b"Flush".to_vec()).to_string(),
        "Unknown command: Flush"
    );
    assert_eq!(CommandError::InvalidArguments.to_string(), "Invalid arguments");
    assert_eq!(
        CommandError::UnknownCommand("caf\u{e9}".as_bytes().to_vec()).to_string(),
        "Unknown command: caf\u{e9}"
    );
}

#[test]
fn line_breaks_in_an_unknown_name_are_shown_as_blanks() {
    assert_eq!(
        CommandError::UnknownCommand(b"a\r\nb\rc\nd".to_vec()).to_string(),
        "Unknown command: a  b c d"
    );
    assert_eq!(
        RespCommand::parse(frame(&[b"a\r\nb"])),
        Err(CommandError::UnknownCommand(b"a\r\nb".to_vec()))
    );
}

#[test]
fn arguments_are_opaque_bytes() {
    let value: Vec<u8> = vec![0, 255, 13, 10, 7];
    let parsed = RespCommand::parse(
        StringCommand::from_parts(vec![b"SET".to_vec(), b"k".to_vec(), value.clone()]).unwrap(),
    );
    assert_eq!(
        parsed,
        Ok(RespCommand::SetValue { key: b"k".to_vec(), value, ttl: None })
    );
}

#[test]
fn only_set_writes() {
    assert!(RespCommand::SetValue { key: vec![1], value: vec![2], ttl: None }.writes());
    assert!(!RespCommand::Get { key: vec![1] }.writes());
    assert!(!RespCommand::Ping { message: None }.writes());
    assert!(!RespCommand::Echo { message: None }.writes());
}

#[test]
fn ttl_in_whole_seconds() {
    assert_eq!(RespTtl::from_seconds(7).to_seconds(), 7);
    assert_eq!(RespTtl::from_milliseconds(7999).to_seconds(), 7);
    assert_eq!(RespTtl::from_milliseconds(999).to_seconds(), 0);
    assert_eq!(RespTtl::from_seconds(3), RespTtl::Seconds(3));
    assert_eq!(RespTtl::from_milliseconds(3), RespTtl::Milliseconds(3));
}
