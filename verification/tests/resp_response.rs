use resp_kv::resp_response::RespResponse;

#[test]
fn named_responses() {
    assert_eq!(RespResponse::pong(), RespResponse::SimpleString("PONG".to_string()));
    assert_eq!(RespResponse::set(), RespResponse::SimpleString("OK".to_string()));
    assert_eq!(RespResponse::echo(b"x".to_vec()), RespResponse::BulkString(Some(b"x".to_vec())));
    assert_eq!(RespResponse::get(b"y".to_vec()), RespResponse::BulkString(Some(b"y".to_vec())));
    assert_eq!(RespResponse::null(), RespResponse::BulkString(None));
}

#[test]
fn wire_form_of_each_variant() {
    assert_eq!(RespResponse::SimpleString("OK".to_string()).to_resp(), b"+OK\r\n".to_vec());
    assert_eq!(RespResponse::pong().to_resp(), b"+PONG\r\n".to_vec());
    assert_eq!(RespResponse::SimpleString(String::new()).to_resp(), b"+\r\n".to_vec());
    assert_eq!(
        RespResponse::Error("ERR unknown".to_string()).to_resp(),
        b"-ERR unknown\r\n".to_vec()
    );
    assert_eq!(RespResponse::Integer(0).to_resp(), b":0\r\n".to_vec());
    assert_eq!(RespResponse::Integer(42).to_resp(), b":42\r\n".to_vec());
    assert_eq!(RespResponse::Integer(-7).to_resp(), b":-7\r\n".to_vec());
    assert_eq!(RespResponse::Integer(1000).to_resp(), b":1000\r\n".to_vec());
    assert_eq!(
        RespResponse::Integer(i64::MAX).to_resp(),
        b":9223372036854775807\r\n".to_vec()
    );
    assert_eq!(
        RespResponse::Integer(i64::MIN).to_resp(),
        b":-9223372036854775808\r\n".to_vec()
    );
    assert_eq!(RespResponse::BulkString(None).to_resp(), b"$-1\r\n".to_vec());
    assert_eq!(RespResponse::BulkString(Some(Vec::new())).to_resp(), b"$0\r\n\r\n".to_vec());
    assert_eq!(RespResponse::BulkString(Some(b"hi".to_vec())).to_resp(), b"$2\r\nhi\r\n".to_vec());
    assert_eq!(
        RespResponse::BulkString(Some(b"0123456789ab".to_vec())).to_resp(),
        b"$12\r\n0123456789ab\r\n".to_vec()
    );
    assert_eq!(
        RespResponse::BulkString(Some(vec![0, 0xff, 13, 10])).to_resp(),
        b"$4\r\n\x00\xff\r\n\r\n".to_vec()
    );
    assert_eq!(RespResponse::Array(Vec::new()).to_resp(), b"*0\r\n".to_vec());
    assert_eq!(
        RespResponse::Array(vec![RespResponse::Integer(1), RespResponse::null()]).to_resp(),
        b"*2\r\n:1\r\n$-1\r\n".to_vec()
    );
    assert_eq!(
        RespResponse::SimpleString("h\u{e9}".to_string()).to_resp(),
        vec![b'+', b'h', 0xc3, 0xa9, 13, 10]
    );
}

#[test]
fn a_clone_is_the_same_response() {
    let response = RespResponse::Array(vec![
        RespResponse::SimpleString("s".to_string()),
        RespResponse::Error("e".to_string()),
        RespResponse::Integer(-3),
        RespResponse::BulkString(None),
        RespResponse::BulkString(Some(vec![0, 13, 10, 255])),
        RespResponse::Array(vec![RespResponse::Array(Vec::new()), RespResponse::Integer(7)]),
    ]);
    let copy = response.clone();
    assert_eq!(copy, response);
    assert_eq!(copy.to_resp(), response.to_resp());
    assert_eq!(RespResponse::Integer(5).clone(), RespResponse::Integer(5));
}

#[test]
fn wire_form_of_nested_arrays() {
    let response = RespResponse::Array(vec![
        RespResponse::Array(vec![RespResponse::SimpleString("a".to_string())]),
        RespResponse::Array(Vec::new()),
        RespResponse::Array(vec![
            RespResponse::BulkString(Some(b"b".to_vec())),
            RespResponse::Array(vec![RespResponse::Integer(-1)]),
        ]),
    ]);
    assert_eq!(response.encode(), b"*3\r\n*1\r\n+a\r\n*0\r\n*2\r\n$1\r\nb\r\n*1\r\n:-1\r\n".to_vec());
    assert_eq!(
        response.to_resp(),
        b"*3\r\n*1\r\n+a\r\n*0\r\n*2\r\n$1\r\nb\r\n*1\r\n:-1\r\n".to_vec()
    );
}

fn line(bytes: &[u8]) -> Option<(&[u8], &[u8])> {
    let end = bytes.windows(2).position(|w| w == b"\r\n")?;
    Some((&bytes[1..end], &bytes[end + 2..]))
}

fn read(bytes: &[u8]) -> Option<(RespResponse, &[u8])> {
    let marker = *bytes.first()?;
    let (head, rest) = line(bytes)?;
    match marker {
        b'+' => Some((RespResponse::SimpleString(String::from_utf8(head.to_vec()).ok()?), rest)),
        b'-' => Some((RespResponse::Error(String::from_utf8(head.to_vec()).ok()?), rest)),
        b':' => Some((RespResponse::Integer(std::str::from_utf8(head).ok()?.parse().ok()?), rest)),
        b'$' => {
            if head == b"-1" {
                return Some((RespResponse::BulkString(None), rest));
            }
            let length: usize = std::str::from_utf8(head).ok()?.parse().ok()?;
            if rest.len() < length + 2 || &rest[length..length + 2] != b"\r\n" {
                return None;
            }
            Some((RespResponse::BulkString(Some(rest[..length].to_vec())), &rest[length + 2..]))
        }
        b'*' => {
            let count: usize = std::str::from_utf8(head).ok()?.parse().ok()?;
            let mut items = Vec::new();
            let mut rest = rest;
            for _ in 0..count {
                let (item, after) = read(rest)?;
                items.push(item);
                rest = after;
            }
            Some((RespResponse::Array(items), rest))
        }
        _ => None,
    }
}

fn round_trip(make: fn() -> RespResponse) {
    let bytes = make().to_resp();
    let (back, rest) = read(&bytes).unwrap();
    assert_eq!(back, make());
    assert!(rest.is_empty());
}

#[test]
fn every_variant_reads_back() {
    round_trip(|| RespResponse::SimpleString("PONG".to_string()));
    round_trip(|| RespResponse::SimpleString("a\rb\nc".to_string()));
    round_trip(|| RespResponse::SimpleString("ends with cr\r".to_string()));
    round_trip(|| RespResponse::Error("ERR Unknown command: x".to_string()));
    round_trip(|| RespResponse::Integer(0));
    round_trip(|| RespResponse::Integer(i64::MIN));
    round_trip(|| RespResponse::Integer(i64::MAX));
    round_trip(|| RespResponse::BulkString(None));
    round_trip(|| RespResponse::BulkString(Some(Vec::new())));
    round_trip(|| RespResponse::BulkString(Some(b"with\r\nterminator".to_vec())));
    round_trip(|| RespResponse::BulkString(Some((0..=255u8).collect())));
    round_trip(|| RespResponse::Array(Vec::new()));
    round_trip(|| {
        RespResponse::Array(vec![
            RespResponse::SimpleString("s".to_string()),
            RespResponse::Error("e".to_string()),
            RespResponse::Integer(-12),
            RespResponse::BulkString(None),
            RespResponse::BulkString(Some(b"b".to_vec())),
            RespResponse::Array(vec![
                RespResponse::Array(vec![RespResponse::Array(Vec::new())]),
                RespResponse::Integer(3),
            ]),
        ])
    });
}

#[test]
fn a_text_with_a_terminator_does_not_read_back() {
    let bytes = RespResponse::SimpleString("a\r\nb".to_string()).to_resp();
    assert_eq!(bytes, b"+a\r\nb\r\n".to_vec());
    let (back, rest) = read(&bytes).unwrap();
    assert_eq!(back, RespResponse::SimpleString("a".to_string()));
    assert_eq!(rest, b"b\r\n");
}
