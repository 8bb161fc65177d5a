use redis_client::decode::{decode, parse_response};
use redis_client::errors::DecodeError;
use redis_client::value::Values;

fn bytes(s: &str) -> Vec<u8> {
    s.as_bytes().to_vec()
}

#[test]
fn empty_string() {
    let result = parse_response(&vec![0; 0]);

    assert_eq!(true, result.is_err());
}

#[test]
fn simple_string() {
    let raw_str: Vec<u8> = vec![b'+', b'H', b'e', b'l', b'l', b'o', b'\r', b'\n'];
    let result = parse_response(&raw_str);

    assert_eq!(Values::SimpleString(bytes("Hello")), result.unwrap());
}

#[test]
fn bulk_string() {
    // the declared length exceeds the bytes present: four payload bytes but
    // no terminator, so the frame is incomplete rather than a value
    let raw_str: Vec<u8> = vec![b'$', b'4', b'\r', b'\n', b'T', b'e', b's', b't'];
    let result = parse_response(&raw_str);

    assert_eq!(Err(DecodeError::IncompleteFrame), result);
}

#[test]
fn integer() {
    let raw_str: Vec<u8> = vec![b':', b'1', b'2', b'\r', b'\n'];
    let result = parse_response(&raw_str);

    assert_eq!(Values::Integers(12), result.unwrap());
}

#[test]
fn negative_integer() {
    // a three-byte payload whose terminator is missing: incomplete
    let raw_str: Vec<u8> = vec![b'$', b'3', b'\r', b'\n', b'-', b'1', b'2'];
    let result = parse_response(&raw_str);

    assert_eq!(Err(DecodeError::IncompleteFrame), result);
}

#[test]
fn error() {
    let raw_str: Vec<u8> = vec![
        b'-', b'E', b'r', b'r', b'o', b'r', b' ', b'm', b'e', b's', b's', b'a', b'g', b'e', b'\r',
        b'\n',
    ];
    let result = parse_response(&raw_str);

    assert_eq!(Values::Errors(bytes("Error message")), result.unwrap());
}

#[test]
fn array() {
    let raw_data = vec![
        b'*', b'4', b'\r', b'\n', b'$', b'3', b'\r', b'\n', b'p', b'8', b'F', b'\r', b'\n', b'$',
        b'4', b'\r', b'\n', b't', b'e', b's', b't', b'\r', b'\n', b'$', b'2', b'\r', b'\n', b'9',
        b'm', b'\r', b'\n', b'$', b'1', b'\r', b'\n', b't', b'\r', b'\n',
    ];

    assert_eq!(
        Values::Arrays(Some(vec![
            Values::BulkString(Some(bytes("p8F"))),
            Values::BulkString(Some(bytes("test"))),
            Values::BulkString(Some(bytes("9m"))),
            Values::BulkString(Some(bytes("t"))),
        ])),
        parse_response(&raw_data).unwrap()
    );
}

#[test]
fn bulk_string_complete() {
    let raw = bytes("$4\r\nTest\r\n");

    assert_eq!(
        Values::BulkString(Some(bytes("Test"))),
        parse_response(&raw).unwrap()
    );
}

#[test]
fn bulk_string_with_terminator_payload() {
    // payloads are binary safe: an embedded terminator is data, not framing
    let raw = bytes("$6\r\nab\r\ncd\r\n");

    assert_eq!(
        Values::BulkString(Some(bytes("ab\r\ncd"))),
        parse_response(&raw).unwrap()
    );
}

#[test]
fn negative_integer_complete() {
    let raw = bytes("$3\r\n-12\r\n");

    assert_eq!(
        Values::BulkString(Some(bytes("-12"))),
        parse_response(&raw).unwrap()
    );
}

#[test]
fn negative_integer_frame() {
    let raw = bytes(":-12\r\n");

    assert_eq!(Values::Integers(-12), parse_response(&raw).unwrap());
}

#[test]
fn integer_extremes() {
    let max = bytes(":9223372036854775807\r\n");
    assert_eq!(Values::Integers(i64::MAX), parse_response(&max).unwrap());

    let min = bytes(":-9223372036854775808\r\n");
    assert_eq!(Values::Integers(i64::MIN), parse_response(&min).unwrap());

    let zero = bytes(":0\r\n");
    assert_eq!(Values::Integers(0), parse_response(&zero).unwrap());
}

#[test]
fn integer_overflow_is_malformed() {
    let over = bytes(":9223372036854775808\r\n");
    assert_eq!(Err(DecodeError::MalformedInteger), parse_response(&over));

    let under = bytes(":-9223372036854775809\r\n");
    assert_eq!(Err(DecodeError::MalformedInteger), parse_response(&under));
}

#[test]
fn malformed_integers() {
    assert_eq!(
        Err(DecodeError::MalformedInteger),
        parse_response(&bytes(":abc\r\n"))
    );
    assert_eq!(
        Err(DecodeError::MalformedInteger),
        parse_response(&bytes(":\r\n"))
    );
    assert_eq!(
        Err(DecodeError::MalformedInteger),
        parse_response(&bytes(":-\r\n"))
    );
    // no terminator before the buffer ends
    assert_eq!(
        Err(DecodeError::MalformedInteger),
        parse_response(&bytes(":12"))
    );
}

#[test]
fn malformed_lengths() {
    assert_eq!(
        Err(DecodeError::MalformedLength),
        parse_response(&bytes("$abc\r\n"))
    );
    assert_eq!(
        Err(DecodeError::MalformedLength),
        parse_response(&bytes("$-2\r\nxx\r\n"))
    );
    assert_eq!(
        Err(DecodeError::MalformedLength),
        parse_response(&bytes("*-2\r\n"))
    );
    // the declared length is not followed by a terminator
    assert_eq!(
        Err(DecodeError::MalformedLength),
        parse_response(&bytes("$4\r\nTestXY"))
    );
}

#[test]
fn null_bulk_string_and_null_array() {
    assert_eq!(
        Values::BulkString(None),
        parse_response(&bytes("$-1\r\n")).unwrap()
    );
    assert_eq!(
        Values::Arrays(None),
        parse_response(&bytes("*-1\r\n")).unwrap()
    );
}

#[test]
fn empty_bulk_string_and_empty_array() {
    assert_eq!(
        Values::BulkString(Some(Vec::new())),
        parse_response(&bytes("$0\r\n\r\n")).unwrap()
    );
    assert_eq!(
        Values::Arrays(Some(Vec::new())),
        parse_response(&bytes("*0\r\n")).unwrap()
    );
}

#[test]
fn unknown_type_tag() {
    assert_eq!(
        Err(DecodeError::UnknownTypeTag),
        parse_response(&bytes("?hello\r\n"))
    );
    assert_eq!(Err(DecodeError::UnknownTypeTag), parse_response(&vec![0; 10]));
}

#[test]
fn empty_buffer_is_recoverable() {
    let result = parse_response(&Vec::new());

    assert_eq!(Err(DecodeError::UnexpectedEndOfBuffer), result);
    assert!(DecodeError::UnexpectedEndOfBuffer.is_recoverable());
}

#[test]
fn truncated_bulk_string_every_cut() {
    let full = bytes("$4\r\nTest\r\n");
    for cut in 0..full.len() {
        let prefix: Vec<u8> = full[..cut].to_vec();
        let result = parse_response(&prefix);
        if cut >= 4 {
            assert_eq!(Err(DecodeError::IncompleteFrame), result);
        } else {
            assert_eq!(Err(DecodeError::UnexpectedEndOfBuffer), result);
        }
        assert!(result.unwrap_err().is_recoverable());
    }
}

#[test]
fn truncated_array_is_recoverable() {
    let full = bytes("*2\r\n$3\r\nabc\r\n$3\r\ndef\r\n");
    for cut in 0..full.len() {
        let prefix: Vec<u8> = full[..cut].to_vec();
        let err = parse_response(&prefix).unwrap_err();
        assert!(err.is_recoverable());
    }
    assert!(parse_response(&full).is_ok());
}

#[test]
fn nested_arrays_keep_order() {
    // depth five, with a two-element array innermost: order must match the
    // bytes' left-to-right order
    let raw = bytes("*1\r\n*1\r\n*1\r\n*1\r\n*2\r\n:1\r\n:2\r\n");
    let inner = Values::Arrays(Some(vec![Values::Integers(1), Values::Integers(2)]));
    let expected = Values::Arrays(Some(vec![Values::Arrays(Some(vec![Values::Arrays(Some(
        vec![Values::Arrays(Some(vec![inner]))],
    ))]))]));

    assert_eq!(expected, parse_response(&raw).unwrap());
}

#[test]
fn mixed_array_in_order() {
    let raw = bytes("*3\r\n:7\r\n+ok\r\n$2\r\nhi\r\n");
    let expected = Values::Arrays(Some(vec![
        Values::Integers(7),
        Values::SimpleString(bytes("ok")),
        Values::BulkString(Some(bytes("hi"))),
    ]));

    assert_eq!(expected, parse_response(&raw).unwrap());
}

#[test]
fn decode_reports_bytes_consumed() {
    let raw = bytes("+OK\r\nextra");
    let (value, consumed) = decode(&raw, 0).unwrap();

    assert_eq!(Values::SimpleString(bytes("OK")), value);
    assert_eq!(5, consumed);

    // a second frame decodes from the offset the first one reported
    let two = bytes(":1\r\n:2\r\n");
    let (first, n1) = decode(&two, 0).unwrap();
    let (second, n2) = decode(&two, n1).unwrap();
    assert_eq!(Values::Integers(1), first);
    assert_eq!(Values::Integers(2), second);
    assert_eq!(two.len(), n1 + n2);
}

#[test]
fn recoverable_classification() {
    assert!(DecodeError::IncompleteFrame.is_recoverable());
    assert!(DecodeError::UnexpectedEndOfBuffer.is_recoverable());
    assert!(!DecodeError::UnknownTypeTag.is_recoverable());
    assert!(!DecodeError::MalformedInteger.is_recoverable());
    assert!(!DecodeError::MalformedLength.is_recoverable());
}
