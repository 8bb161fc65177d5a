use redis_client::cmd::Cmd;
use redis_client::decode::parse_response;
use redis_client::encode::create_command;
use redis_client::errors::EncodeError;
use redis_client::num::u64_to_dec;
use redis_client::value::Values;

fn bytes(s: &str) -> Vec<u8> {
    s.as_bytes().to_vec()
}

#[test]
fn two_argument_command_bytes() {
    let args = vec![bytes("SET"), bytes("key")];
    let encoded = create_command(&args).unwrap();

    assert_eq!(bytes("*2\r\n$3\r\nSET\r\n$3\r\nkey\r\n"), encoded);
}

#[test]
fn one_argument_command_is_uniform() {
    // a one-argument command uses the same array-of-bulk-strings frame as
    // any other argument count
    let cmd = Cmd::cmd("PING");
    let encoded = cmd.request_bytes().unwrap();

    assert_eq!(bytes("*1\r\n$4\r\nPING\r\n"), encoded);
}

#[test]
fn empty_command_is_rejected() {
    let args: Vec<Vec<u8>> = Vec::new();

    assert_eq!(Err(EncodeError::EmptyCommand), create_command(&args));
}

#[test]
fn builder_accumulates_arguments_in_order() {
    let cmd = Cmd::cmd("SET").arg("key").arg("value");
    let encoded = cmd.request_bytes().unwrap();

    assert_eq!(bytes("*3\r\n$3\r\nSET\r\n$3\r\nkey\r\n$5\r\nvalue\r\n"), encoded);
}

#[test]
fn round_trip_builder_through_decoder() {
    // encode a command, then decode the frame as a server echoing the
    // arguments back as an array of bulk strings would have it decoded
    let cmd = Cmd::cmd("SET").arg("\ntest\n").arg("test\n");
    let encoded = cmd.request_bytes().unwrap();
    let decoded = parse_response(&encoded).unwrap();

    assert_eq!(
        Values::Arrays(Some(vec![
            Values::BulkString(Some(bytes("SET"))),
            Values::BulkString(Some(bytes("\ntest\n"))),
            Values::BulkString(Some(bytes("test\n"))),
        ])),
        decoded
    );
}

#[test]
fn round_trip_binary_safe_arguments() {
    // arguments may hold any byte value, embedded terminators included
    let args = vec![vec![13u8, 10, 0, 255, 13, 10], Vec::new(), bytes("x")];
    let encoded = create_command(&args).unwrap();
    let decoded = parse_response(&encoded).unwrap();

    assert_eq!(
        Values::Arrays(Some(vec![
            Values::BulkString(Some(vec![13u8, 10, 0, 255, 13, 10])),
            Values::BulkString(Some(Vec::new())),
            Values::BulkString(Some(bytes("x"))),
        ])),
        decoded
    );
}

#[test]
fn decimal_rendering() {
    assert_eq!(bytes("0"), u64_to_dec(0));
    assert_eq!(bytes("9"), u64_to_dec(9));
    assert_eq!(bytes("10"), u64_to_dec(10));
    assert_eq!(bytes("12345"), u64_to_dec(12345));
    assert_eq!(bytes("18446744073709551615"), u64_to_dec(u64::MAX));
}
