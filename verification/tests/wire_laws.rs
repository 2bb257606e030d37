use respkv::connection::{ConnectionError, ConnectionMessage};
use respkv::resp::{RESP, bytes_to_resp, parse_bulk_string, parse_simple_string};
use respkv::resp_result::RESPError;
use respkv::server_result::ServerError;
use respkv::storage_result::StorageError;

#[test]
fn test_serialize_simple_string() {
    let value = RESP::SimpleString(String::from("OK"));

    assert_eq!(value.serialize(), b"+OK\r\n".to_vec());
}

#[test]
fn test_serialize_null() {
    assert_eq!(RESP::Null.serialize(), b"$-1\r\n".to_vec());
}

#[test]
fn test_serialize_bulk_string() {
    let value = RESP::BulkString(String::from("VALUE"));

    assert_eq!(value.serialize(), b"$5\r\nVALUE\r\n".to_vec());
}

#[test]
fn test_serialize_empty_bulk_string() {
    let value = RESP::BulkString(String::from(""));

    assert_eq!(value.serialize(), b"$0\r\n\r\n".to_vec());
}

#[test]
fn test_serialize_array() {
    let value = RESP::Array(vec![
        RESP::SimpleString(String::from("OK")),
        RESP::BulkString(String::from("VALUE")),
    ]);

    assert_eq!(value.serialize(), b"*2\r\n+OK\r\n$5\r\nVALUE\r\n".to_vec());
}

#[test]
fn test_serialize_multi_byte_text() {
    let value = RESP::BulkString(String::from("héllo"));

    // the declared length counts bytes, not characters
    assert_eq!(value.serialize(), "$6\r\nhéllo\r\n".as_bytes().to_vec());
}

#[test]
fn test_round_trip_nested_array() {
    let value = RESP::Array(vec![
        RESP::SimpleString(String::from("OK")),
        RESP::Null,
        RESP::BulkString(String::from("with\r\ninside")),
        RESP::Array(vec![RESP::BulkString(String::from("déjà"))]),
    ]);

    let bytes = value.serialize();
    let mut index: usize = 0;
    let parsed = bytes_to_resp(&bytes, &mut index).unwrap();

    assert_eq!(parsed, value);
    assert_eq!(index, bytes.len());
}

#[test]
fn test_round_trip_empty_simple_string() {
    let value = RESP::SimpleString(String::from(""));

    let bytes = value.serialize();
    assert_eq!(bytes, b"+\r\n".to_vec());

    let mut index: usize = 0;
    let parsed = bytes_to_resp(&bytes, &mut index).unwrap();

    assert_eq!(parsed, value);
    assert_eq!(index, 3);
}

#[test]
fn test_round_trip_empty_array() {
    let value = RESP::Array(vec![]);

    let bytes = value.serialize();
    assert_eq!(bytes, b"*0\r\n".to_vec());

    let mut index: usize = 0;
    let parsed = bytes_to_resp(&bytes, &mut index).unwrap();

    assert_eq!(parsed, value);
    assert_eq!(index, 4);
}

#[test]
fn test_parse_bulk_string_invalid_utf8() {
    let buffer: Vec<u8> = vec![b'$', b'2', 13, 10, 0xFF, 0xFE, 13, 10];
    let mut index: usize = 0;

    let error = parse_bulk_string(&buffer, &mut index).unwrap_err();

    assert_eq!(error, RESPError::FromUtf8);
    assert_eq!(index, 6);
}

#[test]
fn test_parse_simple_string_invalid_utf8() {
    let buffer: Vec<u8> = vec![b'+', 0xC0, 0x21, 13, 10];
    let mut index: usize = 0;

    let error = parse_simple_string(&buffer, &mut index).unwrap_err();

    assert_eq!(error, RESPError::FromUtf8);
    assert_eq!(index, 5);
}

#[test]
fn test_parse_bulk_string_length_overflow() {
    let buffer = "$99999999999999999999\r\nOK\r\n".as_bytes();
    let mut index: usize = 0;

    let error = parse_bulk_string(buffer, &mut index).unwrap_err();

    assert_eq!(error, RESPError::ParseInt);
    assert_eq!(index, 23);
}

#[test]
fn test_parse_bulk_string_plus_sign_length() {
    let buffer = "$+2\r\nOK\r\n".as_bytes();
    let mut index: usize = 0;

    let output = parse_bulk_string(buffer, &mut index).unwrap();

    assert_eq!(output, RESP::BulkString(String::from("OK")));
    assert_eq!(index, 9);
}

#[test]
fn test_storage_error_messages() {
    assert_eq!(
        StorageError::IncorrectRequest.message(),
        "The client sent an incorrect request!"
    );
    assert_eq!(
        StorageError::CommandNotAvailable(String::from("get")).message(),
        "The requested command get is not available!"
    );
    assert_eq!(
        StorageError::CommandSyntaxError(String::from("NX XX")).message(),
        "Syntax error in command arguments: NX XX"
    );
    assert_eq!(
        StorageError::CommandInternalError(String::from("oops")).message(),
        "Internal command error: oops"
    );
}

#[test]
fn test_server_error_messages() {
    assert_eq!(ServerError::CommandError.message(), "Error while processing!");
    assert_eq!(
        ServerError::IncorrectData.message(),
        "Data received from stream is incorrect."
    );
    assert_eq!(
        ServerError::StorageNotInitialised.message(),
        "Storage has not been initialised."
    );
}

#[test]
fn test_connection_message_carries_value() {
    let message = ConnectionMessage::Request(RESP::SimpleString(String::from("PING")));

    match message {
        ConnectionMessage::Request(v) => {
            assert_eq!(v, RESP::SimpleString(String::from("PING")));
        }
    }
}

#[test]
fn test_connection_error_message() {
    assert_eq!(
        ConnectionError::ServerError(ServerError::CommandError).message(),
        "Server error: Error while processing!"
    );
}
