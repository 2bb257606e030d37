use respkv::resp::RESP;
use respkv::server::{Server, request_to_command};
use respkv::server_result::{ServerError, ServerMessage, ServerValue};
use respkv::storage::{Storage, StorageEntry, StorageValue};
use respkv::storage_result::StorageError;

fn words(items: &[&str]) -> Vec<String> {
    items.iter().map(|s| String::from(*s)).collect()
}

#[test]
fn storage_test_create_new() {
    let storage: Storage = Storage::new();

    assert_eq!(storage.store.len(), 0);
}

#[test]
fn test_command_ping() {
    let command = vec![String::from("ping")];
    let storage: Storage = Storage::new();

    let output = storage.command_ping(&command).unwrap();

    assert_eq!(output, RESP::SimpleString(String::from("PONG")));
}

#[test]
fn test_command_ping_uppercase() {
    let command = vec![String::from("PING")];
    let storage: Storage = Storage::new();

    let output = storage.command_ping(&command).unwrap();

    assert_eq!(output, RESP::SimpleString(String::from("PONG")));
}

#[test]
fn test_command_echo() {
    let command = vec![String::from("echo"), String::from("42")];
    let storage: Storage = Storage::new();

    let output = storage.command_echo(&command).unwrap();

    assert_eq!(output, RESP::BulkString(String::from("42")));
}

#[test]
fn test_dispatch_ping_mixed_case() {
    let mut storage = Storage::new();

    let output = storage.process_command(&words(&["PiNg"])).unwrap();

    assert_eq!(output, RESP::SimpleString(String::from("PONG")));
}

#[test]
fn test_dispatch_echo() {
    let mut storage = Storage::new();

    let output = storage.process_command(&words(&["ECHO", "42"])).unwrap();

    assert_eq!(output, RESP::BulkString(String::from("42")));
}

#[test]
fn test_echo_without_argument() {
    let mut storage = Storage::new();

    let error = storage.process_command(&words(&["echo"])).unwrap_err();

    assert!(matches!(error, StorageError::CommandInternalError(_)));
}

#[test]
fn test_unknown_command() {
    let mut storage = Storage::new();

    let error = storage.process_command(&words(&["frobnicate"])).unwrap_err();

    assert_eq!(
        error,
        StorageError::CommandNotAvailable(String::from("frobnicate"))
    );
}

#[test]
fn test_empty_command() {
    let mut storage = Storage::new();

    let error = storage.process_command(&vec![]).unwrap_err();

    assert_eq!(error, StorageError::IncorrectRequest);
}

#[test]
fn test_set_then_overwrite() {
    let mut storage = Storage::new();

    let first = storage
        .process_command_at(&words(&["SET", "k", "v"]), 1_000)
        .unwrap();
    assert_eq!(first, RESP::SimpleString(String::from("OK")));

    let second = storage
        .process_command_at(&words(&["set", "k", "w"]), 1_001)
        .unwrap();
    assert_eq!(second, RESP::SimpleString(String::from("OK")));

    assert_eq!(storage.store.len(), 1);
    assert_eq!(
        storage.store[0],
        StorageEntry {
            key: String::from("k"),
            value: StorageValue::String(String::from("w")),
            expires_at: None,
        }
    );
}

#[test]
fn test_set_existence_semantics() {
    let mut storage = Storage::new();

    let first = storage
        .process_command_at(&words(&["SET", "k", "v", "NX"]), 1_000)
        .unwrap();
    assert_eq!(first, RESP::SimpleString(String::from("OK")));

    let repeated = storage
        .process_command_at(&words(&["SET", "k", "v", "NX"]), 1_001)
        .unwrap();
    assert_eq!(repeated, RESP::Null);

    let with_get = storage
        .process_command_at(&words(&["SET", "k", "v2", "XX", "GET"]), 1_002)
        .unwrap();
    assert_eq!(with_get, RESP::BulkString(String::from("v")));

    assert_eq!(storage.store.len(), 1);
    assert_eq!(
        storage.store[0],
        StorageEntry {
            key: String::from("k"),
            value: StorageValue::String(String::from("v2")),
            expires_at: None,
        }
    );
}

#[test]
fn test_set_xx_on_absent_key() {
    let mut storage = Storage::new();

    let blocked = storage
        .process_command_at(&words(&["SET", "k", "v", "XX"]), 1_000)
        .unwrap();

    assert_eq!(blocked, RESP::Null);
    assert_eq!(storage.store.len(), 0);
}

#[test]
fn test_set_get_on_absent_key() {
    let mut storage = Storage::new();

    let output = storage
        .process_command_at(&words(&["SET", "k", "v", "GET"]), 1_000)
        .unwrap();

    assert_eq!(output, RESP::Null);
    assert_eq!(storage.store.len(), 1);
}

#[test]
fn test_set_mutual_exclusion_nx_xx() {
    let mut storage = Storage::new();

    let error = storage
        .process_command_at(&words(&["SET", "k", "v", "NX", "XX"]), 1_000)
        .unwrap_err();

    assert_eq!(error, StorageError::CommandSyntaxError(String::from("NX XX")));
    assert_eq!(storage.store.len(), 0);
}

#[test]
fn test_set_mutual_exclusion_ex_px() {
    let mut storage = Storage::new();

    let error = storage
        .process_command_at(&words(&["SET", "k", "v", "EX", "10", "PX", "10"]), 1_000)
        .unwrap_err();

    assert_eq!(
        error,
        StorageError::CommandSyntaxError(String::from("EX 10 PX 10"))
    );
    assert_eq!(storage.store.len(), 0);
}

#[test]
fn test_set_ex_missing_operand() {
    let mut storage = Storage::new();

    let error = storage
        .process_command_at(&words(&["SET", "k", "v", "EX"]), 1_000)
        .unwrap_err();

    assert_eq!(error, StorageError::CommandSyntaxError(String::from("EX")));
    assert_eq!(storage.store.len(), 0);
}

#[test]
fn test_set_missing_value_arity() {
    let mut storage = Storage::new();

    let error = storage
        .process_command_at(&words(&["SET", "k"]), 1_000)
        .unwrap_err();

    assert!(matches!(error, StorageError::CommandInternalError(_)));
}

#[test]
fn test_set_ex_operand_overflow() {
    let mut storage = Storage::new();

    let error = storage
        .process_command_at(
            &words(&["SET", "k", "v", "EX", "18446744073709551616"]),
            1_000,
        )
        .unwrap_err();

    assert!(matches!(error, StorageError::CommandSyntaxError(_)));
}

#[test]
fn test_px_expiry_sweep() {
    let mut storage = Storage::new();

    let written = storage
        .process_command_at(&words(&["SET", "k", "v", "PX", "10"]), 1_000)
        .unwrap();
    assert_eq!(written, RESP::SimpleString(String::from("OK")));
    assert_eq!(storage.store[0].expires_at, Some(1_010));

    storage.expire_keys_at(1_005);
    assert_eq!(storage.store.len(), 1);

    storage.expire_keys_at(1_010);
    assert_eq!(storage.store.len(), 0);
}

#[test]
fn test_ex_expiry_is_seconds() {
    let mut storage = Storage::new();

    storage
        .process_command_at(&words(&["SET", "k", "v", "EX", "10"]), 1_000)
        .unwrap();

    assert_eq!(storage.store[0].expires_at, Some(11_000));
}

#[test]
fn test_sweep_keeps_persistent_keys() {
    let mut storage = Storage::new();

    storage
        .process_command_at(&words(&["SET", "k", "v"]), 1_000)
        .unwrap();
    storage
        .process_command_at(&words(&["SET", "dying", "w", "PX", "1"]), 1_000)
        .unwrap();

    storage.expire_keys_at(u64::MAX);

    assert_eq!(storage.store.len(), 1);
    assert_eq!(storage.store[0].key, String::from("k"));
}

#[test]
fn server_test_create_new() {
    let server: Server = Server::new();

    match server.storage {
        Some(_) => panic!(),
        None => (),
    };
}

#[test]
fn test_set_storage() {
    let storage = Storage::new();

    let server: Server = Server::new().set_storage(storage);

    match server.storage {
        Some(_) => (),
        None => panic!(),
    };
}

#[test]
fn test_request_to_command() {
    let value = RESP::Array(vec![
        RESP::BulkString(String::from("ECHO")),
        RESP::BulkString(String::from("42")),
    ]);

    let command = request_to_command(&value).unwrap();

    assert_eq!(command, vec![String::from("ECHO"), String::from("42")]);
}

#[test]
fn test_request_to_command_not_array() {
    let value = RESP::SimpleString(String::from("PING"));

    let error = request_to_command(&value).unwrap_err();

    assert_eq!(error, ServerError::IncorrectData);
}

#[test]
fn test_request_to_command_not_bulkstrings() {
    let value = RESP::Array(vec![RESP::SimpleString(String::from("PING"))]);

    let error = request_to_command(&value).unwrap_err();

    assert_eq!(error, ServerError::IncorrectData);
}

#[test]
fn test_process_value_ping() {
    let mut server = Server::new().set_storage(Storage::new());
    let value = RESP::Array(vec![RESP::BulkString(String::from("PING"))]);

    match server.process_value(&value) {
        ServerMessage::Data(ServerValue::RESP(v)) => {
            assert_eq!(v, RESP::SimpleString(String::from("PONG")));
        }
        _ => panic!(),
    }
}

#[test]
fn test_process_value_without_storage() {
    let mut server = Server::new();
    let value = RESP::Array(vec![RESP::BulkString(String::from("PING"))]);

    match server.process_value(&value) {
        ServerMessage::Error(e) => assert_eq!(e, ServerError::StorageNotInitialised),
        _ => panic!(),
    }
}

#[test]
fn test_process_value_bad_shape() {
    let mut server = Server::new().set_storage(Storage::new());
    let value = RESP::SimpleString(String::from("PING"));

    match server.process_value(&value) {
        ServerMessage::Error(e) => assert_eq!(e, ServerError::IncorrectData),
        _ => panic!(),
    }
}

#[test]
fn test_process_value_unknown_command_reports_error() {
    let mut server = Server::new().set_storage(Storage::new());
    let value = RESP::Array(vec![RESP::BulkString(String::from("FLY"))]);

    match server.process_value(&value) {
        ServerMessage::Error(e) => assert_eq!(e, ServerError::CommandError),
        _ => panic!(),
    }
}

#[test]
fn test_server_expire_keys_without_storage() {
    let mut server = Server::new();

    server.expire_keys();

    match server.storage {
        Some(_) => panic!(),
        None => (),
    };
}
