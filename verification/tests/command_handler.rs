use resp_kv::command_handler::{CommandHandler, CommandHandlerResult, CommandHandlerResultStatus};
use resp_kv::query_repository::QueryRepository;
use resp_kv::resp_command::{RespCommand, RespTtl};
use resp_kv::resp_response::RespResponse;
use resp_kv::response_builder::ResponseBuilder;
use resp_kv::storage::{Storage, StorageEntry, StorageKey};

fn payload(result: &CommandHandlerResult) -> Option<Vec<u8>> {
    match result.get_status() {
        CommandHandlerResultStatus::Done(payload) => payload.clone(),
    }
}

#[test]
fn a_result_holds_its_command_and_status() {
    let result = CommandHandlerResult::new(
        RespCommand::Get { key: b"k".to_vec() },
        CommandHandlerResultStatus::Done(Some(b"v".to_vec())),
    );
    assert_eq!(result.get_resp_command(), &RespCommand::Get { key: b"k".to_vec() });
    assert_eq!(result.get_status(), &CommandHandlerResultStatus::Done(Some(b"v".to_vec())));
}

#[test]
fn ping_and_echo_leave_the_store_alone() {
    let mut storage = Storage::new();
    let mut handler = CommandHandler::new(&mut storage);
    let result = handler.handle_command_at(RespCommand::Ping { message: Some(b"m".to_vec()) }, 0);
    assert_eq!(payload(&result), None);
    assert_eq!(result.get_resp_command(), &RespCommand::Ping { message: Some(b"m".to_vec()) });
    let result = handler.handle_command_at(RespCommand::Echo { message: Some(b"hi".to_vec()) }, 0);
    assert_eq!(payload(&result), Some(b"hi".to_vec()));
    let result = handler.handle_command_at(RespCommand::Echo { message: None }, 0);
    assert_eq!(payload(&result), None);
    assert_eq!(storage.get(StorageKey::from(b"m".to_vec())), None);
    assert_eq!(storage.get(StorageKey::from(b"hi".to_vec())), None);
}

#[test]
fn set_then_get() {
    let mut storage = Storage::new();
    let mut handler = CommandHandler::new(&mut storage);
    let result = handler.handle_command_at(
        RespCommand::SetValue { key: b"k".to_vec(), value: b"v".to_vec(), ttl: None },
        100,
    );
    assert_eq!(payload(&result), None);
    let result = handler.handle_command_at(RespCommand::Get { key: b"k".to_vec() }, 100);
    assert_eq!(payload(&result), Some(b"v".to_vec()));
    let result = handler.handle_command_at(RespCommand::Get { key: b"other".to_vec() }, 100);
    assert_eq!(payload(&result), None);
}

#[test]
fn set_with_a_ttl_fixes_the_expiry() {
    let mut storage = Storage::new();
    {
        let mut handler = CommandHandler::new(&mut storage);
        handler.handle_command_at(
            RespCommand::SetValue {
                key: b"s".to_vec(),
                value: b"1".to_vec(),
                ttl: Some(RespTtl::Seconds(2)),
            },
            1_000,
        );
        handler.handle_command_at(
            RespCommand::SetValue {
                key: b"m".to_vec(),
                value: b"2".to_vec(),
                ttl: Some(RespTtl::Milliseconds(2)),
            },
            1_000,
        );
        let result = handler.handle_command_at(RespCommand::Get { key: b"m".to_vec() }, 1_001);
        assert_eq!(payload(&result), Some(b"2".to_vec()));
        let result = handler.handle_command_at(RespCommand::Get { key: b"m".to_vec() }, 1_002);
        assert_eq!(payload(&result), None);
        let result = handler.handle_command_at(RespCommand::Get { key: b"s".to_vec() }, 2_999);
        assert_eq!(payload(&result), Some(b"1".to_vec()));
        let result = handler.handle_command_at(RespCommand::Get { key: b"s".to_vec() }, 3_000);
        assert_eq!(payload(&result), None);
    }
    assert_eq!(
        storage.get(StorageKey::from(b"s".to_vec())),
        Some(StorageEntry { value: b"1".to_vec(), expires_at: Some(3_000) })
    );
    assert_eq!(
        storage.get(StorageKey::from(b"m".to_vec())),
        Some(StorageEntry { value: b"2".to_vec(), expires_at: Some(1_002) })
    );
}

#[test]
fn queries_need_only_read_access() {
    let mut storage = Storage::new();
    storage.insert(StorageKey::from(b"k".to_vec()), StorageEntry::new(b"v".to_vec(), Some(10)));
    let query = QueryRepository::new(&storage);
    let result = CommandHandler::handle_query_at(&query, RespCommand::Get { key: b"k".to_vec() }, 9);
    assert_eq!(payload(&result), Some(b"v".to_vec()));
    let result = CommandHandler::handle_query_at(&query, RespCommand::Get { key: b"k".to_vec() }, 10);
    assert_eq!(payload(&result), None);
    let result = CommandHandler::handle_query_at(&query, RespCommand::Ping { message: None }, 10);
    assert_eq!(payload(&result), None);
    let result =
        CommandHandler::handle_query_at(&query, RespCommand::Echo { message: Some(vec![7]) }, 10);
    assert_eq!(payload(&result), Some(vec![7]));
}

#[test]
fn commands_by_the_wall_clock() {
    let mut storage = Storage::new();
    let mut handler = CommandHandler::new(&mut storage);
    handler.handle_command(RespCommand::SetValue {
        key: b"k".to_vec(),
        value: b"v".to_vec(),
        ttl: Some(RespTtl::Seconds(3_600)),
    });
    handler.handle_command(RespCommand::SetValue {
        key: b"gone".to_vec(),
        value: b"v".to_vec(),
        ttl: Some(RespTtl::Milliseconds(0)),
    });
    let result = handler.handle_command(RespCommand::Get { key: b"k".to_vec() });
    assert_eq!(payload(&result), Some(b"v".to_vec()));
    let result = handler.handle_command(RespCommand::Get { key: b"gone".to_vec() });
    assert_eq!(payload(&result), None);
    let query = QueryRepository::new(&storage);
    let result = CommandHandler::handle_query(&query, RespCommand::Get { key: b"k".to_vec() });
    assert_eq!(payload(&result), Some(b"v".to_vec()));
}

fn built(command: RespCommand, payload: Option<Vec<u8>>) -> Result<RespResponse, String> {
    ResponseBuilder::new()
        .create(CommandHandlerResult::new(command, CommandHandlerResultStatus::Done(payload)))
}

#[test]
fn responses_by_command() {
    assert_eq!(built(RespCommand::Ping { message: None }, None), Ok(RespResponse::pong()));
    assert_eq!(
        built(RespCommand::Ping { message: Some(b"ignored".to_vec()) }, None),
        Ok(RespResponse::SimpleString("PONG".to_string()))
    );
    assert_eq!(
        built(RespCommand::Echo { message: Some(b"hi".to_vec()) }, Some(b"hi".to_vec())),
        Ok(RespResponse::BulkString(Some(b"hi".to_vec())))
    );
    assert_eq!(
        built(RespCommand::SetValue { key: vec![1], value: vec![2], ttl: None }, None),
        Ok(RespResponse::SimpleString("OK".to_string()))
    );
    assert_eq!(
        built(RespCommand::Get { key: vec![1] }, Some(vec![2])),
        Ok(RespResponse::BulkString(Some(vec![2])))
    );
    assert_eq!(built(RespCommand::Get { key: vec![1] }, None), Ok(RespResponse::BulkString(None)));
}

#[test]
fn a_result_of_the_wrong_shape_is_refused() {
    assert_eq!(
        built(RespCommand::Echo { message: None }, None),
        Err("Mismatched command result for ECHO".to_string())
    );
    assert_eq!(
        built(RespCommand::Ping { message: None }, Some(vec![1])),
        Err("Mismatched command result for PING".to_string())
    );
    assert_eq!(
        built(RespCommand::SetValue { key: vec![1], value: vec![2], ttl: None }, Some(vec![1])),
        Err("Mismatched command result for SET".to_string())
    );
}
