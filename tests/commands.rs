use minikv::command::{
    execute, execute_read, interpret_command, Command, CommandValidationError, InterpretError, RawCommandError,
};
use minikv::store::{Store, Ttl};
use minikv::value::Value;

fn s(x: &str) -> String {
    x.to_string()
}

fn words(ws: &[&str]) -> Value {
    Value::Array(ws.iter().map(|w| Value::BulkString(s(w))).collect())
}

#[test]
fn ping_and_echo() {
    assert_eq!(interpret_command(words(&["ping"])), Ok(Command::Ping(None)));
    assert_eq!(interpret_command(words(&["PING", "hi"])), Ok(Command::Ping(Some(s("hi")))));
    assert_eq!(interpret_command(words(&["Echo", "x"])), Ok(Command::Echo(s("x"))));
    assert_eq!(
        interpret_command(words(&["ECHO"])),
        Err(InterpretError::CommandValidationError(CommandValidationError::EchoRequiresMessage))
    );
}

#[test]
fn get_and_set() {
    assert_eq!(interpret_command(words(&["get", "k"])), Ok(Command::Get(s("k"))));
    assert_eq!(
        interpret_command(words(&["GET"])),
        Err(InterpretError::CommandValidationError(CommandValidationError::GetRequiresKey))
    );
    assert_eq!(
        interpret_command(words(&["SET", "k", "v"])),
        Ok(Command::SetKey { key: s("k"), value: s("v"), expiry: None })
    );
    assert_eq!(
        interpret_command(words(&["SET", "k", "v", "ex", "2"])),
        Ok(Command::SetKey { key: s("k"), value: s("v"), expiry: Some(Ttl::Seconds(2)) })
    );
    assert_eq!(
        interpret_command(words(&["SET", "k", "v", "PX", "+150"])),
        Ok(Command::SetKey { key: s("k"), value: s("v"), expiry: Some(Ttl::Millis(150)) })
    );
}

#[test]
fn set_errors() {
    let v = |e| Err(InterpretError::CommandValidationError(e));
    assert_eq!(interpret_command(words(&["SET", "k"])), v(CommandValidationError::SetRequiresKeyValue));
    assert_eq!(
        interpret_command(words(&["SET", "k", "v", "XX"])),
        v(CommandValidationError::UnknownSetFlag(s("XX")))
    );
    assert_eq!(
        interpret_command(words(&["SET", "k", "v", "EX"])),
        v(CommandValidationError::MissingFlagValue(s("EX")))
    );
    assert_eq!(
        interpret_command(words(&["SET", "k", "v", "EX", "soon"])),
        v(CommandValidationError::InvalidFlagValue(s("EX")))
    );
    assert_eq!(
        interpret_command(words(&["SET", "k", "v", "EX", "18446744073709551616"])),
        v(CommandValidationError::InvalidFlagValue(s("EX")))
    );
    assert_eq!(
        interpret_command(words(&["SET", "k", "v", "PX", "1", "more"])),
        v(CommandValidationError::UnexpectedTrailingArguments)
    );
}

#[test]
fn frame_shape_errors() {
    assert_eq!(
        interpret_command(Value::Array(vec![])),
        Err(InterpretError::RawCommandError(RawCommandError::EmptyCommandArray))
    );
    assert_eq!(
        interpret_command(Value::Array(vec![Value::BulkString(s("GET")), Value::Null])),
        Err(InterpretError::RawCommandError(RawCommandError::ExpectedString(Value::Null)))
    );
    assert_eq!(
        interpret_command(Value::Null),
        Err(InterpretError::RawCommandError(RawCommandError::CannotCreateCommand(Value::Null)))
    );
    assert_eq!(
        interpret_command(words(&["FLY"])),
        Err(InterpretError::CommandValidationError(CommandValidationError::UnknownCommand(s("FLY"))))
    );
}

#[test]
fn inline_text_commands() {
    assert_eq!(interpret_command(Value::SimpleString(s("ping"))), Ok(Command::Ping(None)));
    assert_eq!(
        interpret_command(Value::SimpleString(s("ECHO héllo"))),
        Ok(Command::Echo(s("héllo")))
    );
    assert_eq!(
        interpret_command(Value::BulkString(s("SET k v PX 5"))),
        Ok(Command::SetKey { key: s("k"), value: s("v"), expiry: Some(Ttl::Millis(5)) })
    );
}

#[test]
fn error_messages() {
    let e = interpret_command(words(&["FLY"])).unwrap_err();
    assert_eq!(e.message(), "Invalid command: Unknown command: FLY");
    let e = interpret_command(words(&["SET", "k", "v", "EX", "x"])).unwrap_err();
    assert_eq!(e.message(), "Invalid command: Invalid flag value: EX. Expected integer");
    let e = interpret_command(Value::Array(vec![])).unwrap_err();
    assert_eq!(e.message(), "Error parsing input command: Empty command array");
}

#[test]
fn execute_against_store() {
    let mut store = Store::new();
    assert_eq!(execute(Command::Ping(None), &mut store, 0), Value::SimpleString(s("PONG")));
    assert_eq!(execute(Command::Ping(Some(s("a"))), &mut store, 0), Value::BulkString(s("a")));
    assert_eq!(execute(Command::Echo(s("e")), &mut store, 0), Value::BulkString(s("e")));
    assert_eq!(execute(Command::Get(s("k")), &mut store, 0), Value::Null);
    assert_eq!(
        execute(Command::SetKey { key: s("k"), value: s("v"), expiry: Some(Ttl::Millis(10)) }, &mut store, 0),
        Value::SimpleString(s("OK"))
    );
    assert_eq!(execute(Command::Get(s("k")), &mut store, 9), Value::BulkString(s("v")));
    assert_eq!(execute(Command::Get(s("k")), &mut store, 10), Value::Null);
}

#[test]
fn read_only_execution() {
    let mut store = Store::new();
    assert_eq!(execute_read(&Command::Ping(None), &store, 0), Some(Value::SimpleString(s("PONG"))));
    assert_eq!(execute_read(&Command::Echo(s("e")), &store, 0), Some(Value::BulkString(s("e"))));
    assert_eq!(execute_read(&Command::Get(s("k")), &store, 0), Some(Value::Null));
    let set = Command::SetKey { key: s("k"), value: s("v"), expiry: Some(Ttl::Millis(5)) };
    assert_eq!(execute_read(&set, &store, 0), None);
    execute(set, &mut store, 0);
    assert_eq!(execute_read(&Command::Get(s("k")), &store, 4), Some(Value::BulkString(s("v"))));
    assert_eq!(execute_read(&Command::Get(s("k")), &store, 5), None);
}

#[test]
fn largest_expiry_in_seconds_is_accepted() {
    assert_eq!(
        interpret_command(words(&["SET", "k", "v", "EX", "18446744073709551615"])),
        Ok(Command::SetKey { key: s("k"), value: s("v"), expiry: Some(Ttl::Seconds(u64::MAX)) })
    );
    let mut store = Store::new();
    let set = Command::SetKey { key: s("k"), value: s("v"), expiry: Some(Ttl::Seconds(u64::MAX)) };
    assert_eq!(execute(set, &mut store, u64::MAX), Value::SimpleString(s("OK")));
    assert_eq!(execute(Command::Get(s("k")), &mut store, u64::MAX), Value::BulkString(s("v")));
}

#[test]
fn inline_tokens_split_on_whitespace() {
    assert_eq!(
        interpret_command(Value::SimpleString(s("  echo \t hi  "))),
        Ok(Command::Echo(s("hi")))
    );
    assert_eq!(
        interpret_command(Value::BulkString(s("GET\r\nk"))),
        Ok(Command::Get(s("k")))
    );
    assert_eq!(
        interpret_command(Value::SimpleString(s(" \t "))),
        Err(InterpretError::RawCommandError(RawCommandError::EmptyCommandArray))
    );
}

#[test]
fn error_text_stays_on_one_line() {
    let e = interpret_command(words(&["a\r\nb"])).unwrap_err();
    assert_eq!(e.message(), "Invalid command: Unknown command: A  B");
    let e = interpret_command(words(&["SET", "k", "v", "\nX"])).unwrap_err();
    assert_eq!(e.message(), "Invalid command: Unknown SET command flag:  X");
}
