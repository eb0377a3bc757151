use kvstore::common::commands::Command;
use kvstore::error::{ErrorKind, KvError};
use kvstore::log::Logger;

#[test]
fn details_describe_key_and_argument() {
    assert_eq!(
        Logger::details(&Command::new("set k v")).unwrap(),
        "Set command - Key: k, Value: v"
    );
    assert_eq!(Logger::details(&Command::new("get k")).unwrap(), "Get command - Key: k");
    assert_eq!(Logger::details(&Command::new("del k")).unwrap(), "Del command - Key: k");
    assert_eq!(
        Logger::details(&Command::new("incr k -3")).unwrap(),
        "Incr command - Key: k, Amount: -3"
    );
    assert_eq!(
        Logger::details(&Command::new("decr k 3")).unwrap(),
        "Decr command - Key: k, Amount: 3"
    );
    assert_eq!(
        Logger::details(&Command::new("rollback k 12")).unwrap(),
        "Rollback command - Key: k, Commit: 12"
    );
    assert!(Logger::details(&Command::new("clear")).is_none());
}

#[test]
fn response_lines() {
    assert_eq!(Logger::response(&Ok("OK".to_string())), "Response: OK");
    let e = KvError::new(ErrorKind::NotFound, "Item not found".to_string());
    assert_eq!(Logger::response(&Err(e)), "Error: Item not found");
}
