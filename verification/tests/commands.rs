use kvstore::common::commands::Command as ShardCommand;
use kvstore::utils::commands::Command;

#[test]
fn reads_get_and_del_with_the_rest_as_key() {
    assert_eq!(Command::new("get key"), Command::Get("key".to_string()));
    assert_eq!(Command::new("GeT my key"), Command::Get("my key".to_string()));
    assert_eq!(Command::new("del k"), Command::Del("k".to_string()));
    assert_eq!(Command::new("get"), Command::Get("".to_string()));
}

#[test]
fn reads_set_into_three_pieces() {
    assert_eq!(
        Command::new("set k v w"),
        Command::SetValue("k".to_string(), "v w".to_string())
    );
    assert_eq!(Command::new("SET k"), Command::SetValue("k".to_string(), "".to_string()));
    assert_eq!(Command::new("set"), Command::SetValue("".to_string(), "".to_string()));
}

#[test]
fn reads_numbers() {
    assert_eq!(Command::new("incr n 5"), Command::Incr("n".to_string(), 5));
    assert_eq!(Command::new("decr n +7"), Command::Decr("n".to_string(), 7));
    assert_eq!(Command::new("rollback k 2"), Command::Rollback("k".to_string(), 2));
    assert_eq!(
        ShardCommand::new("incr n -5"),
        ShardCommand::Incr("n".to_string(), -5)
    );
    assert_eq!(
        ShardCommand::new("decr n 9223372036854775807"),
        ShardCommand::Decr("n".to_string(), i64::MAX)
    );
}

#[test]
fn refuses_bad_numbers() {
    assert!(Command::try_new("incr n x").is_none());
    assert!(Command::try_new("incr n -5").is_none());
    assert!(Command::try_new("incr n").is_none());
    assert!(Command::try_new("rollback k 18446744073709551616").is_none());
    assert!(ShardCommand::try_new("incr n 9223372036854775808").is_none());
    assert!(ShardCommand::try_new("incr n -").is_none());
    assert!(Command::try_new("incr n 18446744073709551615").is_some());
}

#[test]
fn keywords_ignore_case_including_the_kelvin_sign() {
    assert_eq!(Command::new("ROLLBAC\u{212A} k 1"), Command::Rollback("k".to_string(), 1));
    assert_eq!(Command::new("Clear"), Command::Clear());
    assert_eq!(Command::new("quit"), Command::Quit());
    assert_eq!(Command::new("HELP"), Command::Help());
    assert_eq!(Command::new("  clear  "), Command::Clear());
}

#[test]
fn other_words_are_unknown() {
    assert_eq!(Command::new("fetch k"), Command::Unknown("fetch k".to_string()));
    assert_eq!(Command::new(""), Command::Unknown("".to_string()));
    assert_eq!(ShardCommand::new("quit"), ShardCommand::Unknown("quit".to_string()));
}

#[test]
fn reads_transactions_line_by_line() {
    let c = Command::new("transact:\r\nset a 1\r\nget a\nincr a 2");
    assert_eq!(
        c,
        Command::Transact(vec![
            Command::SetValue("a".to_string(), "1".to_string()),
            Command::Get("a".to_string()),
            Command::Incr("a".to_string(), 2),
        ])
    );
    assert_eq!(
        Command::new("transact:"),
        Command::Transact(vec![Command::Unknown("".to_string())])
    );
    assert!(Command::try_new("transact:\nincr a b").is_none());
}

#[test]
fn get_key_names_the_key() {
    assert_eq!(ShardCommand::new("set k v").get_key(), "k");
    assert_eq!(ShardCommand::new("rollback r 1").get_key(), "r");
    assert_eq!(ShardCommand::new("clear").get_key(), "");
    assert_eq!(ShardCommand::new("transact:\nget a").get_key(), "");
    assert_eq!(ShardCommand::new("whatever").get_key(), "");
}
