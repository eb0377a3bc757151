use kvstore::error::ErrorKind;
use kvstore::requests::{help, CacheCall, RequestHandler, Step};
use kvstore::utils::commands::Command;

type Answer<'a> = Result<Option<&'a str>, &'a str>;

/// Runs a command, answering memcached's requests from `answers` in order.
fn run(h: &mut RequestHandler, text: &str, answers: &[Answer]) -> (Step, Vec<CacheCall>) {
    let cmd = Command::new(text);
    let mut replies: Vec<Result<Option<String>, String>> = Vec::new();
    let mut calls = Vec::new();
    loop {
        match h.process(&cmd, &replies) {
            Step::Call(c) => {
                let a = answers[replies.len()];
                calls.push(c);
                replies.push(a.map(|s| s.map(|t| t.to_string())).map_err(|e| e.to_string()));
            },
            other => return (other, calls),
        }
    }
}

fn ok(s: &str) -> Step {
    Step::Done(Ok(s.to_string()))
}

fn hit(s: &str) -> Answer {
    Ok(Some(s))
}

const MISS: Answer<'static> = Ok(None);

fn expect_error(s: Step, kind: ErrorKind, message: &str) {
    match s {
        Step::Done(Err(e)) => {
            assert_eq!(e.kind, kind);
            assert_eq!(e.message, message);
        },
        other => panic!("expected an error, got {:?}", other),
    }
}

#[test]
fn offline_set_get_del() {
    let mut h = RequestHandler::new(false);
    assert_eq!(run(&mut h, "set k v", &[]).0, ok("OK"));
    assert_eq!(run(&mut h, "get k", &[]).0, ok("v"));
    let (s, calls) = run(&mut h, "get missing", &[]);
    assert!(calls.is_empty());
    assert_eq!(s, ok("None"));
    // without memcached the delete fails after the store has dropped the key
    expect_error(run(&mut h, "del k", &[]).0, ErrorKind::Other, "Failed to connect to memcached");
    assert!(h.get_storage().get("k").is_err());
    expect_error(run(&mut h, "del k", &[]).0, ErrorKind::NotFound, "Item not found");
}

#[test]
fn online_get_asks_memcached_first() {
    let mut h = RequestHandler::new(true);
    let (s, calls) = run(&mut h, "get k", &[hit("cached")]);
    assert_eq!(s, ok("cached"));
    assert_eq!(calls, vec![CacheCall::Get("k".to_string())]);
}

#[test]
fn online_get_falls_back_to_the_store() {
    let mut h = RequestHandler::new(true);
    let (s, calls) = run(&mut h, "set k v", &[hit("OK")]);
    assert_eq!(s, ok("OK"));
    assert_eq!(calls, vec![CacheCall::Put("k".to_string(), "v".to_string(), vec![])]);
    let (s, calls) = run(&mut h, "get k", &[Err("timeout"), hit("OK")]);
    assert_eq!(s, ok("v"));
    assert_eq!(
        calls,
        vec![
            CacheCall::Get("k".to_string()),
            CacheCall::Put("k".to_string(), "v".to_string(), vec![]),
        ]
    );
}

#[test]
fn online_get_miss_reads_the_store() {
    let mut h = RequestHandler::new(true);
    run(&mut h, "set k v", &[hit("OK")]);
    let (s, calls) = run(&mut h, "get k", &[MISS, hit("OK")]);
    assert_eq!(s, ok("v"));
    assert_eq!(calls.len(), 2);
    let (s, calls) = run(&mut h, "get nothing", &[MISS]);
    assert_eq!(s, ok("None"));
    assert_eq!(calls, vec![CacheCall::Get("nothing".to_string())]);
}

#[test]
fn online_del_answers_memcached() {
    let mut h = RequestHandler::new(true);
    run(&mut h, "set k v", &[hit("OK")]);
    assert_eq!(run(&mut h, "del k", &[hit("true")]).0, ok("true"));
    run(&mut h, "set k v", &[hit("OK")]);
    assert_eq!(run(&mut h, "del k", &[MISS]).0, ok("false"));
}

#[test]
fn a_call_leaves_the_handler_unchanged() {
    let mut h = RequestHandler::new(true);
    let cmd = Command::new("set k v");
    let step = h.process(&cmd, &Vec::new());
    assert_eq!(step, Step::Call(CacheCall::Put("k".to_string(), "v".to_string(), vec![])));
    assert!(h.get_storage().get("k").is_err());
}

#[test]
fn incr_and_decr_add_up() {
    let mut h = RequestHandler::new(false);
    run(&mut h, "set n 5", &[]);
    assert_eq!(run(&mut h, "incr n 3", &[]).0, ok("OK"));
    assert_eq!(h.get_storage().get("n").unwrap(), "8");
    assert_eq!(run(&mut h, "decr n 10", &[]).0, ok("OK"));
    assert_eq!(h.get_storage().get("n").unwrap(), "-2");
}

#[test]
fn decr_by_zero_keeps_the_value() {
    let mut h = RequestHandler::new(false);
    run(&mut h, "set n 5", &[]);
    assert_eq!(run(&mut h, "decr n 0", &[]).0, ok("OK"));
    assert_eq!(h.get_storage().get("n").unwrap(), "5");
    assert_eq!(h.get_storage().get_cur_ver(), 3);
    expect_error(run(&mut h, "decr missing 0", &[]).0, ErrorKind::NotFound, "Item not found");
}

#[test]
fn large_amounts_are_not_reinterpreted() {
    let mut h = RequestHandler::new(false);
    run(&mut h, "set n -9223372036854775808", &[]);
    assert_eq!(run(&mut h, "incr n 18446744073709551615", &[]).0, ok("OK"));
    assert_eq!(h.get_storage().get("n").unwrap(), "9223372036854775807");
    assert_eq!(run(&mut h, "decr n 18446744073709551615", &[]).0, ok("OK"));
    assert_eq!(h.get_storage().get("n").unwrap(), "-9223372036854775808");
    expect_error(run(&mut h, "decr n 1", &[]).0, ErrorKind::InvalidInput, "Result is not a valid i64");
    assert_eq!(h.get_storage().get("n").unwrap(), "-9223372036854775808");
}

#[test]
fn incr_online_refreshes_the_cache() {
    let mut h = RequestHandler::new(true);
    run(&mut h, "set n 1", &[hit("OK")]);
    let (s, calls) = run(&mut h, "incr n 2", &[hit("1"), hit("OK")]);
    assert_eq!(s, ok("OK"));
    assert_eq!(
        calls,
        vec![
            CacheCall::Get("n".to_string()),
            CacheCall::Put("n".to_string(), "3".to_string(), vec![]),
        ]
    );
    expect_error(run(&mut h, "incr n 2", &[hit("3"), Err("down")]).0, ErrorKind::Other, "down");
    assert_eq!(h.get_storage().get("n").unwrap(), "5");
}

#[test]
fn incr_of_text_is_invalid_input() {
    let mut h = RequestHandler::new(false);
    run(&mut h, "set n abc", &[]);
    expect_error(run(&mut h, "incr n 1", &[]).0, ErrorKind::InvalidInput, "Value is not a valid i64");
}

#[test]
fn incr_overflow_is_an_error() {
    let mut h = RequestHandler::new(false);
    run(&mut h, "set n 9223372036854775807", &[]);
    expect_error(run(&mut h, "incr n 1", &[]).0, ErrorKind::InvalidInput, "Result is not a valid i64");
    assert_eq!(h.get_storage().get_cur_ver(), 2);
}

#[test]
fn help_lists_the_commands() {
    let mut h = RequestHandler::new(false);
    let (s, calls) = run(&mut h, "help", &[]);
    assert!(calls.is_empty());
    assert_eq!(s, Step::Done(Ok(help())));
    let text = help();
    for word in ["get", "set", "del", "incr", "decr", "clear", "transact:", "rollback", "help"] {
        assert!(text.lines().any(|l| l.starts_with(word)), "{}", word);
    }
}

#[test]
fn aborts_where_the_command_cannot_run() {
    let mut h = RequestHandler::new(false);
    run(&mut h, "set n 1", &[]);
    assert_eq!(run(&mut h, "nonsense", &[]).0, Step::Abort);
    assert_eq!(run(&mut h, "quit", &[]).0, Step::Abort);
    assert_eq!(h.get_storage().get_cur_ver(), 2);
}

#[test]
fn rollback_reads_older_versions() {
    let mut h = RequestHandler::new(false);
    run(&mut h, "set k a", &[]);
    run(&mut h, "set k b", &[]);
    assert_eq!(run(&mut h, "rollback k 0", &[]).0, ok("b"));
    assert_eq!(run(&mut h, "rollback k 1", &[]).0, ok("a"));
    expect_error(run(&mut h, "rollback k 2", &[]).0, ErrorKind::NotFound, "Item not found");
    expect_error(run(&mut h, "rollback k 3", &[]).0, ErrorKind::NotFound, "Item not found");
    expect_error(
        run(&mut h, "rollback k 18446744073709551615", &[]).0,
        ErrorKind::NotFound,
        "Item not found",
    );
    assert_eq!(h.get_storage().get_cur_ver(), 3);
}

#[test]
fn clear_empties_the_store() {
    let mut h = RequestHandler::new(true);
    run(&mut h, "set k a", &[hit("OK")]);
    let (s, calls) = run(&mut h, "clear", &[hit("OK")]);
    assert_eq!(s, ok("OK"));
    assert_eq!(calls, vec![CacheCall::Flush]);
    assert!(h.get_storage().get("k").is_err());
}

#[test]
fn transaction_answers_each_operation() {
    let mut h = RequestHandler::new(false);
    let (s, _) = run(&mut h, "transact:\r\nset a 1\r\nset b 2\r\nget a", &[]);
    assert_eq!(s, ok("OK\nOK\n1\n"));
    assert_eq!(h.get_storage().get("b").unwrap(), "2");
}

#[test]
fn empty_transaction_answers_nothing() {
    let mut h = RequestHandler::new(false);
    run(&mut h, "set a 1", &[]);
    let s = h.process(&Command::Transact(vec![]), &Vec::new());
    assert_eq!(s, ok(""));
    assert_eq!(h.get_storage().get_cur_ver(), 2);
}

#[test]
fn failed_transaction_rolls_back() {
    let mut h = RequestHandler::new(false);
    run(&mut h, "set a 0", &[]);
    let (s, _) = run(&mut h, "transact:\nset a 1\nset b 2\nincr missing 1\nset c 3", &[]);
    expect_error(s, ErrorKind::Other, "Item not found");
    assert_eq!(h.get_storage().get("a").unwrap(), "0");
    assert!(h.get_storage().get("b").is_err());
    assert!(h.get_storage().get("c").is_err());
    assert_eq!(h.get_storage().get_cur_ver(), 1);
}

#[test]
fn failed_transaction_flushes_memcached() {
    let mut h = RequestHandler::new(true);
    let (s, calls) = run(&mut h, "transact:\ndel x", &[hit("OK")]);
    assert!(matches!(s, Step::Done(Err(_))));
    assert_eq!(calls, vec![CacheCall::Flush]);
}

#[test]
fn new_from_serves_the_loaded_map() {
    let mut m = kvstore::kvmap::StrMap::new();
    m.insert("k".to_string(), "v".to_string());
    let mut h = RequestHandler::new_from(false, &m);
    assert_eq!(run(&mut h, "get k", &[]).0, ok("v"));
}

#[test]
fn online_transaction_waits_for_each_answer() {
    let mut h = RequestHandler::new(true);
    run(&mut h, "set a 0", &[hit("OK")]);
    let (s, calls) = run(&mut h, "transact:\nset a 1\nset b 2", &[hit("OK"), hit("OK")]);
    assert_eq!(s, ok("OK\nOK\n"));
    assert_eq!(calls.len(), 2);
    assert_eq!(h.get_storage().get("a").unwrap(), "1");
    assert_eq!(h.get_storage().get_cur_ver(), 4);
}

#[test]
fn online_failed_transaction_restores_after_the_flush() {
    let mut h = RequestHandler::new(true);
    run(&mut h, "set a 0", &[hit("OK")]);
    let (s, calls) = run(&mut h, "transact:\nset a 1\ndel x", &[hit("OK"), hit("OK")]);
    expect_error(s, ErrorKind::Other, "Item not found");
    assert_eq!(calls[1], CacheCall::Flush);
    assert_eq!(h.get_storage().get("a").unwrap(), "0");
    assert_eq!(h.get_storage().get_cur_ver(), 1);
}

#[test]
fn nested_transaction_runs_like_the_others() {
    let mut h = RequestHandler::new(true);
    let inner = Command::Transact(vec![Command::new("set a 1"), Command::new("del missing")]);
    let outer = Command::Transact(vec![Command::new("set b 2"), inner]);
    let mut replies: Vec<Result<Option<String>, String>> = Vec::new();
    let mut calls = Vec::new();
    let s = loop {
        match h.process(&outer, &replies) {
            Step::Call(c) => {
                calls.push(c);
                replies.push(Ok(Some("OK".to_string())));
                // nothing changes while an answer is awaited
                assert_eq!(h.get_storage().get_cur_ver(), 1);
            },
            other => break other,
        }
    };
    expect_error(s, ErrorKind::Other, "Item not found");
    assert_eq!(calls.last(), Some(&CacheCall::Flush));
    assert!(h.get_storage().get("a").is_err());
    assert!(h.get_storage().get("b").is_err());
}
