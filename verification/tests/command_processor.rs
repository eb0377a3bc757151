use kvstore::command_processor::{process_command, Outcome, RpcCall};
use kvstore::common::commands::Command;
use kvstore::distributor::CommandDistributor;

fn drive(d: &CommandDistributor, cmd: &Command, addr: &str, answers: &[Result<&str, &str>]) -> (Outcome, Vec<RpcCall>) {
    let mut replies: Vec<Result<String, String>> = Vec::new();
    let mut calls = Vec::new();
    loop {
        match process_command(d, cmd, addr, &replies) {
            Outcome::Call(c) => {
                calls.push(c);
                let a = answers[replies.len()];
                replies.push(a.map(|s| s.to_string()).map_err(|e| e.to_string()));
            },
            other => return (other, calls),
        }
    }
}

#[test]
fn plain_command_goes_to_its_shard() {
    let d = CommandDistributor::new(2, 6080);
    let cmd = Command::new("get k");
    let (o, calls) = drive(&d, &cmd, "http://127.0.0.1:6081", &[Ok(""), Ok("{}"), Ok("v")]);
    assert_eq!(o, Outcome::Done("v".to_string()));
    let a = "http://127.0.0.1:6081".to_string();
    assert_eq!(calls, vec![RpcCall::Connect(a.clone()), RpcCall::Ping(a.clone()), RpcCall::Send(a, vec![])]);
}

#[test]
fn unreachable_shard_is_reported() {
    let d = CommandDistributor::new(2, 6080);
    let cmd = Command::new("get k");
    let (o, _) = drive(&d, &cmd, "http://127.0.0.1:6081", &[Err("refused")]);
    assert_eq!(
        o,
        Outcome::Done(
            "The client is unavailable at the moment: Failed to connect to client at http://127.0.0.1:6081: refused"
                .to_string()
        )
    );
}

#[test]
fn failed_ping_aborts() {
    let d = CommandDistributor::new(2, 6080);
    let cmd = Command::new("get k");
    let (o, _) = drive(&d, &cmd, "http://127.0.0.1:6081", &[Ok(""), Err("down")]);
    assert_eq!(o, Outcome::Abort);
}

#[test]
fn unknown_is_answered_after_the_ping() {
    let d = CommandDistributor::new(2, 6080);
    let cmd = Command::new("hello");
    let (o, calls) = drive(&d, &cmd, "http://127.0.0.1:6081", &[Ok(""), Ok("")]);
    assert_eq!(o, Outcome::Done("Unknown command".to_string()));
    assert_eq!(calls.len(), 2);
}

#[test]
fn clear_goes_to_every_shard() {
    let d = CommandDistributor::new(2, 6080);
    let cmd = Command::new("clear");
    let answers = [Ok(""), Ok(""), Ok(""), Ok("OK"), Ok(""), Ok("OK")];
    let (o, calls) = drive(&d, &cmd, "http://127.0.0.1:6080", &answers);
    assert_eq!(o, Outcome::Done("OK".to_string()));
    assert_eq!(calls[2], RpcCall::Connect("http://127.0.0.1:6080".to_string()));
    assert_eq!(calls[3], RpcCall::Send("http://127.0.0.1:6080".to_string(), vec![]));
    assert_eq!(calls[4], RpcCall::Connect("http://127.0.0.1:6081".to_string()));
    assert_eq!(calls[5], RpcCall::Send("http://127.0.0.1:6081".to_string(), vec![]));
}

#[test]
fn transaction_routes_each_operation() {
    let d = CommandDistributor::new(3, 6080);
    let cmd = Command::new("transact:\nset a 1\nget b");
    let answers = [Ok(""), Ok(""), Ok(""), Ok(""), Ok("OK"), Ok(""), Ok(""), Ok("2")];
    let (o, calls) = drive(&d, &cmd, "http://127.0.0.1:6080", &answers);
    assert_eq!(o, Outcome::Done("OK\n2\n".to_string()));
    let a = format!("http://127.0.0.1:{}", 6080 + d.which("a".to_string()));
    let b = format!("http://127.0.0.1:{}", 6080 + d.which("b".to_string()));
    assert_eq!(calls[4], RpcCall::Send(a, vec![0]));
    assert_eq!(calls[7], RpcCall::Send(b, vec![1]));
}

#[test]
fn bad_address_aborts_a_transaction() {
    let d = CommandDistributor::new(3, 6080);
    let cmd = Command::new("transact:\nset a 1");
    let (o, _) = drive(&d, &cmd, "nowhere", &[Ok(""), Ok("")]);
    assert_eq!(o, Outcome::Abort);
}

#[test]
fn host_is_cut_at_the_second_byte() {
    let d = CommandDistributor::new(1, 7000);
    let cmd = Command::new("transact:\nget a");
    let answers = [Ok(""), Ok(""), Ok(""), Ok(""), Ok("x")];
    let (o, calls) = drive(&d, &cmd, "x:\u{e9}h", &answers);
    assert_eq!(o, Outcome::Done("x\n".to_string()));
    assert_eq!(calls[2], RpcCall::Connect("http://h:7000".to_string()));
    let (o, _) = drive(&d, &cmd, "x:\u{20ac}h", &[Ok(""), Ok("")]);
    assert_eq!(o, Outcome::Abort);
}
