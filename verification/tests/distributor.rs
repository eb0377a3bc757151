use std::hash::{Hash, Hasher};
use kvstore::common::commands::Command;
use kvstore::distributor::CommandDistributor;

#[test]
fn which_stays_in_range_and_is_stable() {
    let d = CommandDistributor::new(3, 6080);
    for key in ["a", "b", "some key", ""] {
        let s = d.which(key.to_string());
        assert!(s < 3);
        assert_eq!(s, d.which(key.to_string()));
    }
    let one = CommandDistributor::new(1, 6080);
    assert_eq!(one.which("anything".to_string()), 0);
}

#[test]
fn shard_for_hash_cuts_to_32_bits() {
    let d = CommandDistributor::new(10, 0);
    assert_eq!(d.shard_for_hash(0x1_0000_0007), 7);
    assert_eq!(d.shard_for_hash(25), 5);
}

#[test]
fn address_of_adds_the_offset() {
    let d = CommandDistributor::new(4, 6080);
    assert_eq!(d.address_of(2), "http://127.0.0.1:6082");
    assert_eq!(d.address_of(0), "http://127.0.0.1:6080");
}

#[test]
fn route_reads_and_places_the_command() {
    let d = CommandDistributor::new(4, 6080);
    let (c, a) = d.route("get k").unwrap();
    assert_eq!(c, Command::Get("k".to_string()));
    let expected = format!("http://127.0.0.1:{}", 6080 + d.which("k".to_string()));
    assert_eq!(a, expected);
    assert!(d.route("incr k x").is_none());
}

#[test]
fn which_matches_a_fresh_default_hasher() {
    let d = CommandDistributor::new(7, 0);
    for key in ["a", "key", "another key"] {
        let mut hasher = std::collections::hash_map::DefaultHasher::new();
        key.to_string().hash(&mut hasher);
        assert_eq!(d.which(key.to_string()), (hasher.finish() as u32) % 7);
    }
}

#[test]
fn route_refuses_a_port_past_u32_max() {
    // with one shard every key goes to shard 0, whose port is the offset
    let d = CommandDistributor::new(1, u32::MAX);
    let (_, a) = d.route("get k").unwrap();
    assert_eq!(a, format!("http://127.0.0.1:{}", u32::MAX));
    let d = CommandDistributor::new(2, u32::MAX);
    for key in ["a", "b", "c", "d", "e", "f"] {
        let body = format!("get {}", key);
        let r = d.route(&body);
        assert_eq!(r.is_some(), d.which(key.to_string()) == 0);
    }
}

#[test]
fn map_command_reads_the_request_bytes() {
    let d = CommandDistributor::new(4, 6080);
    let mut buffer = vec![0u8; 64];
    let request = b"POST / HTTP/1.1\r\nHost: x\r\n\r\nset k v";
    buffer[..request.len()].copy_from_slice(request);
    let (c, a) = d.map_command(&buffer).unwrap();
    assert_eq!(c, Command::SetValue("k".to_string(), "v".to_string()));
    assert_eq!(a, format!("http://127.0.0.1:{}", 6080 + d.which("k".to_string())));
    // no blank line: the body is empty, read as an unknown command
    let (c, _) = d.map_command(b"GET / HTTP/1.1\r\n").unwrap();
    assert_eq!(c, Command::Unknown(String::new()));
    // a NUL before the body starts
    assert!(d.map_command(b"GET\0 / HTTP/1.1\r\n\r\nget k").is_none());
}
