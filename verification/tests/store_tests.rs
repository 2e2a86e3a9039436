use redis_core::command::Command;
use redis_core::database::{Database, DataValueWithParams};
use redis_core::value::RespValue;

fn run(db: &mut Database, wire: &[u8], now_ms: u64) -> RespValue {
    let command = Command::from_wire(wire).unwrap();
    command.execute_at(db, now_ms)
}

#[test]
fn scenario_ping() {
    let mut db = Database::new();
    let reply = run(&mut db, b"*1\r\n$4\r\nPING\r\n", 0);
    assert_eq!(reply.to_resp(), b"+PONG\r\n".to_vec());
}

#[test]
fn scenario_echo() {
    let mut db = Database::new();
    let reply = run(&mut db, b"*2\r\n$4\r\nECHO\r\n$3\r\nhey\r\n", 0);
    assert_eq!(reply.to_resp(), b"$3\r\nhey\r\n".to_vec());
}

#[test]
fn scenario_set_then_get() {
    let mut db = Database::new();
    let reply = run(&mut db, b"*3\r\n$3\r\nSET\r\n$3\r\nfoo\r\n$3\r\nbar\r\n", 0);
    assert_eq!(reply.to_resp(), b"+OK\r\n".to_vec());
    let reply = run(&mut db, b"*2\r\n$3\r\nGET\r\n$3\r\nfoo\r\n", 5);
    assert_eq!(reply.to_resp(), b"$3\r\nbar\r\n".to_vec());
}

#[test]
fn scenario_set_with_expiry_then_get_until_expired() {
    let mut db = Database::new();
    let reply = run(
        &mut db,
        b"*5\r\n$3\r\nSET\r\n$9\r\nelephants\r\n$6\r\nhorses\r\n$2\r\npx\r\n$3\r\n100\r\n",
        1000,
    );
    assert_eq!(reply.to_resp(), b"+OK\r\n".to_vec());
    let reply = run(&mut db, b"*2\r\n$3\r\nGET\r\n$9\r\nelephants\r\n", 1010);
    assert_eq!(reply, RespValue::BulkString(b"horses".to_vec()));
    let reply = run(&mut db, b"*2\r\n$3\r\nGET\r\n$9\r\nelephants\r\n", 1150);
    assert_eq!(reply, RespValue::Nil);
}

#[test]
fn expiry_boundary_is_elapsed_at_least_ttl() {
    let mut db = Database::new();
    db.set(b"k".to_vec(), b"v".to_vec(), Some(100), 0);
    assert_eq!(db.get(b"k", 99), Some(b"v".to_vec()));
    assert_eq!(db.get(b"k", 100), None);
    assert_eq!(db.get(b"k", 101), None);
}

#[test]
fn get_of_unknown_key_returns_nil() {
    let mut db = Database::new();
    let reply = run(&mut db, b"*2\r\n$3\r\nGET\r\n$7\r\nmissing\r\n", 0);
    assert_eq!(reply, RespValue::Nil);
}

#[test]
fn repeated_get_of_live_key_is_stable() {
    let mut db = Database::new();
    db.set(b"k".to_vec(), b"stay".to_vec(), None, 0);
    let first = run(&mut db, b"*2\r\n$3\r\nGET\r\n$1\r\nk\r\n", 10);
    let second = run(&mut db, b"*2\r\n$3\r\nGET\r\n$1\r\nk\r\n", 20);
    assert_eq!(first, RespValue::BulkString(b"stay".to_vec()));
    assert_eq!(first, second);
}

#[test]
fn set_is_last_writer_wins() {
    let mut db = Database::new();
    run(&mut db, b"*3\r\n$3\r\nSET\r\n$1\r\nk\r\n$2\r\nv1\r\n", 0);
    run(&mut db, b"*3\r\n$3\r\nSET\r\n$1\r\nk\r\n$2\r\nv2\r\n", 1);
    let reply = run(&mut db, b"*2\r\n$3\r\nGET\r\n$1\r\nk\r\n", 2);
    assert_eq!(reply, RespValue::BulkString(b"v2".to_vec()));
}

#[test]
fn set_overwrites_expiry_too() {
    let mut db = Database::new();
    db.set(b"k".to_vec(), b"v1".to_vec(), Some(10), 0);
    db.set(b"k".to_vec(), b"v2".to_vec(), None, 5);
    // the second write replaced value, timestamp and expiry as one unit
    assert_eq!(db.get(b"k", 1_000_000), Some(b"v2".to_vec()));
}

#[test]
fn execute_with_wall_clock_set_then_get() {
    let mut db = Database::new();
    let set = Command::from_wire(b"*3\r\n$3\r\nSET\r\n$1\r\nw\r\n$2\r\nok\r\n").unwrap();
    let reply = set.execute(&mut db);
    assert_eq!(reply.to_resp(), b"+OK\r\n".to_vec());
    let get = Command::from_wire(b"*2\r\n$3\r\nGET\r\n$1\r\nw\r\n").unwrap();
    let reply = get.execute(&mut db);
    assert_eq!(reply, RespValue::BulkString(b"ok".to_vec()));
}

#[test]
fn stamped_value_carries_its_fields() {
    let entry = DataValueWithParams::new_at(b"v".to_vec(), Some(7), 42);
    assert_eq!(entry.value, b"v".to_vec());
    assert_eq!(entry.created_at_ms, 42);
    assert_eq!(entry.expiry_ms, Some(7));
    let stamped = DataValueWithParams::new(b"w".to_vec(), None);
    assert_eq!(stamped.value, b"w".to_vec());
    assert_eq!(stamped.expiry_ms, None);
}
