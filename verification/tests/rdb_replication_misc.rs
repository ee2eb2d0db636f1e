use redis_lite::args::Args;
use redis_lite::http::Http;
use redis_lite::multi_exec::MultiexecContainer;
use redis_lite::rdb::RDB;
use redis_lite::replication::Replication;
use redis_lite::storage::item::Item;
use redis_lite::tcp_request::TcpRequest;

fn args(replicaof: Option<&str>) -> Args {
    Args { port: 6380, replicaof: replicaof.map(|s| s.to_string()), dir: "/var/lib".into(), dbfilename: "d.rdb".into() }
}

fn text(i: &Item) -> String {
    match i {
        Item::SimpleString(s) => s.clone(),
        Item::Numeric(n) => n.to_string(),
        Item::Stream(_) => "<stream>".into(),
    }
}

#[test]
fn rdb_file_path() {
    assert_eq!(RDB::new(args(None)).file_path(), "/var/lib/d.rdb");
}

#[test]
fn rdb_empty_file_is_empty_store() {
    let (state, exp) = RDB::parse_dump(&[]);
    assert!(state.is_empty() && exp.is_empty());
}

#[test]
fn rdb_records_with_and_without_expiry() {
    let mut b: Vec<u8> = b"REDIS0011\xfa\x09redis-ver".to_vec();
    b.push(0xfe);
    b.push(0x00);
    b.push(0xfb);
    b.push(3); // records
    b.push(2); // records with expiry
    // plain string record: type 0, key "foo", value "bar"
    b.extend_from_slice(&[0x00, 3, b'f', b'o', b'o', 3, b'b', b'a', b'r']);
    // expiry in milliseconds
    b.push(0xfc);
    b.extend_from_slice(&1_713_824_559_637u64.to_le_bytes());
    b.extend_from_slice(&[0x00, 1, b'k', 1, b'v']);
    // expiry in seconds
    b.push(0xfd);
    b.extend_from_slice(&1_714_089_298u32.to_le_bytes());
    b.extend_from_slice(&[0x00, 1, b's', 2, b'w', b'x']);
    b.push(0xff);
    let (state, exp) = RDB::parse_dump(&b);
    let got: Vec<(String, String)> = state.iter().map(|(k, v)| (k.clone(), text(v))).collect();
    assert_eq!(
        got,
        vec![("foo".into(), "bar".into()), ("k".into(), "v".into()), ("s".into(), "wx".into())]
    );
    assert_eq!(exp, vec![("k".to_string(), 1_713_824_559_637u128), ("s".to_string(), 1_714_089_298_000u128)]);
}

#[test]
fn rdb_truncated_dump_cannot_be_read() {
    assert!(RDB::parse_dump_checked(b"no marker here").is_none());
    assert!(RDB::parse_dump_checked(&[0xfb, 1, 0, 0x00, 5, b'a']).is_none());
    let ok = RDB::parse_dump_checked(&[0xfb, 0, 0]).unwrap();
    assert!(ok.0.is_empty());
}

#[test]
fn master_gets_random_id() {
    let r = Replication::new(args(None));
    assert!(r.is_master);
    let id = r.master_id.clone().unwrap();
    assert_eq!(id.len(), 40);
    assert!(id.chars().all(|c| c.is_ascii_alphanumeric()));
    assert_eq!(r.master_address(), None);
    let other = Replication::generate_master_id();
    assert_eq!(other.len(), 40);
}

#[test]
fn replica_knows_its_master() {
    let r = Replication::new(args(Some("localhost 6379")));
    assert!(!r.is_master);
    assert_eq!(r.master_id, None);
    assert_eq!(r.master_host.as_deref(), Some("localhost"));
    assert_eq!(r.master_port, Some(6379));
    assert_eq!(r.master_address(), Some("localhost:6379".to_string()));
    assert_eq!(Replication::ping_master_body(), "*1\r\n$4\r\nPING\r\n");
    assert_eq!(
        Replication::ping_master_capabilities_body(),
        "*3\r\n$8\r\nREPLCONF\r\n$4\r\ncapa\r\n$6\r\npsync2\r\n"
    );
    assert_eq!(
        r.ping_master_port_body(),
        "*3\r\n$8\r\nREPLCONF\r\n$14\r\nlistening-port\r\n$4\r\n6380\r\n"
    );
}

#[test]
fn requests_hold_address_and_body() {
    let t = TcpRequest::new("127.0.0.1:6379", "PING".into());
    assert_eq!(t.get_url(), "127.0.0.1:6379");
    assert_eq!(t.get_body(), "PING");
    let h = Http::new("host:1", "x".into());
    assert_eq!(h.get_url(), "host:1");
    assert_eq!(h.get_body(), "x");
}

#[test]
fn multiexec_queue() {
    let mut m = MultiexecContainer::new();
    assert!(!m.active);
    m.store_action(Box::new(()));
    m.store_action(Box::new(()));
    assert_eq!(m.execution_queue.len(), 2);
    let a = args(None).duplicate();
    assert_eq!(a.port, 6380);
}
