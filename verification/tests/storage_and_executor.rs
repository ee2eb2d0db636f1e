use redis_lite::args::Args;
use redis_lite::command_router::{Command, XRangeCommand, XRangeStatement};
use redis_lite::executor::{execute_command, try_execute_command, CommandContext};
use redis_lite::replication::Replication;
use redis_lite::storage::item::{Item, StreamData, StreamDataEntry};
use redis_lite::storage::Storage;
use redis_lite::transaction::TransactionContainer;

fn args() -> Args {
    Args { port: 6380, replicaof: None, dir: "/tmp/data".into(), dbfilename: "dump.rdb".into() }
}

fn context() -> CommandContext {
    CommandContext::new(Replication::new(args()), Storage::new((vec![], vec![])), args())
}

fn request(parts: &[&str]) -> String {
    let mut s = format!("*{}\r\n", parts.len());
    for p in parts {
        s.push_str(&format!("${}\r\n{}\r\n", p.len(), p));
    }
    s
}

fn run(ctx: &mut CommandContext, tx: &mut TransactionContainer, parts: &[&str], now: u64) -> String {
    let cmd = Command::new(&request(parts)).unwrap();
    execute_command(cmd, ctx, tx, now)
}

fn item_text(i: &Option<Item>) -> Option<String> {
    match i {
        Some(Item::SimpleString(s)) => Some(s.clone()),
        Some(Item::Numeric(n)) => Some(n.to_string()),
        Some(Item::Stream(_)) => Some("<stream>".into()),
        None => None,
    }
}

#[test]
fn storage_set_get_and_expiry() {
    let mut st = Storage::new((vec![], vec![]));
    st.set("a".into(), Item::SimpleString("x".into()), Some(100), 1_000);
    assert_eq!(item_text(&st.get("a", 1_050)), Some("x".into()));
    assert_eq!(item_text(&st.get("a", 1_100)), None);
    assert_eq!(item_text(&st.get("a", 1_000)), None);
    st.set("b".into(), Item::Numeric(3), None, 0);
    assert_eq!(item_text(&st.get("b", u64::MAX)), Some("3".into()));
    st.remove("b");
    assert_eq!(item_text(&st.get("b", 0)), None);
}

#[test]
fn storage_set_without_duration_keeps_earlier_expiry() {
    let mut st = Storage::new((vec![], vec![]));
    st.set("a".into(), Item::SimpleString("x".into()), Some(10), 0);
    st.set("a".into(), Item::SimpleString("y".into()), None, 5);
    assert_eq!(item_text(&st.get("a", 9)), Some("y".into()));
    assert_eq!(item_text(&st.get("a", 10)), None);
}

#[test]
fn storage_tick_and_keys() {
    let mut st = Storage::new((
        vec![("a".into(), Item::SimpleString("1".into())), ("b".into(), Item::SimpleString("2".into()))],
        vec![("a".into(), 50)],
    ));
    let mut keys = st.keys("*".into());
    keys.sort();
    assert_eq!(keys, vec!["a".to_string(), "b".to_string()]);
    st.tick(49);
    assert_eq!(st.keys("*".into()).len(), 2);
    st.tick(50);
    assert_eq!(st.keys("*".into()), vec!["b".to_string()]);
}

#[test]
fn storage_streams() {
    let mut st = Storage::new((vec![], vec![]));
    st.xadd("s".into(), "1-0".into(), vec![("f".into(), "v".into())], 0);
    st.xadd("s".into(), "1-1".into(), vec![], 0);
    st.xadd("s".into(), "2-0".into(), vec![], 0);
    let top = st.get_top_stream_item("s".into(), 0).unwrap();
    assert_eq!(top.id, "2-0");
    assert!(st.get_top_stream_item("missing".into(), 0).is_none());
    let cmd = XRangeCommand {
        key: "s".into(),
        start_statement: XRangeStatement::Id((Some(1), Some(0))),
        end_statement: XRangeStatement::Id((Some(2), Some(1))),
    };
    let groups = st.xrange(&cmd, 0).unwrap();
    let ids: Vec<Vec<String>> = groups.iter().map(|g| g.iter().map(|e| e.id.clone()).collect()).collect();
    // the entry with a later time closes the first group and is itself dropped
    assert_eq!(ids, vec![vec!["1-0".to_string(), "1-1".to_string()]]);
    let range = st
        .get_range("s".into(), XRangeStatement::Id((Some(1), Some(0))), XRangeStatement::Positive, true, 0)
        .unwrap();
    let ids: Vec<String> = range.iter().map(|e| e.id.clone()).collect();
    assert_eq!(ids, vec!["1-1".to_string(), "2-0".to_string()]);
    // a key holding a string is not turned into a stream
    st.set("k".into(), Item::SimpleString("v".into()), None, 0);
    st.xadd("k".into(), "1-0".into(), vec![], 0);
    assert_eq!(item_text(&st.get("k", 0)), Some("v".into()));
}

#[test]
fn items_reply_and_type() {
    assert_eq!(Item::SimpleString("ab".into()).build_response_string(), "$2\r\nab\r\n");
    assert_eq!(Item::Numeric(-12).build_response_string(), ":-12\r\n");
    assert_eq!(Item::Numeric(1).get_type_string(), "number");
    assert_eq!(Item::SimpleString("x".into()).get_type_string(), "string");
    let entry = StreamDataEntry { id: "1-0".into(), data: vec![("a".into(), "b".into())] };
    assert_eq!(entry.split_id(), Some((1, 0)));
    assert_eq!(entry.build_bulk(), "*3\r\n$3\r\n1-0\r\n*2\r\n$1\r\na\r\n$1\r\nb\r\n");
    let stream = Item::Stream(StreamData { value: vec![entry] });
    assert_eq!(stream.get_type_string(), "stream");
}

#[test]
fn basic_commands() {
    let mut ctx = context();
    let mut tx = TransactionContainer::new();
    assert_eq!(run(&mut ctx, &mut tx, &["PING"], 0), "+PONG\r\n");
    assert_eq!(run(&mut ctx, &mut tx, &["ECHO", "hey"], 0), "+hey\r\n");
    assert_eq!(run(&mut ctx, &mut tx, &["SET", "foo", "bar"], 0), "+OK\r\n");
    assert_eq!(run(&mut ctx, &mut tx, &["GET", "foo"], 0), "$3\r\nbar\r\n");
    assert_eq!(run(&mut ctx, &mut tx, &["GET", "nope"], 0), "$-1\r\n");
    assert_eq!(run(&mut ctx, &mut tx, &["TYPE", "foo"], 0), "$6\r\nstring\r\n");
    assert_eq!(run(&mut ctx, &mut tx, &["TYPE", "nope"], 0), "$4\r\nnone\r\n");
    assert_eq!(run(&mut ctx, &mut tx, &["INFO"], 0), "$11\r\nrole:master\r\n");
    assert_eq!(run(&mut ctx, &mut tx, &["REPLCONF", "x"], 0), "+OK\r\n");
    assert_eq!(run(&mut ctx, &mut tx, &["FLUSHALL"], 0), "+OK\r\n");
    assert_eq!(run(&mut ctx, &mut tx, &["KEYS", "*"], 0), "*1\r\n$3\r\nfoo\r\n");
}

#[test]
fn set_with_px_expires() {
    let mut ctx = context();
    let mut tx = TransactionContainer::new();
    assert_eq!(run(&mut ctx, &mut tx, &["SET", "k", "v", "px", "100"], 1_000), "+OK\r\n");
    assert_eq!(run(&mut ctx, &mut tx, &["GET", "k"], 1_099), "$1\r\nv\r\n");
    assert_eq!(run(&mut ctx, &mut tx, &["GET", "k"], 1_100), "$-1\r\n");
    let bad = Command::new(&request(&["SET", "k", "v", "px", "soon"])).unwrap();
    assert_eq!(try_execute_command(bad, &mut ctx, &mut tx, 0), None);
}

#[test]
fn incr_commands() {
    let mut ctx = context();
    let mut tx = TransactionContainer::new();
    assert_eq!(run(&mut ctx, &mut tx, &["INCR", "n"], 0), ":1\r\n");
    assert_eq!(run(&mut ctx, &mut tx, &["INCR", "n", "41"], 0), ":42\r\n");
    assert_eq!(run(&mut ctx, &mut tx, &["GET", "n"], 0), "$2\r\n42\r\n");
    assert_eq!(run(&mut ctx, &mut tx, &["SET", "s", "abc"], 0), "+OK\r\n");
    assert_eq!(run(&mut ctx, &mut tx, &["INCR", "s"], 0), "-ERR value is not an integer or out of range\r\n");
    assert_eq!(run(&mut ctx, &mut tx, &["SET", "m", "9223372036854775807"], 0), "+OK\r\n");
    let overflow = Command::new(&request(&["INCR", "m"])).unwrap();
    assert_eq!(try_execute_command(overflow, &mut ctx, &mut tx, 0), None);
}

#[test]
fn transactions() {
    let mut ctx = context();
    let mut tx = TransactionContainer::new();
    assert_eq!(run(&mut ctx, &mut tx, &["EXEC"], 0), "-ERR EXEC without MULTI\r\n");
    assert_eq!(run(&mut ctx, &mut tx, &["DISCARD"], 0), "-ERR DISCARD without MULTI\r\n");
    assert_eq!(run(&mut ctx, &mut tx, &["MULTI"], 0), "+OK\r\n");
    assert_eq!(run(&mut ctx, &mut tx, &["INCR", "c"], 0), "+QUEUED\r\n");
    assert_eq!(run(&mut ctx, &mut tx, &["INCR", "c"], 0), "+QUEUED\r\n");
    assert_eq!(run(&mut ctx, &mut tx, &["GET", "c"], 0), "$6\r\nQUEUED\r\n");
    // nothing has run yet
    assert!(ctx.storage.keys("*".into()).is_empty());
    // the array header counts the `$` signs of the replies inside it
    assert_eq!(run(&mut ctx, &mut tx, &["EXEC"], 0), "*1\r\n:1\r\n:2\r\n$1\r\n2\r\n");
    assert_eq!(run(&mut ctx, &mut tx, &["EXEC"], 0), "-ERR EXEC without MULTI\r\n");
    assert_eq!(run(&mut ctx, &mut tx, &["MULTI"], 0), "+OK\r\n");
    assert_eq!(run(&mut ctx, &mut tx, &["INCR", "c"], 0), "+QUEUED\r\n");
    assert_eq!(run(&mut ctx, &mut tx, &["DISCARD"], 0), "+OK\r\n");
    assert_eq!(run(&mut ctx, &mut tx, &["GET", "c"], 0), "$1\r\n2\r\n");
}

#[test]
fn config_replies() {
    let mut ctx = context();
    let mut tx = TransactionContainer::new();
    assert_eq!(
        run(&mut ctx, &mut tx, &["CONFIG", "GET", "dir"], 0),
        "*2\r\n$3\r\ndir\r\n$9\r\n/tmp/data\r\n"
    );
    assert_eq!(
        run(&mut ctx, &mut tx, &["CONFIG", "GET", "dbfilename"], 0),
        "*2\r\n$10\r\ndbfilename\r\n$8\r\ndump.rdb\r\n"
    );
    assert_eq!(run(&mut ctx, &mut tx, &["CONFIG", "GET", "port"], 0), "");
}

#[test]
fn stream_commands() {
    let mut ctx = context();
    let mut tx = TransactionContainer::new();
    assert_eq!(run(&mut ctx, &mut tx, &["XADD", "s", "1-0", "a", "b"], 0), "$3\r\n1-0\r\n");
    assert_eq!(run(&mut ctx, &mut tx, &["TYPE", "s"], 0), "$6\r\nstream\r\n");
    assert_eq!(run(&mut ctx, &mut tx, &["XADD", "s", "1-1", "c", "d"], 0), "$3\r\n1-1\r\n");
    let entry0 = "*3\r\n$3\r\n1-0\r\n*2\r\n$1\r\na\r\n$1\r\nb\r\n";
    let entry1 = "*3\r\n$3\r\n1-1\r\n*2\r\n$1\r\nc\r\n$1\r\nd\r\n";
    // array headers count the `$` signs of everything inside them
    let group = format!("*6\r\n{}{}", entry0, entry1);
    assert_eq!(run(&mut ctx, &mut tx, &["XRANGE", "s", "1-0", "1-1"], 0), format!("*6\r\n{}", group));
    assert_eq!(run(&mut ctx, &mut tx, &["XRANGE", "nope", "1-0", "1-1"], 0), "*0\r\n");
    let read = run(&mut ctx, &mut tx, &["XREAD", "streams", "s", "1-0"], 0);
    assert_eq!(read, format!("*4\r\n*4\r\n$1\r\ns\r\n*3\r\n{}", entry1));
    assert_eq!(run(&mut ctx, &mut tx, &["XREAD", "streams", "s", "1-1"], 0), "$-1\r\n");
    assert_eq!(run(&mut ctx, &mut tx, &["XREAD", "streams", "nope", "$"], 0), "$-1\r\n");
    let top = run(&mut ctx, &mut tx, &["XREAD", "block", "0", "streams", "s", "$"], 0);
    assert_eq!(top, format!("*4\r\n*4\r\n$1\r\ns\r\n*3\r\n{}", entry1));
}

#[test]
fn xrange_with_unreadable_ids_cannot_run() {
    let mut ctx = context();
    let mut tx = TransactionContainer::new();
    assert_eq!(run(&mut ctx, &mut tx, &["XADD", "s", "abc", "a", "b"], 0), "$3\r\nabc\r\n");
    let cmd = Command::new(&request(&["XRANGE", "s", "-", "+"])).unwrap();
    assert_eq!(try_execute_command(cmd, &mut ctx, &mut tx, 0), None);
}
