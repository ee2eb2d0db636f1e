use redis_lite::args::Args;
use redis_lite::command_router::{Command, GetCommand, IncrCommand, SetCommand};
use redis_lite::executor::{
    exec_command, execute_command, get_command, incr_command, multi_command, set_command,
    CommandContext,
};
use redis_lite::replication::Replication;
use redis_lite::storage::Storage;
use redis_lite::transaction::TransactionContainer;

fn args() -> Args {
    Args { port: 1, replicaof: None, dir: "d".into(), dbfilename: "f".into() }
}

fn context() -> CommandContext {
    CommandContext::new(Replication::new(args()), Storage::new((vec![], vec![])), args())
}

fn get(k: &str) -> GetCommand {
    GetCommand { key: k.into() }
}

fn incr(k: &str, step: isize) -> IncrCommand {
    IncrCommand { key: k.into(), step }
}

#[test]
fn exec_answers_what_direct_runs_answer() {
    // one by one, outside a transaction
    let mut direct = context();
    let mut tx = TransactionContainer::new();
    let r1 = incr_command(&mut direct, incr("a", 5), &mut tx, 0);
    let r2 = get_command(&mut direct, get("a"), &mut tx, 0);
    let r3 = incr_command(&mut direct, incr("a", -2), &mut tx, 0);
    // queued, then run by EXEC
    let mut queued = context();
    let mut tx2 = TransactionContainer::new();
    assert_eq!(multi_command(&mut tx2), "+OK\r\n");
    assert_eq!(incr_command(&mut queued, incr("a", 5), &mut tx2, 0), "+QUEUED\r\n");
    assert_eq!(get_command(&mut queued, get("a"), &mut tx2, 0), "$6\r\nQUEUED\r\n");
    assert_eq!(incr_command(&mut queued, incr("a", -2), &mut tx2, 0), "+QUEUED\r\n");
    let body = format!("{}{}{}", r1, r2, r3);
    let dollars = body.chars().filter(|c| *c == '$').count();
    assert_eq!(exec_command(&mut queued, &mut tx2, 0), format!("*{}\r\n{}", dollars, body));
    assert_eq!(r1, ":5\r\n");
    assert_eq!(r2, "$1\r\n5\r\n");
    assert_eq!(r3, ":3\r\n");
    assert!(!tx2.is_active());
}

#[test]
fn exec_commands_runs_the_queue_in_order() {
    let mut ctx = context();
    let mut tx = TransactionContainer::new();
    tx.store_action(Command::SetValue(SetCommand { key: "k".into(), value: "10".into(), expire_after: None }));
    tx.store_action(Command::Incr(incr("k", 1)));
    tx.store_action(Command::Get(get("k")));
    tx.store_action(Command::Ping);
    let replies = tx.exec_commands(&mut ctx, 0);
    assert_eq!(replies, vec!["$2\r\nOK\r\n".to_string(), ":11\r\n".to_string(), "$2\r\n11\r\n".to_string()]);
    let mut tx3 = TransactionContainer::new();
    assert_eq!(get_command(&mut ctx, get("k"), &mut tx3, 0), "$2\r\n11\r\n");
}

#[test]
fn try_exec_stops_at_a_command_that_cannot_run() {
    let mut ctx = context();
    let mut tx = TransactionContainer::new();
    tx.set_active(true);
    tx.store_action(Command::Incr(incr("k", 1)));
    tx.store_action(Command::SetValue(SetCommand {
        key: "k".into(),
        value: "1".into(),
        expire_after: Some("later".into()),
    }));
    tx.store_action(Command::Incr(incr("k", 1)));
    assert_eq!(tx.try_exec_commands(&mut ctx, 0), None);
    // the first command ran; the transaction is left as it was
    assert!(tx.is_active());
    let mut other = TransactionContainer::new();
    assert_eq!(get_command(&mut ctx, get("k"), &mut other, 0), "$1\r\n1\r\n");
}

#[test]
fn set_then_get_gives_canonical_numbers() {
    let mut ctx = context();
    let mut tx = TransactionContainer::new();
    set_command(&mut ctx, SetCommand { key: "n".into(), value: "007".into(), expire_after: None }, 0);
    assert_eq!(get_command(&mut ctx, get("n"), &mut tx, 0), "$1\r\n7\r\n");
    set_command(&mut ctx, SetCommand { key: "n".into(), value: "-42".into(), expire_after: None }, 0);
    assert_eq!(get_command(&mut ctx, get("n"), &mut tx, 0), "$3\r\n-42\r\n");
    set_command(&mut ctx, SetCommand { key: "t".into(), value: "hello".into(), expire_after: None }, 0);
    assert_eq!(get_command(&mut ctx, get("t"), &mut tx, 0), "$5\r\nhello\r\n");
}

#[test]
fn discard_then_exec_is_refused() {
    let mut ctx = context();
    let mut tx = TransactionContainer::new();
    assert_eq!(execute_command(Command::Multi, &mut ctx, &mut tx, 0), "+OK\r\n");
    assert_eq!(execute_command(Command::Incr(incr("x", 1)), &mut ctx, &mut tx, 0), "+QUEUED\r\n");
    assert_eq!(execute_command(Command::Discard, &mut ctx, &mut tx, 0), "+OK\r\n");
    assert_eq!(execute_command(Command::Exec, &mut ctx, &mut tx, 0), "-ERR EXEC without MULTI\r\n");
    assert_eq!(execute_command(Command::Get(get("x")), &mut ctx, &mut tx, 0), "$-1\r\n");
}
