//! Running commands against the server state: what each command does to
//! the store and the transaction, and the reply it sends. Writing the
//! reply to the socket, and waiting for `XREAD ... BLOCK`, is the
//! application's part.
use vstd::prelude::*;
use crate::args::Args;
use crate::command_router::config::{ConfigCommand, ConfigCommandAction, ConfigCommandActionView};
use crate::command_router::{
    Command, CommandView, EchoCommand, GetCommand, IncrCommand, IncrCommandView, KeysCommand,
    SetCommand, SetCommandView, TypeCommand, XAddCommand, XRangeCommand, XRangeStatement, XReadCommand, split_id, split_id_spec,
};
use crate::numbers::{lemma_parse_int_of_decimal, int_to_decimal, isize_to_string, parse_isize, parse_isize_spec, parse_u64, parse_u64_spec};
use crate::replication::Replication;
use crate::resp::{lemma_bulk_len_ascii, bulks, array, build_array, build_bulk, bulk, concat_all, concat_strings, crlf, lemma_strings_view_push, strings_view};
use crate::storage::item::{
    build_entries, entries_reply, entries_view, item_reply, item_type_name, Item, ItemView,
    StreamDataEntryView,
};
use crate::storage::{
    all_ids_split, get_spec, groups_view, lemma_get_idempotent, range_entries, set_spec,
    stream_at, xadd_spec, xrange_groups, Storage, StorageView,
};
use crate::text::{push_char, str_to_chars};
use crate::transaction::{TransactionContainer, TxView};

verus! {

/// What a connection works with: replication settings, the store and the
/// startup settings.
pub struct CommandContext {
    pub replication_info: Replication,
    pub storage: Storage,
    pub args: Args,
}

impl CommandContext {
    pub open spec fn wf(&self) -> bool {
        self.storage.wf()
    }

    pub fn new(replication: Replication, storage: Storage, args: Args) -> (r: Self)
        requires
            storage.wf(),
        ensures
            r.wf(),
            r.replication_info == replication,
            r.storage == storage,
            r.args == args,
    {
        Self { replication_info: replication, storage, args }
    }
}

pub open spec fn ok_reply() -> Seq<char> {
    "+OK\r\n"@
}

pub open spec fn pong_reply() -> Seq<char> {
    "+PONG\r\n"@
}

pub open spec fn nil_reply() -> Seq<char> {
    "$-1\r\n"@
}

pub open spec fn incr_error_reply() -> Seq<char> {
    "-ERR value is not an integer or out of range\r\n"@
}

pub open spec fn exec_error_reply() -> Seq<char> {
    "-ERR EXEC without MULTI\r\n"@
}

pub open spec fn discard_error_reply() -> Seq<char> {
    "-ERR DISCARD without MULTI\r\n"@
}

/// A value that reads as an `isize` is stored as a number, anything else
/// as a string.
pub open spec fn value_item(v: Seq<char>) -> ItemView {
    match parse_isize_spec(v) {
        Some(n) => ItemView::Numeric(n),
        None => ItemView::SimpleString(v),
    }
}

/// The `PX` duration of a `SET`, if any, is a number of milliseconds.
pub open spec fn expiry_ok(cmd: SetCommandView) -> bool {
    cmd.expire_after matches Some(e) ==> parse_u64_spec(e) is Some
}

/// `SET`: the store afterwards; `None` where the `PX` duration is not a
/// number of milliseconds (the command cannot be run).
pub open spec fn set_step(s: StorageView, cmd: SetCommandView, now: u64) -> Option<StorageView> {
    if !expiry_ok(cmd) {
        None
    } else {
        let d = match cmd.expire_after {
            Some(e) => parse_u64_spec(e),
            None => None,
        };
        Some(set_spec(s, cmd.key, value_item(cmd.value), d, now))
    }
}

/// The reply to `GET`: the value as a bulk string (a number in decimal; a
/// stream as its entries), or the null bulk string.
pub open spec fn get_reply(it: Option<ItemView>) -> Seq<char> {
    match it {
        Some(ItemView::Numeric(n)) => bulk(int_to_decimal(n as int)),
        Some(ItemView::SimpleString(x)) => bulk(x),
        Some(ItemView::Stream(es)) => item_reply(ItemView::Stream(es)),
        None => nil_reply(),
    }
}

pub open spec fn get_step(s: StorageView, key: Seq<char>, now: u64) -> (StorageView, Seq<char>) {
    (get_spec(s, key, now).0, get_reply(get_spec(s, key, now).1))
}

/// `INCR`: a number is increased by the step, an absent key starts at the
/// step, anything else is left alone (and no item comes back). The flag
/// is false where the sum leaves the range of `isize` (the command cannot
/// be run; the key has been read by then).
pub open spec fn incr_step(s: StorageView, cmd: IncrCommandView, now: u64) -> (StorageView, Option<ItemView>, bool) {
    let (s1, it) = get_spec(s, cmd.key, now);
    match it {
        Some(ItemView::Numeric(n)) => {
            let sum = n as int + cmd.step as int;
            if isize::MIN <= sum && sum <= isize::MAX {
                let v = ItemView::Numeric(sum as isize);
                (set_spec(s1, cmd.key, v, None, now), Some(v), true)
            } else {
                (s1, None, false)
            }
        },
        Some(_) => (s1, None, true),
        None => {
            let v = ItemView::Numeric(cmd.step);
            (set_spec(s1, cmd.key, v, None, now), Some(v), true)
        },
    }
}

pub open spec fn incr_reply(r: Option<ItemView>) -> Seq<char> {
    match r {
        Some(v) => item_reply(v),
        None => incr_error_reply(),
    }
}

/// Running one queued command inside `EXEC`: `SET`, `INCR` and `GET`
/// give one reply each, other commands are dropped. The flag is false
/// where the command cannot be run.
pub open spec fn queued_step(s: StorageView, cmd: CommandView, now: u64) -> (StorageView, Seq<Seq<char>>, bool) {
    match cmd {
        CommandView::SetValue(c) => match set_step(s, c, now) {
            Some(s2) => (s2, seq![bulk("OK"@)], true),
            None => (s, seq![], false),
        },
        CommandView::Incr(c) => {
            let (s2, r, ok) = incr_step(s, c, now);
            if ok {
                (s2, seq![incr_reply(r)], true)
            } else {
                (s2, seq![], false)
            }
        },
        CommandView::Get(k) => (get_step(s, k, now).0, seq![get_step(s, k, now).1], true),
        _ => (s, seq![], true),
    }
}

/// Running a queue in order: the store, the replies so far, and whether
/// every command could be run (running stops at the first that cannot).
pub open spec fn exec_queue(s: StorageView, q: Seq<CommandView>, now: u64) -> (StorageView, Seq<Seq<char>>, bool)
    decreases q.len(),
{
    if q.len() == 0 {
        (s, seq![], true)
    } else {
        let (s1, rs, ok) = exec_queue(s, q.drop_last(), now);
        if !ok {
            (s1, rs, false)
        } else {
            let (s2, r, ok2) = queued_step(s1, q.last(), now);
            (s2, rs + r, ok2)
        }
    }
}

/// Once a command of the queue cannot be run, the rest is not run.
pub proof fn lemma_exec_queue_stops(s: StorageView, q: Seq<CommandView>, k: int, now: u64)
    requires
        0 <= k <= q.len(),
        !exec_queue(s, q.take(k), now).2,
    ensures
        exec_queue(s, q, now) == exec_queue(s, q.take(k), now),
    decreases q.len() - k,
{
    if k == q.len() {
        assert(q.take(k) =~= q);
    } else {
        assert(q.drop_last().take(k) =~= q.take(k));
        lemma_exec_queue_stops(s, q.drop_last(), k, now);
    }
}

/// A reply to `KEYS`: every stored key once, as bulk strings in an array,
/// in some order.
pub open spec fn keys_reply_ok(s: StorageView, reply: Seq<char>) -> bool {
    exists|ks: Seq<Seq<char>>|
        ks.no_duplicates() && ks.to_set() == s.state.dom() && reply == array(concat_all(bulks(ks)))
}

/// The reply to `CONFIG GET dir` / `CONFIG GET dbfilename`: the name and
/// the setting; nothing for other requests.
pub open spec fn config_reply(a: ConfigCommandActionView, dir: Seq<char>, dbfilename: Seq<char>) -> Seq<char> {
    match a {
        ConfigCommandActionView::Get(k) => if k == "dir"@ {
            array(bulk("dir"@) + bulk(dir))
        } else if k == "dbfilename"@ {
            array(bulk("dbfilename"@) + bulk(dbfilename))
        } else {
            seq![]
        },
        ConfigCommandActionView::Unrecognized => seq![],
    }
}

pub open spec fn info_reply(is_master: bool) -> Seq<char> {
    bulk(
        if is_master {
            "role:master"@
        } else {
            "role:slave"@
        },
    )
}

pub open spec fn type_reply(it: Option<ItemView>) -> Seq<char> {
    bulk(
        match it {
            Some(i) => item_type_name(i),
            None => "none"@,
        },
    )
}

/// The reply to `XRANGE`: an array of the groups, each an array of its
/// entries; an empty array where no stream is stored.
pub open spec fn xrange_reply(groups: Option<Seq<Seq<StreamDataEntryView>>>) -> Seq<char> {
    match groups {
        Some(g) => array(concat_all(g.map_values(|grp: Seq<StreamDataEntryView>| entries_reply(grp)))),
        None => array(seq![]),
    }
}

/// The entries of `key` read from `start` onwards, as `XREAD` adds them to
/// its reply: an array of the key and its entries, where there are any.
pub open spec fn xread_range(s: StorageView, resp: Seq<Seq<char>>, key: Seq<char>, start: XRangeStatement, exclusive: bool, now: u64) -> (StorageView, Seq<Seq<char>>, bool) {
    let s2 = get_spec(s, key, now).0;
    match stream_at(s, key, now) {
        Some(es) => {
            let items = range_entries(es, start, XRangeStatement::Positive, exclusive);
            if items.len() == 0 {
                (s2, resp, false)
            } else {
                (s2, resp.push(array(bulk(key) + entries_reply(items))), false)
            }
        },
        None => (s2, resp, false),
    }
}

/// One (key, id) pair of `XREAD`: `$` reads from the newest entry of the
/// stream on (and ends the whole reply with the null bulk string where no
/// stream is stored); any other id reads the entries after it.
pub open spec fn xread_step(s: StorageView, resp: Seq<Seq<char>>, kv: (Seq<char>, Seq<char>), now: u64) -> (StorageView, Seq<Seq<char>>, bool) {
    let key = kv.0;
    let id = kv.1;
    if id == "$"@ {
        let s1 = get_spec(s, key, now).0;
        match stream_at(s, key, now) {
            Some(es) => xread_range(s1, resp, key, XRangeStatement::Id(split_id_spec(es.last().id)), false, now),
            None => (s1, resp, true),
        }
    } else {
        xread_range(s, resp, key, XRangeStatement::Id(split_id_spec(id)), true, now)
    }
}

/// The pairs of `XREAD` in order: store, replies so far, and whether the
/// reading stopped early.
pub open spec fn xread_walk(s: StorageView, keys: Seq<(Seq<char>, Seq<char>)>, now: u64) -> (StorageView, Seq<Seq<char>>, bool)
    decreases keys.len(),
{
    if keys.len() == 0 {
        (s, seq![], false)
    } else {
        let (s1, resp, stopped) = xread_walk(s, keys.drop_last(), now);
        if stopped {
            (s1, resp, true)
        } else {
            xread_step(s1, resp, keys.last(), now)
        }
    }
}

/// Once reading stops early, the remaining pairs are not read.
pub proof fn lemma_xread_walk_stops(s: StorageView, keys: Seq<(Seq<char>, Seq<char>)>, k: int, now: u64)
    requires
        0 <= k <= keys.len(),
        xread_walk(s, keys.take(k), now).2,
    ensures
        xread_walk(s, keys, now) == xread_walk(s, keys.take(k), now),
    decreases keys.len() - k,
{
    if k == keys.len() {
        assert(keys.take(k) =~= keys);
    } else {
        assert(keys.drop_last().take(k) =~= keys.take(k));
        lemma_xread_walk_stops(s, keys.drop_last(), k, now);
    }
}

/// `XREAD`: the store afterwards and the reply, the null bulk string where
/// reading stopped early or found nothing.
pub open spec fn xread_spec(s: StorageView, keys: Seq<(Seq<char>, Seq<char>)>, now: u64) -> (StorageView, Seq<char>) {
    let (s1, resp, stopped) = xread_walk(s, keys, now);
    if stopped || resp.len() == 0 {
        (s1, nil_reply())
    } else {
        (s1, array(concat_all(resp)))
    }
}

/// The entries that `XREAD` reads for one (key, id) pair, from the store
/// as it was before the command: `None` where no stream is stored under
/// the key; for `$`, the entries from the newest one on; for any other
/// id, the entries after it.
pub open spec fn pair_entries(s: StorageView, kv: (Seq<char>, Seq<char>), now: u64) -> Option<Seq<StreamDataEntryView>> {
    match stream_at(s, kv.0, now) {
        None => None,
        Some(es) => Some(
            if kv.1 == "$"@ {
                range_entries(es, XRangeStatement::Id(split_id_spec(es.last().id)), XRangeStatement::Positive, false)
            } else {
                range_entries(es, XRangeStatement::Id(split_id_spec(kv.1)), XRangeStatement::Positive, true)
            },
        ),
    }
}

/// The pair reads some entries.
pub open spec fn pair_hits(s: StorageView, kv: (Seq<char>, Seq<char>), now: u64) -> bool {
    pair_entries(s, kv, now) matches Some(items) && items.len() > 0
}

/// A `$` pair whose key holds no stream.
pub open spec fn dollar_missing(s: StorageView, kv: (Seq<char>, Seq<char>), now: u64) -> bool {
    kv.1 == "$"@ && stream_at(s, kv.0, now) is None
}

/// For each pair, in order, that reads some entries: the element
/// `[key, entries]`.
pub open spec fn xread_elements(s: StorageView, keys: Seq<(Seq<char>, Seq<char>)>, now: u64) -> Seq<Seq<char>>
    decreases keys.len(),
{
    if keys.len() == 0 {
        seq![]
    } else {
        let prev = xread_elements(s, keys.drop_last(), now);
        if pair_hits(s, keys.last(), now) {
            prev.push(array(bulk(keys.last().0) + entries_reply(pair_entries(s, keys.last(), now).unwrap())))
        } else {
            prev
        }
    }
}

/// How many of the pairs read some entries.
pub open spec fn xread_hit_count(s: StorageView, keys: Seq<(Seq<char>, Seq<char>)>, now: u64) -> nat
    decreases keys.len(),
{
    if keys.len() == 0 {
        0
    } else {
        xread_hit_count(s, keys.drop_last(), now) + if pair_hits(s, keys.last(), now) {
            1nat
        } else {
            0nat
        }
    }
}

proof fn lemma_stream_at_after_get(s: StorageView, k1: Seq<char>, k2: Seq<char>, now: u64)
    ensures
        stream_at(get_spec(s, k1, now).0, k2, now) == stream_at(s, k2, now),
{
}

proof fn lemma_xread_walk_model(s: StorageView, keys: Seq<(Seq<char>, Seq<char>)>, now: u64)
    ensures
        ({
            let (s1, resp, stopped) = xread_walk(s, keys, now);
            &&& forall|k: Seq<char>| #[trigger] stream_at(s1, k, now) == stream_at(s, k, now)
            &&& stopped <==> exists|i: int| 0 <= i < keys.len() && #[trigger] dollar_missing(s, keys[i], now)
            &&& !stopped ==> resp == xread_elements(s, keys, now)
            &&& xread_elements(s, keys, now).len() == xread_hit_count(s, keys, now)
        }),
    decreases keys.len(),
{
    if keys.len() > 0 {
        let init = keys.drop_last();
        lemma_xread_walk_model(s, init, now);
        let (s0, r0, st0) = xread_walk(s, init, now);
        let kv = keys.last();
        assert(kv == keys[keys.len() - 1]);
        assert forall|i: int| 0 <= i < init.len() implies init[i] == keys[i] by {}
        if st0 {
            let i = choose|i: int| 0 <= i < init.len() && #[trigger] dollar_missing(s, init[i], now);
            assert(init[i] == keys[i]);
            assert(dollar_missing(s, keys[i], now));
        } else {
            let key = kv.0;
            assert forall|k: Seq<char>| #[trigger] stream_at(get_spec(s0, key, now).0, k, now) == stream_at(s, k, now) by {
                lemma_stream_at_after_get(s0, key, k, now);
            }
            let s1 = get_spec(s0, key, now).0;
            assert forall|k: Seq<char>| #[trigger] stream_at(get_spec(s1, key, now).0, k, now) == stream_at(s, k, now) by {
                lemma_stream_at_after_get(s1, key, k, now);
            }
            assert(stream_at(s0, key, now) == stream_at(s, key, now));
            assert(stream_at(s1, key, now) == stream_at(s, key, now));
            let (s2, r2, st2) = xread_walk(s, keys, now);
            if st2 {
                assert(dollar_missing(s, keys[keys.len() - 1], now));
            } else {
                assert(!dollar_missing(s, kv, now));
                assert forall|i: int| 0 <= i < keys.len() implies !#[trigger] dollar_missing(s, keys[i], now) by {
                    if i < init.len() {
                        assert(init[i] == keys[i]);
                        assert(!dollar_missing(s, init[i], now));
                    }
                }
            }
        }
    }
}

/// `XREAD` answers every requested pair, in order, that reads some entries
/// (the entries after its id, or from the newest one on for `$`): one
/// element `[key, entries]` for each such pair and for no other, so the
/// reply has as many elements as there are such pairs; where there are
/// none, or where a `$` names a key that holds no stream, it answers the
/// null bulk string.
pub proof fn lemma_xread_answers_every_pair(s: StorageView, keys: Seq<(Seq<char>, Seq<char>)>, now: u64)
    ensures
        xread_elements(s, keys, now).len() == xread_hit_count(s, keys, now),
        (forall|i: int| 0 <= i < keys.len() ==> !#[trigger] dollar_missing(s, keys[i], now)) ==> xread_spec(s, keys, now).1 == if xread_hit_count(s, keys, now) == 0 {
            nil_reply()
        } else {
            array(concat_all(xread_elements(s, keys, now)))
        },
        (exists|i: int| 0 <= i < keys.len() && #[trigger] dollar_missing(s, keys[i], now)) ==> xread_spec(s, keys, now).1 == nil_reply(),
{
    lemma_xread_walk_model(s, keys, now);
}

/// One command as a connection runs it: the store and transaction
/// afterwards, the reply, and whether the command could be run (where it
/// cannot, the store is as far as the command got and the transaction is
/// unchanged). The reply to `KEYS` is left open here (see
/// `keys_reply_ok`).
pub open spec fn execute_spec(s: StorageView, t: TxView, is_master: bool, dir: Seq<char>, dbfilename: Seq<char>, cmd: CommandView, now: u64) -> (StorageView, TxView, Seq<char>, bool) {
    match cmd {
        CommandView::Ping => (s, t, pong_reply(), true),
        CommandView::Echo(e) => (s, t, seq!['+'] + e + crlf(), true),
        CommandView::SetValue(c) => match set_step(s, c, now) {
            Some(s2) => (s2, t, ok_reply(), true),
            None => (s, t, seq![], false),
        },
        CommandView::Get(k) => if t.active {
            (s, TxView { active: t.active, queue: t.queue.push(cmd) }, bulk("QUEUED"@), true)
        } else {
            (get_step(s, k, now).0, t, get_step(s, k, now).1, true)
        },
        CommandView::Info => (s, t, info_reply(is_master), true),
        CommandView::Replconf => (s, t, ok_reply(), true),
        CommandView::Config(a) => (s, t, config_reply(a, dir, dbfilename), true),
        CommandView::Keys(_) => (s, t, seq![], true),
        CommandView::Incr(c) => if t.active {
            (s, TxView { active: t.active, queue: t.queue.push(cmd) }, "+QUEUED\r\n"@, true)
        } else {
            let (s2, r, ok) = incr_step(s, c, now);
            (s2, t, if ok {
                incr_reply(r)
            } else {
                seq![]
            }, ok)
        },
        CommandView::Multi => (s, TxView { active: true, queue: t.queue }, ok_reply(), true),
        CommandView::Exec => if !t.active {
            (s, t, exec_error_reply(), true)
        } else {
            let (s2, rs, ok) = exec_queue(s, t.queue, now);
            if ok {
                (s2, TxView { active: false, queue: seq![] }, array(concat_all(rs)), true)
            } else {
                (s2, t, seq![], false)
            }
        },
        CommandView::Discard => if !t.active {
            (s, t, discard_error_reply(), true)
        } else {
            (s, TxView { active: false, queue: seq![] }, ok_reply(), true)
        },
        CommandView::Type(k) => (get_spec(s, k, now).0, t, type_reply(get_spec(s, k, now).1), true),
        CommandView::XAdd(c) => (
            xadd_spec(s, c.key, StreamDataEntryView { id: c.id, data: c.data }, now),
            t,
            bulk(c.id),
            true,
        ),
        CommandView::XRange(c) => match stream_at(s, c.key, now) {
            Some(es) => if all_ids_split(es) {
                (
                    get_spec(s, c.key, now).0,
                    t,
                    xrange_reply(Some(xrange_groups(es, c.start_statement, c.end_statement))),
                    true,
                )
            } else {
                (get_spec(s, c.key, now).0, t, seq![], false)
            },
            None => (get_spec(s, c.key, now).0, t, xrange_reply(None), true),
        },
        CommandView::XRead(c) => (xread_spec(s, c.keys, now).0, t, xread_spec(s, c.keys, now).1, true),
        CommandView::Unrecognized => (s, t, ok_reply(), true),
    }
}

/// A text that is not an integer, once stored with `SET` (on a key without
/// an expiry), is what `GET` answers.
pub proof fn lemma_set_then_get_text(s: StorageView, key: Seq<char>, value: Seq<char>, now: u64, later: u64)
    requires
        !s.expire_list.contains_key(key),
        parse_isize_spec(value) is None,
    ensures
        set_step(s, SetCommandView { key, value, expire_after: None }, now) matches Some(s1)
            && get_step(s1, key, later).1 == bulk(value),
{
}

/// A number written in decimal, once stored with `SET` (on a key without
/// an expiry), is what `GET` answers, in the same digits.
pub proof fn lemma_set_then_get_number(s: StorageView, key: Seq<char>, n: isize, now: u64, later: u64)
    requires
        !s.expire_list.contains_key(key),
    ensures
        set_step(s, SetCommandView { key, value: int_to_decimal(n as int), expire_after: None }, now) matches Some(s1)
            && get_step(s1, key, later).1 == bulk(int_to_decimal(n as int)),
{
    lemma_parse_int_of_decimal(n as int, isize::MIN as int, isize::MAX as int);
}

/// `INCR` on a number stored with `SET` (on a key without an expiry) adds
/// the step, stores the sum and answers with it.
pub proof fn lemma_set_then_incr(s: StorageView, key: Seq<char>, n: isize, step: isize, now: u64, later: u64)
    requires
        !s.expire_list.contains_key(key),
        isize::MIN <= n + step <= isize::MAX,
    ensures
        set_step(s, SetCommandView { key, value: int_to_decimal(n as int), expire_after: None }, now) matches Some(s1)
            && incr_step(s1, IncrCommandView { key, step }, later).2
            && incr_step(s1, IncrCommandView { key, step }, later).1 == Some(ItemView::Numeric((n + step) as isize))
            && incr_step(s1, IncrCommandView { key, step }, later).0.state[key] == ItemView::Numeric((n + step) as isize),
{
    lemma_parse_int_of_decimal(n as int, isize::MIN as int, isize::MAX as int);
}

/// `INCR` on an absent key without an expiry starts it at the step.
pub proof fn lemma_incr_absent(s: StorageView, key: Seq<char>, step: isize, now: u64)
    requires
        !s.state.contains_key(key),
        !s.expire_list.contains_key(key),
    ensures
        incr_step(s, IncrCommandView { key, step }, now).2,
        incr_step(s, IncrCommandView { key, step }, now).1 == Some(ItemView::Numeric(step)),
        incr_step(s, IncrCommandView { key, step }, now).0.state[key] == ItemView::Numeric(step),
{
}

/// `INFO` names the role the server has: `role:master` for a master,
/// `role:slave` for a replica; the two answers differ.
pub proof fn lemma_info_role(is_master: bool)
    ensures
        is_master ==> info_reply(is_master) == bulk("role:master"@),
        !is_master ==> info_reply(is_master) == bulk("role:slave"@),
        info_reply(true) != info_reply(false),
{
    reveal_strlit("role:master");
    reveal_strlit("role:slave");
    lemma_bulk_len_ascii("role:master"@);
    lemma_bulk_len_ascii("role:slave"@);
}

/// `TYPE` answers `none` exactly for a key that reads as absent; for a
/// present key it names the kind of the stored item: `number`, `string`
/// or `stream`.
pub proof fn lemma_type_reply(it: Option<ItemView>)
    ensures
        type_reply(None) == bulk("none"@),
        (type_reply(it) == type_reply(None)) <==> it is None,
        it matches Some(ItemView::Numeric(_)) ==> type_reply(it) == bulk("number"@),
        it matches Some(ItemView::SimpleString(_)) ==> type_reply(it) == bulk("string"@),
        it matches Some(ItemView::Stream(_)) ==> type_reply(it) == bulk("stream"@),
{
    reveal_strlit("none");
    reveal_strlit("number");
    reveal_strlit("string");
    reveal_strlit("stream");
    lemma_bulk_len_ascii("none"@);
    lemma_bulk_len_ascii("number"@);
    lemma_bulk_len_ascii("string"@);
    lemma_bulk_len_ascii("stream"@);
}

/// After `SET` (on a key without an expiry), `TYPE` answers `number` for
/// a value that reads as an integer and `string` for any other.
pub proof fn lemma_set_then_type(s: StorageView, key: Seq<char>, value: Seq<char>, now: u64, later: u64)
    requires
        !s.expire_list.contains_key(key),
    ensures
        set_step(s, SetCommandView { key, value, expire_after: None }, now) matches Some(s1)
            && type_reply(get_spec(s1, key, later).1) == bulk(
            if parse_isize_spec(value) is Some {
                "number"@
            } else {
                "string"@
            },
        ),
{
    let s1 = set_step(s, SetCommandView { key, value, expire_after: None }, now).unwrap();
    lemma_type_reply(get_spec(s1, key, later).1);
}

/// After `XADD` on an absent key or a stream (without an expiry), `TYPE`
/// answers `stream`.
pub proof fn lemma_xadd_then_type(s: StorageView, key: Seq<char>, e: StreamDataEntryView, now: u64, later: u64)
    requires
        !s.expire_list.contains_key(key),
        s.state.contains_key(key) ==> s.state[key] is Stream,
    ensures
        type_reply(get_spec(xadd_spec(s, key, e, now), key, later).1) == bulk("stream"@),
{
    lemma_type_reply(get_spec(xadd_spec(s, key, e, now), key, later).1);
}

/// Running commands one after the other outside a transaction: the store,
/// the replies, and whether all could be run.
pub open spec fn direct_run(s: StorageView, q: Seq<CommandView>, now: u64) -> (StorageView, Seq<Seq<char>>, bool)
    decreases q.len(),
{
    if q.len() == 0 {
        (s, seq![], true)
    } else {
        let (s1, rs, ok) = direct_run(s, q.drop_last(), now);
        if !ok {
            (s1, rs, false)
        } else {
            let (s2, _t2, r, ok2) = execute_spec(
                s1,
                TxView { active: false, queue: seq![] },
                false,
                seq![],
                seq![],
                q.last(),
                now,
            );
            (s2, if ok2 {
                rs.push(r)
            } else {
                rs
            }, ok2)
        }
    }
}

/// While a transaction is open, `GET` and `INCR` are queued: the store is
/// untouched and the command goes to the end of the queue.
pub proof fn lemma_open_transaction_queues(s: StorageView, t: TxView, is_master: bool, dir: Seq<char>, dbfilename: Seq<char>, cmd: CommandView, now: u64)
    requires
        t.active,
        cmd is Get || cmd is Incr,
    ensures
        execute_spec(s, t, is_master, dir, dbfilename, cmd, now).0 == s,
        execute_spec(s, t, is_master, dir, dbfilename, cmd, now).1 == (TxView { active: true, queue: t.queue.push(cmd) }),
        execute_spec(s, t, is_master, dir, dbfilename, cmd, now).3,
{
}

proof fn lemma_queued_step_is_direct(s: StorageView, c: CommandView, now: u64)
    requires
        c is Get || c is Incr,
    ensures
        ({
            let (s2, _t2, r, ok) = execute_spec(s, TxView { active: false, queue: seq![] }, false, seq![], seq![], c, now);
            queued_step(s, c, now) == (s2, if ok { seq![r] } else { seq![] }, ok)
        }),
{
}

proof fn lemma_exec_queue_is_direct_run(s: StorageView, q: Seq<CommandView>, now: u64)
    requires
        forall|i: int| 0 <= i < q.len() ==> (#[trigger] q[i] is Get) || q[i] is Incr,
    ensures
        exec_queue(s, q, now) == direct_run(s, q, now),
    decreases q.len(),
{
    if q.len() > 0 {
        assert forall|i: int| 0 <= i < q.drop_last().len() implies (#[trigger] q.drop_last()[i] is Get) || q.drop_last()[i] is Incr by {
            assert(q.drop_last()[i] == q[i]);
        }
        lemma_exec_queue_is_direct_run(s, q.drop_last(), now);
        assert(q.last() == q[q.len() - 1]);
        let (s1, rs, ok) = exec_queue(s, q.drop_last(), now);
        lemma_queued_step_is_direct(s1, q.last(), now);
        let (s2, _t2, r, ok2) = execute_spec(s1, TxView { active: false, queue: seq![] }, false, seq![], seq![], q.last(), now);
        if ok2 {
            assert(rs + seq![r] =~= rs.push(r));
        } else {
            assert(rs + Seq::<Seq<char>>::empty() =~= rs);
        }
    }
}

/// `EXEC` of a queue of `GET` and `INCR` commands does what running them
/// one by one outside a transaction does: the same store and the same
/// replies, gathered in an array.
pub proof fn lemma_exec_is_direct_run(s: StorageView, q: Seq<CommandView>, now: u64)
    requires
        forall|i: int| 0 <= i < q.len() ==> (#[trigger] q[i] is Get) || q[i] is Incr,
    ensures
        exec_queue(s, q, now) == direct_run(s, q, now),
        direct_run(s, q, now).2 ==> execute_spec(s, TxView { active: true, queue: q }, false, seq![], seq![], CommandView::Exec, now)
            == (direct_run(s, q, now).0, TxView { active: false, queue: seq![] }, array(concat_all(direct_run(s, q, now).1)), true),
{
    lemma_exec_queue_is_direct_run(s, q, now);
}

/// `DISCARD` in an open transaction drops the queue, so a following `EXEC`
/// finds no transaction and is refused.
pub proof fn lemma_discard_then_exec(s: StorageView, t: TxView, is_master: bool, dir: Seq<char>, dbfilename: Seq<char>, now: u64)
    requires
        t.active,
    ensures
        ({
            let (s1, t1, r1, ok1) = execute_spec(s, t, is_master, dir, dbfilename, CommandView::Discard, now);
            let (s2, t2, r2, ok2) = execute_spec(s1, t1, is_master, dir, dbfilename, CommandView::Exec, now);
            &&& r1 == ok_reply() && s1 == s && t1.queue.len() == 0
            &&& r2 == exec_error_reply() && s2 == s && ok2
        }),
{
}

/// `PING`.
pub fn ping_command() -> (r: String)
    ensures
        r@ == pong_reply(),
{
    String::from_str("+PONG\r\n")
}

/// `REPLCONF`: acknowledged and otherwise ignored.
pub fn replconf_command() -> (r: String)
    ensures
        r@ == ok_reply(),
{
    String::from_str("+OK\r\n")
}

/// `ECHO`: the text back as a simple string.
pub fn echo_command(command: &EchoCommand) -> (r: String)
    ensures
        r@ == seq!['+'] + command@ + crlf(),
{
    let mut s = String::new();
    push_char(&mut s, '+');
    s.append(command.echo.as_str());
    push_char(&mut s, '\r');
    push_char(&mut s, '\n');
    assert(s@ =~= seq!['+'] + command@ + crlf());
    s
}

/// Whether the `PX` duration of a `SET`, if any, is a number of
/// milliseconds.
pub fn set_expiry_ok(command: &SetCommand) -> (r: bool)
    ensures
        r == expiry_ok(command@),
{
    match &command.expire_after {
        Some(e) => {
            let chars = str_to_chars(e.as_str());
            parse_u64(chars.as_slice()).is_some()
        },
        None => true,
    }
}

/// The store part of `SET`.
pub fn set_command_action(context: &mut CommandContext, command: &SetCommand, now: u64)
    requires
        old(context).wf(),
        set_step(old(context).storage@, command@, now) is Some,
    ensures
        final(context).wf(),
        final(context).replication_info == old(context).replication_info,
        final(context).args == old(context).args,
        final(context).storage@ == set_step(old(context).storage@, command@, now).unwrap(),
{
    let duration = match &command.expire_after {
        Some(e) => {
            let chars = str_to_chars(e.as_str());
            parse_u64(chars.as_slice())
        },
        None => None,
    };
    let vchars = str_to_chars(command.value.as_str());
    let value = match parse_isize(vchars.as_slice()) {
        Some(num) => Item::Numeric(num),
        None => Item::SimpleString(command.value.clone()),
    };
    context.storage.set(command.key.clone(), value, duration, now);
}

/// `SET key value [PX ms]`: the value is stored (as a number where it
/// reads as one), and acknowledged.
pub fn set_command(context: &mut CommandContext, command: SetCommand, now: u64) -> (r: String)
    requires
        old(context).wf(),
        set_step(old(context).storage@, command@, now) is Some,
    ensures
        final(context).wf(),
        final(context).replication_info == old(context).replication_info,
        final(context).args == old(context).args,
        final(context).storage@ == set_step(old(context).storage@, command@, now).unwrap(),
        r@ == ok_reply(),
{
    set_command_action(context, &command, now);
    String::from_str("+OK\r\n")
}

/// The reply to `GET` (see `get_step`).
pub fn get_command_action(context: &mut CommandContext, command: &GetCommand, now: u64) -> (r: String)
    requires
        old(context).wf(),
    ensures
        final(context).wf(),
        final(context).replication_info == old(context).replication_info,
        final(context).args == old(context).args,
        (final(context).storage@, r@) == get_step(old(context).storage@, command@, now),
{
    let value = context.storage.get(command.key.as_str(), now);
    match value {
        Some(Item::Numeric(n)) => build_bulk(isize_to_string(n)),
        Some(Item::SimpleString(s)) => build_bulk(s),
        Some(v) => v.build_response_string(),
        None => String::from_str("$-1\r\n"),
    }
}

/// `GET key`: queued inside a transaction, answered otherwise.
pub fn get_command(context: &mut CommandContext, command: GetCommand, transaction: &mut TransactionContainer, now: u64) -> (r: String)
    requires
        old(context).wf(),
    ensures
        ({
            let (s2, t2, reply, _) = execute_spec(
                old(context).storage@,
                old(transaction)@,
                old(context).replication_info.is_master,
                old(context).args.dir@,
                old(context).args.dbfilename@,
                CommandView::Get(command@),
                now,
            );
            &&& final(context).storage@ == s2
            &&& final(transaction)@ == t2
            &&& r@ == reply
        }),
        final(context).wf(),
        final(context).replication_info == old(context).replication_info,
        final(context).args == old(context).args,
{
    if transaction.is_active() {
        transaction.store_action(Command::Get(command));
        return build_bulk(String::from_str("QUEUED"));
    }
    get_command_action(context, &command, now)
}

/// `INCR` where the sum may leave the range of `isize`: `None` then (the
/// key has been read), otherwise as `incr_step` describes.
pub fn incr_try(context: &mut CommandContext, command: &IncrCommand, now: u64) -> (r: Option<Option<Item>>)
    requires
        old(context).wf(),
    ensures
        final(context).wf(),
        final(context).replication_info == old(context).replication_info,
        final(context).args == old(context).args,
        final(context).storage@ == incr_step(old(context).storage@, command@, now).0,
        match r {
            Some(v) => incr_step(old(context).storage@, command@, now).2 && match v {
                Some(i) => incr_step(old(context).storage@, command@, now).1 == Some(i@),
                None => incr_step(old(context).storage@, command@, now).1 is None,
            },
            None => !incr_step(old(context).storage@, command@, now).2,
        },
{
    match context.storage.get(command.key.as_str(), now) {
        Some(Item::Numeric(n)) => match n.checked_add(command.step) {
            None => None,
            Some(v) => {
                let value = Item::Numeric(v);
                context.storage.set(command.key.clone(), value.duplicate(), None, now);
                Some(Some(value))
            },
        },
        Some(_) => Some(None),
        None => {
            let value = Item::Numeric(command.step);
            context.storage.set(command.key.clone(), value.duplicate(), None, now);
            Some(Some(value))
        },
    }
}

/// The store part of `INCR` (see `incr_step`), where the sum stays in the
/// range of `isize`: the new number, or `None` for a key holding
/// something else.
pub fn incr_command_action(context: &mut CommandContext, command: &IncrCommand, now: u64) -> (r: Option<Item>)
    requires
        old(context).wf(),
        incr_step(old(context).storage@, command@, now).2,
    ensures
        final(context).wf(),
        final(context).replication_info == old(context).replication_info,
        final(context).args == old(context).args,
        final(context).storage@ == incr_step(old(context).storage@, command@, now).0,
        match r {
            Some(i) => incr_step(old(context).storage@, command@, now).1 == Some(i@),
            None => incr_step(old(context).storage@, command@, now).1 is None,
        },
{
    match incr_try(context, command, now) {
        Some(v) => v,
        None => {
            assert(false);
            None
        },
    }
}

/// `INCR key [step]`: queued inside a transaction; otherwise the new
/// number as an integer reply, or an error for a key holding something
/// other than a number.
pub fn incr_command(context: &mut CommandContext, command: IncrCommand, transaction: &mut TransactionContainer, now: u64) -> (r: String)
    requires
        old(context).wf(),
        old(transaction)@.active || incr_step(old(context).storage@, command@, now).2,
    ensures
        ({
            let (s2, t2, reply, _) = execute_spec(
                old(context).storage@,
                old(transaction)@,
                old(context).replication_info.is_master,
                old(context).args.dir@,
                old(context).args.dbfilename@,
                CommandView::Incr(command@),
                now,
            );
            &&& final(context).storage@ == s2
            &&& final(transaction)@ == t2
            &&& r@ == reply
        }),
        final(context).wf(),
        final(context).replication_info == old(context).replication_info,
        final(context).args == old(context).args,
{
    if transaction.is_active() {
        transaction.store_action(Command::Incr(command));
        return String::from_str("+QUEUED\r\n");
    }
    match incr_command_action(context, &command, now) {
        Some(itm) => itm.build_response_string(),
        None => String::from_str("-ERR value is not an integer or out of range\r\n"),
    }
}

/// `INFO`: the role of this server.
pub fn info_command(context: &CommandContext) -> (r: String)
    ensures
        r@ == info_reply(context.replication_info.is_master),
{
    let role = if context.replication_info.is_master {
        String::from_str("role:master")
    } else {
        String::from_str("role:slave")
    };
    build_bulk(role)
}

/// `CONFIG GET dir|dbfilename`.
pub fn config_command(context: &CommandContext, command: &ConfigCommand) -> (r: String)
    ensures
        r@ == config_reply(command@, context.args.dir@, context.args.dbfilename@),
{
    match &command.action {
        ConfigCommandAction::Get(key) => {
            if crate::text::str_eq(key.as_str(), "dir") {
                let mut body = build_bulk(String::from_str("dir"));
                body.append(build_bulk(context.args.dir.clone()).as_str());
                build_array(body)
            } else if crate::text::str_eq(key.as_str(), "dbfilename") {
                let mut body = build_bulk(String::from_str("dbfilename"));
                body.append(build_bulk(context.args.dbfilename.clone()).as_str());
                build_array(body)
            } else {
                String::new()
            }
        },
        ConfigCommandAction::Unrecognized => String::new(),
    }
}

/// `KEYS pattern`: every stored key (the pattern is not looked at).
pub fn keys_command(context: &CommandContext, command: KeysCommand) -> (r: String)
    requires
        context.wf(),
    ensures
        keys_reply_ok(context.storage@, r@),
{
    let keys = context.storage.keys(command.pattern);
    let ghost ks = strings_view(keys@);
    let mut bulks_v: Vec<String> = Vec::new();
    let mut i: usize = 0;
    while i < keys.len()
        invariant
            i <= keys.len(),
            ks == strings_view(keys@),
            strings_view(bulks_v@) == bulks(ks).take(i as int),
        decreases keys.len() - i,
    {
        let ghost old_b = bulks_v@;
        let b = build_bulk(keys[i].clone());
        bulks_v.push(b);
        proof {
            lemma_strings_view_push(old_b, b);
        }
        i = i + 1;
        assert(strings_view(bulks_v@) =~= bulks(ks).take(i as int));
    }
    assert(bulks(ks).take(ks.len() as int) =~= bulks(ks));
    let body = concat_strings(&bulks_v);
    let r = build_array(body);
    assert(ks.no_duplicates() && ks.to_set() == context.storage@.state.dom() && r@ == array(concat_all(bulks(ks))));
    r
}

/// `MULTI`: opens a transaction.
pub fn multi_command(transaction: &mut TransactionContainer) -> (r: String)
    ensures
        final(transaction)@ == (TxView { active: true, queue: old(transaction)@.queue }),
        r@ == ok_reply(),
{
    transaction.set_active(true);
    String::from_str("+OK\r\n")
}

/// `DISCARD`: drops the queued commands and closes the transaction; an
/// error where none is open.
pub fn discard_command(transaction: &mut TransactionContainer) -> (r: String)
    ensures
        old(transaction)@.active ==> final(transaction)@ == (TxView { active: false, queue: seq![] }) && r@ == ok_reply(),
        !old(transaction)@.active ==> final(transaction)@ == old(transaction)@ && r@ == discard_error_reply(),
{
    if !transaction.is_active() {
        return String::from_str("-ERR DISCARD without MULTI\r\n");
    }
    transaction.clear();
    String::from_str("+OK\r\n")
}

/// `EXEC` where a queued command may fail to run: `None` then (the store
/// is as far as the run got), otherwise as `execute_spec` describes.
pub fn exec_try(context: &mut CommandContext, transaction: &mut TransactionContainer, now: u64) -> (r: Option<String>)
    requires
        old(context).wf(),
    ensures
        ({
            let (s2, t2, reply, ok) = execute_spec(
                old(context).storage@,
                old(transaction)@,
                old(context).replication_info.is_master,
                old(context).args.dir@,
                old(context).args.dbfilename@,
                CommandView::Exec,
                now,
            );
            &&& final(context).storage@ == s2
            &&& final(transaction)@ == t2
            &&& (ok ==> (r matches Some(x) && x@ == reply))
            &&& (!ok ==> r is None)
        }),
        final(context).wf(),
        final(context).replication_info == old(context).replication_info,
        final(context).args == old(context).args,
{
    if !transaction.is_active() {
        return Some(String::from_str("-ERR EXEC without MULTI\r\n"));
    }
    match transaction.try_exec_commands(context, now) {
        None => None,
        Some(resp) => {
            let body = concat_strings(&resp);
            let r = build_array(body);
            transaction.set_active(false);
            Some(r)
        },
    }
}

/// `EXEC`: runs the queued commands and answers with an array of their
/// replies; an error where no transaction is open.
pub fn exec_command(context: &mut CommandContext, transaction: &mut TransactionContainer, now: u64) -> (r: String)
    requires
        old(context).wf(),
        old(transaction)@.active ==> exec_queue(old(context).storage@, old(transaction)@.queue, now).2,
    ensures
        ({
            let (s2, t2, reply, _) = execute_spec(
                old(context).storage@,
                old(transaction)@,
                old(context).replication_info.is_master,
                old(context).args.dir@,
                old(context).args.dbfilename@,
                CommandView::Exec,
                now,
            );
            &&& final(context).storage@ == s2
            &&& final(transaction)@ == t2
            &&& r@ == reply
        }),
        final(context).wf(),
        final(context).replication_info == old(context).replication_info,
        final(context).args == old(context).args,
{
    match exec_try(context, transaction, now) {
        Some(r) => r,
        None => {
            assert(false);
            String::new()
        },
    }
}

/// `TYPE key`: the name of the stored item's type, or `none`.
pub fn type_command(context: &mut CommandContext, command: &TypeCommand, now: u64) -> (r: String)
    requires
        old(context).wf(),
    ensures
        final(context).wf(),
        final(context).replication_info == old(context).replication_info,
        final(context).args == old(context).args,
        final(context).storage@ == get_spec(old(context).storage@, command@, now).0,
        r@ == type_reply(get_spec(old(context).storage@, command@, now).1),
{
    let key = context.storage.get(command.key.as_str(), now);
    let resp = match key {
        Some(itm) => itm.get_type_string(),
        None => String::from_str("none"),
    };
    build_bulk(resp)
}

/// `XADD key id field value ...`: appends the entry and answers with its
/// id.
pub fn xadd_command(context: &mut CommandContext, command: XAddCommand, now: u64) -> (r: String)
    requires
        old(context).wf(),
    ensures
        final(context).wf(),
        final(context).replication_info == old(context).replication_info,
        final(context).args == old(context).args,
        final(context).storage@ == xadd_spec(old(context).storage@, command@.key, StreamDataEntryView { id: command@.id, data: command@.data }, now),
        r@ == bulk(command@.id),
{
    let id = command.id.clone();
    context.storage.xadd(command.key, command.id, command.data, now);
    build_bulk(id)
}

/// `XRANGE key start end`, where every id of the stream splits into two
/// numbers.
pub fn xrange_command(context: &mut CommandContext, command: &XRangeCommand, now: u64) -> (r: String)
    requires
        old(context).wf(),
        stream_at(old(context).storage@, command@.key, now) matches Some(es) ==> all_ids_split(es),
    ensures
        final(context).wf(),
        final(context).replication_info == old(context).replication_info,
        final(context).args == old(context).args,
        final(context).storage@ == get_spec(old(context).storage@, command@.key, now).0,
        r@ == xrange_reply(match stream_at(old(context).storage@, command@.key, now) {
            Some(es) => Some(xrange_groups(es, command@.start_statement, command@.end_statement)),
            None => None,
        }),
{
    let items = context.storage.xrange(command, now);
    match items {
        Some(itms) => {
            let ghost gv = groups_view(itms@);
            let mut streams: Vec<String> = Vec::new();
            let mut i: usize = 0;
            while i < itms.len()
                invariant
                    i <= itms.len(),
                    gv == groups_view(itms@),
                    strings_view(streams@) == gv.map_values(|grp: Seq<StreamDataEntryView>| entries_reply(grp)).take(i as int),
                decreases itms.len() - i,
            {
                let ghost old_s = streams@;
                let b = build_entries(&itms[i]);
                streams.push(b);
                proof {
                    lemma_strings_view_push(old_s, b);
                    assert(gv[i as int] == entries_view(itms@[i as int]@));
                }
                i = i + 1;
                assert(strings_view(streams@) =~= gv.map_values(|grp: Seq<StreamDataEntryView>| entries_reply(grp)).take(i as int));
            }
            assert(gv.map_values(|grp: Seq<StreamDataEntryView>| entries_reply(grp)).take(gv.len() as int)
                =~= gv.map_values(|grp: Seq<StreamDataEntryView>| entries_reply(grp)));
            build_array(concat_strings(&streams))
        },
        None => build_array(String::new()),
    }
}

fn xread_range_exec(context: &mut CommandContext, resp: &mut Vec<String>, key: &String, start: XRangeStatement, exclusive: bool, now: u64)
    requires
        old(context).wf(),
    ensures
        final(context).wf(),
        final(context).replication_info == old(context).replication_info,
        final(context).args == old(context).args,
        (final(context).storage@, strings_view(final(resp)@), false) == xread_range(old(context).storage@, strings_view(old(resp)@), key@, start, exclusive, now),
{
    let items = context.storage.get_range(key.clone(), start, XRangeStatement::Positive, exclusive, now);
    match items {
        Some(itms) => {
            if itms.len() == 0 {
                return;
            }
            let mut body = build_bulk(key.clone());
            body.append(build_entries(&itms).as_str());
            let entry = build_array(body);
            let ghost old_r = resp@;
            resp.push(entry);
            proof {
                lemma_strings_view_push(old_r, entry);
            }
        },
        None => {},
    }
}

/// `XREAD`, once any blocking time has passed (see `xread_spec`).
pub fn xread_command(context: &mut CommandContext, command: &XReadCommand, now: u64) -> (r: String)
    requires
        old(context).wf(),
    ensures
        final(context).wf(),
        final(context).replication_info == old(context).replication_info,
        final(context).args == old(context).args,
        final(context).storage@ == xread_spec(old(context).storage@, command@.keys, now).0,
        r@ == xread_spec(old(context).storage@, command@.keys, now).1,
{
    let ghost keys = command@.keys;
    let ghost s0 = context.storage@;
    let mut resp: Vec<String> = Vec::new();
    let mut i: usize = 0;
    assert(keys.take(0) =~= Seq::<(Seq<char>, Seq<char>)>::empty());
    while i < command.keys.len()
        invariant
            i <= command.keys.len(),
            keys == command@.keys,
            s0 == old(context).storage@,
            context.wf(),
            context.replication_info == old(context).replication_info,
            context.args == old(context).args,
            xread_walk(s0, keys.take(i as int), now) == (context.storage@, strings_view(resp@), false),
        decreases command.keys.len() - i,
    {
        proof {
            assert(keys.take(i + 1).drop_last() =~= keys.take(i as int));
            assert(keys.take(i + 1).last() == keys[i as int]);
            assert(keys[i as int] == (command.keys@[i as int].0@, command.keys@[i as int].1@));
        }
        let key = &command.keys[i].0;
        let id = &command.keys[i].1;
        if crate::text::str_eq(id.as_str(), "$") {
            let ghost s_before = context.storage@;
            let last_entry = context.storage.get_top_stream_item(key.clone(), now);
            match last_entry {
                Some(entry) => {
                    proof {
                        lemma_get_idempotent(s_before, key@, now);
                    }
                    let start = XRangeStatement::Id(split_id(entry.id));
                    xread_range_exec(context, &mut resp, key, start, false, now);
                },
                None => {
                    proof {
                        lemma_xread_walk_stops(s0, keys, i + 1, now);
                    }
                    return String::from_str("$-1\r\n");
                },
            }
        } else {
            let start = XRangeStatement::Id(split_id(id.clone()));
            xread_range_exec(context, &mut resp, key, start, true, now);
        }
        i = i + 1;
    }
    assert(keys.take(keys.len() as int) =~= keys);
    if resp.len() == 0 {
        String::from_str("$-1\r\n")
    } else {
        build_array(concat_strings(&resp))
    }
}

/// Runs one command as a connection does (see `execute_spec`); `None`
/// where the command cannot be run.
#[verifier::rlimit(60)]
pub fn try_execute_command(command: Command, context: &mut CommandContext, transaction: &mut TransactionContainer, now: u64) -> (r: Option<String>)
    requires
        old(context).wf(),
    ensures
        ({
            let (s2, t2, reply, ok) = execute_spec(
                old(context).storage@,
                old(transaction)@,
                old(context).replication_info.is_master,
                old(context).args.dir@,
                old(context).args.dbfilename@,
                command@,
                now,
            );
            &&& final(context).storage@ == s2
            &&& final(transaction)@ == t2
            &&& (ok ==> (r matches Some(x) && (if command@ is Keys {
                keys_reply_ok(old(context).storage@, x@)
            } else {
                x@ == reply
            })))
            &&& (!ok ==> r is None)
        }),
        final(context).wf(),
        final(context).replication_info == old(context).replication_info,
        final(context).args == old(context).args,
{
    match command {
        Command::Ping => Some(ping_command()),
        Command::Echo(cmd) => Some(echo_command(&cmd)),
        Command::SetValue(cmd) => {
            if !set_expiry_ok(&cmd) {
                return None;
            }
            Some(set_command(context, cmd, now))
        },
        Command::Get(cmd) => Some(get_command(context, cmd, transaction, now)),
        Command::Info => Some(info_command(context)),
        Command::Replconf => Some(replconf_command()),
        Command::Config(cmd) => Some(config_command(context, &cmd)),
        Command::Keys(cmd) => Some(keys_command(context, cmd)),
        Command::Incr(cmd) => {
            if transaction.is_active() {
                return Some(incr_command(context, cmd, transaction, now));
            }
            match incr_try(context, &cmd, now) {
                None => None,
                Some(Some(itm)) => Some(itm.build_response_string()),
                Some(None) => Some(String::from_str("-ERR value is not an integer or out of range\r\n")),
            }
        },
        Command::Multi => Some(multi_command(transaction)),
        Command::Exec => exec_try(context, transaction, now),
        Command::Discard => Some(discard_command(transaction)),
        Command::Type(cmd) => Some(type_command(context, &cmd, now)),
        Command::XAdd(cmd) => Some(xadd_command(context, cmd, now)),
        Command::XRange(cmd) => {
            let ghost s0 = context.storage@;
            if !context.storage.stream_ids_split(cmd.key.as_str(), now) {
                return None;
            }
            proof {
                lemma_get_idempotent(s0, cmd.key@, now);
            }
            Some(xrange_command(context, &cmd, now))
        },
        Command::XRead(cmd) => Some(xread_command(context, &cmd, now)),
        Command::Unrecognized => Some(String::from_str("+OK\r\n")),
    }
}

/// Whether `execute_spec` can run the command in this state.
pub open spec fn can_execute(context: CommandContext, transaction: TxView, command: CommandView, now: u64) -> bool {
    execute_spec(
        context.storage@,
        transaction,
        context.replication_info.is_master,
        context.args.dir@,
        context.args.dbfilename@,
        command,
        now,
    ).3
}

/// Runs one command as a connection does (see `execute_spec`), where it
/// can be run, and gives the reply to send.
pub fn execute_command(command: Command, context: &mut CommandContext, transaction: &mut TransactionContainer, now: u64) -> (r: String)
    requires
        old(context).wf(),
        can_execute(*old(context), old(transaction)@, command@, now),
    ensures
        ({
            let (s2, t2, reply, ok) = execute_spec(
                old(context).storage@,
                old(transaction)@,
                old(context).replication_info.is_master,
                old(context).args.dir@,
                old(context).args.dbfilename@,
                command@,
                now,
            );
            &&& final(context).storage@ == s2
            &&& final(transaction)@ == t2
            &&& (if command@ is Keys {
                keys_reply_ok(old(context).storage@, r@)
            } else {
                r@ == reply
            })
        }),
        final(context).wf(),
        final(context).replication_info == old(context).replication_info,
        final(context).args == old(context).args,
{
    match try_execute_command(command, context, transaction, now) {
        Some(r) => r,
        None => {
            assert(false);
            String::new()
        },
    }
}

} // verus!
