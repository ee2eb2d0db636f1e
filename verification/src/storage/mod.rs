//! The key/value store: items by key, absolute expiry times in
//! milliseconds by key, and the stream operations. The current time is
//! passed in by the caller, in milliseconds since the Unix epoch.
use vstd::prelude::*;
use crate::assoc::{get_value, has_key, index_of, insert_pair, keys, lemma_index_of, lemma_insert, lemma_remove, pairs_view, remove_pair, to_map, unique_keys};
use crate::command_router::{XRangeCommand, XRangeStatement};
use crate::resp::{lemma_strings_view_push, strings_view};

pub mod item;

use item::{clone_entries, entries_view, entry_id_parts, lemma_entries_view_push, Item, ItemView, StreamData, StreamDataEntry, StreamDataEntryView};

verus! {

pub struct Storage {
    state: Vec<(String, Item)>,
    expire_list: Vec<(String, u128)>,
}

/// What a store holds: the item of each key, and the time (in
/// milliseconds since the epoch) from which each key with an expiry is
/// gone.
pub struct StorageView {
    pub state: Map<Seq<char>, ItemView>,
    pub expire_list: Map<Seq<char>, u128>,
}

impl View for Storage {
    type V = StorageView;

    closed spec fn view(&self) -> StorageView {
        StorageView {
            state: to_map(pairs_view(self.state@)),
            expire_list: to_map(pairs_view(self.expire_list@)),
        }
    }
}

/// Every stream in the store has at least one entry.
pub open spec fn streams_nonempty(state: Map<Seq<char>, ItemView>) -> bool {
    forall|k: Seq<char>| #[trigger] state.contains_key(k) ==> (state[k] matches ItemView::Stream(es)
        ==> es.len() > 0)
}

pub open spec fn item_ok(i: ItemView) -> bool {
    i matches ItemView::Stream(es) ==> es.len() > 0
}

pub open spec fn opt_item_view(r: Option<Item>) -> Option<ItemView> {
    match r {
        Some(i) => Some(i@),
        None => None,
    }
}

/// The key has an expiry time and it has come.
pub open spec fn is_expired(s: StorageView, key: Seq<char>, now: u64) -> bool {
    s.expire_list.contains_key(key) && now as u128 >= s.expire_list[key]
}

/// Reading a key: an expired key is dropped (item and expiry) and reads
/// as absent; otherwise the item, if any, is returned and nothing changes.
pub open spec fn get_spec(s: StorageView, key: Seq<char>, now: u64) -> (StorageView, Option<ItemView>) {
    if is_expired(s, key, now) {
        (StorageView { state: s.state.remove(key), expire_list: s.expire_list.remove(key) }, None)
    } else if s.state.contains_key(key) {
        (s, Some(s.state[key]))
    } else {
        (s, None)
    }
}

/// Storing an item; with a duration the key also expires that many
/// milliseconds after `now` (without one, an earlier expiry stays).
pub open spec fn set_spec(s: StorageView, key: Seq<char>, value: ItemView, expire_after: Option<u64>, now: u64) -> StorageView {
    StorageView {
        state: s.state.insert(key, value),
        expire_list: match expire_after {
            Some(d) => s.expire_list.insert(key, (now as int + d as int) as u128),
            None => s.expire_list,
        },
    }
}

/// The keys whose expiry time has come.
pub open spec fn expired_keys(s: StorageView, now: u64) -> Set<Seq<char>> {
    Set::new(|k: Seq<char>| is_expired(s, k, now))
}

/// Dropping every key whose expiry time has come, with its expiry.
pub open spec fn tick_spec(s: StorageView, now: u64) -> StorageView {
    StorageView {
        state: s.state.remove_keys(expired_keys(s, now)),
        expire_list: s.expire_list.remove_keys(expired_keys(s, now)),
    }
}

/// Appending an entry to the stream of `key` (after reading the key as
/// `get_spec` does): a new stream is made for an absent key, and a key
/// holding something other than a stream is left alone.
pub open spec fn xadd_spec(s: StorageView, key: Seq<char>, entry: StreamDataEntryView, now: u64) -> StorageView {
    let (s1, it) = get_spec(s, key, now);
    match it {
        Some(ItemView::Stream(es)) => StorageView {
            state: s1.state.insert(key, ItemView::Stream(es.push(entry))),
            expire_list: s1.expire_list,
        },
        Some(_) => s1,
        None => StorageView {
            state: s1.state.insert(key, ItemView::Stream(seq![entry])),
            expire_list: s1.expire_list,
        },
    }
}

/// The entries of the stream stored under `key`, if a stream is stored
/// there (after reading the key as `get_spec` does).
pub open spec fn stream_at(s: StorageView, key: Seq<char>, now: u64) -> Option<Seq<StreamDataEntryView>> {
    match get_spec(s, key, now).1 {
        Some(ItemView::Stream(es)) => Some(es),
        _ => None,
    }
}

pub open spec fn all_ids_split(es: Seq<StreamDataEntryView>) -> bool {
    forall|i: int| 0 <= i < es.len() ==> (#[trigger] entry_id_parts(es[i].id)) is Some
}

/// Both ends are ids with both parts, and the entry's time lies between
/// the two times and its sequence number between the two sequence
/// numbers.
pub open spec fn xrange_matches(start: XRangeStatement, end: XRangeStatement, ts: isize, count: isize) -> bool {
    match start {
        XRangeStatement::Id((Some(st), Some(sc))) => match end {
            XRangeStatement::Id((Some(et), Some(ec))) => st <= ts && ts <= et && sc <= count && count
                <= ec,
            _ => false,
        },
        _ => false,
    }
}

/// Walking the entries of an `XRANGE`: matching entries are gathered in
/// a current group while their time equals the time of the group's last
/// entry; a matching entry with a later time closes the current group
/// (and is itself not kept); one with an earlier time is skipped.
pub open spec fn xrange_walk(es: Seq<StreamDataEntryView>, start: XRangeStatement, end: XRangeStatement) -> (Seq<Seq<StreamDataEntryView>>, Seq<StreamDataEntryView>)
    decreases es.len(),
{
    if es.len() == 0 {
        (seq![], seq![])
    } else {
        let (all, same) = xrange_walk(es.drop_last(), start, end);
        let e = es.last();
        let (ts, count) = entry_id_parts(e.id).unwrap();
        if !xrange_matches(start, end, ts, count) {
            (all, same)
        } else if same.len() == 0 {
            (all, same.push(e))
        } else {
            let last_ts = entry_id_parts(same.last().id).unwrap().0;
            if last_ts == ts {
                (all, same.push(e))
            } else if last_ts < ts {
                (all.push(same), seq![])
            } else {
                (all, same)
            }
        }
    }
}

/// The groups that `XRANGE` returns for a stream.
pub open spec fn xrange_groups(es: Seq<StreamDataEntryView>, start: XRangeStatement, end: XRangeStatement) -> Seq<Seq<StreamDataEntryView>> {
    let (all, same) = xrange_walk(es, start, end);
    if same.len() > 0 {
        all.push(same)
    } else {
        all
    }
}

/// Whether an entry lies in a read range: its id parses, it comes after
/// the start (strictly when `exclusive`; `-` is before everything) and
/// not after the end (`+` is after everything), comparing time first and
/// then sequence number.
pub open spec fn in_read_range(parts: Option<(isize, isize)>, start: XRangeStatement, end: XRangeStatement, exclusive: bool) -> bool {
    match parts {
        None => false,
        Some((t, c)) => {
            let after_start = match start {
                XRangeStatement::Id((Some(st), Some(sc))) => if exclusive {
                    t > st || (t == st && c > sc)
                } else {
                    t > st || (t == st && c >= sc)
                },
                XRangeStatement::Negative => true,
                _ => false,
            };
            let before_end = match end {
                XRangeStatement::Id((Some(et), Some(ec))) => t < et || (t == et && c <= ec),
                XRangeStatement::Positive => true,
                _ => false,
            };
            after_start && before_end
        },
    }
}

pub open spec fn range_entries(es: Seq<StreamDataEntryView>, start: XRangeStatement, end: XRangeStatement, exclusive: bool) -> Seq<StreamDataEntryView>
    decreases es.len(),
{
    if es.len() == 0 {
        seq![]
    } else {
        let prev = range_entries(es.drop_last(), start, end, exclusive);
        if in_read_range(entry_id_parts(es.last().id), start, end, exclusive) {
            prev.push(es.last())
        } else {
            prev
        }
    }
}

pub open spec fn groups_view(g: Seq<Vec<StreamDataEntry>>) -> Seq<Seq<StreamDataEntryView>> {
    g.map_values(|v: Vec<StreamDataEntry>| entries_view(v@))
}

/// A key stored with a duration reads back as the stored item until the
/// duration has passed.
pub proof fn lemma_get_after_set_before_expiry(s: StorageView, key: Seq<char>, value: ItemView, d: u64, now: u64, later: u64)
    requires
        (later as int) < now as int + d as int,
    ensures
        get_spec(set_spec(s, key, value, Some(d), now), key, later) == (set_spec(s, key, value, Some(d), now), Some(value)),
{
}

/// A key stored with a duration reads as absent once the duration has
/// passed, and is dropped with its expiry.
pub proof fn lemma_get_after_set_expired(s: StorageView, key: Seq<char>, value: ItemView, d: u64, now: u64, later: u64)
    requires
        (later as int) >= now as int + d as int,
    ensures
        get_spec(set_spec(s, key, value, Some(d), now), key, later).1 is None,
        !get_spec(set_spec(s, key, value, Some(d), now), key, later).0.state.contains_key(key),
        !get_spec(set_spec(s, key, value, Some(d), now), key, later).0.expire_list.contains_key(key),
{
}

/// A key without an expiry, once stored without a duration, reads back as
/// the stored item at any time.
pub proof fn lemma_get_after_set_no_expiry(s: StorageView, key: Seq<char>, value: ItemView, now: u64, later: u64)
    requires
        !s.expire_list.contains_key(key),
    ensures
        get_spec(set_spec(s, key, value, None, now), key, later) == (set_spec(s, key, value, None, now), Some(value)),
{
}

/// Storing under one key does not change what another key reads as.
pub proof fn lemma_set_other_key(s: StorageView, key: Seq<char>, value: ItemView, e: Option<u64>, now: u64, other: Seq<char>, later: u64)
    requires
        other != key,
    ensures
        get_spec(set_spec(s, key, value, e, now), other, later).1 == get_spec(s, other, later).1,
{
}

/// A key without an expiry reads as absent once removed.
pub proof fn lemma_get_after_remove(s: StorageView, key: Seq<char>, now: u64)
    requires
        !s.expire_list.contains_key(key),
    ensures
        get_spec(StorageView { state: s.state.remove(key), ..s }, key, now).1 is None,
{
}

/// After a tick no key is expired, and every key that was not expired
/// keeps its item and its expiry.
pub proof fn lemma_tick(s: StorageView, now: u64)
    ensures
        forall|k: Seq<char>| !is_expired(#[trigger] tick_spec(s, now), k, now),
        forall|k: Seq<char>| !is_expired(s, k, now) ==> (#[trigger] tick_spec(s, now).state.contains_key(k)
            <==> s.state.contains_key(k)) && (s.state.contains_key(k) ==> tick_spec(s, now).state[k]
            == s.state[k]),
        forall|k: Seq<char>| !is_expired(s, k, now) ==> (#[trigger] tick_spec(s, now).expire_list.contains_key(k)
            <==> s.expire_list.contains_key(k)),
{
}

/// The time part of an entry's id.
pub open spec fn entry_time(e: StreamDataEntryView) -> isize {
    entry_id_parts(e.id).unwrap().0
}

/// An entry of `es` whose id has a time from `st` to `et` and a sequence
/// number from `sc` to `ec`.
pub open spec fn entry_between(es: Seq<StreamDataEntryView>, e: StreamDataEntryView, st: isize, sc: isize, et: isize, ec: isize) -> bool {
    &&& es.contains(e)
    &&& entry_id_parts(e.id) matches Some((t, c)) && st <= t && t <= et && sc <= c && c <= ec
}

/// What the walk of `XRANGE` keeps: finished groups that are not empty,
/// each of one time, and a current group of one time; every entry kept is
/// an entry of the stream within both ids.
pub open spec fn walk_ok(es: Seq<StreamDataEntryView>, all: Seq<Seq<StreamDataEntryView>>, same: Seq<StreamDataEntryView>, st: isize, sc: isize, et: isize, ec: isize) -> bool {
    &&& forall|i: int, j: int| 0 <= i < all.len() && 0 <= j < all[i].len() ==> entry_between(es, #[trigger] all[i][j], st, sc, et, ec)
    &&& forall|i: int, j: int| 0 <= i < all.len() && 0 <= j < all[i].len() ==> entry_time(#[trigger] all[i][j]) == entry_time(all[i][0])
    &&& forall|i: int| 0 <= i < all.len() ==> (#[trigger] all[i]).len() > 0
    &&& forall|j: int| 0 <= j < same.len() ==> entry_between(es, #[trigger] same[j], st, sc, et, ec)
    &&& forall|j: int| 0 <= j < same.len() ==> entry_time(#[trigger] same[j]) == entry_time(same[0])
}

proof fn lemma_xrange_walk_ok(es: Seq<StreamDataEntryView>, st: isize, sc: isize, et: isize, ec: isize)
    requires
        all_ids_split(es),
    ensures
        ({
            let (all, same) = xrange_walk(es, XRangeStatement::Id((Some(st), Some(sc))), XRangeStatement::Id((Some(et), Some(ec))));
            walk_ok(es, all, same, st, sc, et, ec)
        }),
    decreases es.len(),
{
    let start = XRangeStatement::Id((Some(st), Some(sc)));
    let end = XRangeStatement::Id((Some(et), Some(ec)));
    if es.len() > 0 {
        let init = es.drop_last();
        assert forall|i: int| 0 <= i < init.len() implies (#[trigger] entry_id_parts(init[i].id)) is Some by {
            assert(init[i] == es[i]);
        }
        lemma_xrange_walk_ok(init, st, sc, et, ec);
        let (all0, same0) = xrange_walk(init, start, end);
        assert forall|x: StreamDataEntryView| init.contains(x) implies es.contains(x) by {
            let k = choose|k: int| 0 <= k < init.len() && init[k] == x;
            assert(es[k] == x);
        }
        let e = es.last();
        assert(e == es[es.len() - 1]);
        assert(entry_id_parts(es[es.len() - 1].id) is Some);
        assert(es.contains(e));
        let (all, same) = xrange_walk(es, start, end);
        assert(walk_ok(es, all, same, st, sc, et, ec)) by {
            if same0.len() > 0 {
                assert(same0[0] == same0.push(e)[0]);
            }
            assert forall|i: int| 0 <= i < all0.push(same0).len() implies #[trigger] all0.push(same0)[i] == if i < all0.len() { all0[i] } else { same0 } by {}
        }
    }
}

/// `XRANGE` between two full ids gives only entries of the stream whose
/// time lies between the two times and whose sequence number lies between
/// the two sequence numbers; every group it gives is non-empty and holds
/// entries of one time.
pub proof fn lemma_xrange_within(es: Seq<StreamDataEntryView>, st: isize, sc: isize, et: isize, ec: isize)
    requires
        all_ids_split(es),
    ensures
        ({
            let g = xrange_groups(es, XRangeStatement::Id((Some(st), Some(sc))), XRangeStatement::Id((Some(et), Some(ec))));
            &&& forall|i: int, j: int| 0 <= i < g.len() && 0 <= j < g[i].len() ==> {
                &&& es.contains(#[trigger] g[i][j])
                &&& entry_id_parts(g[i][j].id) matches Some((t, c)) && st <= t && t <= et && sc <= c && c <= ec
                &&& entry_time(g[i][j]) == entry_time(g[i][0])
            }
            &&& forall|i: int| 0 <= i < g.len() ==> (#[trigger] g[i]).len() > 0
        }),
{
    lemma_xrange_walk_ok(es, st, sc, et, ec);
    let start = XRangeStatement::Id((Some(st), Some(sc)));
    let end = XRangeStatement::Id((Some(et), Some(ec)));
    let (all, same) = xrange_walk(es, start, end);
    let g = xrange_groups(es, start, end);
    if same.len() > 0 {
        assert forall|i: int| 0 <= i < all.push(same).len() implies #[trigger] all.push(same)[i] == if i < all.len() { all[i] } else { same } by {}
    }
    assert forall|i: int, j: int| 0 <= i < g.len() && 0 <= j < g[i].len() implies {
        &&& es.contains(#[trigger] g[i][j])
        &&& entry_id_parts(g[i][j].id) matches Some((t, c)) && st <= t && t <= et && sc <= c && c <= ec
        &&& entry_time(g[i][j]) == entry_time(g[i][0])
    } by {
        if i < all.len() {
            assert(g[i] == all[i]);
            assert(entry_between(es, all[i][j], st, sc, et, ec));
        } else {
            assert(g[i] == same);
            assert(entry_between(es, same[j], st, sc, et, ec));
        }
    }
}

/// Adding to a stream appends the entry to the entries read before; on an
/// absent key it starts a stream of that one entry.
pub proof fn lemma_xadd_appends(s: StorageView, key: Seq<char>, e: StreamDataEntryView, now: u64)
    ensures
        stream_at(s, key, now) matches Some(es) ==> stream_at(xadd_spec(s, key, e, now), key, now) == Some(es.push(e)),
        get_spec(s, key, now).1 is None ==> stream_at(xadd_spec(s, key, e, now), key, now) == Some(seq![e]),
{
}

/// Reading a key twice reads it as once: the first read drops an expired
/// key, and the second finds nothing more to drop.
pub proof fn lemma_get_idempotent(s: StorageView, key: Seq<char>, now: u64)
    ensures
        get_spec(get_spec(s, key, now).0, key, now) == get_spec(s, key, now),
{
}

pub proof fn lemma_remove_keys_step<V>(m: Map<Seq<char>, V>, ks: Seq<Seq<char>>, j: int)
    requires
        0 <= j < ks.len(),
    ensures
        m.remove_keys(ks.take(j).to_set()).remove(ks[j]) == m.remove_keys(ks.take(j + 1).to_set()),
{
    assert forall|x: Seq<char>| #[trigger] ks.take(j + 1).to_set().contains(x) <==> (ks.take(j).to_set().contains(x) || x == ks[j]) by {
        if ks.take(j + 1).contains(x) {
            let t = choose|t: int| 0 <= t < j + 1 && #[trigger] ks.take(j + 1)[t] == x;
            if t < j {
                assert(ks.take(j)[t] == x);
            }
        }
        if ks.take(j).contains(x) {
            let t = choose|t: int| 0 <= t < j && #[trigger] ks.take(j)[t] == x;
            assert(ks.take(j + 1)[t] == x);
        }
        if x == ks[j] {
            assert(ks.take(j + 1)[j] == x);
        }
    }
    assert(m.remove_keys(ks.take(j).to_set()).remove(ks[j]) =~= m.remove_keys(ks.take(j + 1).to_set()));
}

/// Removes the pairs of all the keys in `ks`.
pub fn remove_all_pairs<V: View>(m: &mut Vec<(String, V)>, ks: &Vec<String>)
    requires
        unique_keys(pairs_view(old(m)@)),
    ensures
        unique_keys(pairs_view(final(m)@)),
        to_map(pairs_view(final(m)@)) == to_map(pairs_view(old(m)@)).remove_keys(strings_view(ks@).to_set()),
{
    let ghost orig = to_map(pairs_view(m@));
    let ghost kv = strings_view(ks@);
    let mut j: usize = 0;
    assert(orig.remove_keys(kv.take(0).to_set()) =~= orig);
    while j < ks.len()
        invariant
            j <= ks.len(),
            kv == strings_view(ks@),
            unique_keys(pairs_view(m@)),
            to_map(pairs_view(m@)) == orig.remove_keys(kv.take(j as int).to_set()),
        decreases ks.len() - j,
    {
        let ghost before = pairs_view(m@);
        remove_pair(m, ks[j].as_str());
        proof {
            lemma_remove(before, ks@[j as int]@);
            lemma_remove_keys_step(orig, kv, j as int);
        }
        j = j + 1;
    }
    assert(kv.take(ks.len() as int) =~= kv);
}

impl Storage {
    /// The keys are distinct and every stream has an entry.
    pub closed spec fn wf(&self) -> bool {
        &&& unique_keys(pairs_view(self.state@))
        &&& unique_keys(pairs_view(self.expire_list@))
        &&& streams_nonempty(self@.state)
    }

    /// A store holding a loaded dump: the items and the expiry times.
    pub fn new(dump: (Vec<(String, Item)>, Vec<(String, u128)>)) -> (r: Storage)
        requires
            unique_keys(pairs_view(dump.0@)),
            unique_keys(pairs_view(dump.1@)),
            streams_nonempty(to_map(pairs_view(dump.0@))),
        ensures
            r.wf(),
            r@.state == to_map(pairs_view(dump.0@)),
            r@.expire_list == to_map(pairs_view(dump.1@)),
    {
        Storage { state: dump.0, expire_list: dump.1 }
    }

    /// Stores `value` under `key`; with `expire_after` (milliseconds) the
    /// key expires that long after `now`.
    pub fn set(&mut self, key: String, value: Item, expire_after: Option<u64>, now: u64)
        requires
            old(self).wf(),
            item_ok(value@),
        ensures
            final(self).wf(),
            final(self)@ == set_spec(old(self)@, key@, value@, expire_after, now),
    {
        let ghost sv = pairs_view(self.state@);
        proof {
            lemma_insert(sv, key@, value@);
        }
        insert_pair(&mut self.state, key.clone(), value);
        match expire_after {
            Some(d) => {
                let ghost ev = pairs_view(self.expire_list@);
                proof {
                    lemma_insert(ev, key@, (now as int + d as int) as u128);
                }
                insert_pair(&mut self.expire_list, key, now as u128 + d as u128);
            },
            None => {},
        }
        proof {
            assert(self@.state == old(self)@.state.insert(key@, value@));
            assert forall|k: Seq<char>| #[trigger] self@.state.contains_key(k) implies (self@.state[k] matches ItemView::Stream(es) ==> es.len() > 0) by {
                if k != key@ {
                    assert(old(self)@.state.contains_key(k));
                }
            }
        }
    }

    /// Drops the item of `key` (its expiry time, if any, stays).
    pub fn remove(&mut self, key: &str)
        requires
            old(self).wf(),
        ensures
            final(self).wf(),
            final(self)@ == (StorageView { state: old(self)@.state.remove(key@), ..old(self)@ }),
    {
        let ghost sv = pairs_view(self.state@);
        proof {
            lemma_remove(sv, key@);
        }
        remove_pair(&mut self.state, key);
        proof {
            assert forall|k: Seq<char>| #[trigger] self@.state.contains_key(k) implies (self@.state[k] matches ItemView::Stream(es) ==> es.len() > 0) by {
                assert(old(self)@.state.contains_key(k));
            }
        }
    }

    /// Reads `key` as `get_spec` describes.
    pub fn get(&mut self, key: &str, now: u64) -> (r: Option<Item>)
        requires
            old(self).wf(),
        ensures
            final(self).wf(),
            (final(self)@, opt_item_view(r)) == get_spec(old(self)@, key@, now),
    {
        let expired = match get_value(&self.expire_list, key) {
            Some(t) => now as u128 >= *t,
            None => false,
        };
        if expired {
            let ghost sv = pairs_view(self.state@);
            let ghost ev = pairs_view(self.expire_list@);
            proof {
                lemma_remove(sv, key@);
                lemma_remove(ev, key@);
            }
            remove_pair(&mut self.state, key);
            remove_pair(&mut self.expire_list, key);
            proof {
                assert forall|k: Seq<char>| #[trigger] self@.state.contains_key(k) implies (self@.state[k] matches ItemView::Stream(es) ==> es.len() > 0) by {
                    assert(old(self)@.state.contains_key(k));
                }
            }
            None
        } else {
            match get_value(&self.state, key) {
                Some(it) => Some(it.duplicate()),
                None => None,
            }
        }
    }

    /// All stored keys, each once, in no particular order (the pattern is
    /// not looked at).
    pub fn keys(&self, _pattern: String) -> (r: Vec<String>)
        requires
            self.wf(),
        ensures
            strings_view(r@).no_duplicates(),
            strings_view(r@).to_set() == self@.state.dom(),
    {
        let ghost pv = pairs_view(self.state@);
        let mut r: Vec<String> = Vec::new();
        let mut i: usize = 0;
        while i < self.state.len()
            invariant
                i <= self.state.len(),
                pv == pairs_view(self.state@),
                unique_keys(pv),
                strings_view(r@) == keys(pv).take(i as int),
            decreases self.state.len() - i,
        {
            let ghost old_r = r@;
            let k = self.state[i].0.clone();
            r.push(k);
            proof {
                lemma_strings_view_push(old_r, k);
            }
            i = i + 1;
            assert(strings_view(r@) =~= keys(pv).take(i as int));
        }
        assert(keys(pv).take(pv.len() as int) =~= keys(pv));
        assert forall|x: Seq<char>| #[trigger] strings_view(r@).to_set().contains(x) <==> self@.state.dom().contains(x) by {
            if strings_view(r@).contains(x) {
                let t = choose|t: int| 0 <= t < strings_view(r@).len() && #[trigger] strings_view(r@)[t] == x;
                assert(pv[t].0 == x);
            }
            if has_key(pv, x) {
                let t = index_of(pv, x);
                assert(strings_view(r@)[t] == x);
            }
        }
        assert(strings_view(r@).to_set() =~= self@.state.dom());
        r
    }

    /// Drops every key whose expiry time has come, with its expiry.
    pub fn tick(&mut self, now: u64)
        requires
            old(self).wf(),
        ensures
            final(self).wf(),
            final(self)@ == tick_spec(old(self)@, now),
    {
        let ghost ev = pairs_view(self.expire_list@);
        let mut keys: Vec<String> = Vec::new();
        let mut i: usize = 0;
        while i < self.expire_list.len()
            invariant
                i <= self.expire_list.len(),
                ev == pairs_view(self.expire_list@),
                unique_keys(ev),
                forall|x: Seq<char>| #[trigger] strings_view(keys@).contains(x) <==> exists|t: int|
                    0 <= t < i && #[trigger] ev[t].0 == x && now as u128 >= ev[t].1,
            decreases self.expire_list.len() - i,
        {
            if now as u128 >= self.expire_list[i].1 {
                let ghost old_k = keys@;
                let k = self.expire_list[i].0.clone();
                keys.push(k);
                proof {
                    lemma_strings_view_push(old_k, k);
                    assert forall|x: Seq<char>| #[trigger] strings_view(keys@).contains(x) <==> exists|t: int|
                        0 <= t < i + 1 && #[trigger] ev[t].0 == x && now as u128 >= ev[t].1 by {
                        if strings_view(keys@).contains(x) {
                            let t = choose|t: int| 0 <= t < strings_view(keys@).len() && #[trigger] strings_view(keys@)[t] == x;
                            if t < old_k.len() {
                                assert(strings_view(old_k)[t] == x);
                                assert(strings_view(old_k).contains(x));
                            } else {
                                assert(ev[i as int].0 == x);
                            }
                        }
                        if exists|t: int| 0 <= t < i + 1 && #[trigger] ev[t].0 == x && now as u128 >= ev[t].1 {
                            let t = choose|t: int| 0 <= t < i + 1 && #[trigger] ev[t].0 == x && now as u128 >= ev[t].1;
                            if t < i {
                                assert(0 <= t < i && ev[t].0 == x && now as u128 >= ev[t].1);
                                assert(strings_view(old_k).contains(x));
                                let u = choose|u: int| 0 <= u < strings_view(old_k).len() && #[trigger] strings_view(old_k)[u] == x;
                                assert(strings_view(keys@) == strings_view(old_k).push(k@));
                                assert(strings_view(keys@)[u] == strings_view(old_k)[u]);
                                assert(strings_view(keys@)[u] == x);
                            } else {
                                assert(strings_view(keys@)[old_k.len() as int] == x);
                            }
                        }
                    }
                }
            } else {
                proof {
                    assert forall|x: Seq<char>| #[trigger] strings_view(keys@).contains(x) <==> exists|t: int|
                        0 <= t < i + 1 && #[trigger] ev[t].0 == x && now as u128 >= ev[t].1 by {
                        if exists|t: int| 0 <= t < i + 1 && #[trigger] ev[t].0 == x && now as u128 >= ev[t].1 {
                            let t = choose|t: int| 0 <= t < i + 1 && #[trigger] ev[t].0 == x && now as u128 >= ev[t].1;
                            assert(t < i);
                        }
                    }
                }
            }
            i = i + 1;
        }
        proof {
            assert forall|x: Seq<char>| #[trigger] strings_view(keys@).to_set().contains(x) <==> expired_keys(old(self)@, now).contains(x) by {
                if strings_view(keys@).contains(x) {
                    let t = choose|t: int| 0 <= t < ev.len() && #[trigger] ev[t].0 == x && now as u128 >= ev[t].1;
                    lemma_index_of(ev, x, t);
                }
                if is_expired(old(self)@, x, now) {
                    let t = index_of(ev, x);
                    lemma_index_of(ev, x, t);
                    assert(0 <= t < ev.len() && ev[t].0 == x && now as u128 >= ev[t].1);
                }
            }
            assert(strings_view(keys@).to_set() =~= expired_keys(old(self)@, now));
        }
        remove_all_pairs(&mut self.expire_list, &keys);
        remove_all_pairs(&mut self.state, &keys);
        proof {
            assert forall|k: Seq<char>| #[trigger] self@.state.contains_key(k) implies (self@.state[k] matches ItemView::Stream(es) ==> es.len() > 0) by {
                assert(old(self)@.state.contains_key(k));
            }
        }
    }

    /// Appends an entry `(id, data)` to the stream of `key` as
    /// `xadd_spec` describes.
    pub fn xadd(&mut self, key: String, id: String, data: Vec<(String, String)>, now: u64)
        requires
            old(self).wf(),
        ensures
            final(self).wf(),
            final(self)@ == xadd_spec(old(self)@, key@, StreamDataEntryView { id: id@, data: pairs_view(data@) }, now),
    {
        let item = self.get(key.as_str(), now);
        let ghost mid = self@;
        let entry = StreamDataEntry { id, data };
        match item {
            Some(Item::Stream(mut stream)) => {
                let ghost old_v = stream.value@;
                stream.value.push(entry);
                proof {
                    lemma_entries_view_push(old_v, entry);
                }
                let ghost sv = pairs_view(self.state@);
                let newi = Item::Stream(stream);
                proof {
                    lemma_insert(sv, key@, newi@);
                }
                insert_pair(&mut self.state, key, newi);
                proof {
                    assert forall|k: Seq<char>| #[trigger] self@.state.contains_key(k) implies (self@.state[k] matches ItemView::Stream(es) ==> es.len() > 0) by {
                        if k != key@ {
                            assert(mid.state.contains_key(k));
                        }
                    }
                }
            },
            Some(_) => {},
            None => {
                let mut v: Vec<StreamDataEntry> = Vec::new();
                v.push(entry);
                let newi = Item::Stream(StreamData { value: v });
                assert(entries_view(v@) =~= seq![entry@]);
                let ghost sv = pairs_view(self.state@);
                proof {
                    lemma_insert(sv, key@, newi@);
                }
                insert_pair(&mut self.state, key, newi);
                proof {
                    assert forall|k: Seq<char>| #[trigger] self@.state.contains_key(k) implies (self@.state[k] matches ItemView::Stream(es) ==> es.len() > 0) by {
                        if k != key@ {
                            assert(mid.state.contains_key(k));
                        }
                    }
                }
            },
        }
    }

    /// The last entry of the stream of `key`, if a stream is stored there.
    pub fn get_top_stream_item(&mut self, key: String, now: u64) -> (r: Option<StreamDataEntry>)
        requires
            old(self).wf(),
        ensures
            final(self).wf(),
            final(self)@ == get_spec(old(self)@, key@, now).0,
            match stream_at(old(self)@, key@, now) {
                Some(es) => r matches Some(e) && e@ == es.last(),
                None => r is None,
            },
    {
        let item = self.get(key.as_str(), now);
        match item {
            Some(Item::Stream(stream)) => {
                proof {
                    if !is_expired(old(self)@, key@, now) {
                        assert(old(self)@.state.contains_key(key@));
                    }
                }
                let n = stream.value.len();
                assert(n > 0);
                Some(stream.value[n - 1].duplicate())
            },
            _ => None,
        }
    }

    /// Whether every entry id of the stream stored under `key` (after
    /// reading the key as `get_spec` does) splits into two numbers; true
    /// where no stream is stored there.
    pub fn stream_ids_split(&mut self, key: &str, now: u64) -> (r: bool)
        requires
            old(self).wf(),
        ensures
            final(self).wf(),
            final(self)@ == get_spec(old(self)@, key@, now).0,
            r == (stream_at(old(self)@, key@, now) matches Some(es) ==> all_ids_split(es)),
    {
        let item = self.get(key, now);
        match item {
            Some(Item::Stream(stream)) => {
                let ghost es = entries_view(stream.value@);
                let mut i: usize = 0;
                while i < stream.value.len()
                    invariant
                        i <= stream.value.len(),
                        es == entries_view(stream.value@),
                        self.wf(),
                        self@ == get_spec(old(self)@, key@, now).0,
                        stream_at(old(self)@, key@, now) == Some(es),
                        forall|j: int| 0 <= j < i ==> (#[trigger] entry_id_parts(es[j].id)) is Some,
                    decreases stream.value.len() - i,
                {
                    assert(es[i as int] == stream.value@[i as int]@);
                    let parts = stream.value[i].split_id();
                    if parts.is_none() {
                        assert(entry_id_parts(es[i as int].id) is None);
                        assert(!all_ids_split(es));
                        return false;
                    }
                    i = i + 1;
                }
                true
            },
            _ => true,
        }
    }

    /// The entries of the stream of `key` grouped as `XRANGE` groups them
    /// (see `xrange_groups`); `None` where no stream is stored there.
    pub fn xrange(&mut self, xrange: &XRangeCommand, now: u64) -> (r: Option<Vec<Vec<StreamDataEntry>>>)
        requires
            old(self).wf(),
            stream_at(old(self)@, xrange.key@, now) matches Some(es) ==> all_ids_split(es),
        ensures
            final(self).wf(),
            final(self)@ == get_spec(old(self)@, xrange.key@, now).0,
            match stream_at(old(self)@, xrange.key@, now) {
                Some(es) => r matches Some(g) && groups_view(g@) == xrange_groups(es, xrange.start_statement, xrange.end_statement),
                None => r is None,
            },
    {
        let item = self.get(xrange.key.as_str(), now);
        match item {
            Some(Item::Stream(stream)) => {
                let start = xrange.start_statement;
                let end = xrange.end_statement;
                let ghost es = entries_view(stream.value@);
                let mut all: Vec<Vec<StreamDataEntry>> = Vec::new();
                let mut same: Vec<StreamDataEntry> = Vec::new();
                let mut i: usize = 0;
                while i < stream.value.len()
                    invariant
                        i <= stream.value.len(),
                        es == entries_view(stream.value@),
                        all_ids_split(es),
                        all_ids_split(entries_view(same@)),
                        (groups_view(all@), entries_view(same@)) == xrange_walk(es.take(i as int), start, end),
                    decreases stream.value.len() - i,
                {
                    let ghost prev_all = all@;
                    let ghost prev_same = same@;
                    proof {
                        assert(es.take(i + 1).drop_last() =~= es.take(i as int));
                        assert(es.take(i + 1).last() == es[i as int]);
                        assert(entry_id_parts(es[i as int].id) is Some);
                    }
                    let entry = &stream.value[i];
                    let (timestamp, count) = match entry.split_id() {
                        Some(p) => p,
                        None => {
                            assert(false);
                            (0, 0)
                        },
                    };
                    assert((timestamp, count) == entry_id_parts(es[i as int].id).unwrap());
                    let matches = match start {
                        XRangeStatement::Id((Some(st), Some(sc))) => match end {
                            XRangeStatement::Id((Some(et), Some(ec))) => st <= timestamp && timestamp <= et && sc <= count
                                && count <= ec,
                            _ => false,
                        },
                        _ => false,
                    };
                    if matches {
                        if same.len() == 0 {
                            let e = entry.duplicate();
                            same.push(e);
                            proof {
                                lemma_entries_view_push(prev_same, e);
                            }
                        } else {
                            proof {
                                assert(entries_view(same@)[same@.len() - 1] == same@[same@.len() - 1]@);
                                assert(entry_id_parts(entries_view(same@)[same@.len() - 1].id) is Some);
                            }
                            let last_ts = match same[same.len() - 1].split_id() {
                                Some(p) => p.0,
                                None => 0,
                            };
                            if last_ts == timestamp {
                                let e = entry.duplicate();
                                same.push(e);
                                proof {
                                    lemma_entries_view_push(prev_same, e);
                                }
                            } else if last_ts < timestamp {
                                let closed = clone_entries(&same);
                                all.push(closed);
                                same = Vec::new();
                                proof {
                                    assert(groups_view(all@) =~= groups_view(prev_all).push(entries_view(prev_same)));
                                    assert(entries_view(same@) =~= Seq::<StreamDataEntryView>::empty());
                                }
                            }
                        }
                    }
                    i = i + 1;
                }
                assert(es.take(es.len() as int) =~= es);
                if same.len() > 0 {
                    let ghost prev_all = all@;
                    all.push(same);
                    assert(groups_view(all@) =~= groups_view(prev_all).push(entries_view(same@)));
                }
                Some(all)
            },
            _ => None,
        }
    }

    /// The entries of the stream of `key` that lie in the read range (see
    /// `in_read_range`), oldest first; `None` where no stream is stored
    /// there.
    pub fn get_range(&mut self, key: String, start: XRangeStatement, end: XRangeStatement, exclusive: bool, now: u64) -> (r: Option<Vec<StreamDataEntry>>)
        requires
            old(self).wf(),
        ensures
            final(self).wf(),
            final(self)@ == get_spec(old(self)@, key@, now).0,
            match stream_at(old(self)@, key@, now) {
                Some(es) => r matches Some(v) && entries_view(v@) == range_entries(es, start, end, exclusive),
                None => r is None,
            },
    {
        let item = self.get(key.as_str(), now);
        match item {
            Some(Item::Stream(stream)) => {
                let ghost es = entries_view(stream.value@);
                let mut out: Vec<StreamDataEntry> = Vec::new();
                let mut i: usize = 0;
                while i < stream.value.len()
                    invariant
                        i <= stream.value.len(),
                        es == entries_view(stream.value@),
                        entries_view(out@) == range_entries(es.take(i as int), start, end, exclusive),
                    decreases stream.value.len() - i,
                {
                    proof {
                        assert(es.take(i + 1).drop_last() =~= es.take(i as int));
                        assert(es.take(i + 1).last() == es[i as int]);
                    }
                    let entry = &stream.value[i];
                    let keep = match entry.split_id() {
                        None => false,
                        Some((t, c)) => {
                            let after_start = match start {
                                XRangeStatement::Id((Some(st), Some(sc))) => if exclusive {
                                    t > st || (t == st && c > sc)
                                } else {
                                    t > st || (t == st && c >= sc)
                                },
                                XRangeStatement::Negative => true,
                                _ => false,
                            };
                            let before_end = match end {
                                XRangeStatement::Id((Some(et), Some(ec))) => t < et || (t == et && c <= ec),
                                XRangeStatement::Positive => true,
                                _ => false,
                            };
                            after_start && before_end
                        },
                    };
                    if keep {
                        let ghost prev = out@;
                        let e = entry.duplicate();
                        out.push(e);
                        proof {
                            lemma_entries_view_push(prev, e);
                        }
                    }
                    i = i + 1;
                }
                assert(es.take(es.len() as int) =~= es);
                Some(out)
            },
            _ => None,
        }
    }
}

} // verus!
