//! The RDB dump: where it is kept, and reading the keys, string values
//! and expiry times out of its bytes. Opening and reading the file is the
//! application's part.
use vstd::prelude::*;
use crate::args::Args;
use crate::assoc::{insert, insert_pair, lemma_insert, pairs_view, to_map, unique_keys};
use crate::storage::item::{Item, ItemView};
use crate::storage::streams_nonempty;
use crate::text::push_char;

verus! {

pub struct RDB {
    dirname: String,
    dbfilename: String,
}

/// Position of the first `0xfb` byte (the length if there is none).
pub open spec fn fb_pos(b: Seq<u8>) -> nat
    decreases b.len(),
{
    if b.len() == 0 || b[0] == 0xfb {
        0
    } else {
        1 + fb_pos(b.drop_first())
    }
}

/// Where the key/value section starts: right after the first `0xfb`, or at
/// the end when there is none.
pub open spec fn section_start(b: Seq<u8>) -> int {
    if fb_pos(b) < b.len() {
        fb_pos(b) as int + 1
    } else {
        b.len() as int
    }
}

/// The little-endian number of the bytes `s`.
pub open spec fn le_value(s: Seq<u8>) -> nat
    decreases s.len(),
{
    if s.len() == 0 {
        0
    } else {
        (s[0] as nat + 256 * le_value(s.drop_first())) as nat
    }
}

pub open spec fn pow256(n: nat) -> nat
    decreases n,
{
    if n == 0 {
        1
    } else {
        256 * pow256((n - 1) as nat)
    }
}

/// Each byte read as the character with that code (Latin-1).
pub open spec fn bytes_to_chars(s: Seq<u8>) -> Seq<char> {
    s.map_values(|x: u8| x as char)
}

/// One key/value record and the position after it.
pub struct RdbRecord {
    pub key: Seq<char>,
    pub value: Seq<char>,
    pub expiry: Option<u128>,
    pub next: int,
}

/// The record at `pos`: a header byte (`0xfc` brings an 8-byte expiry in
/// milliseconds, `0xfd` a 4-byte one in seconds, each followed by a value
/// type byte; any other header byte is the value type itself), a key
/// length byte and the key, a value length byte and the value. `None`
/// where the bytes end too early.
pub open spec fn parse_record(b: Seq<u8>, pos: int) -> Option<RdbRecord> {
    if pos < 0 || pos >= b.len() {
        None
    } else {
        let h = b[pos];
        let elen: int = if h == 0xfc {
            8
        } else if h == 0xfd {
            4
        } else {
            0
        };
        let p2 = if elen > 0 {
            pos + 1 + elen + 1
        } else {
            pos + 1
        };
        if p2 >= b.len() {
            None
        } else {
            let kstart = p2 + 1;
            let kend = kstart + b[p2];
            if kend >= b.len() {
                None
            } else {
                let vstart = kend + 1;
                let vend = vstart + b[kend];
                if vend > b.len() {
                    None
                } else {
                    let raw = le_value(b.subrange(pos + 1, pos + 1 + elen));
                    Some(
                        RdbRecord {
                            key: bytes_to_chars(b.subrange(kstart, kend)),
                            value: bytes_to_chars(b.subrange(vstart, vend)),
                            expiry: if elen == 0 {
                                None
                            } else if h == 0xfc {
                                Some(raw as u128)
                            } else {
                                Some((raw * 1000) as u128)
                            },
                            next: vend,
                        },
                    )
                }
            }
        }
    }
}

/// Reading `count` records from `pos`, each one stored under its key (a
/// later record of the same key replaces the earlier one).
pub open spec fn parse_records(b: Seq<u8>, pos: int, count: nat, st: Seq<(Seq<char>, ItemView)>, ex: Seq<(Seq<char>, u128)>) -> Option<(Seq<(Seq<char>, ItemView)>, Seq<(Seq<char>, u128)>)>
    decreases count,
{
    if count == 0 {
        Some((st, ex))
    } else {
        match parse_record(b, pos) {
            None => None,
            Some(r) => parse_records(
                b,
                r.next,
                (count - 1) as nat,
                insert(st, r.key, ItemView::SimpleString(r.value)),
                match r.expiry {
                    Some(t) => insert(ex, r.key, t),
                    None => ex,
                },
            ),
        }
    }
}

/// The items and expiry times of a dump: nothing for an empty file;
/// otherwise the section after the first `0xfb` starts with the number of
/// records and one more size byte, then the records. `None` where the
/// bytes end too early.
pub open spec fn dump_spec(b: Seq<u8>) -> Option<(Seq<(Seq<char>, ItemView)>, Seq<(Seq<char>, u128)>)> {
    if b.len() == 0 {
        Some((seq![], seq![]))
    } else {
        let s = section_start(b);
        if s + 2 > b.len() {
            None
        } else {
            parse_records(b, s + 2, b[s] as nat, seq![], seq![])
        }
    }
}

pub proof fn lemma_le_bound(s: Seq<u8>)
    ensures
        le_value(s) < pow256(s.len()),
    decreases s.len(),
{
    if s.len() > 0 {
        lemma_le_bound(s.drop_first());
    }
}

fn le_bytes(b: &[u8], from: usize, n: usize) -> (r: u128)
    requires
        n <= 8,
        from + n <= b@.len(),
    ensures
        r == le_value(b@.subrange(from as int, from + n)),
        r < pow256(n as nat),
{
    let ghost sub = b@.subrange(from as int, from + n);
    proof {
        reveal_with_fuel(pow256, 9);
        assert(pow256(8) == 0x1_0000_0000_0000_0000nat);
        lemma_le_bound(sub);
    }
    let mut acc: u128 = 0;
    let mut j: usize = n;
    assert(sub.skip(n as int) =~= Seq::<u8>::empty());
    while j > 0
        invariant
            j <= n <= 8,
            from + n <= b@.len(),
            sub == b@.subrange(from as int, from + n),
            acc == le_value(sub.skip(j as int)),
            acc < 0x1_0000_0000_0000_0000u128,
        decreases j,
    {
        j = j - 1;
        proof {
            assert(sub.skip(j as int).drop_first() =~= sub.skip(j + 1));
            assert(sub.skip(j as int)[0] == b@[from + j]);
            lemma_le_bound(sub.skip(j as int));
            reveal_with_fuel(pow256, 9);
            assert(pow256((n - j) as nat) <= pow256(8)) by {
                if n - j == 1 { } else if n - j == 2 { } else if n - j == 3 { } else if n - j == 4 { }
                else if n - j == 5 { } else if n - j == 6 { } else if n - j == 7 { }
            }
        }
        assert(from + j < b.len());
        let byte = b[from + j];
        assert(acc * 256 < 0x1_0000_0000_0000_0000_0000u128) by (nonlinear_arith)
            requires acc < 0x1_0000_0000_0000_0000u128;
        acc = byte as u128 + 256 * acc;
    }
    assert(sub.skip(0) =~= sub);
    acc
}

fn bytes_to_string(b: &[u8], from: usize, to: usize) -> (r: String)
    requires
        from <= to <= b@.len(),
    ensures
        r@ == bytes_to_chars(b@.subrange(from as int, to as int)),
{
    let mut s = String::new();
    let mut i: usize = from;
    while i < to
        invariant
            from <= i <= to <= b@.len(),
            s@ == bytes_to_chars(b@.subrange(from as int, i as int)),
        decreases to - i,
    {
        push_char(&mut s, b[i] as char);
        i = i + 1;
        assert(s@ =~= bytes_to_chars(b@.subrange(from as int, i as int)));
    }
    s
}

fn read_record(b: &[u8], pos: usize) -> (r: Option<(String, String, Option<u128>, usize)>)
    ensures
        match parse_record(b@, pos as int) {
            None => r is None,
            Some(rec) => r matches Some((k, v, e, next)) && k@ == rec.key && v@ == rec.value
                && e == rec.expiry && next == rec.next,
        },
{
    let len = b.len();
    if pos >= len {
        return None;
    }
    let h = b[pos];
    let elen: usize = if h == 0xfc {
        8
    } else if h == 0xfd {
        4
    } else {
        0
    };
    let p2 = if elen > 0 {
        if elen + 2 >= len - pos {
            return None;
        }
        pos + 1 + elen + 1
    } else {
        pos + 1
    };
    if p2 >= len {
        return None;
    }
    let kstart = p2 + 1;
    if b[p2] as usize >= len - kstart {
        return None;
    }
    let kend = kstart + b[p2] as usize;
    let vstart = kend + 1;
    if b[kend] as usize > len - vstart {
        return None;
    }
    let vend = vstart + b[kend] as usize;
    let raw = le_bytes(b, pos + 1, elen);
    proof {
        reveal_with_fuel(pow256, 5);
    }
    let expiry = if elen == 0 {
        None
    } else if h == 0xfc {
        Some(raw)
    } else {
        Some(raw * 1000)
    };
    let key = bytes_to_string(b, kstart, kend);
    let value = bytes_to_string(b, vstart, vend);
    Some((key, value, expiry, vend))
}

pub open spec fn dump_view(r: (Vec<(String, Item)>, Vec<(String, u128)>)) -> (Seq<(Seq<char>, ItemView)>, Seq<(Seq<char>, u128)>) {
    (pairs_view(r.0@), pairs_view(r.1@))
}

impl RDB {
    pub fn new(args: Args) -> (r: Self)
        ensures
            r.dirname() == args.dir@,
            r.dbfilename() == args.dbfilename@,
    {
        Self { dirname: args.dir, dbfilename: args.dbfilename }
    }

    pub closed spec fn dirname(&self) -> Seq<char> {
        self.dirname@
    }

    pub closed spec fn dbfilename(&self) -> Seq<char> {
        self.dbfilename@
    }

    /// `<dir>/<dbfilename>`.
    pub fn file_path(&self) -> (r: String)
        ensures
            r@ == self.dirname() + seq!['/'] + self.dbfilename(),
    {
        let mut s = self.dirname.clone();
        push_char(&mut s, '/');
        s.append(self.dbfilename.as_str());
        assert(s@ =~= self.dirname() + seq!['/'] + self.dbfilename());
        s
    }

    /// The items (all strings) and expiry times held in the dump `buffer`
    /// (see [`dump_spec`]); `None` where the bytes end too early.
    pub fn parse_dump_checked(buffer: &[u8]) -> (r: Option<(Vec<(String, Item)>, Vec<(String, u128)>)>)
        ensures
            match dump_spec(buffer@) {
                None => r is None,
                Some(d) => r matches Some(x) && dump_view(x) == d && unique_keys(pairs_view(x.0@))
                    && unique_keys(pairs_view(x.1@)) && streams_nonempty(to_map(pairs_view(x.0@))),
            },
    {
        let len = buffer.len();
        let mut state: Vec<(String, Item)> = Vec::new();
        let mut expiries: Vec<(String, u128)> = Vec::new();
        if len == 0 {
            assert(pairs_view(state@) =~= Seq::<(Seq<char>, ItemView)>::empty());
            assert(pairs_view(expiries@) =~= Seq::<(Seq<char>, u128)>::empty());
            return Some((state, expiries));
        }
        let mut p: usize = 0;
        while p < len && buffer[p] != 0xfb
            invariant
                p <= len == buffer@.len(),
                forall|j: int| 0 <= j < p ==> buffer@[j] != 0xfb,
            decreases len - p,
        {
            p = p + 1;
        }
        proof {
            lemma_fb_pos_exact(buffer@, p as int);
        }
        let s: usize = if p < len {
            p + 1
        } else {
            len
        };
        if len - s < 2 {
            return None;
        }
        let count = buffer[s] as usize;
        let mut pos: usize = s + 2;
        let mut i: usize = 0;
        assert(pairs_view(state@) =~= Seq::<(Seq<char>, ItemView)>::empty());
        assert(pairs_view(expiries@) =~= Seq::<(Seq<char>, u128)>::empty());
        while i < count
            invariant
                i <= count,
                len == buffer@.len(),
                unique_keys(pairs_view(state@)),
                unique_keys(pairs_view(expiries@)),
                forall|k: int| 0 <= k < state@.len() ==> (#[trigger] state@[k].1) is SimpleString,
                parse_records(buffer@, pos as int, (count - i) as nat, pairs_view(state@), pairs_view(expiries@))
                    == dump_spec(buffer@),
            decreases count - i,
        {
            match read_record(buffer, pos) {
                None => {
                    return None;
                },
                Some((key, value, expiry, next)) => {
                    let ghost sv = pairs_view(state@);
                    let ghost ev = pairs_view(expiries@);
                    let ghost old_state = state@;
                    proof {
                        lemma_insert(sv, key@, ItemView::SimpleString(value@));
                    }
                    match expiry {
                        Some(t) => {
                            proof {
                                lemma_insert(ev, key@, t);
                            }
                            insert_pair(&mut expiries, key.clone(), t);
                        },
                        None => {},
                    }
                    insert_pair(&mut state, key, Item::SimpleString(value));
                    proof {
                        assert forall|k: int| 0 <= k < state@.len() implies (#[trigger] state@[k].1) is SimpleString by {
                            assert(pairs_view(state@)[k] == (state@[k].0@, state@[k].1@));
                            if k < old_state.len() && pairs_view(state@)[k] == sv[k] {
                                assert(sv[k] == (old_state[k].0@, old_state[k].1@));
                                assert(old_state[k].1 is SimpleString);
                            }
                        }
                    }
                    pos = next;
                },
            }
            i = i + 1;
        }
        proof {
            assert forall|k: Seq<char>| #[trigger] to_map(pairs_view(state@)).contains_key(k) implies (to_map(pairs_view(state@))[k] matches ItemView::Stream(es) ==> es.len() > 0) by {
                let pv = pairs_view(state@);
                let j = crate::assoc::index_of(pv, k);
                assert(pv[j] == (state@[j].0@, state@[j].1@));
                assert(state@[j].1 is SimpleString);
            }
        }
        Some((state, expiries))
    }

    /// The items and expiry times held in the dump `buffer`, for a dump
    /// that is long enough (see [`dump_spec`]).
    pub fn parse_dump(buffer: &[u8]) -> (r: (Vec<(String, Item)>, Vec<(String, u128)>))
        requires
            dump_spec(buffer@) is Some,
        ensures
            dump_view(r) == dump_spec(buffer@).unwrap(),
            unique_keys(pairs_view(r.0@)),
            unique_keys(pairs_view(r.1@)),
            streams_nonempty(to_map(pairs_view(r.0@))),
    {
        match Self::parse_dump_checked(buffer) {
            Some(d) => d,
            None => {
                assert(false);
                (Vec::new(), Vec::new())
            },
        }
    }
}

pub proof fn lemma_fb_pos_exact(b: Seq<u8>, m: int)
    requires
        0 <= m <= b.len(),
        forall|j: int| 0 <= j < m ==> b[j] != 0xfb,
        m == b.len() || b[m] == 0xfb,
    ensures
        fb_pos(b) == m,
    decreases b.len(),
{
    if m > 0 {
        assert forall|j: int| 0 <= j < m - 1 implies b.drop_first()[j] != 0xfb by {
            assert(b.drop_first()[j] == b[j + 1]);
        }
        if m < b.len() {
            assert(b.drop_first()[m - 1] == b[m]);
        }
        lemma_fb_pos_exact(b.drop_first(), m - 1);
    }
}

} // verus!
