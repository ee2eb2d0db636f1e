//! Replication settings: whether this server is a master (with a random
//! replication id) or a replica of some master, and the messages of the
//! handshake that a replica sends to its master.
use rand::Rng;
use vstd::prelude::*;
use crate::args::Args;
use crate::numbers::{int_to_decimal, nat_to_decimal, parse_isize, parse_isize_spec, push_decimal, push_signed_decimal};
use crate::resp::{array, build_array, build_bulk, bulk};
use crate::text::{chars_to_string, lemma_split_on_nonempty, push_char, split_char, split_on, str_to_chars, view_lines};

verus! {

#[verifier::external_type_specification]
#[verifier::external_body]
pub struct ExThreadRng(rand::rngs::ThreadRng);

/// `rand::thread_rng`: the generator of the current thread. Nothing is
/// stated of it (it is seeded from the operating system, and gives up
/// with a panic when the operating system has no randomness to give).
#[verifier::external_body]
fn thread_rng() -> rand::rngs::ThreadRng {
    rand::thread_rng()
}

pub open spec fn is_alphanumeric(c: char) -> bool {
    ('A' <= c && c <= 'Z') || ('a' <= c && c <= 'z') || ('0' <= c && c <= '9')
}

/// `Rng::sample` with `rand::distributions::Alphanumeric`: a random byte
/// taken from `A`-`Z`, `a`-`z` and `0`-`9`. Which one is left to chance.
#[verifier::external_body]
fn sample_alphanumeric(rng: &mut rand::rngs::ThreadRng) -> (b: u8)
    ensures
        is_alphanumeric(b as char),
{
    rng.sample(rand::distributions::Alphanumeric)
}

#[derive(Debug)]
pub struct Replication {
    pub is_master: bool,
    pub master_id: Option<String>,
    pub master_host: Option<String>,
    pub master_port: Option<isize>,
    pub args: Args,
}

/// A replica is configured as `"<host> <port>"`: at least two words with a
/// number second.
pub open spec fn replicaof_ok(conn: Seq<char>) -> bool {
    let parts = split_on(conn, ' ');
    parts.len() >= 2 && parse_isize_spec(parts[1]) is Some
}

pub open spec fn args_ok(args: Args) -> bool {
    args.replicaof matches Some(conn) ==> replicaof_ok(conn@)
}

/// A replication id: forty letters and digits.
pub open spec fn is_replication_id(s: Seq<char>) -> bool {
    s.len() == 40 && forall|i: int| 0 <= i < s.len() ==> is_alphanumeric(#[trigger] s[i])
}

/// `host:port`.
pub open spec fn address(host: Seq<char>, port: isize) -> Seq<char> {
    host + seq![':'] + int_to_decimal(port as int)
}

impl Replication {
    /// A replica of the master named in `args.replicaof`, or else a master
    /// with a fresh random replication id.
    pub fn new(args: Args) -> (r: Self)
        requires
            args_ok(args),
        ensures
            r.args == args,
            match args.replicaof {
                Some(conn) => {
                    let parts = split_on(conn@, ' ');
                    &&& !r.is_master
                    &&& r.master_id is None
                    &&& r.master_host matches Some(h) && h@ == parts[0]
                    &&& r.master_port == parse_isize_spec(parts[1])
                },
                None => {
                    &&& r.is_master
                    &&& r.master_id matches Some(id) && is_replication_id(id@)
                    &&& r.master_host is None
                    &&& r.master_port is None
                },
            },
    {
        match &args.replicaof {
            Some(conn) => {
                let chars = str_to_chars(conn.as_str());
                let parts = split_char(chars.as_slice(), ' ');
                proof {
                    lemma_split_on_nonempty(chars@, ' ');
                }
                assert(view_lines(parts@)[0] == parts@[0]@);
                assert(view_lines(parts@)[1] == parts@[1]@);
                let host = chars_to_string(parts[0].as_slice());
                let port = parse_isize(parts[1].as_slice());
                Self { args, is_master: false, master_id: None, master_host: Some(host), master_port: port }
            },
            None => {
                let id = Self::generate_master_id();
                Self { args, is_master: true, master_id: Some(id), master_host: None, master_port: None }
            },
        }
    }

    /// Forty random letters and digits.
    pub fn generate_master_id() -> (r: String)
        ensures
            is_replication_id(r@),
    {
        let mut rng = thread_rng();
        let mut s = String::new();
        let mut i: usize = 0;
        while i < 40
            invariant
                i <= 40,
                s@.len() == i,
                forall|j: int| 0 <= j < s@.len() ==> is_alphanumeric(#[trigger] s@[j]),
            decreases 40 - i,
        {
            let b = sample_alphanumeric(&mut rng);
            push_char(&mut s, b as char);
            i = i + 1;
        }
        s
    }

    /// Where a replica connects to: `host:port` of its master; `None` for a
    /// master (or a replica missing either part).
    pub fn master_address(&self) -> (r: Option<String>)
        ensures
            match (self.is_master, self.master_host, self.master_port) {
                (false, Some(h), Some(p)) => r matches Some(a) && a@ == address(h@, p),
                _ => r is None,
            },
    {
        if self.is_master {
            return None;
        }
        match (&self.master_host, self.master_port) {
            (Some(host), Some(port)) => {
                let mut s = host.clone();
                push_char(&mut s, ':');
                push_signed_decimal(&mut s, port as i128);
                assert(s@ =~= address(host@, port));
                Some(s)
            },
            _ => None,
        }
    }

    /// The first handshake message: `PING` as a one-element array.
    pub fn ping_master_body() -> (r: String)
        ensures
            r@ == array(bulk("PING"@)),
    {
        build_array(build_bulk(String::from_str("PING")))
    }

    /// The replica's capabilities: `REPLCONF capa psync2`.
    pub fn ping_master_capabilities_body() -> (r: String)
        ensures
            r@ == array(bulk("REPLCONF"@) + bulk("capa"@) + bulk("psync2"@)),
    {
        let mut body = build_bulk(String::from_str("REPLCONF"));
        body.append(build_bulk(String::from_str("capa")).as_str());
        body.append(build_bulk(String::from_str("psync2")).as_str());
        build_array(body)
    }

    /// The replica's listening port: `REPLCONF listening-port <port>`.
    pub fn ping_master_port_body(&self) -> (r: String)
        ensures
            r@ == array(bulk("REPLCONF"@) + bulk("listening-port"@) + bulk(nat_to_decimal(self.args.port as nat))),
    {
        let mut port = String::new();
        push_decimal(&mut port, self.args.port as u128);
        assert(port@ =~= nat_to_decimal(self.args.port as nat));
        let mut body = build_bulk(String::from_str("REPLCONF"));
        body.append(build_bulk(String::from_str("listening-port")).as_str());
        body.append(build_bulk(port).as_str());
        build_array(body)
    }
}

} // verus!
