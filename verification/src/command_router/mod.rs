//! Parsing client requests: a RESP array of bulk strings, lower-cased,
//! read line by line into statements and then into a [`Command`].
use vstd::prelude::*;
use crate::assoc::{insert, insert_pair, pairs_view, unique_keys};
use crate::numbers::{parse_isize, parse_isize_spec, parse_u64, parse_u64_spec, parse_usize, parse_usize_spec, slice_skip_first};
use crate::resp::{bulk, bulks, concat_all, crlf, lemma_concat_all_front, lemma_strings_view_push, strings_view, utf8_len};
use crate::numbers::{int_to_decimal, is_digit, lemma_nat_to_decimal, lemma_parse_int_of_decimal, nat_to_decimal};
use crate::text::{has_no, lemma_lines_crlf};
use crate::assoc::lemma_pairs_view_push;
use crate::text::lemma_split_on_nonempty;
use crate::text::{chars_to_string, lines, split_char, split_lines, split_on, str_eq, str_to_chars, view_lines};

pub mod config;

use config::{config_from_statements, strs_view, ConfigCommand, ConfigCommandActionView};

verus! {

/// The result of `str::to_lowercase` on the given characters.
pub uninterp spec fn lowercase(s: Seq<char>) -> Seq<char>;

/// Every character is ASCII.
pub open spec fn all_ascii(s: Seq<char>) -> bool {
    forall|i: int| 0 <= i < s.len() ==> (#[trigger] s[i] as u32) < 128
}

/// `A`-`Z` to `a`-`z`; every other character unchanged.
pub open spec fn ascii_lower_char(c: char) -> char {
    if 'A' <= c && c <= 'Z' {
        ((c as int) + 32) as char
    } else {
        c
    }
}

/// `a`-`z` to `A`-`Z`; every other character unchanged.
pub open spec fn ascii_upper_char(c: char) -> char {
    if 'a' <= c && c <= 'z' {
        ((c as int) - 32) as char
    } else {
        c
    }
}

pub open spec fn ascii_lower(s: Seq<char>) -> Seq<char> {
    s.map_values(|c: char| ascii_lower_char(c))
}

pub open spec fn ascii_upper(s: Seq<char>) -> Seq<char> {
    s.map_values(|c: char| ascii_upper_char(c))
}

/// `str::to_lowercase`. Unicode case mapping takes tables to state, so the
/// result is named: it is `lowercase` of the input. Of an ASCII input it
/// is stated in full: the Unicode lowercase mapping takes `A`-`Z` to
/// `a`-`z` and leaves every other ASCII character as it is.
#[verifier::external_body]
pub(crate) fn to_lowercase(s: &str) -> (r: String)
    ensures
        r@ == lowercase(s@),
        all_ascii(s@) ==> r@ == ascii_lower(s@),
{
    s.to_lowercase()
}

#[derive(Debug, Clone, PartialEq, Eq)]
pub struct SetCommand {
    pub key: String,
    pub value: String,
    pub expire_after: Option<String>,
}

pub struct SetCommandView {
    pub key: Seq<char>,
    pub value: Seq<char>,
    pub expire_after: Option<Seq<char>>,
}

impl View for SetCommand {
    type V = SetCommandView;

    open spec fn view(&self) -> SetCommandView {
        SetCommandView {
            key: self.key@,
            value: self.value@,
            expire_after: match self.expire_after {
                Some(e) => Some(e@),
                None => None,
            },
        }
    }
}

#[derive(Debug, Clone, PartialEq, Eq)]
pub struct GetCommand {
    pub key: String,
}

impl View for GetCommand {
    type V = Seq<char>;

    open spec fn view(&self) -> Seq<char> {
        self.key@
    }
}

#[derive(Debug, Clone, PartialEq, Eq)]
pub struct EchoCommand {
    pub echo: String,
}

impl View for EchoCommand {
    type V = Seq<char>;

    open spec fn view(&self) -> Seq<char> {
        self.echo@
    }
}

#[derive(Debug, Clone, PartialEq, Eq)]
pub struct KeysCommand {
    pub pattern: String,
}

impl View for KeysCommand {
    type V = Seq<char>;

    open spec fn view(&self) -> Seq<char> {
        self.pattern@
    }
}

#[derive(Debug, Clone, PartialEq, Eq)]
pub struct IncrCommand {
    pub key: String,
    pub step: isize,
}

pub struct IncrCommandView {
    pub key: Seq<char>,
    pub step: isize,
}

impl View for IncrCommand {
    type V = IncrCommandView;

    open spec fn view(&self) -> IncrCommandView {
        IncrCommandView { key: self.key@, step: self.step }
    }
}

#[derive(Debug, Clone, PartialEq, Eq)]
pub struct TypeCommand {
    pub key: String,
}

impl View for TypeCommand {
    type V = Seq<char>;

    open spec fn view(&self) -> Seq<char> {
        self.key@
    }
}

/// `XADD key id field value ...`; the fields are kept as a list of
/// distinct keys, each with the value given last for it.
#[derive(Debug, Clone, PartialEq, Eq)]
pub struct XAddCommand {
    pub key: String,
    pub id: String,
    pub data: Vec<(String, String)>,
}

pub struct XAddCommandView {
    pub key: Seq<char>,
    pub id: Seq<char>,
    pub data: Seq<(Seq<char>, Seq<char>)>,
}

impl View for XAddCommand {
    type V = XAddCommandView;

    open spec fn view(&self) -> XAddCommandView {
        XAddCommandView { key: self.key@, id: self.id@, data: pairs_view(self.data@) }
    }
}

/// One end of an `XRANGE`: an id split into its time and sequence parts,
/// or `+` / `-`.
#[derive(Debug, Clone, Copy, PartialEq, Eq)]
pub enum XRangeStatement {
    Id((Option<isize>, Option<isize>)),
    Positive,
    Negative,
}

impl View for XRangeStatement {
    type V = XRangeStatement;

    open spec fn view(&self) -> XRangeStatement {
        *self
    }
}

#[derive(Debug, Clone, PartialEq, Eq)]
pub struct XRangeCommand {
    pub key: String,
    pub start_statement: XRangeStatement,
    pub end_statement: XRangeStatement,
}

pub struct XRangeCommandView {
    pub key: Seq<char>,
    pub start_statement: XRangeStatement,
    pub end_statement: XRangeStatement,
}

impl View for XRangeCommand {
    type V = XRangeCommandView;

    open spec fn view(&self) -> XRangeCommandView {
        XRangeCommandView {
            key: self.key@,
            start_statement: self.start_statement,
            end_statement: self.end_statement,
        }
    }
}

/// `XREAD [BLOCK ms] STREAMS key ... id ...`: the (key, id) pairs and the
/// blocking time in milliseconds.
#[derive(Debug, Clone, PartialEq, Eq)]
pub struct XReadCommand {
    pub keys: Vec<(String, String)>,
    pub blocking: Option<u64>,
}

pub struct XReadCommandView {
    pub keys: Seq<(Seq<char>, Seq<char>)>,
    pub blocking: Option<u64>,
}

impl View for XReadCommand {
    type V = XReadCommandView;

    open spec fn view(&self) -> XReadCommandView {
        XReadCommandView { keys: pairs_view(self.keys@), blocking: self.blocking }
    }
}

#[derive(Debug, Clone, PartialEq, Eq)]
pub enum Command {
    Ping,
    Echo(EchoCommand),
    SetValue(SetCommand),
    Get(GetCommand),
    Replconf,
    Info,
    Incr(IncrCommand),
    Config(ConfigCommand),
    Keys(KeysCommand),
    Multi,
    Exec,
    Discard,
    Type(TypeCommand),
    XAdd(XAddCommand),
    XRange(XRangeCommand),
    XRead(XReadCommand),
    Unrecognized,
}

pub enum CommandView {
    Ping,
    Echo(Seq<char>),
    SetValue(SetCommandView),
    Get(Seq<char>),
    Replconf,
    Info,
    Incr(IncrCommandView),
    Config(ConfigCommandActionView),
    Keys(Seq<char>),
    Multi,
    Exec,
    Discard,
    Type(Seq<char>),
    XAdd(XAddCommandView),
    XRange(XRangeCommandView),
    XRead(XReadCommandView),
    Unrecognized,
}

impl View for Command {
    type V = CommandView;

    open spec fn view(&self) -> CommandView {
        match self {
            Command::Ping => CommandView::Ping,
            Command::Echo(c) => CommandView::Echo(c@),
            Command::SetValue(c) => CommandView::SetValue(c@),
            Command::Get(c) => CommandView::Get(c@),
            Command::Replconf => CommandView::Replconf,
            Command::Info => CommandView::Info,
            Command::Incr(c) => CommandView::Incr(c@),
            Command::Config(c) => CommandView::Config(c@),
            Command::Keys(c) => CommandView::Keys(c@),
            Command::Multi => CommandView::Multi,
            Command::Exec => CommandView::Exec,
            Command::Discard => CommandView::Discard,
            Command::Type(c) => CommandView::Type(c@),
            Command::XAdd(c) => CommandView::XAdd(c@),
            Command::XRange(c) => CommandView::XRange(c@),
            Command::XRead(c) => CommandView::XRead(c@),
            Command::Unrecognized => CommandView::Unrecognized,
        }
    }
}

/// The request could not be read as a command.
#[derive(Debug, Clone, Copy, PartialEq, Eq)]
pub struct ParsingError;

impl ParsingError {
    /// The message shown for this error.
    pub fn message(&self) -> (r: String)
        ensures
            r@ == "Error parsing command"@,
    {
        String::from_str("Error parsing command")
    }
}

pub open spec fn parse_result_view(r: Result<Command, ParsingError>) -> Result<CommandView, ()> {
    match r {
        Ok(c) => Ok(c@),
        Err(_) => Err(()),
    }
}

pub open spec fn checked_result_view(r: Option<Result<Command, ParsingError>>) -> Option<Result<CommandView, ()>> {
    match r {
        Some(x) => Some(parse_result_view(x)),
        None => None,
    }
}

/// The two halves of a stream id `<time>-<sequence>`, each parsed as an
/// `isize` (`None` where a half is missing or not a number).
pub open spec fn split_id_spec(id: Seq<char>) -> (Option<isize>, Option<isize>) {
    let parts = split_on(id, '-');
    (parse_isize_spec(parts[0]), if parts.len() > 1 {
        parse_isize_spec(parts[1])
    } else {
        None
    })
}

/// `-` and `+` are the open ends; anything else is an id.
pub open spec fn xrange_statement_spec(s: Seq<char>) -> XRangeStatement {
    if s == "-"@ {
        XRangeStatement::Negative
    } else if s == "+"@ {
        XRangeStatement::Positive
    } else {
        XRangeStatement::Id(split_id_spec(s))
    }
}

/// Reading the field/value statements of `XADD`: an item holding exactly
/// one space is a field and its value; other items pair up in turn as
/// field, then value. The second component is a field still waiting for
/// its value.
pub open spec fn xadd_fields_state(items: Seq<Seq<char>>) -> (Seq<(Seq<char>, Seq<char>)>, Option<Seq<char>>)
    decreases items.len(),
{
    if items.len() == 0 {
        (seq![], None)
    } else {
        let prev = xadd_fields_state(items.drop_last());
        let item = items.last();
        let parts = split_on(item, ' ');
        if parts.len() == 2 {
            (insert(prev.0, parts[0], parts[1]), prev.1)
        } else {
            match prev.1 {
                None => (prev.0, Some(item)),
                Some(k) => (insert(prev.0, k, item), None),
            }
        }
    }
}

pub open spec fn xadd_fields(items: Seq<Seq<char>>) -> Seq<(Seq<char>, Seq<char>)> {
    xadd_fields_state(items).0
}

/// The `XREAD` statements after the command word, once `BLOCK ms
/// STREAMS` or the single word before the keys is dropped: where exactly
/// three are left, the third is split at spaces; the first half of the
/// list are the keys and the second half their ids.
pub open spec fn xread_pairs(rest: Seq<Seq<char>>) -> Seq<(Seq<char>, Seq<char>)> {
    let list = if rest.len() == 3 {
        split_on(rest[2], ' ')
    } else {
        rest
    };
    let half = list.len() / 2;
    Seq::new(half, |i: int| (list[i], list[half + i]))
}

pub open spec fn xread_from_statements(st: Seq<Seq<char>>) -> Option<CommandView> {
    if st.len() < 2 {
        None
    } else if st[1] == "block"@ {
        if st.len() < 4 {
            None
        } else {
            match parse_u64_spec(st[2]) {
                None => None,
                Some(ms) => Some(
                    CommandView::XRead(
                        XReadCommandView { keys: xread_pairs(st.skip(4)), blocking: Some(ms) },
                    ),
                ),
            }
        }
    } else {
        Some(CommandView::XRead(XReadCommandView { keys: xread_pairs(st.skip(2)), blocking: None }))
    }
}

/// The command that the statements name (the first statement is the
/// command word); `None` where the statements are too few for the command
/// or a number in them does not parse.
pub open spec fn command_from_statements(st: Seq<Seq<char>>) -> Option<CommandView> {
    let w = st[0];
    if w == "ping"@ {
        Some(CommandView::Ping)
    } else if w == "echo"@ {
        if st.len() < 2 {
            None
        } else {
            Some(CommandView::Echo(st[1]))
        }
    } else if w == "set"@ {
        if st.len() < 3 {
            None
        } else if st.len() > 3 && st[3] == "px"@ {
            if st.len() < 5 {
                None
            } else {
                Some(
                    CommandView::SetValue(
                        SetCommandView { key: st[1], value: st[2], expire_after: Some(st[4]) },
                    ),
                )
            }
        } else {
            Some(CommandView::SetValue(SetCommandView { key: st[1], value: st[2], expire_after: None }))
        }
    } else if w == "get"@ {
        if st.len() < 2 {
            None
        } else {
            Some(CommandView::Get(st[1]))
        }
    } else if w == "info"@ {
        Some(CommandView::Info)
    } else if w == "replconf"@ {
        Some(CommandView::Replconf)
    } else if w == "config"@ {
        match config_from_statements(st.skip(1)) {
            Some(a) => Some(CommandView::Config(a)),
            None => None,
        }
    } else if w == "incr"@ {
        if st.len() < 2 {
            None
        } else if st.len() > 2 {
            match parse_isize_spec(st[2]) {
                Some(step) => Some(CommandView::Incr(IncrCommandView { key: st[1], step })),
                None => None,
            }
        } else {
            Some(CommandView::Incr(IncrCommandView { key: st[1], step: 1 }))
        }
    } else if w == "keys"@ {
        if st.len() < 2 {
            None
        } else {
            Some(CommandView::Keys(st[1]))
        }
    } else if w == "multi"@ {
        Some(CommandView::Multi)
    } else if w == "exec"@ {
        Some(CommandView::Exec)
    } else if w == "discard"@ {
        Some(CommandView::Discard)
    } else if w == "type"@ {
        if st.len() < 2 {
            None
        } else {
            Some(CommandView::Type(st[1]))
        }
    } else if w == "xadd"@ {
        if st.len() < 3 {
            None
        } else {
            Some(
                CommandView::XAdd(
                    XAddCommandView { key: st[1], id: st[2], data: xadd_fields(st.skip(3)) },
                ),
            )
        }
    } else if w == "xrange"@ {
        if st.len() < 4 {
            None
        } else {
            Some(
                CommandView::XRange(
                    XRangeCommandView {
                        key: st[1],
                        start_statement: xrange_statement_spec(st[2]),
                        end_statement: xrange_statement_spec(st[3]),
                    },
                ),
            )
        }
    } else if w == "xread"@ {
        xread_from_statements(st)
    } else {
        Some(CommandView::Unrecognized)
    }
}

/// The statements of a lower-cased request: the first line is `*<n>`,
/// then `n` pairs of lines, a length line (ignored) and a statement.
/// `Err` where a line is missing or `<n>` is not a number; `None` where
/// the first line is empty or starts with a character of more than one
/// byte (the request cannot be read past it).
pub open spec fn request_statements(s: Seq<char>) -> Option<Result<Seq<Seq<char>>, ()>> {
    let ls = lines(s);
    if ls.len() == 0 {
        Some(Err(()))
    } else if ls[0].len() == 0 || ls[0][0] as u32 >= 128 {
        None
    } else {
        match parse_usize_spec(ls[0].drop_first()) {
            None => Some(Err(())),
            Some(n) => if ls.len() < 2 * n + 1 {
                Some(Err(()))
            } else {
                Some(Ok(Seq::new(n as nat, |i: int| ls[2 * i + 2])))
            },
        }
    }
}

/// Reading a lower-cased request: `Some(Err(()))` for a parsing error,
/// `None` for a request that cannot be read at all.
pub open spec fn parse_lowered(s: Seq<char>) -> Option<Result<CommandView, ()>> {
    match request_statements(s) {
        None => None,
        Some(Err(())) => Some(Err(())),
        Some(Ok(st)) => if st.len() == 0 {
            Some(Err(()))
        } else {
            match command_from_statements(st) {
                None => None,
                Some(c) => Some(Ok(c)),
            }
        },
    }
}

/// Reading a request as the server receives it.
pub open spec fn parse_request(s: Seq<char>) -> Option<Result<CommandView, ()>> {
    parse_lowered(lowercase(s))
}

/// Upper-casing the ASCII letters of a request does not change how it is
/// read: both forms lower-case to the same text (so `Command::new` and
/// `Command::parse_checked` give the same result for both), and the
/// upper-cased form is ASCII too.
pub proof fn lemma_ascii_case_insensitive(s: Seq<char>)
    requires
        all_ascii(s),
    ensures
        all_ascii(ascii_upper(s)),
        ascii_lower(ascii_upper(s)) == ascii_lower(s),
        parse_lowered(ascii_lower(ascii_upper(s))) == parse_lowered(ascii_lower(s)),
{
    lemma_ascii_upper_then_lower(s);
}

proof fn lemma_ascii_upper_then_lower(s: Seq<char>)
    requires
        all_ascii(s),
    ensures
        all_ascii(ascii_upper(s)),
        ascii_lower(ascii_upper(s)) == ascii_lower(s),
{
    assert forall|i: int| 0 <= i < s.len() implies ascii_lower_char(ascii_upper_char(s[i])) == ascii_lower_char(s[i])
        && (#[trigger] ascii_upper(s)[i] as u32) < 128 by {
        let c = s[i];
        if 'a' <= c && c <= 'z' {
            let u = ((c as int) - 32) as char;
            assert(u as int == c as int - 32);
            assert(((u as int) + 32) as char == c);
        }
    }
    assert(ascii_lower(ascii_upper(s)) =~= ascii_lower(s));
}

/// A request as a client writes it: an array header with the number of
/// statements, then each statement as a bulk string.
pub open spec fn request_encoding(st: Seq<Seq<char>>) -> Seq<char> {
    seq!['*'] + nat_to_decimal(st.len()) + crlf() + concat_all(bulks(st))
}

pub open spec fn length_line(x: Seq<char>) -> Seq<char> {
    seq!['$'] + nat_to_decimal(utf8_len(x))
}

/// The lines of the encoded statements: a length line, then the
/// statement, for each.
pub open spec fn statement_lines(st: Seq<Seq<char>>) -> Seq<Seq<char>> {
    Seq::new(
        2 * st.len(),
        |j: int|
            if j % 2 == 0 {
                length_line(st[j / 2])
            } else {
                st[j / 2]
            },
    )
}

pub proof fn lemma_statement_lines(st: Seq<Seq<char>>)
    requires
        forall|i: int| 0 <= i < st.len() ==> has_no(#[trigger] st[i], '\n'),
    ensures
        lines(concat_all(bulks(st))) == statement_lines(st),
    decreases st.len(),
{
    if st.len() == 0 {
        assert(bulks(st) =~= Seq::<Seq<char>>::empty());
        assert(statement_lines(st) =~= Seq::<Seq<char>>::empty());
    } else {
        let x = st[0];
        let rest = st.drop_first();
        assert forall|i: int| 0 <= i < rest.len() implies has_no(#[trigger] rest[i], '\n') by {
            assert(rest[i] == st[i + 1]);
        }
        lemma_statement_lines(rest);
        lemma_concat_all_front(bulks(st));
        assert(bulks(st).drop_first() =~= bulks(rest));
        assert(bulks(st)[0] == bulk(x));
        let tail = concat_all(bulks(rest));
        lemma_nat_to_decimal(utf8_len(x));
        let ll = length_line(x);
        assert forall|i: int| 0 <= i < ll.len() implies ll[i] != '\n' by {
            if i > 0 {
                assert(ll[i] == nat_to_decimal(utf8_len(x))[i - 1]);
                assert(is_digit(nat_to_decimal(utf8_len(x))[i - 1]));
            }
        }
        assert(has_no(x, '\n'));
        assert(bulk(x) + tail =~= ll + seq!['\r', '\n'] + (x + seq!['\r', '\n'] + tail));
        lemma_lines_crlf(ll, x + seq!['\r', '\n'] + tail);
        lemma_lines_crlf(x, tail);
        assert(statement_lines(st) =~= seq![ll, x] + statement_lines(rest));
        assert(lines(concat_all(bulks(st))) =~= seq![ll] + (seq![x] + lines(tail)));
    }
}

proof fn lemma_xread_word(st: Seq<Seq<char>>)
    requires
        st.len() >= 2,
        st[0] == "xread"@,
    ensures
        command_from_statements(st) == xread_from_statements(st),
{
    reveal_strlit("xread");
    reveal_strlit("ping");
    reveal_strlit("echo");
    reveal_strlit("set");
    reveal_strlit("get");
    reveal_strlit("info");
    reveal_strlit("replconf");
    reveal_strlit("config");
    reveal_strlit("incr");
    reveal_strlit("keys");
    reveal_strlit("multi");
    reveal_strlit("exec");
    reveal_strlit("discard");
    reveal_strlit("type");
    reveal_strlit("xadd");
    reveal_strlit("xrange");
    let x = "xread"@;
    assert(x[0] == 'x');
    assert(x != "ping"@);
    assert(x != "echo"@);
    assert(x != "set"@);
    assert(x != "get"@);
    assert(x != "info"@);
    assert(x != "replconf"@);
    assert(x != "config"@);
    assert(x != "incr"@);
    assert(x != "keys"@);
    assert(x != "multi"@);
    assert(x != "exec"@);
    assert(x != "discard"@);
    assert(x != "type"@);
    assert(x[1] != "xadd"@[1]);
    assert(x != "xadd"@);
    assert(x.len() != "xrange"@.len());
    assert(x != "xrange"@);
}

/// `XREAD BLOCK <ms> STREAMS ...`, read from a request as a client encodes
/// it, blocks for exactly the milliseconds written there, 0 included; an
/// `XREAD` whose second word is not `block` does not block.
pub proof fn lemma_xread_block(st: Seq<Seq<char>>, ms: u64)
    requires
        2 <= st.len() <= usize::MAX,
        forall|i: int| 0 <= i < st.len() ==> has_no(#[trigger] st[i], '\n'),
        st[0] == "xread"@,
    ensures
        st.len() >= 4 && st[1] == "block"@ && st[2] == nat_to_decimal(ms as nat) ==> (parse_lowered(
            request_encoding(st),
        ) matches Some(Ok(CommandView::XRead(c))) && c.blocking == Some(ms)),
        st[1] != "block"@ ==> (parse_lowered(request_encoding(st)) matches Some(Ok(CommandView::XRead(c)))
            && c.blocking is None),
{
    lemma_parse_encoded_request(st);
    lemma_xread_word(st);
    lemma_parse_int_of_decimal(ms as int, 0, u64::MAX as int);
    assert(int_to_decimal(ms as int) == nat_to_decimal(ms as nat));
}

/// Reading back a request as a client encodes it gives the command of
/// its statements, provided no statement holds a line feed.
pub proof fn lemma_parse_encoded_request(st: Seq<Seq<char>>)
    requires
        0 < st.len() <= usize::MAX,
        forall|i: int| 0 <= i < st.len() ==> has_no(#[trigger] st[i], '\n'),
    ensures
        parse_lowered(request_encoding(st)) == match command_from_statements(st) {
            Some(c) => Some(Ok::<CommandView, ()>(c)),
            None => None::<Result<CommandView, ()>>,
        },
{
    let header = seq!['*'] + nat_to_decimal(st.len());
    lemma_nat_to_decimal(st.len());
    assert forall|i: int| 0 <= i < header.len() implies header[i] != '\n' by {
        if i > 0 {
            assert(header[i] == nat_to_decimal(st.len())[i - 1]);
            assert(is_digit(nat_to_decimal(st.len())[i - 1]));
        }
    }
    assert(request_encoding(st) =~= header + seq!['\r', '\n'] + concat_all(bulks(st)));
    lemma_lines_crlf(header, concat_all(bulks(st)));
    lemma_statement_lines(st);
    let ls = lines(request_encoding(st));
    assert(ls == seq![header] + statement_lines(st));
    assert(ls[0] == header);
    assert(header.drop_first() =~= nat_to_decimal(st.len()));
    lemma_parse_int_of_decimal(st.len() as int, 0, usize::MAX as int);
    assert(int_to_decimal(st.len() as int) == nat_to_decimal(st.len()));
    assert(parse_usize_spec(ls[0].drop_first()) == Some(st.len() as usize));
    assert(Seq::new(st.len(), |i: int| ls[2 * i + 2]) =~= st);
}

/// Splits a stream id `<time>-<sequence>` into its two numbers.
pub fn split_id(id: String) -> (r: (Option<isize>, Option<isize>))
    ensures
        r == split_id_spec(id@),
{
    let chars = str_to_chars(id.as_str());
    let parts = split_char(chars.as_slice(), '-');
    proof {
        lemma_split_on_nonempty(chars@, '-');
    }
    assert(view_lines(parts@)[0] == parts@[0]@);
    let first = parse_isize(parts[0].as_slice());
    let second = if parts.len() > 1 {
        assert(view_lines(parts@)[1] == parts@[1]@);
        parse_isize(parts[1].as_slice())
    } else {
        None
    };
    (first, second)
}

impl XRangeStatement {
    /// Reads one end of a range; this never fails.
    pub fn from_str(s: &str) -> (r: Result<XRangeStatement, ParsingError>)
        ensures
            r == Ok::<XRangeStatement, ParsingError>(xrange_statement_spec(s@)),
    {
        if str_eq(s, "-") {
            Ok(XRangeStatement::Negative)
        } else if str_eq(s, "+") {
            Ok(XRangeStatement::Positive)
        } else {
            Ok(XRangeStatement::Id(split_id(s.to_owned())))
        }
    }
}

impl std::str::FromStr for XRangeStatement {
    type Err = ParsingError;

    fn from_str(s: &str) -> (r: Result<XRangeStatement, ParsingError>)
        ensures
            r == Ok::<XRangeStatement, ParsingError>(xrange_statement_spec(s@)),
    {
        XRangeStatement::from_str(s)
    }
}

fn xadd_fields_exec(items: &[String]) -> (r: Vec<(String, String)>)
    ensures
        pairs_view(r@) == xadd_fields(strings_view(items@)),
        unique_keys(pairs_view(r@)),
{
    let mut data: Vec<(String, String)> = Vec::new();
    let mut pending: Option<String> = None;
    let mut i: usize = 0;
    while i < items.len()
        invariant
            i <= items.len(),
            unique_keys(pairs_view(data@)),
            (pairs_view(data@), match pending {
                Some(p) => Some(p@),
                None => None::<Seq<char>>,
            }) == xadd_fields_state(strings_view(items@).take(i as int)),
        decreases items.len() - i,
    {
        let ghost sv = strings_view(items@);
        proof {
            assert(sv.take(i + 1).drop_last() =~= sv.take(i as int));
            assert(sv.take(i + 1).last() == items@[i as int]@);
        }
        let item = &items[i];
        let chars = str_to_chars(item.as_str());
        let parts = split_char(chars.as_slice(), ' ');
        if parts.len() == 2 {
            assert(view_lines(parts@)[0] == parts@[0]@);
            assert(view_lines(parts@)[1] == parts@[1]@);
            let k = chars_to_string(parts[0].as_slice());
            let v = chars_to_string(parts[1].as_slice());
            insert_pair(&mut data, k, v);
        } else {
            match pending {
                None => {
                    pending = Some(item.clone());
                },
                Some(k) => {
                    insert_pair(&mut data, k, item.clone());
                    pending = None;
                },
            }
        }
        i = i + 1;
    }
    assert(strings_view(items@).take(items@.len() as int) =~= strings_view(items@));
    data
}

fn xread_pairs_exec(rest: &[String]) -> (r: Vec<(String, String)>)
    ensures
        pairs_view(r@) == xread_pairs(strings_view(rest@)),
{
    let list: Vec<String> = if rest.len() == 3 {
        let chars = str_to_chars(rest[2].as_str());
        let parts = split_char(chars.as_slice(), ' ');
        let mut l: Vec<String> = Vec::new();
        let mut j: usize = 0;
        while j < parts.len()
            invariant
                j <= parts.len(),
                strings_view(l@) == view_lines(parts@).take(j as int),
            decreases parts.len() - j,
        {
            let ghost old_l = l@;
            let piece = chars_to_string(parts[j].as_slice());
            l.push(piece);
            proof {
                lemma_strings_view_push(old_l, piece);
                assert(view_lines(parts@)[j as int] == parts@[j as int]@);
            }
            j = j + 1;
            assert(strings_view(l@) =~= view_lines(parts@).take(j as int));
        }
        assert(view_lines(parts@).take(parts@.len() as int) =~= view_lines(parts@));
        l
    } else {
        let mut l: Vec<String> = Vec::new();
        let mut j: usize = 0;
        while j < rest.len()
            invariant
                j <= rest.len(),
                strings_view(l@) == strings_view(rest@).take(j as int),
            decreases rest.len() - j,
        {
            let ghost old_l = l@;
            let piece = rest[j].clone();
            l.push(piece);
            proof {
                lemma_strings_view_push(old_l, piece);
            }
            j = j + 1;
            assert(strings_view(l@) =~= strings_view(rest@).take(j as int));
        }
        assert(strings_view(rest@).take(rest@.len() as int) =~= strings_view(rest@));
        l
    };
    let ghost lv = strings_view(list@);
    assert(lv == (if rest@.len() == 3 {
        split_on(strings_view(rest@)[2], ' ')
    } else {
        strings_view(rest@)
    }));
    let half = list.len() / 2;
    let mut pairs: Vec<(String, String)> = Vec::new();
    let mut i: usize = 0;
    while i < half
        invariant
            i <= half,
            half == list@.len() / 2,
            lv == strings_view(list@),
            pairs_view(pairs@) == Seq::new(i as nat, |t: int| (lv[t], lv[half + t])),
        decreases half - i,
    {
        assert(half + i < list.len());
        let ghost old_p = pairs@;
        let p = (list[i].clone(), list[half + i].clone());
        pairs.push(p);
        proof {
            lemma_pairs_view_push(old_p, p);
        }
        i = i + 1;
        assert(pairs_view(pairs@) =~= Seq::new(i as nat, |t: int| (lv[t], lv[half + t])));
    }
    pairs
}

fn strs_of(st: &Vec<String>, from: usize) -> (r: Vec<&str>)
    requires
        from <= st@.len(),
    ensures
        strs_view(r@) == strings_view(st@).skip(from as int),
{
    let mut r: Vec<&str> = Vec::new();
    let mut i: usize = from;
    while i < st.len()
        invariant
            from <= i <= st.len(),
            strs_view(r@) == strings_view(st@).subrange(from as int, i as int),
        decreases st.len() - i,
    {
        let ghost old_r = r@;
        let x = st[i].as_str();
        r.push(x);
        assert(strs_view(r@) =~= strs_view(old_r).push(x@));
        i = i + 1;
        assert(strs_view(r@) =~= strings_view(st@).subrange(from as int, i as int));
    }
    assert(strings_view(st@).subrange(from as int, st@.len() as int) =~= strings_view(st@).skip(from as int));
    r
}

fn skip_strings(st: &Vec<String>, from: usize) -> (r: Vec<String>)
    requires
        from <= st@.len(),
    ensures
        strings_view(r@) == strings_view(st@).skip(from as int),
{
    let mut r: Vec<String> = Vec::new();
    let mut i: usize = from;
    while i < st.len()
        invariant
            from <= i <= st.len(),
            strings_view(r@) == strings_view(st@).subrange(from as int, i as int),
        decreases st.len() - i,
    {
        let ghost old_r = r@;
        let piece = st[i].clone();
        r.push(piece);
        proof {
            lemma_strings_view_push(old_r, piece);
        }
        i = i + 1;
        assert(strings_view(r@) =~= strings_view(st@).subrange(from as int, i as int));
    }
    assert(strings_view(st@).subrange(from as int, st@.len() as int) =~= strings_view(st@).skip(from as int));
    r
}

impl Command {
    /// Reads a request as the server receives it: lower-cased first, then
    /// as [`Command::from_lowercase`] does.
    pub fn new(command_str: &str) -> (r: Result<Command, ParsingError>)
        requires
            parse_request(command_str@) is Some,
        ensures
            parse_request(command_str@) == Some(parse_result_view(r)),
            all_ascii(command_str@) ==> parse_lowered(ascii_lower(command_str@)) == Some(parse_result_view(r)),
    {
        let lowered = to_lowercase(command_str);
        match Self::from_lowercase(lowered.as_str()) {
            Some(r) => r,
            None => {
                assert(false);
                Err(ParsingError)
            },
        }
    }

    /// Reads a request as [`Command::new`] does, and `None` for a request
    /// that cannot be read at all.
    pub fn parse_checked(command_str: &str) -> (r: Option<Result<Command, ParsingError>>)
        ensures
            checked_result_view(r) == parse_request(command_str@),
            all_ascii(command_str@) ==> checked_result_view(r) == parse_lowered(ascii_lower(command_str@)),
    {
        let lowered = to_lowercase(command_str);
        match Self::from_lowercase(lowered.as_str()) {
            Some(_) => Some(Self::new(command_str)),
            None => None,
        }
    }

    /// Reads an already lower-cased request (see [`parse_lowered`]).
    pub fn from_lowercase(lowered: &str) -> (r: Option<Result<Command, ParsingError>>)
        ensures
            checked_result_view(r) == parse_lowered(lowered@),
    {
        let chars = str_to_chars(lowered);
        let ls = split_lines(chars.as_slice());
        let ghost lv = lines(lowered@);
        if ls.len() == 0 {
            return Some(Err(ParsingError));
        }
        assert(lv[0] == ls@[0]@);
        let first = &ls[0];
        if first.len() == 0 || (first[0] as u32) >= 128 {
            return None;
        }
        let n = match parse_usize(slice_skip_first(first.as_slice())) {
            None => {
                return Some(Err(ParsingError));
            },
            Some(n) => n,
        };
        if n > (ls.len() - 1) / 2 {
            return Some(Err(ParsingError));
        }
        assert(2 * n + 1 <= ls.len());
        let mut statements: Vec<String> = Vec::new();
        let mut i: usize = 0;
        while i < n
            invariant
                i <= n,
                2 * n + 1 <= ls@.len(),
                lv == view_lines(ls@),
                strings_view(statements@) == Seq::new(i as nat, |t: int| lv[2 * t + 2]),
            decreases n - i,
        {
            assert(2 * i + 2 < ls.len());
            assert(lv[2 * i + 2] == ls@[2 * i + 2]@);
            let ghost old_s = statements@;
            let piece = chars_to_string(ls[2 * i + 2].as_slice());
            statements.push(piece);
            proof {
                lemma_strings_view_push(old_s, piece);
            }
            i = i + 1;
            assert(strings_view(statements@) =~= Seq::new(i as nat, |t: int| lv[2 * t + 2]));
        }
        assert(request_statements(lowered@) == Some(Ok::<Seq<Seq<char>>, ()>(strings_view(statements@))));
        if n == 0 {
            return Some(Err(ParsingError));
        }
        match Self::from_statements(&statements) {
            Some(c) => Some(Ok(c)),
            None => None,
        }
    }

    /// The command that the statements name (see [`command_from_statements`]).
    pub fn from_statements(st: &Vec<String>) -> (r: Option<Command>)
        requires
            st@.len() > 0,
        ensures
            match r {
                Some(c) => command_from_statements(strings_view(st@)) == Some(c@),
                None => command_from_statements(strings_view(st@)) is None,
            },
    {
        let ghost sv = strings_view(st@);
        assert forall|i: int| 0 <= i < st@.len() implies sv[i] == #[trigger] st@[i]@ by {}
        let len = st.len();
        let w = st[0].as_str();
        if str_eq(w, "ping") {
            Some(Command::Ping)
        } else if str_eq(w, "echo") {
            if len < 2 {
                None
            } else {
                Some(Command::Echo(EchoCommand { echo: st[1].clone() }))
            }
        } else if str_eq(w, "set") {
            if len < 3 {
                None
            } else if len > 3 && str_eq(st[3].as_str(), "px") {
                if len < 5 {
                    None
                } else {
                    Some(Command::SetValue(SetCommand {
                        key: st[1].clone(),
                        value: st[2].clone(),
                        expire_after: Some(st[4].clone()),
                    }))
                }
            } else {
                Some(Command::SetValue(SetCommand {
                    key: st[1].clone(),
                    value: st[2].clone(),
                    expire_after: None,
                }))
            }
        } else if str_eq(w, "get") {
            if len < 2 {
                None
            } else {
                Some(Command::Get(GetCommand { key: st[1].clone() }))
            }
        } else if str_eq(w, "info") {
            Some(Command::Info)
        } else if str_eq(w, "replconf") {
            Some(Command::Replconf)
        } else if str_eq(w, "config") {
            let rest = strs_of(st, 1);
            if rest.len() == 0 {
                return None;
            }
            assert(strs_view(rest@)[0] == rest@[0]@);
            if str_eq(rest[0], "get") && rest.len() < 2 {
                return None;
            }
            Some(Command::Config(ConfigCommand::from_statements(rest.as_slice())))
        } else if str_eq(w, "incr") {
            if len < 2 {
                None
            } else if len > 2 {
                let chars = str_to_chars(st[2].as_str());
                match parse_isize(chars.as_slice()) {
                    Some(step) => Some(Command::Incr(IncrCommand { key: st[1].clone(), step })),
                    None => None,
                }
            } else {
                Some(Command::Incr(IncrCommand { key: st[1].clone(), step: 1 }))
            }
        } else if str_eq(w, "keys") {
            if len < 2 {
                None
            } else {
                Some(Command::Keys(KeysCommand { pattern: st[1].clone() }))
            }
        } else if str_eq(w, "multi") {
            Some(Command::Multi)
        } else if str_eq(w, "exec") {
            Some(Command::Exec)
        } else if str_eq(w, "discard") {
            Some(Command::Discard)
        } else if str_eq(w, "type") {
            if len < 2 {
                None
            } else {
                Some(Command::Type(TypeCommand { key: st[1].clone() }))
            }
        } else if str_eq(w, "xadd") {
            if len < 3 {
                None
            } else {
                let items = skip_strings(st, 3);
                let data = xadd_fields_exec(items.as_slice());
                Some(Command::XAdd(XAddCommand { key: st[1].clone(), id: st[2].clone(), data }))
            }
        } else if str_eq(w, "xrange") {
            if len < 4 {
                None
            } else {
                let start = match XRangeStatement::from_str(st[2].as_str()) {
                    Ok(s) => s,
                    Err(_) => XRangeStatement::Positive,
                };
                let end = match XRangeStatement::from_str(st[3].as_str()) {
                    Ok(s) => s,
                    Err(_) => XRangeStatement::Positive,
                };
                Some(Command::XRange(XRangeCommand {
                    key: st[1].clone(),
                    start_statement: start,
                    end_statement: end,
                }))
            }
        } else if str_eq(w, "xread") {
            if len < 2 {
                None
            } else if str_eq(st[1].as_str(), "block") {
                if len < 4 {
                    None
                } else {
                    let chars = str_to_chars(st[2].as_str());
                    match parse_u64(chars.as_slice()) {
                        None => None,
                        Some(ms) => {
                            let rest = skip_strings(st, 4);
                            let keys = xread_pairs_exec(rest.as_slice());
                            Some(Command::XRead(XReadCommand { keys, blocking: Some(ms) }))
                        },
                    }
                }
            } else {
                let rest = skip_strings(st, 2);
                let keys = xread_pairs_exec(rest.as_slice());
                Some(Command::XRead(XReadCommand { keys, blocking: None }))
            }
        } else {
            Some(Command::Unrecognized)
        }
    }

    /// The number after the first character of a length line such as
    /// `$5` or `*3`.
    pub fn length_statment(statment: &str) -> (r: Result<isize, ParsingError>)
        requires
            statment@.len() > 0,
            (statment@[0] as u32) < 128,
        ensures
            match parse_isize_spec(statment@.drop_first()) {
                Some(v) => r == Ok::<isize, ParsingError>(v),
                None => r is Err,
            },
    {
        let chars = str_to_chars(statment);
        match parse_isize(slice_skip_first(chars.as_slice())) {
            Some(num) => Ok(num),
            None => Err(ParsingError),
        }
    }
}

} // verus!
