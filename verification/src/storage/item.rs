//! Values kept in the store: strings, integers and streams.
use vstd::prelude::*;
use crate::assoc::{lemma_pairs_view_push, pairs_view};
use crate::command_router::{split_id, split_id_spec};
use crate::numbers::{int_to_decimal, push_signed_decimal};
use crate::resp::{array, build_array, build_bulk, bulk, crlf};
use crate::text::push_char;

verus! {

/// One stream entry: its id and its field/value pairs (distinct fields).
#[derive(Debug)]
pub struct StreamDataEntry {
    pub id: String,
    pub data: Vec<(String, String)>,
}

pub struct StreamDataEntryView {
    pub id: Seq<char>,
    pub data: Seq<(Seq<char>, Seq<char>)>,
}

impl View for StreamDataEntry {
    type V = StreamDataEntryView;

    open spec fn view(&self) -> StreamDataEntryView {
        StreamDataEntryView { id: self.id@, data: pairs_view(self.data@) }
    }
}

/// The entries of a stream, oldest first.
#[derive(Debug)]
pub struct StreamData {
    pub value: Vec<StreamDataEntry>,
}

pub open spec fn entries_view(v: Seq<StreamDataEntry>) -> Seq<StreamDataEntryView> {
    v.map_values(|e: StreamDataEntry| e@)
}

impl View for StreamData {
    type V = Seq<StreamDataEntryView>;

    open spec fn view(&self) -> Seq<StreamDataEntryView> {
        entries_view(self.value@)
    }
}

#[derive(Debug)]
pub enum Item {
    SimpleString(String),
    Numeric(isize),
    Stream(StreamData),
}

pub enum ItemView {
    SimpleString(Seq<char>),
    Numeric(isize),
    Stream(Seq<StreamDataEntryView>),
}

impl View for Item {
    type V = ItemView;

    open spec fn view(&self) -> ItemView {
        match self {
            Item::SimpleString(s) => ItemView::SimpleString(s@),
            Item::Numeric(n) => ItemView::Numeric(*n),
            Item::Stream(d) => ItemView::Stream(d@),
        }
    }
}

pub proof fn lemma_entries_view_push(v: Seq<StreamDataEntry>, e: StreamDataEntry)
    ensures
        entries_view(v.push(e)) == entries_view(v).push(e@),
{
    assert(entries_view(v.push(e)) =~= entries_view(v).push(e@));
}

/// A copy of a list of field/value pairs.
pub fn clone_pairs(v: &Vec<(String, String)>) -> (r: Vec<(String, String)>)
    ensures
        pairs_view(r@) == pairs_view(v@),
{
    let mut r: Vec<(String, String)> = Vec::new();
    let mut i: usize = 0;
    while i < v.len()
        invariant
            i <= v.len(),
            pairs_view(r@) == pairs_view(v@).take(i as int),
        decreases v.len() - i,
    {
        let ghost old_r = r@;
        let p = (v[i].0.clone(), v[i].1.clone());
        r.push(p);
        proof {
            lemma_pairs_view_push(old_r, p);
        }
        i = i + 1;
        assert(pairs_view(r@) =~= pairs_view(v@).take(i as int));
    }
    assert(pairs_view(v@).take(v@.len() as int) =~= pairs_view(v@));
    r
}

/// A copy of a list of stream entries.
pub fn clone_entries(v: &Vec<StreamDataEntry>) -> (r: Vec<StreamDataEntry>)
    ensures
        entries_view(r@) == entries_view(v@),
{
    let mut r: Vec<StreamDataEntry> = Vec::new();
    let mut i: usize = 0;
    while i < v.len()
        invariant
            i <= v.len(),
            entries_view(r@) == entries_view(v@).take(i as int),
        decreases v.len() - i,
    {
        let ghost old_r = r@;
        let e = v[i].duplicate();
        r.push(e);
        proof {
            lemma_entries_view_push(old_r, e);
        }
        i = i + 1;
        assert(entries_view(r@) =~= entries_view(v@).take(i as int));
    }
    assert(entries_view(v@).take(v@.len() as int) =~= entries_view(v@));
    r
}

/// The id of an entry split into its time and sequence numbers, where
/// both are numbers.
pub open spec fn entry_id_parts(id: Seq<char>) -> Option<(isize, isize)> {
    match split_id_spec(id) {
        (Some(a), Some(b)) => Some((a, b)),
        _ => None,
    }
}

/// The fields of an entry: each field and its value as bulk strings.
pub open spec fn fields_body(data: Seq<(Seq<char>, Seq<char>)>) -> Seq<char>
    decreases data.len(),
{
    if data.len() == 0 {
        seq![]
    } else {
        fields_body(data.drop_last()) + bulk(data.last().0) + bulk(data.last().1)
    }
}

/// An entry as a reply: an array of its id and an array of its fields.
pub open spec fn entry_reply(e: StreamDataEntryView) -> Seq<char> {
    array(bulk(e.id) + array(fields_body(e.data)))
}

/// The replies of some entries, one after the other.
pub open spec fn entries_body(es: Seq<StreamDataEntryView>) -> Seq<char>
    decreases es.len(),
{
    if es.len() == 0 {
        seq![]
    } else {
        entries_body(es.drop_last()) + entry_reply(es.last())
    }
}

/// A list of entries as a reply: an array of the entries.
pub open spec fn entries_reply(es: Seq<StreamDataEntryView>) -> Seq<char> {
    array(entries_body(es))
}

/// The reply that an item is sent as.
pub open spec fn item_reply(i: ItemView) -> Seq<char> {
    match i {
        ItemView::SimpleString(s) => bulk(s),
        ItemView::Numeric(n) => seq![':'] + int_to_decimal(n as int) + crlf(),
        ItemView::Stream(es) => entries_reply(es),
    }
}

pub open spec fn item_type_name(i: ItemView) -> Seq<char> {
    match i {
        ItemView::SimpleString(_) => "string"@,
        ItemView::Numeric(_) => "number"@,
        ItemView::Stream(_) => "stream"@,
    }
}

impl StreamDataEntry {
    /// A copy of this entry.
    pub fn duplicate(&self) -> (r: StreamDataEntry)
        ensures
            r@ == self@,
    {
        StreamDataEntry { id: self.id.clone(), data: clone_pairs(&self.data) }
    }

    /// The time and sequence numbers of the id, where both parse.
    pub fn split_id(&self) -> (r: Option<(isize, isize)>)
        ensures
            r == entry_id_parts(self.id@),
    {
        match split_id(self.id.clone()) {
            (Some(a), Some(b)) => Some((a, b)),
            _ => None,
        }
    }

    /// This entry encoded as a reply.
    pub fn build_bulk(&self) -> (r: String)
        ensures
            r@ == entry_reply(self@),
    {
        let mut body = String::new();
        let mut i: usize = 0;
        let ghost dv = pairs_view(self.data@);
        while i < self.data.len()
            invariant
                i <= self.data.len(),
                dv == pairs_view(self.data@),
                body@ == fields_body(dv.take(i as int)),
            decreases self.data.len() - i,
        {
            let k = build_bulk(self.data[i].0.clone());
            let v = build_bulk(self.data[i].1.clone());
            body.append(k.as_str());
            body.append(v.as_str());
            i = i + 1;
            assert(dv.take(i as int).drop_last() =~= dv.take(i - 1));
        }
        assert(dv.take(dv.len() as int) =~= dv);
        let inner = build_array(body);
        let mut outer = build_bulk(self.id.clone());
        outer.append(inner.as_str());
        build_array(outer)
    }
}

/// Encodes a list of entries as an array of entry replies.
pub fn build_entries(es: &Vec<StreamDataEntry>) -> (r: String)
    ensures
        r@ == entries_reply(entries_view(es@)),
{
    let mut body = String::new();
    let mut i: usize = 0;
    let ghost ev = entries_view(es@);
    while i < es.len()
        invariant
            i <= es.len(),
            ev == entries_view(es@),
            body@ == entries_body(ev.take(i as int)),
        decreases es.len() - i,
    {
        let e = es[i].build_bulk();
        body.append(e.as_str());
        i = i + 1;
        assert(ev.take(i as int).drop_last() =~= ev.take(i - 1));
    }
    assert(ev.take(ev.len() as int) =~= ev);
    build_array(body)
}

impl Item {
    /// A copy of this item.
    pub fn duplicate(&self) -> (r: Item)
        ensures
            r@ == self@,
    {
        match self {
            Item::SimpleString(s) => Item::SimpleString(s.clone()),
            Item::Numeric(n) => Item::Numeric(*n),
            Item::Stream(d) => Item::Stream(StreamData { value: clone_entries(&d.value) }),
        }
    }

    /// The reply for this item: a bulk string, an integer reply
    /// `:<n>\r\n`, or an array of stream entries.
    pub fn build_response_string(&self) -> (r: String)
        ensures
            r@ == item_reply(self@),
    {
        match self {
            Item::SimpleString(s) => build_bulk(s.clone()),
            Item::Numeric(n) => {
                let mut r = String::new();
                push_char(&mut r, ':');
                push_signed_decimal(&mut r, *n as i128);
                push_char(&mut r, '\r');
                push_char(&mut r, '\n');
                assert(r@ =~= item_reply(self@));
                r
            },
            Item::Stream(d) => build_entries(&d.value),
        }
    }

    /// The name of the item's type.
    pub fn get_type_string(&self) -> (r: String)
        ensures
            r@ == item_type_name(self@),
    {
        match self {
            Item::SimpleString(_) => String::from_str("string"),
            Item::Numeric(_) => String::from_str("number"),
            Item::Stream(_) => String::from_str("stream"),
        }
    }
}

} // verus!
