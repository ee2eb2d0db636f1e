//! Encoding replies in the Redis serialization protocol (RESP).
use vstd::prelude::*;
use vstd::string::*;
use vstd::utf8::{encode_utf8, is_ascii_chars, is_ascii_chars_encode_utf8};
use crate::numbers::{lemma_nat_to_decimal, nat_to_decimal, push_decimal};
use crate::text::{has_no, push_char};

verus! {

pub open spec fn crlf() -> Seq<char> {
    seq!['\r', '\n']
}

/// Number of bytes in the UTF-8 encoding of `s`, as `str::len` reports it
/// (a string in memory never holds more than `usize::MAX` bytes).
pub open spec fn utf8_len(s: Seq<char>) -> nat {
    (encode_utf8(s).len() as usize) as nat
}

/// How often `c` occurs in `s`.
pub open spec fn count_char(s: Seq<char>, c: char) -> nat
    decreases s.len(),
{
    if s.len() == 0 {
        0
    } else {
        count_char(s.drop_last(), c) + if s.last() == c {
            1nat
        } else {
            0nat
        }
    }
}

/// A bulk string: `$<byte length>\r\n<content>\r\n`.
pub open spec fn bulk(content: Seq<char>) -> Seq<char> {
    seq!['$'] + nat_to_decimal(utf8_len(content)) + crlf() + content + crlf()
}

/// An array header counting the `$` signs of the already-encoded body,
/// followed by the body: `*<count>\r\n<content>`.
pub open spec fn array(content: Seq<char>) -> Seq<char> {
    seq!['*'] + nat_to_decimal(count_char(content, '$')) + crlf() + content
}

/// The concatenation of all the strings in `ss`, in order.
pub open spec fn concat_all(ss: Seq<Seq<char>>) -> Seq<char>
    decreases ss.len(),
{
    if ss.len() == 0 {
        seq![]
    } else {
        concat_all(ss.drop_last()) + ss.last()
    }
}

/// Each string as a bulk string.
pub open spec fn bulks(ks: Seq<Seq<char>>) -> Seq<Seq<char>> {
    ks.map_values(|k: Seq<char>| bulk(k))
}

pub proof fn lemma_concat_all_front(ss: Seq<Seq<char>>)
    requires
        ss.len() > 0,
    ensures
        concat_all(ss) == ss[0] + concat_all(ss.drop_first()),
    decreases ss.len(),
{
    if ss.len() == 1 {
        assert(ss.drop_first() =~= Seq::<Seq<char>>::empty());
        assert(ss.drop_last() =~= Seq::<Seq<char>>::empty());
        assert(concat_all(ss.drop_last()) =~= Seq::<char>::empty());
        assert(ss.last() == ss[0]);
        assert(concat_all(ss) =~= ss[0]);
        assert(ss[0] + concat_all(ss.drop_first()) =~= ss[0]);
    } else {
        lemma_concat_all_front(ss.drop_last());
        assert(ss.drop_last().drop_first() =~= ss.drop_first().drop_last());
        assert(ss.drop_first().last() == ss.last());
        assert(ss.drop_last()[0] == ss[0]);
        assert(concat_all(ss) =~= ss[0] + concat_all(ss.drop_first()));
    }
}

pub proof fn lemma_count_char_concat(a: Seq<char>, b: Seq<char>, c: char)
    ensures
        count_char(a + b, c) == count_char(a, c) + count_char(b, c),
    decreases b.len(),
{
    if b.len() == 0 {
        assert(a + b =~= a);
    } else {
        lemma_count_char_concat(a, b.drop_last(), c);
        assert((a + b).drop_last() =~= a + b.drop_last());
    }
}

pub proof fn lemma_count_char_absent(s: Seq<char>, c: char)
    requires
        has_no(s, c),
    ensures
        count_char(s, c) == 0,
    decreases s.len(),
{
    if s.len() > 0 {
        lemma_count_char_absent(s.drop_last(), c);
    }
}

/// A bulk string of a content without `$` holds one `$`: its own.
pub proof fn lemma_count_bulk(x: Seq<char>)
    requires
        has_no(x, '$'),
    ensures
        count_char(bulk(x), '$') == 1,
{
    let d = nat_to_decimal(utf8_len(x));
    lemma_nat_to_decimal(utf8_len(x));
    assert(has_no(d, '$'));
    lemma_count_char_absent(d, '$');
    lemma_count_char_absent(x, '$');
    lemma_count_char_absent(crlf(), '$');
    let dollar = seq!['$'];
    assert(dollar.drop_last() =~= Seq::<char>::empty());
    assert(count_char(dollar.drop_last(), '$') == 0);
    assert(dollar.last() == '$');
    assert(count_char(dollar, '$') == 1);
    lemma_count_char_concat(seq!['$'], d, '$');
    lemma_count_char_concat(seq!['$'] + d, crlf(), '$');
    lemma_count_char_concat(seq!['$'] + d + crlf(), x, '$');
    lemma_count_char_concat(seq!['$'] + d + crlf() + x, crlf(), '$');
}

proof fn lemma_count_bulks(items: Seq<Seq<char>>)
    requires
        forall|i: int| 0 <= i < items.len() ==> has_no(#[trigger] items[i], '$'),
    ensures
        count_char(concat_all(bulks(items)), '$') == items.len(),
    decreases items.len(),
{
    if items.len() == 0 {
        assert(bulks(items) =~= Seq::<Seq<char>>::empty());
    } else {
        let init = items.drop_last();
        assert forall|i: int| 0 <= i < init.len() implies has_no(#[trigger] init[i], '$') by {
            assert(init[i] == items[i]);
        }
        lemma_count_bulks(init);
        assert(bulks(items).drop_last() =~= bulks(init));
        assert(bulks(items).last() == bulk(items[items.len() - 1]));
        lemma_count_bulk(items[items.len() - 1]);
        lemma_count_char_concat(concat_all(bulks(init)), bulk(items[items.len() - 1]), '$');
    }
}

/// An array of bulk strings whose contents hold no `$` carries the number
/// of those strings in its header.
pub proof fn lemma_array_of_bulks(items: Seq<Seq<char>>)
    requires
        forall|i: int| 0 <= i < items.len() ==> has_no(#[trigger] items[i], '$'),
    ensures
        array(concat_all(bulks(items))) == seq!['*'] + nat_to_decimal(items.len()) + crlf() + concat_all(bulks(items)),
{
    lemma_count_bulks(items);
}

/// A bulk string of ASCII content shorter than 100 characters: its
/// length is the content's, plus `$`, one or two digits and two line ends.
pub proof fn lemma_bulk_len_ascii(x: Seq<char>)
    requires
        is_ascii_chars(x),
        x.len() < 100,
    ensures
        bulk(x).len() == x.len() + if x.len() < 10 { 6int } else { 7int },
{
    is_ascii_chars_encode_utf8(x);
    let n = utf8_len(x);
    assert(n == x.len());
    if n >= 10 {
        assert(nat_to_decimal(n / 10).len() == 1);
    }
}

pub open spec fn strings_view(v: Seq<String>) -> Seq<Seq<char>> {
    v.map_values(|s: String| s@)
}

pub proof fn lemma_strings_view_push(v: Seq<String>, x: String)
    ensures
        strings_view(v.push(x)) == strings_view(v).push(x@),
{
    assert(strings_view(v.push(x)) =~= strings_view(v).push(x@));
}

fn push_crlf(s: &mut String)
    ensures
        final(s)@ == old(s)@ + crlf(),
{
    push_char(s, '\r');
    push_char(s, '\n');
    assert(s@ =~= old(s)@ + crlf());
}

/// Encodes `content` as a RESP bulk string.
pub fn build_bulk(content: String) -> (r: String)
    ensures
        r@ == bulk(content@),
{
    let st = content.as_str();
    let n = st.len();
    assert(st@ == content@);
    let mut s = String::new();
    push_char(&mut s, '$');
    push_decimal(&mut s, n as u128);
    push_crlf(&mut s);
    s.append(content.as_str());
    push_crlf(&mut s);
    assert(s@ =~= bulk(content@));
    s
}

/// Counts the `$` signs of `content` and prefixes it with a RESP array
/// header carrying that count.
pub fn build_array(content: String) -> (r: String)
    ensures
        r@ == array(content@),
{
    let chars = crate::text::str_to_chars(content.as_str());
    let mut count: usize = 0;
    let mut i: usize = 0;
    while i < chars.len()
        invariant
            i <= chars.len(),
            count == count_char(chars@.take(i as int), '$'),
            count <= i,
        decreases chars.len() - i,
    {
        assert(chars@.take(i + 1).drop_last() =~= chars@.take(i as int));
        if chars[i] == '$' {
            count = count + 1;
        }
        i = i + 1;
    }
    assert(chars@.take(chars@.len() as int) =~= chars@);
    let mut s = String::new();
    push_char(&mut s, '*');
    push_decimal(&mut s, count as u128);
    push_crlf(&mut s);
    s.append(content.as_str());
    assert(s@ =~= array(content@));
    s
}

/// All strings of `v` joined with nothing in between.
pub fn concat_strings(v: &Vec<String>) -> (r: String)
    ensures
        r@ == concat_all(strings_view(v@)),
{
    let mut s = String::new();
    let mut i: usize = 0;
    while i < v.len()
        invariant
            i <= v.len(),
            s@ == concat_all(strings_view(v@).take(i as int)),
        decreases v.len() - i,
    {
        s.append(v[i].as_str());
        i = i + 1;
        assert(strings_view(v@).take(i as int).drop_last() =~= strings_view(v@).take(i - 1));
    }
    assert(strings_view(v@).take(v@.len() as int) =~= strings_view(v@));
    s
}

} // verus!
