//! The bencode decoder: a recursive-descent parser over a byte slice,
//! verified against the grammar in [`crate::grammar`].
//!
//! [`decode`] reads one value, keeping string values as raw bytes (a torrent's
//! piece hashes are not text); [`decode_text`] additionally requires every
//! string value to be valid UTF-8.  Dictionary keys are decoded as text under
//! both.  [`Decoder`] exposes the same two operations over an explicit cursor.

use crate::grammar;
use crate::grammar::BencodeView;
pub use crate::grammar::ParseError;
use vstd::prelude::*;
use vstd::utf8::decode_utf8;
use vstd::utf8::valid_utf8;

verus! {

/// A decoded bencode value.  The tree owns all its data: the input buffer can
/// be dropped as soon as a decode returns.
///
/// A dictionary is kept as its entries in order of first insertion, the keys
/// distinct; a duplicate key in the input silently overwrites the earlier
/// value in place (last write wins).
#[derive(PartialEq, Eq, Debug)]
pub enum Bencode {
    /// A signed 64-bit integer.
    Int(i64),
    /// An arbitrary byte string, not required to be valid text.
    Str(Vec<u8>),
    /// An order-preserving list of values.
    List(Vec<Bencode>),
    /// A dictionary from text keys to values.
    Dict(Vec<(String, Bencode)>),
}

/// The view of a value: the same tree with every `Vec` a `Seq`, every
/// `String` a `Seq<char>` and every integer its mathematical value.
pub open spec fn value_view(value: Bencode) -> BencodeView
    decreases value, 0int,
    via value_view_decreases
{
    match value {
        Bencode::Int(i) => BencodeView::Int(i),
        Bencode::Str(s) => BencodeView::Str(s@),
        Bencode::List(l) => BencodeView::List(items_view(l@)),
        Bencode::Dict(d) => BencodeView::Dict(entries_view(d@)),
    }
}

/// The views of a sequence of list elements, in order.
pub open spec fn items_view(items: Seq<Bencode>) -> Seq<BencodeView>
    decreases items, 1int,
    via items_view_decreases
{
    if items.len() == 0 {
        Seq::empty()
    } else {
        items_view(items.drop_last()).push(value_view(items.last()))
    }
}

/// The views of a sequence of dictionary entries, in order.
pub open spec fn entries_view(entries: Seq<(String, Bencode)>) -> Seq<(Seq<char>, BencodeView)>
    decreases entries, 1int,
    via entries_view_decreases
{
    if entries.len() == 0 {
        Seq::empty()
    } else {
        entries_view(entries.drop_last()).push(
            (entries.last().0@, value_view(entries.last().1)),
        )
    }
}

/// A `Vec` field's sequence stands below the value that holds the `Vec`.
#[via_fn]
proof fn value_view_decreases(value: Bencode) {
    match value {
        Bencode::List(l) => {
            assert(decreases_to!(value => l));
            assert(decreases_to!(l => l@));
        },
        Bencode::Dict(d) => {
            assert(decreases_to!(value => d));
            assert(decreases_to!(d => d@));
        },
        _ => {},
    }
}

/// Both the last element and the sequence without it stand below the
/// sequence itself.
#[via_fn]
proof fn items_view_decreases(items: Seq<Bencode>) {
    if items.len() != 0 {
        assert(decreases_to!(items => items.subrange(0, items.len() - 1)));
        assert(decreases_to!(items => items[items.len() - 1]));
    }
}

/// As for list elements: the entry taken and the rest both stand below the
/// entry sequence, and a pair stands above its parts.
#[via_fn]
proof fn entries_view_decreases(entries: Seq<(String, Bencode)>) {
    if entries.len() != 0 {
        assert(decreases_to!(entries => entries.subrange(0, entries.len() - 1)));
        assert(decreases_to!(entries => entries[entries.len() - 1]));
        assert(decreases_to!(entries[entries.len() - 1] => entries[entries.len() - 1].1));
    }
}

impl View for Bencode {
    type V = BencodeView;

    open spec fn view(&self) -> BencodeView {
        value_view(*self)
    }
}

/// [`entries_view`] maps the sequence entry by entry.
pub proof fn lemma_entries_view_index(entries: Seq<(String, Bencode)>)
    ensures
        entries_view(entries).len() == entries.len(),
        forall|i: int|
            0 <= i < entries.len() ==> entries_view(entries)[i] == (
                entries[i].0@,
                value_view(entries[i].1),
            ),
    decreases entries.len(),
{
    if entries.len() != 0 {
        lemma_entries_view_index(entries.drop_last());
    }
}

/// Relies on `alloc`'s `String::from_utf8`: it returns `Ok` exactly when the
/// bytes are a valid UTF-8 encoding, and then the string's characters are the
/// decoded scalar values of those bytes.
#[verifier::external_body]
fn utf8_to_string(bytes: Vec<u8>) -> (r: Option<String>)
    ensures
        r is Some <==> valid_utf8(bytes@),
        r matches Some(s) ==> s@ == decode_utf8(bytes@),
{
    match String::from_utf8(bytes) {
        Ok(s) => Some(s),
        Err(_) => None,
    }
}

/// Relies on `core`'s `str::from_utf8`: it returns `Ok` exactly when the
/// bytes are a valid UTF-8 encoding.
#[verifier::external_body]
fn utf8_is_valid(bytes: &[u8]) -> (r: bool)
    ensures
        r <==> valid_utf8(bytes@),
{
    core::str::from_utf8(bytes).is_ok()
}

/// Put `key -> value` into the entries with last write wins: a key already
/// present keeps its place and has its value overwritten, a new key is
/// appended.
#[verifier::loop_isolation(false)]
fn dict_insert(entries: &mut Vec<(String, Bencode)>, key: String, value: Bencode)
    ensures
        entries_view(final(entries)@) == grammar::upsert(
            entries_view(old(entries)@),
            key@,
            value@,
        ),
{
    let n = entries.len();
    let mut i: usize = 0;
    while i < n
        invariant
            i <= n,
            *entries == *old(entries),
            forall|j: int| 0 <= j < i ==> entries@[j].0@ != key@,
        decreases n - i,
    {
        if entries[i].0 == key {
            proof {
                lemma_entries_view_index(entries@);
                grammar::lemma_upsert_found(entries_view(entries@), key@, value@, i as int);
            }
            entries[i] = (key, value);
            proof {
                lemma_entries_view_index(entries@);
                assert(entries_view(entries@) =~= entries_view(old(entries)@).update(
                    i as int,
                    (key@, value@),
                ));
            }
            return;
        }
        i += 1;
    }
    proof {
        lemma_entries_view_index(entries@);
        grammar::lemma_upsert_new(entries_view(entries@), key@, value@);
    }
    entries.push((key, value));
    proof {
        lemma_entries_view_index(entries@);
        assert(entries_view(entries@) =~= entries_view(old(entries)@).push((key@, value@)));
    }
}

/// The byte-string production: a digit run, `':'`, then exactly that many
/// raw bytes, which are copied out of the buffer.  `pos` stands on the first
/// length digit (or directly on the `':'` for a zero-length string).
#[verifier::loop_isolation(false)]
fn parse_str(stream: &[u8], pos: usize) -> (r: Result<(Vec<u8>, usize), (ParseError, usize)>)
    requires
        pos <= stream@.len(),
    ensures
        match grammar::parse_str(stream@, pos as int) {
            Ok((bytes, end)) => r matches Ok((b, p)) && b@ == bytes && p as int == end && pos < p
                <= stream@.len(),
            Err((e, ep)) => r matches Err((e2, p2)) && e2 == e && p2 as int == ep && ep
                <= stream@.len(),
        },
{
    let n = stream.len();
    let mut i: usize = pos;
    let mut size: usize = 0;
    while i < n && stream[i] != grammar::COLON
        invariant
            pos <= i <= n,
            grammar::parse_len_digits(stream@, pos as int, 0) == grammar::parse_len_digits(
                stream@,
                i as int,
                size,
            ),
        decreases n - i,
    {
        if !(grammar::DIGIT_ZERO <= stream[i] && stream[i] <= grammar::DIGIT_NINE) {
            return Err((ParseError::InvalidByte(i), i));
        }
        size = size.wrapping_mul(10).wrapping_add((stream[i] - grammar::DIGIT_ZERO) as usize);
        i += 1;
    }
    if i == n {
        return Err((ParseError::UnexpectedEndOfStream, i));
    }
    let body = i + 1;
    if size > n - body {
        return Err((ParseError::UnexpectedEndOfStream, body));
    }
    let bytes = vstd::slice::slice_to_vec(vstd::slice::slice_subrange(stream, body, body + size));
    Ok((bytes, body + size))
}

/// The integer production: past the leading `'i'`, an optional `'-'`, a
/// digit run accumulated with wrapping arithmetic, and the terminating
/// `'e'`.
#[verifier::loop_isolation(false)]
fn parse_int(stream: &[u8], pos: usize) -> (r: Result<(i64, usize), (ParseError, usize)>)
    requires
        pos < stream@.len(),
        stream@[pos as int] == grammar::TAG_INT,
    ensures
        match grammar::parse_int(stream@, pos + 1) {
            Ok((value, end)) => r matches Ok((v, p)) && v == value && p as int == end && pos < p
                <= stream@.len(),
            Err((e, ep)) => r matches Err((e2, p2)) && e2 == e && p2 as int == ep && ep
                <= stream@.len(),
        },
{
    let n = stream.len();
    let mut i: usize = pos + 1;
    if i >= n {
        return Err((ParseError::UnexpectedEndOfStream, i));
    }
    let negative = stream[i] == grammar::MINUS;
    if negative {
        i += 1;
    }
    let ghost digits_start: int = i as int;
    let mut value: i64 = 0;
    while i < n && stream[i] != grammar::TAG_END
        invariant
            digits_start <= i <= n,
            grammar::parse_int_digits(stream@, digits_start, 0) == grammar::parse_int_digits(
                stream@,
                i as int,
                value,
            ),
        decreases n - i,
    {
        if !(grammar::DIGIT_ZERO <= stream[i] && stream[i] <= grammar::DIGIT_NINE) {
            return Err((ParseError::InvalidByte(i), i));
        }
        value = value.wrapping_mul(10).wrapping_add((stream[i] - grammar::DIGIT_ZERO) as i64);
        i += 1;
    }
    if i == n {
        return Err((ParseError::UnexpectedEndOfStream, i));
    }
    if negative {
        value = (0i64).wrapping_sub(value);
    }
    Ok((value, i + 1))
}

/// The list production: past the leading `'l'`, one value after another
/// until the terminating `'e'`.
#[verifier::loop_isolation(false)]
fn parse_list(stream: &[u8], pos: usize, check_text: bool) -> (r: Result<
    (Bencode, usize),
    (ParseError, usize),
>)
    requires
        pos < stream@.len(),
        stream@[pos as int] == grammar::TAG_LIST,
    ensures
        match grammar::parse_items(stream@, pos + 1, check_text, Seq::<BencodeView>::empty()) {
            Ok((items, end)) => r matches Ok((b, p)) && b@ == BencodeView::List(items) && p
                as int == end && pos < p <= stream@.len(),
            Err((e, ep)) => r matches Err((e2, p2)) && e2 == e && p2 as int == ep && ep
                <= stream@.len(),
        },
    decreases stream@.len() - pos, 0int,
{
    let n = stream.len();
    let mut items: Vec<Bencode> = Vec::new();
    let mut i: usize = pos + 1;
    while i < n && stream[i] != grammar::TAG_END
        invariant
            pos < i <= n,
            grammar::parse_items(stream@, pos + 1, check_text, Seq::<BencodeView>::empty())
                == grammar::parse_items(stream@, i as int, check_text, items_view(items@)),
        decreases n - i,
    {
        match parse(stream, i, check_text) {
            Ok((value, next)) => {
                proof {
                    assert(items@.push(value).drop_last() =~= items@);
                    assert(items_view(items@.push(value)) =~= items_view(items@).push(value@));
                }
                items.push(value);
                i = next;
            },
            Err(e) => {
                return Err(e);
            },
        }
    }
    if i == n {
        return Err((ParseError::UnexpectedEndOfStream, i));
    }
    Ok((Bencode::List(items), i + 1))
}

/// The dictionary production: past the leading `'d'`, a key string and a
/// value in turn until the terminating `'e'`.  A key is parsed by the
/// validating string production — bytes that do not decode as UTF-8 text
/// fail with `InvalidUtf8` before the value after them is looked at — and
/// duplicate keys silently overwrite the earlier value.
#[verifier::loop_isolation(false)]
fn parse_dict(stream: &[u8], pos: usize, check_text: bool) -> (r: Result<
    (Bencode, usize),
    (ParseError, usize),
>)
    requires
        pos < stream@.len(),
        stream@[pos as int] == grammar::TAG_DICT,
    ensures
        match grammar::parse_entries(
            stream@,
            pos + 1,
            check_text,
            Seq::<(Seq<char>, BencodeView)>::empty(),
        ) {
            Ok((entries, end)) => r matches Ok((b, p)) && b@ == BencodeView::Dict(entries) && p
                as int == end && pos < p <= stream@.len(),
            Err((e, ep)) => r matches Err((e2, p2)) && e2 == e && p2 as int == ep && ep
                <= stream@.len(),
        },
    decreases stream@.len() - pos, 0int,
{
    let n = stream.len();
    let mut entries: Vec<(String, Bencode)> = Vec::new();
    let mut i: usize = pos + 1;
    while i < n && stream[i] != grammar::TAG_END
        invariant
            pos < i <= n,
            grammar::parse_entries(
                stream@,
                pos + 1,
                check_text,
                Seq::<(Seq<char>, BencodeView)>::empty(),
            ) == grammar::parse_entries(stream@, i as int, check_text, entries_view(entries@)),
        decreases n - i,
    {
        let (key_bytes, key_end) = match parse_str(stream, i) {
            Ok(k) => k,
            Err(e) => {
                return Err(e);
            },
        };
        let key = match utf8_to_string(key_bytes) {
            Some(k) => k,
            None => {
                return Err((ParseError::InvalidUtf8, key_end));
            },
        };
        let (value, value_end) = match parse(stream, key_end, check_text) {
            Ok(v) => v,
            Err(e) => {
                return Err(e);
            },
        };
        dict_insert(&mut entries, key, value);
        i = value_end;
    }
    if i == n {
        return Err((ParseError::UnexpectedEndOfStream, i));
    }
    Ok((Bencode::Dict(entries), i + 1))
}

/// One bencode value at `pos`, dispatched on the byte found there.  With
/// `check_text`, string values must in addition be valid UTF-8.
fn parse(stream: &[u8], pos: usize, check_text: bool) -> (r: Result<
    (Bencode, usize),
    (ParseError, usize),
>)
    requires
        pos <= stream@.len(),
    ensures
        match grammar::parse_value(stream@, pos as int, check_text) {
            Ok((value, end)) => r matches Ok((b, p)) && b@ == value && p as int == end && pos < p
                <= stream@.len(),
            Err((e, ep)) => r matches Err((e2, p2)) && e2 == e && p2 as int == ep && ep
                <= stream@.len(),
        },
    decreases stream@.len() - pos, 1int,
{
    if pos >= stream.len() {
        return Err((ParseError::UnexpectedEndOfStream, pos));
    }
    let tag = stream[pos];
    if tag == grammar::TAG_DICT {
        parse_dict(stream, pos, check_text)
    } else if tag == grammar::TAG_LIST {
        parse_list(stream, pos, check_text)
    } else if tag == grammar::TAG_INT {
        match parse_int(stream, pos) {
            Ok((value, end)) => Ok((Bencode::Int(value), end)),
            Err(e) => Err(e),
        }
    } else if grammar::DIGIT_ZERO <= tag && tag <= grammar::DIGIT_NINE {
        match parse_str(stream, pos) {
            Ok((bytes, end)) => {
                if check_text && !utf8_is_valid(bytes.as_slice()) {
                    Err((ParseError::InvalidUtf8, end))
                } else {
                    Ok((Bencode::Str(bytes), end))
                }
            },
            Err(e) => Err(e),
        }
    } else {
        Err((ParseError::InvalidByte(pos), pos))
    }
}

impl Bencode {
    /// The integer value, when this is a `Bencode::Int`.
    pub fn as_int(&self) -> (r: Option<i64>)
        ensures
            r == (match *self {
                Bencode::Int(i) => Some(i),
                _ => None::<i64>,
            }),
    {
        match self {
            Bencode::Int(i) => Some(*i),
            _ => None,
        }
    }

    /// The raw bytes, when this is a `Bencode::Str`.
    pub fn as_bytes(&self) -> (r: Option<&Vec<u8>>)
        ensures
            match *self {
                Bencode::Str(s) => r matches Some(b) && b@ == s@,
                _ => r is None,
            },
    {
        match self {
            Bencode::Str(s) => Some(s),
            _ => None,
        }
    }

    /// The elements, when this is a `Bencode::List`.
    pub fn as_list(&self) -> (r: Option<&Vec<Bencode>>)
        ensures
            match *self {
                Bencode::List(l) => r matches Some(b) && b@ == l@,
                _ => r is None,
            },
    {
        match self {
            Bencode::List(l) => Some(l),
            _ => None,
        }
    }

    /// The entries, when this is a `Bencode::Dict`.
    pub fn as_dict(&self) -> (r: Option<&Vec<(String, Bencode)>>)
        ensures
            match *self {
                Bencode::Dict(d) => r matches Some(b) && b@ == d@,
                _ => r is None,
            },
    {
        match self {
            Bencode::Dict(d) => Some(d),
            _ => None,
        }
    }
}

/// A decoder over a byte buffer: the buffer and a cursor, which starts at 0,
/// stops just past each value read, and on a failure stands at the offset
/// where the error was detected.  Bytes past the cursor are never looked at.
pub struct Decoder<'a> {
    stream: &'a [u8],
    pos: usize,
}

impl<'a> Decoder<'a> {
    /// The bytes being decoded.
    pub closed spec fn spec_stream(self) -> Seq<u8> {
        self.stream@
    }

    /// The cursor: the offset of the next byte to read.
    pub closed spec fn spec_pos(self) -> int {
        self.pos as int
    }

    /// A decoder over `stream`, with its cursor at the start.
    pub fn new(stream: &'a [u8]) -> (d: Decoder<'a>)
        ensures
            d.spec_stream() == stream@,
            d.spec_pos() == 0,
    {
        Decoder { stream, pos: 0 }
    }

    /// One value from the cursor on, with string values kept as raw bytes.
    /// On success the cursor ends just past the value; on an error it stands
    /// at the offset where the error was detected.
    pub fn decode(&mut self) -> (r: Result<Bencode, ParseError>)
        ensures
            final(self).spec_stream() == old(self).spec_stream(),
            match grammar::parse_value(old(self).spec_stream(), old(self).spec_pos(), false) {
                Ok((value, end)) => r matches Ok(b) && b@ == value && final(self).spec_pos()
                    == end,
                Err((e, ep)) => r == Err::<Bencode, ParseError>(e) && final(self).spec_pos()
                    == ep,
            },
    {
        if self.pos > self.stream.len() {
            return Err(ParseError::UnexpectedEndOfStream);
        }
        match parse(self.stream, self.pos, false) {
            Ok((value, end)) => {
                self.pos = end;
                Ok(value)
            },
            Err((e, ep)) => {
                self.pos = ep;
                Err(e)
            },
        }
    }

    /// As [`Decoder::decode`], but string values must also be valid UTF-8,
    /// else the decode fails with `InvalidUtf8`.
    pub fn decode_text(&mut self) -> (r: Result<Bencode, ParseError>)
        ensures
            final(self).spec_stream() == old(self).spec_stream(),
            match grammar::parse_value(old(self).spec_stream(), old(self).spec_pos(), true) {
                Ok((value, end)) => r matches Ok(b) && b@ == value && final(self).spec_pos()
                    == end,
                Err((e, ep)) => r == Err::<Bencode, ParseError>(e) && final(self).spec_pos()
                    == ep,
            },
    {
        if self.pos > self.stream.len() {
            return Err(ParseError::UnexpectedEndOfStream);
        }
        match parse(self.stream, self.pos, true) {
            Ok((value, end)) => {
                self.pos = end;
                Ok(value)
            },
            Err((e, ep)) => {
                self.pos = ep;
                Err(e)
            },
        }
    }
}

/// One bencode value from the front of `stream`, with string values kept as
/// raw bytes (a piece-hash field is not text).  Trailing bytes after the
/// value are ignored.
pub fn decode(stream: &[u8]) -> (r: Result<Bencode, ParseError>)
    ensures
        match grammar::decoded(stream@, false) {
            Ok(value) => r matches Ok(b) && b@ == value,
            Err(e) => r == Err::<Bencode, ParseError>(e),
        },
{
    let mut decoder = Decoder::new(stream);
    decoder.decode()
}

/// As [`decode`], but every string value must also be valid UTF-8, else the
/// decode fails with `InvalidUtf8`.
pub fn decode_text(stream: &[u8]) -> (r: Result<Bencode, ParseError>)
    ensures
        match grammar::decoded(stream@, true) {
            Ok(value) => r matches Ok(b) && b@ == value,
            Err(e) => r == Err::<Bencode, ParseError>(e),
        },
{
    let mut decoder = Decoder::new(stream);
    decoder.decode_text()
}

} // verus!

