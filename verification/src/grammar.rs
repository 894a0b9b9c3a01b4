//! The bencode grammar, stated as recursive functions over byte sequences.
//!
//! These functions are the mathematical meaning of a decode: for every input
//! they say which value a conforming decoder returns, where its cursor ends,
//! or which error it reports.  The executable decoder in [`crate::bencoding`]
//! is proved equal to them.
//!
//! Three conventions run through the whole grammar.  A read past the end of
//! the buffer is never performed: wherever a production still expects a byte
//! and none remains, the result is `UnexpectedEndOfStream`.  Digit runs are
//! accumulated one digit at a time with two's-complement wrapping arithmetic,
//! so a pathological run of digits wraps rather than failing.  And a failure
//! carries, beside the error, the offset where it was detected: the place the
//! decoder's cursor stops.

use vstd::prelude::*;
use vstd::utf8::decode_utf8;
use vstd::utf8::valid_utf8;
use vstd::wrapping::i64_specs;
use vstd::wrapping::usize_specs;

verus! {

/// An error found while decoding a bencode stream.
#[derive(Clone, Copy, PartialEq, Eq, Debug)]
pub enum ParseError {
    /// A byte that the current grammar production does not allow, at the
    /// zero-based offset where it was read.
    InvalidByte(usize),
    /// The buffer ended while a production still expected more bytes.
    UnexpectedEndOfStream,
    /// Bytes that had to be text — a dictionary key, or a string value under
    /// the text-validating entry points — are not valid UTF-8.
    InvalidUtf8,
}

/// The mathematical form of a decoded bencode value.
///
/// A dictionary is carried as its entries in order of first insertion, with
/// the keys distinct: a duplicate key in the input overwrites the value of
/// the earlier entry in place (last write wins), which [`upsert`] states.
pub enum BencodeView {
    Int(i64),
    Str(Seq<u8>),
    List(Seq<BencodeView>),
    Dict(Seq<(Seq<char>, BencodeView)>),
}

/// `'d'`, opening a dictionary.
pub const TAG_DICT: u8 = 100;

/// `'l'`, opening a list.
pub const TAG_LIST: u8 = 108;

/// `'i'`, opening an integer.
pub const TAG_INT: u8 = 105;

/// `'e'`, terminating an integer, list or dictionary.
pub const TAG_END: u8 = 101;

/// `':'`, separating a string length from its bytes.
pub const COLON: u8 = 58;

/// `'-'`, the integer sign.
pub const MINUS: u8 = 45;

/// `'0'`, the least ASCII digit.
pub const DIGIT_ZERO: u8 = 48;

/// `'9'`, the greatest ASCII digit.
pub const DIGIT_NINE: u8 = 57;

/// True of the ASCII digits `'0'` to `'9'`.
pub open spec fn is_digit(b: u8) -> bool {
    DIGIT_ZERO <= b <= DIGIT_NINE
}

/// The digit run of an integer body, read from `pos` up to a terminating
/// `'e'`, folded onto `acc` with wrapping `i64` arithmetic.
///
/// An empty run is not rejected: `i` followed directly by `e` yields `0`.
pub open spec fn parse_int_digits(s: Seq<u8>, pos: int, acc: i64) -> Result<
    (i64, int),
    (ParseError, int),
>
    recommends
        0 <= pos,
    decreases s.len() - pos,
{
    if pos >= s.len() {
        Err((ParseError::UnexpectedEndOfStream, pos))
    } else if s[pos] == TAG_END {
        Ok((acc, pos + 1))
    } else if is_digit(s[pos]) {
        parse_int_digits(
            s,
            pos + 1,
            i64_specs::wrapping_add(i64_specs::wrapping_mul(acc, 10), (s[pos] - DIGIT_ZERO) as i64),
        )
    } else {
        Err((ParseError::InvalidByte(pos as usize), pos))
    }
}

/// The digit run of a string length, read from `pos` up to a terminating
/// `':'`, folded onto `acc` with wrapping `usize` arithmetic.
///
/// An empty run is not rejected: a bare `':'` declares a zero-length string.
pub open spec fn parse_len_digits(s: Seq<u8>, pos: int, acc: usize) -> Result<
    (usize, int),
    (ParseError, int),
>
    recommends
        0 <= pos,
    decreases s.len() - pos,
{
    if pos >= s.len() {
        Err((ParseError::UnexpectedEndOfStream, pos))
    } else if s[pos] == COLON {
        Ok((acc, pos + 1))
    } else if is_digit(s[pos]) {
        parse_len_digits(
            s,
            pos + 1,
            usize_specs::wrapping_add(usize_specs::wrapping_mul(acc, 10), (s[pos] - DIGIT_ZERO) as usize),
        )
    } else {
        Err((ParseError::InvalidByte(pos as usize), pos))
    }
}

/// The byte-string production `<length> ':' <raw bytes>`, with `pos` at its
/// first length digit.  Yields the raw bytes and the position just past them.
///
/// If the declared length exceeds what remains after the colon, the result is
/// `UnexpectedEndOfStream` and no byte past the end is ever read.
pub open spec fn parse_str(s: Seq<u8>, pos: int) -> Result<(Seq<u8>, int), (ParseError, int)>
    recommends
        0 <= pos,
{
    match parse_len_digits(s, pos, 0) {
        Ok((len, body)) => {
            if body + len > s.len() {
                Err((ParseError::UnexpectedEndOfStream, body))
            } else {
                Ok((s.subrange(body, body + len), body + len))
            }
        },
        Err(e) => Err(e),
    }
}

/// The integer production after its leading `'i'`: an optional `'-'`, a digit
/// run, and the terminating `'e'`.  The accumulated magnitude is negated with
/// wrapping arithmetic when the sign was present.
pub open spec fn parse_int(s: Seq<u8>, pos: int) -> Result<(i64, int), (ParseError, int)>
    recommends
        0 <= pos,
{
    if pos >= s.len() {
        Err((ParseError::UnexpectedEndOfStream, pos))
    } else if s[pos] == MINUS {
        match parse_int_digits(s, pos + 1, 0) {
            Ok((n, end)) => Ok((i64_specs::wrapping_sub(0, n), end)),
            Err(e) => Err(e),
        }
    } else {
        parse_int_digits(s, pos, 0)
    }
}

/// Dictionary insertion with last write wins: a new key is appended, a key
/// already present keeps its place and has its value overwritten.
pub open spec fn upsert(
    entries: Seq<(Seq<char>, BencodeView)>,
    key: Seq<char>,
    value: BencodeView,
) -> Seq<(Seq<char>, BencodeView)>
    decreases entries.len(),
{
    if entries.len() == 0 {
        seq![(key, value)]
    } else if entries[0].0 == key {
        seq![(key, value)] + entries.drop_first()
    } else {
        seq![entries[0]] + upsert(entries.drop_first(), key, value)
    }
}

/// Where a key already stands at index `i` (and nowhere earlier), [`upsert`]
/// overwrites that entry in place.
pub proof fn lemma_upsert_found(
    entries: Seq<(Seq<char>, BencodeView)>,
    key: Seq<char>,
    value: BencodeView,
    i: int,
)
    requires
        0 <= i < entries.len(),
        entries[i].0 == key,
        forall|j: int| 0 <= j < i ==> entries[j].0 != key,
    ensures
        upsert(entries, key, value) == entries.update(i, (key, value)),
    decreases entries.len(),
{
    if i == 0 {
        assert(upsert(entries, key, value) =~= entries.update(0, (key, value)));
    } else {
        lemma_upsert_found(entries.drop_first(), key, value, i - 1);
        assert(upsert(entries, key, value) =~= entries.update(i, (key, value)));
    }
}

/// Where a key stands nowhere in the entries, [`upsert`] appends it.
pub proof fn lemma_upsert_new(
    entries: Seq<(Seq<char>, BencodeView)>,
    key: Seq<char>,
    value: BencodeView,
)
    requires
        forall|j: int| 0 <= j < entries.len() ==> entries[j].0 != key,
    ensures
        upsert(entries, key, value) == entries.push((key, value)),
    decreases entries.len(),
{
    if entries.len() == 0 {
        assert(upsert(entries, key, value) =~= entries.push((key, value)));
    } else {
        lemma_upsert_new(entries.drop_first(), key, value);
        assert(upsert(entries, key, value) =~= entries.push((key, value)));
    }
}

/// One bencode value at `pos`, dispatched on the byte found there: `'d'` a
/// dictionary, `'l'` a list, `'i'` an integer, a digit a byte string;
/// anything else is `InvalidByte` at `pos`, and an exhausted buffer is
/// `UnexpectedEndOfStream`.
///
/// With `check_text`, every string value must in addition be valid UTF-8;
/// without it, string values are raw bytes.  Dictionary keys must be valid
/// UTF-8 either way.
///
/// A failure carries, beside the error, the offset where it was detected:
/// the place the decoder's cursor stops.
pub open spec fn parse_value(s: Seq<u8>, pos: int, check_text: bool) -> Result<
    (BencodeView, int),
    (ParseError, int),
>
    recommends
        0 <= pos,
    decreases s.len() - pos, 0int,
{
    if pos >= s.len() {
        Err((ParseError::UnexpectedEndOfStream, pos))
    } else if s[pos] == TAG_DICT {
        match parse_entries(s, pos + 1, check_text, Seq::<(Seq<char>, BencodeView)>::empty()) {
            Ok((entries, end)) => Ok((BencodeView::Dict(entries), end)),
            Err(e) => Err(e),
        }
    } else if s[pos] == TAG_LIST {
        match parse_items(s, pos + 1, check_text, Seq::<BencodeView>::empty()) {
            Ok((items, end)) => Ok((BencodeView::List(items), end)),
            Err(e) => Err(e),
        }
    } else if s[pos] == TAG_INT {
        match parse_int(s, pos + 1) {
            Ok((n, end)) => Ok((BencodeView::Int(n), end)),
            Err(e) => Err(e),
        }
    } else if is_digit(s[pos]) {
        match parse_str(s, pos) {
            Ok((bytes, end)) => {
                if check_text && !valid_utf8(bytes) {
                    Err((ParseError::InvalidUtf8, end))
                } else {
                    Ok((BencodeView::Str(bytes), end))
                }
            },
            Err(e) => Err(e),
        }
    } else {
        Err((ParseError::InvalidByte(pos as usize), pos))
    }
}

/// The elements of a list from `pos` up to the terminating `'e'`, appended in
/// order onto `acc`.
///
/// A successful [`parse_value`] always lands strictly past where it started
/// and within the buffer; the guard restating that bound only serves the
/// termination measure and its other branch is never taken.
pub open spec fn parse_items(
    s: Seq<u8>,
    pos: int,
    check_text: bool,
    acc: Seq<BencodeView>,
) -> Result<(Seq<BencodeView>, int), (ParseError, int)>
    recommends
        0 <= pos,
    decreases s.len() - pos, 1int,
{
    if pos >= s.len() {
        Err((ParseError::UnexpectedEndOfStream, pos))
    } else if s[pos] == TAG_END {
        Ok((acc, pos + 1))
    } else {
        match parse_value(s, pos, check_text) {
            Ok((value, end)) => {
                if pos < end <= s.len() {
                    parse_items(s, end, check_text, acc.push(value))
                } else {
                    Err((ParseError::UnexpectedEndOfStream, end))
                }
            },
            Err(e) => Err(e),
        }
    }
}

/// The key–value pairs of a dictionary from `pos` up to the terminating
/// `'e'`, folded onto `acc` with [`upsert`].  Each key is parsed by the
/// validating string production: its bytes must decode as UTF-8 text, and a
/// key that is not text fails with `InvalidUtf8` before the value after it
/// is looked at.
///
/// The bound guards only serve the termination measure, as in
/// [`parse_items`].
pub open spec fn parse_entries(
    s: Seq<u8>,
    pos: int,
    check_text: bool,
    acc: Seq<(Seq<char>, BencodeView)>,
) -> Result<(Seq<(Seq<char>, BencodeView)>, int), (ParseError, int)>
    recommends
        0 <= pos,
    decreases s.len() - pos, 1int,
{
    if pos >= s.len() {
        Err((ParseError::UnexpectedEndOfStream, pos))
    } else if s[pos] == TAG_END {
        Ok((acc, pos + 1))
    } else {
        match parse_str(s, pos) {
            Ok((key_bytes, key_end)) => {
                if !valid_utf8(key_bytes) {
                    Err((ParseError::InvalidUtf8, key_end))
                } else if pos < key_end <= s.len() {
                    match parse_value(s, key_end, check_text) {
                        Ok((value, value_end)) => {
                            if key_end < value_end <= s.len() {
                                parse_entries(
                                    s,
                                    value_end,
                                    check_text,
                                    upsert(acc, decode_utf8(key_bytes), value),
                                )
                            } else {
                                Err((ParseError::UnexpectedEndOfStream, value_end))
                            }
                        },
                        Err(e) => Err(e),
                    }
                } else {
                    Err((ParseError::UnexpectedEndOfStream, key_end))
                }
            },
            Err(e) => Err(e),
        }
    }
}

/// True when every byte of `ds` is an ASCII digit.
pub open spec fn all_digits(ds: Seq<u8>) -> bool {
    forall|i: int| 0 <= i < ds.len() ==> is_digit(ds[i])
}

/// The base-10 value a digit run denotes, without any wrapping.
pub open spec fn digits_value(ds: Seq<u8>) -> int
    recommends
        all_digits(ds),
    decreases ds.len(),
{
    if ds.len() == 0 {
        0
    } else {
        digits_value(ds.drop_last()) * 10 + (ds.last() - DIGIT_ZERO)
    }
}

proof fn lemma_digits_value_nonneg(ds: Seq<u8>)
    requires
        all_digits(ds),
    ensures
        digits_value(ds) >= 0,
    decreases ds.len(),
{
    if ds.len() != 0 {
        assert(all_digits(ds.drop_last()));
        lemma_digits_value_nonneg(ds.drop_last());
    }
}

/// Reading one more digit multiplies the run's value by ten and adds the
/// digit, so the value of a prefix never exceeds the value of the whole run.
proof fn lemma_digits_value_mono(s: Seq<u8>, start: int, i: int, k: int)
    requires
        0 <= start <= i <= k <= s.len(),
        forall|j: int| start <= j < k ==> is_digit(s[j]),
    ensures
        digits_value(s.subrange(start, i)) <= digits_value(s.subrange(start, k)),
    decreases k - i,
{
    if i < k {
        let shorter = s.subrange(start, i);
        let longer = s.subrange(start, i + 1);
        assert(longer.drop_last() =~= shorter);
        assert(all_digits(shorter));
        lemma_digits_value_nonneg(shorter);
        lemma_digits_value_mono(s, start, i + 1, k);
    }
}

/// Walking [`parse_len_digits`] across the digit run `s[start..k]` with the
/// run's value as the accumulator: when the whole run's value fits a
/// `usize`, no step wraps, and the `':'` at `k` ends the run with that value.
proof fn lemma_len_digits_run(s: Seq<u8>, start: int, k: int, i: int)
    requires
        0 <= start <= i <= k < s.len(),
        s[k] == COLON,
        forall|j: int| start <= j < k ==> is_digit(s[j]),
        digits_value(s.subrange(start, k)) <= usize::MAX,
    ensures
        parse_len_digits(s, i, digits_value(s.subrange(start, i)) as usize) == Ok::<
            (usize, int),
            (ParseError, int),
        >((digits_value(s.subrange(start, k)) as usize, k + 1)),
    decreases k - i,
{
    lemma_digits_value_mono(s, start, i, k);
    if i == k {
        assert(s.subrange(start, i) =~= s.subrange(start, k));
    } else {
        let prefix = s.subrange(start, i);
        let extended = s.subrange(start, i + 1);
        assert(extended.drop_last() =~= prefix);
        assert(all_digits(prefix));
        lemma_digits_value_nonneg(prefix);
        lemma_digits_value_mono(s, start, i + 1, k);
        let acc = digits_value(prefix) as usize;
        let d = (s[i] - DIGIT_ZERO) as usize;
        assert(digits_value(extended) == acc * 10 + d);
        assert(acc * 10 + d <= usize::MAX);
        assert(usize_specs::wrapping_mul(acc, 10) == acc * 10) by {
            vstd::arithmetic::div_mod::lemma_small_mod(
                (acc * 10) as nat,
                (usize::MAX - usize::MIN + 1) as nat,
            );
        }
        assert(usize_specs::wrapping_add(usize_specs::wrapping_mul(acc, 10), d)
            == digits_value(extended) as usize);
        lemma_len_digits_run(s, start, k, i + 1);
    }
}

/// A whole decode: exactly one value parsed from position 0.  Trailing bytes
/// after that value are ignored.
pub open spec fn decoded(s: Seq<u8>, check_text: bool) -> Result<BencodeView, ParseError> {
    match parse_value(s, 0, check_text) {
        Ok((value, _)) => Ok(value),
        Err((e, _)) => Err(e),
    }
}

/// Every well-formed byte-string encoding `<digits> ':' <payload>` decodes
/// to exactly its payload bytes, and the cursor ends exactly the payload's
/// length past the colon — whatever bytes follow, which are never touched.
///
/// Under the text-validating variant the same holds of a payload that is
/// valid UTF-8.
pub proof fn lemma_decode_byte_string(
    ds: Seq<u8>,
    body: Seq<u8>,
    rest: Seq<u8>,
    check_text: bool,
)
    requires
        all_digits(ds),
        ds.len() >= 1,
        digits_value(ds) == body.len(),
        body.len() <= usize::MAX,
        check_text ==> valid_utf8(body),
    ensures
        parse_value(ds + seq![COLON] + body + rest, 0, check_text) == Ok::<
            (BencodeView, int),
            (ParseError, int),
        >((BencodeView::Str(body), ds.len() + 1 + body.len() as int)),
{
    let s = ds + seq![COLON] + body + rest;
    let k = ds.len() as int;
    assert(s[k] == COLON);
    assert(forall|j: int| 0 <= j < k ==> s[j] == ds[j] && is_digit(s[j]));
    assert(s.subrange(0, k) =~= ds);
    assert(s.subrange(0, 0) =~= Seq::<u8>::empty());
    lemma_len_digits_run(s, 0, k, 0);
    assert(parse_len_digits(s, 0, 0) == Ok::<(usize, int), (ParseError, int)>((
        body.len() as usize,
        k + 1,
    )));
    assert(s.subrange(k + 1, k + 1 + body.len()) =~= body);
    assert(is_digit(s[0]) && s[0] != TAG_DICT && s[0] != TAG_LIST && s[0] != TAG_INT);
}

/// A string whose declared length exceeds what remains after the colon
/// always fails with `UnexpectedEndOfStream`, detected just past the colon:
/// the decoder reports the truncation rather than reading past the end of
/// the buffer.  A digit run whose value exceeds `usize::MAX` is left out:
/// there the grammar's wrapping fold applies instead.
pub proof fn lemma_decode_string_too_long(ds: Seq<u8>, tail: Seq<u8>, check_text: bool)
    requires
        all_digits(ds),
        ds.len() >= 1,
        digits_value(ds) <= usize::MAX,
        digits_value(ds) > tail.len(),
    ensures
        parse_value(ds + seq![COLON] + tail, 0, check_text) == Err::<
            (BencodeView, int),
            (ParseError, int),
        >((ParseError::UnexpectedEndOfStream, ds.len() + 1 as int)),
{
    let s = ds + seq![COLON] + tail;
    let k = ds.len() as int;
    assert(s[k] == COLON);
    assert(forall|j: int| 0 <= j < k ==> s[j] == ds[j] && is_digit(s[j]));
    assert(s.subrange(0, k) =~= ds);
    assert(s.subrange(0, 0) =~= Seq::<u8>::empty());
    lemma_len_digits_run(s, 0, k, 0);
    assert(k + 1 + digits_value(ds) > s.len());
    assert(is_digit(s[0]) && s[0] != TAG_DICT && s[0] != TAG_LIST && s[0] != TAG_INT);
}

/// Decoding depends on the bytes alone: equal buffers decode equally, so
/// decoding one immutable buffer twice yields two equal outcomes.
pub proof fn lemma_decode_deterministic(s1: Seq<u8>, s2: Seq<u8>, check_text: bool)
    requires
        s1 == s2,
    ensures
        decoded(s1, check_text) == decoded(s2, check_text),
{
}

} // verus!
