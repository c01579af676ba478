//! The wire codec: the replies and requests of the protocol as bytes, and
//! the reader that takes one request frame off the front of a byte stream.

use crate::bytes::{
    append, ascii, copy, crlf, decimal, is_digit, lemma_parse_decimal, parse_u64,
    render, slice_views, spec_parse_u64, text, views,
};
use vstd::prelude::*;
use vstd::slice::slice_subrange;

verus! {

/// A bulk string: `$<len>\r\n<payload>\r\n`, or `$-1\r\n` for an absent one.
pub open spec fn spec_bulk_string(payload: Option<Seq<u8>>) -> Seq<u8> {
    match payload {
        None => ascii("$-1\r\n"@),
        Some(p) => seq![36u8] + decimal(p.len()) + crlf() + p + crlf(),
    }
}

/// The bulk strings of `items`, one after the other.
pub open spec fn spec_bulk_strings(items: Seq<Seq<u8>>) -> Seq<u8>
    decreases items.len(),
{
    if items.len() == 0 {
        Seq::empty()
    } else {
        spec_bulk_strings(items.drop_last()) + spec_bulk_string(Some(items.last()))
    }
}

/// An array: `*<N>\r\n`, then its `N` items as bulk strings.
pub open spec fn spec_array(items: Seq<Seq<u8>>) -> Seq<u8> {
    seq![42u8] + decimal(items.len()) + crlf() + spec_bulk_strings(items)
}

/// A simple string: `+<text>\r\n`.
pub open spec fn spec_simple_string(text: Seq<u8>) -> Seq<u8> {
    seq![43u8] + text + crlf()
}

/// An integer: `:<decimal>\r\n`.
pub open spec fn spec_integer(n: nat) -> Seq<u8> {
    seq![58u8] + decimal(n) + crlf()
}

/// A raw blob: `$<len>\r\n<bytes>`, with nothing after the payload.
pub open spec fn spec_blob(payload: Seq<u8>) -> Seq<u8> {
    seq![36u8] + decimal(payload.len()) + crlf() + payload
}

/// One `key:value\r\n` line for each pair, in order.
pub open spec fn spec_lines(pairs: Seq<(Seq<u8>, Seq<u8>)>) -> Seq<u8>
    decreases pairs.len(),
{
    if pairs.len() == 0 {
        Seq::empty()
    } else {
        spec_lines(pairs.drop_last()) + pairs.last().0 + seq![58u8] + pairs.last().1 + crlf()
    }
}

/// The pairs as `key:value\r\n` lines, framed as one bulk string.
pub open spec fn spec_pairs(pairs: Seq<(Seq<u8>, Seq<u8>)>) -> Seq<u8> {
    spec_bulk_string(Some(spec_lines(pairs)))
}

/// The byte sequences that a vector of pairs of byte strings holds.
pub open spec fn pair_views(pairs: Seq<(Vec<u8>, Vec<u8>)>) -> Seq<(Seq<u8>, Seq<u8>)> {
    Seq::new(pairs.len(), |i: int| (pairs[i].0@, pairs[i].1@))
}

pub fn bulk_string(string: Option<&[u8]>) -> (r: Vec<u8>)
    ensures
        r@ == spec_bulk_string(
            match string {
                Some(s) => Some(s@),
                None => None,
            },
        ),
{
    match string {
        None => {
            proof {
                reveal_strlit("$-1\r\n");
            }
            text("$-1\r\n")
        },
        Some(value) => {
            let mut out: Vec<u8> = Vec::new();
            out.push(36);
            let len = render(value.len() as u64);
            append(&mut out, len.as_slice());
            out.push(13);
            out.push(10);
            append(&mut out, value);
            out.push(13);
            out.push(10);
            assert(out@ == seq![36u8] + decimal(value@.len()) + crlf() + value@ + crlf());
            out
        },
    }
}

pub fn array(arr: &Vec<&[u8]>) -> (r: Vec<u8>)
    ensures
        r@ == spec_array(slice_views(arr@)),
{
    let ghost items = slice_views(arr@);
    let mut out: Vec<u8> = Vec::new();
    out.push(42);
    let len = render(arr.len() as u64);
    append(&mut out, len.as_slice());
    out.push(13);
    out.push(10);
    let ghost head = out@;
    assert(head == seq![42u8] + decimal(items.len()) + crlf());
    let mut i: usize = 0;
    while i < arr.len()
        invariant
            i <= arr.len(),
            items == slice_views(arr@),
            out@ == head + spec_bulk_strings(items.subrange(0, i as int)),
        decreases arr.len() - i,
    {
        let item = bulk_string(Some(arr[i]));
        append(&mut out, item.as_slice());
        proof {
            let next = items.subrange(0, i + 1);
            assert(next.drop_last() == items.subrange(0, i as int));
            assert(next.last() == arr@[i as int]@);
        }
        i += 1;
    }
    assert(items.subrange(0, i as int) == items);
    out
}

pub fn pairs(entries: &Vec<(Vec<u8>, Vec<u8>)>) -> (r: Vec<u8>)
    ensures
        r@ == spec_pairs(pair_views(entries@)),
{
    let ghost items = pair_views(entries@);
    let mut result: Vec<u8> = Vec::new();
    let mut i: usize = 0;
    while i < entries.len()
        invariant
            i <= entries.len(),
            items == pair_views(entries@),
            result@ == spec_lines(items.subrange(0, i as int)),
        decreases entries.len() - i,
    {
        let ghost before = result@;
        let key = entries[i].0.as_slice();
        let value = entries[i].1.as_slice();
        append(&mut result, key);
        result.push(58);
        append(&mut result, value);
        result.push(13);
        result.push(10);
        proof {
            let next = items.subrange(0, i + 1);
            assert(next.drop_last() == items.subrange(0, i as int));
            assert(next.last() == (key@, value@));
            assert(result@ == before + key@ + seq![58u8] + value@ + crlf());
        }
        i += 1;
    }
    assert(items.subrange(0, i as int) == items);
    bulk_string(Some(result.as_slice()))
}

pub fn simple_string(line: &[u8]) -> (r: Vec<u8>)
    ensures
        r@ == spec_simple_string(line@),
{
    let mut out: Vec<u8> = Vec::new();
    out.push(43);
    append(&mut out, line);
    out.push(13);
    out.push(10);
    assert(out@ == seq![43u8] + line@ + crlf());
    out
}

pub fn integer(n: u64) -> (r: Vec<u8>)
    ensures
        r@ == spec_integer(n as nat),
{
    let mut out: Vec<u8> = Vec::new();
    out.push(58);
    let digits = render(n);
    append(&mut out, digits.as_slice());
    out.push(13);
    out.push(10);
    assert(out@ == seq![58u8] + decimal(n as nat) + crlf());
    out
}

pub fn blob(payload: &[u8]) -> (r: Vec<u8>)
    ensures
        r@ == spec_blob(payload@),
{
    let mut out: Vec<u8> = Vec::new();
    out.push(36);
    let len = render(payload.len() as u64);
    append(&mut out, len.as_slice());
    out.push(13);
    out.push(10);
    append(&mut out, payload);
    assert(out@ == seq![36u8] + decimal(payload@.len()) + crlf() + payload@);
    out
}

/// Why the front of a byte stream is not a request frame.
#[derive(Debug, Clone, Copy, PartialEq, Eq, Structural)]
pub enum FrameError {
    /// The first byte is not `*`.
    NotArray,
    /// A length line does not end in CR LF, an item does not start with `$`,
    /// or an item's payload is not followed by CR LF.
    MalformedHeader,
    /// The text of a length is not an unsigned number that fits the machine.
    NonNumericLength,
    /// The bytes end before the frame does.
    UnexpectedEof,
}

/// The position of the first line feed at or after `from`.
pub open spec fn find_lf(s: Seq<u8>, from: int) -> Option<int>
    decreases s.len() - from,
{
    if from < 0 || from >= s.len() {
        None
    } else if s[from] == 10u8 {
        Some(from)
    } else {
        find_lf(s, from + 1)
    }
}

/// The number that `digits` spells, where it fits in a `usize`.
pub open spec fn spec_parse_length(digits: Seq<u8>) -> Option<usize> {
    match spec_parse_u64(digits) {
        Some(n) => if n <= usize::MAX {
            Some(n as usize)
        } else {
            None
        },
        None => None,
    }
}

/// Reads the length line `<tag><number>\r\n` that starts at `at`: the number
/// and the position just behind the line.
pub open spec fn spec_length_line(s: Seq<u8>, at: int, tag: u8) -> Result<(usize, int), FrameError> {
    if at >= s.len() {
        Err(FrameError::UnexpectedEof)
    } else if s[at] != tag {
        Err(
            if tag == 42u8 {
                FrameError::NotArray
            } else {
                FrameError::MalformedHeader
            },
        )
    } else {
        match find_lf(s, at) {
            None => Err(FrameError::UnexpectedEof),
            Some(lf) => if s[lf - 1] != 13u8 {
                Err(FrameError::MalformedHeader)
            } else {
                match spec_parse_length(s.subrange(at + 1, lf - 1)) {
                    None => Err(FrameError::NonNumericLength),
                    Some(n) => Ok((n, lf + 1)),
                }
            },
        }
    }
}

/// Reads the bulk string that starts at `at`: its payload and the position
/// just behind it.
pub open spec fn spec_read_bulk(s: Seq<u8>, at: int) -> Result<(Seq<u8>, int), FrameError> {
    match spec_length_line(s, at, 36u8) {
        Err(e) => Err(e),
        Ok((len, body)) => if s.len() < body + len + 2 {
            Err(FrameError::UnexpectedEof)
        } else if s[body + len] != 13u8 || s[body + len + 1] != 10u8 {
            Err(FrameError::MalformedHeader)
        } else {
            Ok((s.subrange(body, body + len), body + len + 2))
        },
    }
}

/// Reads `n` bulk strings one after the other, the first at `at`. The first
/// one that cannot be read decides the error.
pub open spec fn spec_read_bulks(s: Seq<u8>, at: int, n: nat) -> Result<(Seq<Seq<u8>>, int), FrameError>
    decreases n,
{
    if n == 0 {
        Ok((Seq::empty(), at))
    } else {
        match spec_read_bulks(s, at, (n - 1) as nat) {
            Err(e) => Err(e),
            Ok((items, mid)) => match spec_read_bulk(s, mid) {
                Err(e) => Err(e),
                Ok((item, end)) => Ok((items.push(item), end)),
            },
        }
    }
}

/// One request frame off the front of `s`: nothing where `s` is empty, else
/// the frame's items and the number of bytes that the frame takes up.
pub open spec fn spec_tokenize(s: Seq<u8>) -> Result<Option<(Seq<Seq<u8>>, int)>, FrameError> {
    if s.len() == 0 {
        Ok(None)
    } else {
        match spec_length_line(s, 0, 42u8) {
            Err(e) => Err(e),
            Ok((n, at)) => match spec_read_bulks(s, at, n as nat) {
                Err(e) => Err(e),
                Ok((items, end)) => Ok(Some((items, end))),
            },
        }
    }
}

/// What a frame read in executable code stands for.
pub open spec fn frame_view(r: Result<Option<(Vec<Vec<u8>>, usize)>, FrameError>) -> Result<
    Option<(Seq<Seq<u8>>, int)>,
    FrameError,
> {
    match r {
        Ok(None) => Ok(None),
        Ok(Some((items, used))) => Ok(Some((views(items@), used as int))),
        Err(e) => Err(e),
    }
}

proof fn lemma_find_lf(s: Seq<u8>, from: int)
    requires
        0 <= from,
    ensures
        match find_lf(s, from) {
            Some(lf) => from <= lf < s.len() && s[lf] == 10u8 && forall|j: int|
                from <= j < lf ==> s[j] != 10u8,
            None => forall|j: int| from <= j < s.len() ==> s[j] != 10u8,
        },
    decreases s.len() - from,
{
    if from < s.len() && s[from] != 10u8 {
        lemma_find_lf(s, from + 1);
    }
}

proof fn lemma_find_lf_is(s: Seq<u8>, from: int, lf: int)
    requires
        0 <= from <= lf < s.len(),
        s[lf] == 10u8,
        forall|j: int| from <= j < lf ==> s[j] != 10u8,
    ensures
        find_lf(s, from) == Some(lf),
    decreases lf - from,
{
    if from < lf {
        lemma_find_lf_is(s, from + 1, lf);
    }
}

fn length_line(input: &[u8], at: usize, tag: u8) -> (r: Result<(usize, usize), FrameError>)
    requires
        at <= input.len(),
        tag != 10,
        tag != 13,
    ensures
        match r {
            Ok((n, next)) => spec_length_line(input@, at as int, tag) == Ok::<
                (usize, int),
                FrameError,
            >((n, next as int)) && at + 3 <= next <= input.len(),
            Err(e) => spec_length_line(input@, at as int, tag) == Err::<(usize, int), FrameError>(
                e,
            ),
        },
{
    if at >= input.len() {
        return Err(FrameError::UnexpectedEof);
    }
    if input[at] != tag {
        if tag == 42 {
            return Err(FrameError::NotArray);
        }
        return Err(FrameError::MalformedHeader);
    }
    let mut lf: usize = at;
    while lf < input.len() && input[lf] != 10
        invariant
            at <= lf <= input.len(),
            forall|j: int| at <= j < lf ==> input@[j] != 10u8,
        decreases input.len() - lf,
    {
        lf += 1;
    }
    proof {
        lemma_find_lf(input@, at as int);
    }
    if lf >= input.len() {
        return Err(FrameError::UnexpectedEof);
    }
    proof {
        lemma_find_lf_is(input@, at as int, lf as int);
    }
    if input[lf - 1] != 13 {
        return Err(FrameError::MalformedHeader);
    }
    let digits = slice_subrange(input, at + 1, lf - 1);
    match parse_u64(digits) {
        None => Err(FrameError::NonNumericLength),
        Some(n) => {
            if n > usize::MAX as u64 {
                Err(FrameError::NonNumericLength)
            } else {
                Ok((n as usize, lf + 1))
            }
        },
    }
}

fn read_bulk(input: &[u8], at: usize) -> (r: Result<(Vec<u8>, usize), FrameError>)
    requires
        at <= input.len(),
    ensures
        match r {
            Ok((item, next)) => spec_read_bulk(input@, at as int) == Ok::<(Seq<u8>, int), FrameError>(
                (item@, next as int),
            ) && at < next <= input.len(),
            Err(e) => spec_read_bulk(input@, at as int) == Err::<(Seq<u8>, int), FrameError>(e),
        },
{
    match length_line(input, at, 36) {
        Err(e) => Err(e),
        Ok((len, body)) => {
            let left = input.len() - body;
            if left < 2 || left - 2 < len {
                return Err(FrameError::UnexpectedEof);
            }
            if input[body + len] != 13 || input[body + len + 1] != 10 {
                return Err(FrameError::MalformedHeader);
            }
            let item = copy(slice_subrange(input, body, body + len));
            Ok((item, body + len + 2))
        },
    }
}

/// Takes one request frame off the front of `input`: `*<N>\r\n`, then `N`
/// bulk strings `$<len>\r\n<bytes>\r\n`. Returns nothing where `input` is
/// empty, else the frame's items and how many bytes the frame took. Bytes
/// behind the frame are not looked at.
pub fn tokenize(input: &[u8]) -> (r: Result<Option<(Vec<Vec<u8>>, usize)>, FrameError>)
    ensures
        frame_view(r) == spec_tokenize(input@),
        r matches Ok(Some((_, used))) ==> 0 < used <= input.len(),
{
    if input.len() == 0 {
        return Ok(None);
    }
    let (length, start) = match length_line(input, 0, 42) {
        Err(e) => {
            return Err(e);
        },
        Ok(header) => header,
    };
    let mut items: Vec<Vec<u8>> = Vec::new();
    let mut at: usize = start;
    let mut i: usize = 0;
    assert(views(items@) == Seq::<Seq<u8>>::empty());
    while i < length
        invariant
            i <= length,
            0 < at <= input.len(),
            input@.len() > 0,
            spec_length_line(input@, 0, 42u8) == Ok::<(usize, int), FrameError>(
                (length, start as int),
            ),
            spec_read_bulks(input@, start as int, i as nat) == Ok::<(Seq<Seq<u8>>, int), FrameError>(
                (views(items@), at as int),
            ),
        decreases length - i,
    {
        match read_bulk(input, at) {
            Err(e) => {
                proof {
                    assert(spec_read_bulks(input@, start as int, (i + 1) as nat) == Err::<
                        (Seq<Seq<u8>>, int),
                        FrameError,
                    >(e));
                    lemma_read_bulks_error(input@, start as int, (i + 1) as nat, length as nat);
                }
                return Err(e);
            },
            Ok((item, next)) => {
                let ghost before = views(items@);
                items.push(item);
                assert(views(items@) == before.push(item@));
                at = next;
            },
        }
        i += 1;
    }
    Ok(Some((items, at)))
}

/// Once a bulk string cannot be read, reading more of them fails the same way.
proof fn lemma_read_bulks_error(s: Seq<u8>, at: int, k: nat, n: nat)
    requires
        k <= n,
        spec_read_bulks(s, at, k) is Err,
    ensures
        spec_read_bulks(s, at, n) == spec_read_bulks(s, at, k),
    decreases n,
{
    if k < n {
        lemma_read_bulks_error(s, at, k, (n - 1) as nat);
    }
}

/// A length line that holds the decimal text of `n` reads back as `n`.
proof fn lemma_length_line(s: Seq<u8>, at: int, tag: u8, n: nat)
    requires
        0 <= at,
        n <= usize::MAX,
        tag != 10u8,
        at + 1 + decimal(n).len() + 2 <= s.len(),
        s[at] == tag,
        s.subrange(at + 1, at + 1 + decimal(n).len()) == decimal(n),
        s[at + 1 + decimal(n).len()] == 13u8,
        s[at + 2 + decimal(n).len()] == 10u8,
    ensures
        spec_length_line(s, at, tag) == Ok::<(usize, int), FrameError>(
            (n as usize, at + 3 + decimal(n).len()),
        ),
{
    let d = decimal(n);
    let lf: int = at + 2 + d.len();
    lemma_parse_decimal(n);
    assert forall|j: int| at <= j < lf implies s[j] != 10u8 by {
        if at < j < lf - 1 {
            assert(s[j] == s.subrange(at + 1, at + 1 + d.len())[j - at - 1]);
            assert(is_digit(d[j - at - 1]));
        }
    }
    lemma_find_lf_is(s, at, lf);
    assert(s.subrange(at + 1, lf - 1) == d);
}

/// A bulk string that stands at `at` reads back as its payload.
proof fn lemma_read_bulk(s: Seq<u8>, at: int, payload: Seq<u8>)
    requires
        0 <= at,
        payload.len() <= usize::MAX,
        at + spec_bulk_string(Some(payload)).len() <= s.len(),
        s.subrange(at, at + spec_bulk_string(Some(payload)).len()) == spec_bulk_string(
            Some(payload),
        ),
    ensures
        spec_read_bulk(s, at) == Ok::<(Seq<u8>, int), FrameError>(
            (payload, at + spec_bulk_string(Some(payload)).len()),
        ),
{
    let d = decimal(payload.len());
    let b = spec_bulk_string(Some(payload));
    let dl: int = d.len() as int;
    let pl: int = payload.len() as int;
    let body: int = at + 3 + dl;
    assert(b.len() == 1 + dl + 2 + pl + 2);
    assert forall|j: int| 0 <= j < b.len() implies s[at + j] == b[j] by {
        assert(s.subrange(at, at + b.len())[j] == s[at + j]);
    }
    assert(b[0] == 36u8);
    assert(s[at] == 36u8);
    assert(s.subrange(at + 1, at + 1 + dl) =~= d) by {
        assert forall|j: int| 0 <= j < dl implies s[at + 1 + j] == d[j] by {
            assert(b[1 + j] == d[j]);
        }
    }
    assert(b[1 + dl] == 13u8);
    assert(b[2 + dl] == 10u8);
    lemma_length_line(s, at, 36u8, payload.len());
    assert(s.subrange(body, body + pl) =~= payload) by {
        assert forall|j: int| 0 <= j < pl implies s[body + j] == payload[j] by {
            assert(b[3 + dl + j] == payload[j]);
        }
    }
    assert(b[3 + dl + pl] == 13u8);
    assert(b[4 + dl + pl] == 10u8);
}

/// Bulk strings that stand one after the other at `at` read back as their
/// payloads.
proof fn lemma_read_bulks(s: Seq<u8>, at: int, items: Seq<Seq<u8>>)
    requires
        0 <= at,
        forall|i: int| 0 <= i < items.len() ==> (#[trigger] items[i]).len() <= usize::MAX,
        at + spec_bulk_strings(items).len() <= s.len(),
        s.subrange(at, at + spec_bulk_strings(items).len()) == spec_bulk_strings(items),
    ensures
        spec_read_bulks(s, at, items.len()) == Ok::<(Seq<Seq<u8>>, int), FrameError>(
            (items, at + spec_bulk_strings(items).len()),
        ),
    decreases items.len(),
{
    if items.len() == 0 {
        assert(items == Seq::<Seq<u8>>::empty());
    } else {
        let front = items.drop_last();
        let head = spec_bulk_strings(front);
        let last = spec_bulk_string(Some(items.last()));
        let all = spec_bulk_strings(items);
        assert(all == head + last);
        let hl: int = head.len() as int;
        let mid: int = at + hl;
        assert(s.subrange(at, mid) =~= head) by {
            assert forall|j: int| 0 <= j < hl implies s[at + j] == head[j] by {
                assert(s.subrange(at, at + all.len())[j] == all[j]);
            }
        }
        assert(s.subrange(mid, mid + last.len()) =~= last) by {
            assert forall|j: int| 0 <= j < last.len() implies s[mid + j] == last[j] by {
                assert(s.subrange(at, at + all.len())[hl + j] == all[hl + j]);
            }
        }
        lemma_read_bulks(s, at, front);
        lemma_read_bulk(s, mid, items.last());
        assert(front.push(items.last()) == items);
    }
}

/// Reading the front of a stream that starts with the encoding of a frame
/// gives back the frame's items and takes exactly the frame's bytes, whatever
/// follows it: frames sent back to back come out one by one, in order.
pub proof fn lemma_tokenize_array(items: Seq<Seq<u8>>, rest: Seq<u8>)
    requires
        items.len() <= usize::MAX,
        forall|i: int| 0 <= i < items.len() ==> (#[trigger] items[i]).len() <= usize::MAX,
    ensures
        spec_tokenize(spec_array(items) + rest) == Ok::<Option<(Seq<Seq<u8>>, int)>, FrameError>(
            Some((items, spec_array(items).len() as int)),
        ),
{
    let d = decimal(items.len());
    let bulks = spec_bulk_strings(items);
    let frame = spec_array(items);
    let s = frame + rest;
    let dl: int = d.len() as int;
    let at: int = 3 + dl;
    assert(frame.len() == at + bulks.len());
    assert(s[0] == 42u8);
    assert(s.subrange(1, 1 + dl) =~= d);
    assert(s[1 + dl] == 13u8);
    assert(s[2 + dl] == 10u8);
    lemma_length_line(s, 0, 42u8, items.len());
    assert(s.subrange(at, at + bulks.len()) =~= bulks);
    lemma_read_bulks(s, at, items);
}

/// The first line of `s`, line feed included, where `s` holds a line feed.
pub open spec fn spec_line(s: Seq<u8>) -> Option<Seq<u8>> {
    match find_lf(s, 0) {
        Some(lf) => Some(s.subrange(0, lf + 1)),
        None => None,
    }
}

/// Reads the raw blob `$<len>\r\n<bytes>` off the front of `s`: its payload
/// and the number of bytes it takes up.
pub open spec fn spec_read_blob(s: Seq<u8>) -> Result<(Seq<u8>, int), FrameError> {
    match spec_length_line(s, 0, 36u8) {
        Err(e) => Err(e),
        Ok((len, body)) => if s.len() < body + len {
            Err(FrameError::UnexpectedEof)
        } else {
            Ok((s.subrange(body, body + len), body + len))
        },
    }
}

/// The first line of `input`, line feed included; nothing where no line is
/// complete yet.
pub fn first_line(input: &[u8]) -> (r: Option<&[u8]>)
    ensures
        match r {
            Some(l) => spec_line(input@) == Some(l@) && 0 < l@.len() <= input@.len(),
            None => spec_line(input@) is None,
        },
{
    let mut lf: usize = 0;
    while lf < input.len() && input[lf] != 10
        invariant
            lf <= input.len(),
            forall|j: int| 0 <= j < lf ==> input@[j] != 10u8,
        decreases input.len() - lf,
    {
        lf += 1;
    }
    proof {
        lemma_find_lf(input@, 0);
    }
    if lf >= input.len() {
        return None;
    }
    proof {
        lemma_find_lf_is(input@, 0, lf as int);
    }
    Some(slice_subrange(input, 0, lf + 1))
}

/// Takes one raw blob off the front of `input`: its payload and how many
/// bytes it took. `UnexpectedEof` says that the blob is not complete yet.
pub fn read_blob(input: &[u8]) -> (r: Result<(Vec<u8>, usize), FrameError>)
    ensures
        match r {
            Ok((payload, used)) => spec_read_blob(input@) == Ok::<(Seq<u8>, int), FrameError>(
                (payload@, used as int),
            ) && 0 < used <= input.len(),
            Err(e) => spec_read_blob(input@) == Err::<(Seq<u8>, int), FrameError>(e),
        },
{
    match length_line(input, 0, 36) {
        Err(e) => Err(e),
        Ok((len, body)) => {
            if input.len() - body < len {
                return Err(FrameError::UnexpectedEof);
            }
            let payload = copy(slice_subrange(input, body, body + len));
            Ok((payload, body + len))
        },
    }
}

/// A raw blob reads back as its payload and takes exactly its own bytes,
/// whatever follows it.
pub proof fn lemma_read_blob(payload: Seq<u8>, rest: Seq<u8>)
    requires
        payload.len() <= usize::MAX,
    ensures
        spec_read_blob(spec_blob(payload) + rest) == Ok::<(Seq<u8>, int), FrameError>(
            (payload, spec_blob(payload).len() as int),
        ),
{
    let d = decimal(payload.len());
    let dl: int = d.len() as int;
    let s = spec_blob(payload) + rest;
    assert(s[0] == 36u8);
    assert(s.subrange(1, 1 + dl) =~= d);
    assert(s[1 + dl] == 13u8);
    assert(s[2 + dl] == 10u8);
    lemma_length_line(s, 0, 36u8, payload.len());
    assert(s.subrange(3 + dl, 3 + dl + payload.len()) =~= payload);
}

} // verus!
