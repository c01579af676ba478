//! Byte-string helpers shared by the codec, the command parser and the
//! state machines: ASCII text as bytes, decimal numbers, and ASCII
//! case-insensitive comparison.

use vstd::prelude::*;

verus! {

/// The bytes of a text whose characters are all ASCII.
pub open spec fn ascii(s: Seq<char>) -> Seq<u8> {
    Seq::new(s.len(), |i: int| s[i] as u8)
}

/// Carriage return followed by line feed.
pub open spec fn crlf() -> Seq<u8> {
    seq![13u8, 10u8]
}

/// The ASCII digit for `d`, meant for `d < 10`.
pub open spec fn digit(d: nat) -> u8 {
    (48 + d) as u8
}

/// The decimal rendering of `n`, without sign or leading zeros.
pub open spec fn decimal(n: nat) -> Seq<u8>
    decreases n,
{
    if n < 10 {
        seq![digit(n)]
    } else {
        decimal(n / 10).push(digit(n % 10))
    }
}

pub open spec fn is_digit(b: u8) -> bool {
    48 <= b <= 57
}

pub open spec fn all_digits(s: Seq<u8>) -> bool {
    forall|i: int| 0 <= i < s.len() ==> is_digit(#[trigger] s[i])
}

/// The number that a sequence of ASCII digits denotes; the empty sequence
/// denotes 0.
pub open spec fn digits_value(s: Seq<u8>) -> nat
    decreases s.len(),
{
    if s.len() == 0 {
        0
    } else {
        digits_value(s.drop_last()) * 10 + (s.last() - 48) as nat
    }
}

/// What is left of a number's text once one leading `+` is taken off.
pub open spec fn unsigned_part(s: Seq<u8>) -> Seq<u8> {
    if s.len() > 0 && s[0] == 43u8 {
        s.subrange(1, s.len() as int)
    } else {
        s
    }
}

/// The unsigned number that `s` denotes: an optional `+`, then one or more
/// ASCII digits, with a value that fits in 64 bits. Anything else is not a
/// number.
pub open spec fn spec_parse_u64(s: Seq<u8>) -> Option<u64> {
    let body = unsigned_part(s);
    if body.len() > 0 && all_digits(body) && digits_value(body) <= u64::MAX {
        Some(digits_value(body) as u64)
    } else {
        None
    }
}

/// The lower-case form of an ASCII letter; every other byte is itself.
pub open spec fn lower(b: u8) -> u8 {
    if 65 <= b <= 90 {
        (b + 32) as u8
    } else {
        b
    }
}

pub open spec fn lowered(s: Seq<u8>) -> Seq<u8> {
    Seq::new(s.len(), |i: int| lower(s[i]))
}

/// Whether `token` spells the lower-case ASCII `word`, letter case aside.
pub open spec fn is_word(token: Seq<u8>, word: Seq<char>) -> bool {
    lowered(token) == ascii(word)
}

/// The items joined with one `sep` between neighbours.
pub open spec fn join(items: Seq<Seq<u8>>, sep: u8) -> Seq<u8>
    decreases items.len(),
{
    if items.len() == 0 {
        Seq::empty()
    } else if items.len() == 1 {
        items[0]
    } else {
        join(items.drop_last(), sep).push(sep) + items.last()
    }
}

/// The items one after the other, with nothing between them.
pub open spec fn concat(items: Seq<Seq<u8>>) -> Seq<u8>
    decreases items.len(),
{
    if items.len() == 0 {
        Seq::empty()
    } else {
        concat(items.drop_last()) + items.last()
    }
}

/// The byte sequences that a vector of owned byte strings holds.
pub open spec fn views(items: Seq<Vec<u8>>) -> Seq<Seq<u8>> {
    Seq::new(items.len(), |i: int| items[i]@)
}

/// The byte sequences that a vector of borrowed byte strings holds.
pub open spec fn slice_views(items: Seq<&[u8]>) -> Seq<Seq<u8>> {
    Seq::new(items.len(), |i: int| items[i]@)
}

pub open spec fn option_view(v: Option<Vec<u8>>) -> Option<Seq<u8>> {
    match v {
        Some(b) => Some(b@),
        None => None,
    }
}

pub proof fn lemma_digits_value_push(s: Seq<u8>, b: u8)
    ensures
        digits_value(s.push(b)) == digits_value(s) * 10 + (b - 48) as nat,
{
    assert(s.push(b).drop_last() == s);
}

/// A longer run of digits never denotes less than one of its prefixes.
pub proof fn lemma_digits_value_prefix(s: Seq<u8>, k: int)
    requires
        0 <= k <= s.len(),
        all_digits(s),
    ensures
        digits_value(s.subrange(0, k)) <= digits_value(s),
    decreases s.len() - k,
{
    if k == s.len() {
        assert(s.subrange(0, k) == s);
    } else {
        lemma_digits_value_prefix(s, k + 1);
        assert(s.subrange(0, k + 1).drop_last() == s.subrange(0, k));
        assert(is_digit(s[k]));
    }
}

/// Rendering a number and reading the text back gives the number.
pub proof fn lemma_parse_decimal(n: nat)
    ensures
        decimal(n).len() > 0,
        all_digits(decimal(n)),
        digits_value(decimal(n)) == n,
        unsigned_part(decimal(n)) == decimal(n),
        n <= u64::MAX ==> spec_parse_u64(decimal(n)) == Some(n as u64),
    decreases n,
{
    if n < 10 {
        let s = decimal(n);
        assert(s.drop_last().len() == 0);
        assert(digits_value(s) == digits_value(s.drop_last()) * 10 + (s.last() - 48) as nat);
    } else {
        lemma_parse_decimal(n / 10);
        lemma_digits_value_push(decimal(n / 10), digit(n % 10));
        assert(decimal(n)[0] == decimal(n / 10)[0]);
    }
}

/// Copies an ASCII text into a byte vector.
pub fn text(s: &str) -> (r: Vec<u8>)
    requires
        s.is_ascii(),
    ensures
        r@ == ascii(s@),
{
    let b = s.as_bytes();
    proof {
        vstd::string::is_ascii_spec_bytes(s);
    }
    let mut v: Vec<u8> = Vec::new();
    let mut i: usize = 0;
    while i < b.len()
        invariant
            i <= b.len(),
            b@ == ascii(s@),
            v@ == b@.subrange(0, i as int),
        decreases b.len() - i,
    {
        v.push(b[i]);
        i += 1;
    }
    assert(v@ == b@);
    v
}

/// Appends `more` to `buf`.
pub fn append(buf: &mut Vec<u8>, more: &[u8])
    ensures
        final(buf)@ == old(buf)@ + more@,
{
    let mut i: usize = 0;
    while i < more.len()
        invariant
            i <= more.len(),
            buf@ == old(buf)@ + more@.subrange(0, i as int),
        decreases more.len() - i,
    {
        buf.push(more[i]);
        i += 1;
    }
    assert(more@.subrange(0, i as int) == more@);
}

/// Copies a byte slice into a vector of its own.
pub fn copy(src: &[u8]) -> (r: Vec<u8>)
    ensures
        r@ == src@,
{
    let mut v: Vec<u8> = Vec::new();
    append(&mut v, src);
    v
}

/// Joins byte strings end to end.
pub fn join_all(items: &Vec<Vec<u8>>) -> (r: Vec<u8>)
    ensures
        r@ == concat(views(items@)),
{
    let ghost all = views(items@);
    let mut out: Vec<u8> = Vec::new();
    let mut i: usize = 0;
    while i < items.len()
        invariant
            i <= items.len(),
            all == views(items@),
            out@ == concat(all.subrange(0, i as int)),
        decreases items.len() - i,
    {
        append(&mut out, items[i].as_slice());
        proof {
            let next = all.subrange(0, i + 1);
            assert(next.drop_last() == all.subrange(0, i as int));
            assert(next.last() == items@[i as int]@);
        }
        i += 1;
    }
    assert(all.subrange(0, i as int) == all);
    out
}

/// Whether two byte strings hold the same bytes.
pub fn same(a: &[u8], b: &[u8]) -> (r: bool)
    ensures
        r == (a@ == b@),
{
    if a.len() != b.len() {
        return false;
    }
    let mut i: usize = 0;
    while i < a.len()
        invariant
            i <= a.len(),
            a.len() == b.len(),
            a@.subrange(0, i as int) == b@.subrange(0, i as int),
        decreases a.len() - i,
    {
        if a[i] != b[i] {
            return false;
        }
        proof {
            assert(a@.subrange(0, i + 1) == a@.subrange(0, i as int).push(a@[i as int]));
            assert(b@.subrange(0, i + 1) == b@.subrange(0, i as int).push(b@[i as int]));
        }
        i += 1;
    }
    assert(a@.subrange(0, i as int) == a@);
    assert(b@.subrange(0, i as int) == b@);
    true
}

/// The decimal text of `n`.
pub fn render(n: u64) -> (r: Vec<u8>)
    ensures
        r@ == decimal(n as nat),
    decreases n,
{
    if n < 10 {
        let mut v: Vec<u8> = Vec::new();
        v.push(48 + n as u8);
        v
    } else {
        let mut v = render(n / 10);
        v.push(48 + (n % 10) as u8);
        v
    }
}

/// Reads an unsigned decimal number: an optional `+`, then digits.
pub fn parse_u64(s: &[u8]) -> (r: Option<u64>)
    ensures
        r == spec_parse_u64(s@),
{
    let start: usize = if s.len() > 0 && s[0] == 43 {
        1
    } else {
        0
    };
    let ghost body = unsigned_part(s@);
    assert(body == s@.subrange(start as int, s.len() as int));
    if start == s.len() {
        return None;
    }
    let mut acc: u64 = 0;
    let mut i: usize = start;
    while i < s.len()
        invariant
            start <= i <= s.len(),
            body == unsigned_part(s@),
            body == s@.subrange(start as int, s.len() as int),
            all_digits(body.subrange(0, i - start)),
            acc == digits_value(body.subrange(0, i - start)),
        decreases s.len() - i,
    {
        let b = s[i];
        let ghost k = i - start;
        if b < 48 || b > 57 {
            assert(!is_digit(body[k]));
            return None;
        }
        let d: u64 = (b - 48) as u64;
        proof {
            assert(body.subrange(0, k + 1) == body.subrange(0, k).push(b));
            lemma_digits_value_push(body.subrange(0, k), b);
            assert(all_digits(body.subrange(0, k + 1))) by {
                assert forall|j: int| 0 <= j < k + 1 implies is_digit(
                    #[trigger] body.subrange(0, k + 1)[j],
                ) by {
                    if j < k {
                        assert(body.subrange(0, k)[j] == body.subrange(0, k + 1)[j]);
                    }
                }
            }
        }
        if acc > (u64::MAX - d) / 10 {
            proof {
                assert(acc * 10 + d > u64::MAX);
                if all_digits(body) {
                    lemma_digits_value_prefix(body, k + 1);
                }
            }
            return None;
        }
        acc = acc * 10 + d;
        i += 1;
    }
    assert(body.subrange(0, i - start) == body);
    Some(acc)
}

/// Whether `token` spells `word`, an all-lower-case ASCII text, when letter
/// case is ignored.
pub fn matches_word(token: &[u8], word: &str) -> (r: bool)
    requires
        word.is_ascii(),
    ensures
        r == is_word(token@, word@),
{
    let w = word.as_bytes();
    proof {
        vstd::string::is_ascii_spec_bytes(word);
    }
    if token.len() != w.len() {
        return false;
    }
    let mut i: usize = 0;
    while i < token.len()
        invariant
            i <= token.len(),
            token.len() == w.len(),
            w@ == ascii(word@),
            forall|j: int| 0 <= j < i ==> lower(token@[j]) == #[trigger] w@[j],
        decreases token.len() - i,
    {
        let b = token[i];
        let l: u8 = if 65 <= b && b <= 90 {
            b + 32
        } else {
            b
        };
        if l != w[i] {
            assert(lowered(token@)[i as int] != ascii(word@)[i as int]);
            return false;
        }
        i += 1;
    }
    assert(lowered(token@) =~= ascii(word@));
    true
}

} // verus!
