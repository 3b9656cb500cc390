//! Text, and its positions in bytes.
//!
//! A text is modelled as the sequence of its characters. Positions in a
//! request path are byte offsets into its UTF-8 encoding, so this module also
//! says what a byte offset means on a sequence of characters.

use vstd::prelude::*;
use vstd::utf8::*;

verus! {

/// The number of bytes that a text takes in UTF-8.
pub open spec fn byte_len(s: Seq<char>) -> nat {
    encode_utf8(s).len()
}

/// Whether a byte offset falls between two characters of a text, or on one of
/// its ends.
pub open spec fn is_boundary(s: Seq<char>, at: int) -> bool {
    is_char_boundary(encode_utf8(s), at)
}

/// Whether two byte offsets delimit a piece of a text.
pub open spec fn delimits(s: Seq<char>, from: int, to: int) -> bool {
    from <= to && is_boundary(s, from) && is_boundary(s, to)
}

/// The characters between two byte offsets of a text.
pub open spec fn text_between(s: Seq<char>, from: int, to: int) -> Seq<char> {
    decode_utf8(encode_utf8(s).subrange(from, to))
}

/// The characters from a byte offset of a text on.
pub open spec fn text_from(s: Seq<char>, at: int) -> Seq<char> {
    text_between(s, at, byte_len(s) as int)
}

/// The characters of a text before a byte offset.
pub open spec fn text_to(s: Seq<char>, at: int) -> Seq<char> {
    text_between(s, 0, at)
}

/// A number as the 16 low bits keep it.
pub open spec fn wrap16(n: int) -> u16 {
    (n % 0x10000) as u16
}

/// The texts of a list of strings.
pub open spec fn texts(v: Seq<&str>) -> Seq<Seq<char>> {
    Seq::new(v.len(), |i: int| v[i]@)
}

/// A boundary lies within the text.
pub proof fn lemma_boundary_range(s: Seq<char>, at: int)
    requires
        is_boundary(s, at),
    ensures
        0 <= at <= byte_len(s),
{
    encode_utf8_valid_utf8(s);
    reveal_with_fuel(is_char_boundary, 1);
    if at == 0 {
    } else if at < 0 || encode_utf8(s).len() < at {
        assert(!is_char_boundary(encode_utf8(s), at));
    }
}

/// Both ends of a text are boundaries.
pub proof fn lemma_boundary_ends(s: Seq<char>)
    ensures
        is_boundary(s, 0),
        is_boundary(s, byte_len(s) as int),
{
    encode_utf8_valid_utf8(s);
    is_char_boundary_start_end_of_seq(encode_utf8(s));
}

/// The encoding of a concatenation is the concatenation of the encodings.
pub proof fn lemma_encode_concat(a: Seq<char>, b: Seq<char>)
    ensures
        encode_utf8(a + b) == encode_utf8(a) + encode_utf8(b),
    decreases a.len(),
{
    if a.len() == 0 {
        assert(a + b =~= b);
        assert(encode_utf8(a) + encode_utf8(b) =~= encode_utf8(b));
    } else {
        lemma_encode_concat(a.drop_first(), b);
        assert((a + b).drop_first() =~= a.drop_first() + b);
        assert(encode_utf8(a + b) =~= encode_utf8(a) + encode_utf8(b));
    }
}

/// A text has no more characters than bytes.
pub proof fn lemma_byte_len_at_least(s: Seq<char>)
    ensures
        s.len() <= byte_len(s),
    decreases s.len(),
{
    if s.len() > 0 {
        lemma_byte_len_at_least(s.drop_first());
    }
}

/// Where two texts meet there is a boundary.
pub proof fn lemma_boundary_concat(a: Seq<char>, b: Seq<char>)
    ensures
        is_boundary(a + b, byte_len(a) as int),
    decreases a.len(),
{
    encode_utf8_valid_utf8(a + b);
    if a.len() > 0 {
        let whole = a + b;
        encode_utf8_first_scalar(whole);
        lemma_boundary_concat(a.drop_first(), b);
        assert(whole.drop_first() =~= a.drop_first() + b);
        assert(pop_first_scalar(encode_utf8(whole)) =~= encode_utf8(whole.drop_first()));
        lemma_encode_concat(a, b);
    }
}

/// Cutting a concatenation where its parts meet gives the parts back.
pub proof fn lemma_cut_concat(a: Seq<char>, b: Seq<char>)
    ensures
        text_to(a + b, byte_len(a) as int) == a,
        text_from(a + b, byte_len(a) as int) == b,
{
    lemma_encode_concat(a, b);
    let bytes = encode_utf8(a + b);
    assert(bytes.subrange(0, byte_len(a) as int) =~= encode_utf8(a));
    assert(bytes.subrange(byte_len(a) as int, bytes.len() as int) =~= encode_utf8(b));
    encode_utf8_decode_utf8(a);
    encode_utf8_decode_utf8(b);
}

/// The bytes of the text from a boundary on are the bytes from there on.
pub proof fn lemma_encode_from(s: Seq<char>, at: int)
    requires
        is_boundary(s, at),
    ensures
        encode_utf8(text_from(s, at)) == encode_utf8(s).subrange(at, byte_len(s) as int),
        encode_utf8(text_to(s, at)) == encode_utf8(s).subrange(0, at),
        s == text_to(s, at) + text_from(s, at),
        byte_len(text_to(s, at)) == at,
        byte_len(text_from(s, at)) == byte_len(s) - at,
{
    let bytes = encode_utf8(s);
    encode_utf8_valid_utf8(s);
    lemma_boundary_range(s, at);
    valid_utf8_split(bytes, at);
    decode_utf8_encode_utf8(bytes.subrange(at, bytes.len() as int));
    decode_utf8_encode_utf8(bytes.subrange(0, at));
    decode_utf8_split(bytes, at);
    encode_utf8_decode_utf8(s);
}

/// A boundary of a text is a boundary of every beginning that reaches it.
pub proof fn lemma_boundary_in_prefix(s: Seq<char>, from: int, to: int)
    requires
        delimits(s, from, to),
    ensures
        is_boundary(text_to(s, to), from),
{
    let bytes = encode_utf8(s);
    let head = text_to(s, to);
    encode_utf8_valid_utf8(s);
    encode_utf8_valid_utf8(head);
    lemma_boundary_range(s, from);
    lemma_boundary_range(s, to);
    lemma_encode_from(s, to);
    if from == to {
        lemma_boundary_ends(head);
    } else {
        assert(encode_utf8(head)[from] == bytes[from]);
        is_char_boundary_iff_not_is_continuation_byte(bytes, from);
        is_char_boundary_iff_not_is_continuation_byte(encode_utf8(head), from);
    }
}

/// Two boundaries of what follows a boundary are boundaries of the whole, and
/// delimit the same characters there.
pub proof fn lemma_between_from(s: Seq<char>, at: int, from: int, to: int)
    requires
        is_boundary(s, at),
        delimits(text_from(s, at), from, to),
    ensures
        delimits(s, at + from, at + to),
        text_between(s, at + from, at + to) == text_between(text_from(s, at), from, to),
{
    lemma_encode_from(s, at);
    lemma_boundary_range(s, at);
    let rest = text_from(s, at);
    lemma_boundary_range(rest, from);
    lemma_boundary_range(rest, to);
    lemma_boundary_shift(s, at, from);
    lemma_boundary_shift(s, at, to);
    assert(encode_utf8(s).subrange(at + from, at + to) =~= encode_utf8(rest).subrange(from, to));
}

proof fn lemma_boundary_shift(s: Seq<char>, at: int, off: int)
    requires
        is_boundary(s, at),
        is_boundary(text_from(s, at), off),
    ensures
        is_boundary(s, at + off),
{
    let rest = text_from(s, at);
    lemma_encode_from(s, at);
    lemma_boundary_range(rest, off);
    let head = text_to(rest, off);
    let tail = text_from(rest, off);
    lemma_encode_from(rest, off);
    let front = text_to(s, at);
    assert(s == (front + head) + tail) by {
        assert(front + (head + tail) =~= (front + head) + tail);
    }
    lemma_encode_concat(front, head);
    lemma_boundary_concat(front + head, tail);
}

/// `String::push` appends a character.
pub assume_specification[ String::push ](s: &mut String, ch: char)
    ensures
        final(s)@ == old(s)@.push(ch),
;

/// The byte length of a text.
pub(crate) fn byte_length(s: &str) -> (n: usize)
    ensures
        n == byte_len(s@),
{
    s.as_bytes().len()
}

/// Whether two texts are the same.
pub(crate) fn same_text(a: &str, b: &str) -> (same: bool)
    ensures
        same == (a@ == b@),
{
    match after_prefix(a, b) {
        Some(None) => {
            assert(a@ =~= b@);
            true
        },
        Some(Some(_)) => false,
        None => {
            assert(a@ == b@ ==> b@.is_prefix_of(a@));
            false
        },
    }
}

/// Whether a text begins with another one, and the character that follows it
/// there.
pub(crate) fn after_prefix(s: &str, prefix: &str) -> (next: Option<Option<char>>)
    ensures
        next is Some <==> prefix@.is_prefix_of(s@),
        next == Some(None::<char>) <==> prefix@.is_prefix_of(s@) && s@.len() == prefix@.len(),
        next matches Some(Some(c)) ==> prefix@.len() < s@.len() && s@[prefix@.len() as int] == c,
{
    let mut left = s.chars();
    let mut wanted = prefix.chars();
    let ghost mut n: int = 0;
    proof {
        assert(s@.skip(0) =~= s@);
        assert(prefix@.skip(0) =~= prefix@);
    }
    loop
        invariant
            0 <= n <= s@.len(),
            n <= prefix@.len(),
            forall|i: int| 0 <= i < n ==> s@[i] == prefix@[i],
            vstd::std_specs::iter::IteratorSpec::remaining(&left) == s@.skip(n),
            vstd::std_specs::iter::IteratorSpec::remaining(&wanted) == prefix@.skip(n),
        decreases prefix@.len() - n,
    {
        match wanted.next() {
            None => {
                assert(n == prefix@.len());
                assert(prefix@ =~= s@.take(n));
                return Some(left.next());
            },
            Some(c) => match left.next() {
                None => {
                    return None;
                },
                Some(d) => {
                    if c != d {
                        assert(s@[n] != prefix@[n]);
                        return None;
                    }
                    proof {
                        assert(s@.skip(n).drop_first() =~= s@.skip(n + 1));
                        assert(prefix@.skip(n).drop_first() =~= prefix@.skip(n + 1));
                        n = n + 1;
                    }
                },
            },
        }
    }
}

/// The first character of a text.
pub(crate) fn first_char(s: &str) -> (c: Option<char>)
    ensures
        c == (if s@.len() == 0 {
            None
        } else {
            Some(s@[0])
        }),
{
    s.chars().next()
}

/// The last character of a text.
pub(crate) fn last_char(s: &str) -> (c: Option<char>)
    ensures
        c == (if s@.len() == 0 {
            None
        } else {
            Some(s@.last())
        }),
{
    let mut rest = s.chars();
    let mut last: Option<char> = None;
    let ghost mut n: int = 0;
    proof {
        assert(s@.skip(0) =~= s@);
    }
    loop
        invariant
            0 <= n <= s@.len(),
            last == (if n == 0 {
                None
            } else {
                Some(s@[n - 1])
            }),
            vstd::std_specs::iter::IteratorSpec::remaining(&rest) == s@.skip(n),
        decreases s@.len() - n,
    {
        match rest.next() {
            None => {
                return last;
            },
            Some(c) => {
                last = Some(c);
                proof {
                    assert(s@.skip(n).drop_first() =~= s@.skip(n + 1));
                    n = n + 1;
                }
            },
        }
    }
}

/// The part of a text from a byte offset on.
pub(crate) fn slice_from(s: &str, at: usize) -> (rest: &str)
    requires
        is_boundary(s@, at as int),
    ensures
        rest@ == text_from(s@, at as int),
{
    let rest = s.split_at(at).1;
    proof {
        encode_utf8_decode_utf8(rest@);
    }
    rest
}

/// The part of a text before a byte offset.
pub(crate) fn slice_to(s: &str, at: usize) -> (head: &str)
    requires
        is_boundary(s@, at as int),
    ensures
        head@ == text_to(s@, at as int),
{
    let head = s.split_at(at).0;
    proof {
        encode_utf8_decode_utf8(head@);
    }
    head
}

/// The part of a text between two byte offsets, where they delimit one.
pub(crate) fn slice_between(s: &str, from: usize, to: usize) -> (piece: Option<&str>)
    ensures
        piece is Some <==> delimits(s@, from as int, to as int),
        piece matches Some(p) ==> p@ == text_between(s@, from as int, to as int),
{
    if from <= to && s.is_char_boundary(from) && s.is_char_boundary(to) {
        proof {
            lemma_boundary_in_prefix(s@, from as int, to as int);
            lemma_boundary_range(s@, to as int);
            lemma_encode_from(s@, to as int);
            lemma_boundary_range(text_to(s@, to as int), from as int);
            assert(encode_utf8(s@).subrange(0, to as int).subrange(from as int, to as int)
                =~= encode_utf8(s@).subrange(from as int, to as int));
        }
        Some(slice_from(slice_to(s, to), from))
    } else {
        None
    }
}

/// The 16 low bits of a number.
pub(crate) fn low16(n: usize) -> (r: u16)
    ensures
        r == wrap16(n as int),
{
    let low = n % 0x10000;
    low as u16
}

/// The 16 low bits of a sum.
pub(crate) fn low16_sum(a: usize, b: usize, c: usize) -> (r: u16)
    ensures
        r == wrap16(a + b + c),
{
    let sum = a % 0x10000 + b % 0x10000 + c % 0x10000;
    let low = sum % 0x10000;
    low as u16
}

} // verus!
