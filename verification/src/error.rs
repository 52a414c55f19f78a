//! Errors of the parser and where in the input they occurred.
use vstd::prelude::*;
use vstd::utf8::*;
use crate::text::{push_str, push_decimal, push_string, decimal};

verus! {

/// Which expectation of the grammar failed.
#[derive(Debug, Clone, Copy, PartialEq, Eq, Structural)]
pub enum ErrorKind {
    /// A fixed piece of text was expected
    Tag,
    /// A piece of text that should occur later in the input was not found
    TakeUntil,
    /// A file name was expected
    IsNot,
    /// A line ending was expected
    CrLf,
    /// A decimal number was expected
    Digit,
    /// The input went on after the last patch
    Eof,
    /// A repetition stopped making progress
    Many0,
    /// A repetition of at least one item stopped making progress
    Many1,
    /// A number does not fit in 64 bits; reading stops
    Overflow,
}

impl ErrorKind {
    /// A short name of the kind of error.
    pub fn description(&self) -> (r: &'static str)
        ensures
            r@ == self.spec_description(),
    {
        match self {
            ErrorKind::Tag => "Tag",
            ErrorKind::TakeUntil => "Take until",
            ErrorKind::IsNot => "IsNot",
            ErrorKind::CrLf => "CrLf",
            ErrorKind::Digit => "Digit",
            ErrorKind::Eof => "End of file",
            ErrorKind::Many0 => "Many0",
            ErrorKind::Many1 => "Many1",
            ErrorKind::Overflow => "Overflow",
        }
    }

    pub open spec fn spec_description(&self) -> Seq<char> {
        match self {
            ErrorKind::Tag => "Tag"@,
            ErrorKind::TakeUntil => "Take until"@,
            ErrorKind::IsNot => "IsNot"@,
            ErrorKind::CrLf => "CrLf"@,
            ErrorKind::Digit => "Digit"@,
            ErrorKind::Eof => "End of file"@,
            ErrorKind::Many0 => "Many0"@,
            ErrorKind::Many1 => "Many1"@,
            ErrorKind::Overflow => "Overflow"@,
        }
    }
}

/// A failure of one step of the parser: where it happened and what failed.
#[derive(Debug, Clone, Copy, PartialEq, Eq, Structural)]
pub struct Failure {
    /// Index (in characters) into the input
    pub pos: usize,
    pub kind: ErrorKind,
}

/// Type returned when an error occurs while parsing a patch
#[derive(Debug, Clone, PartialEq, Eq)]
pub struct ParseError {
    /// The line where the parsing error occurred
    pub line: u32,
    /// The offset within the input (in bytes of its UTF-8 encoding) where the parsing error occurred
    pub offset: usize,
    /// The failed input: the rest of the input from where the error occurred
    pub fragment: String,
    /// The actual parsing error
    pub kind: ErrorKind,
}

/// The number of line feeds in `t`.
pub open spec fn count_newlines(t: Seq<char>) -> nat
    decreases t.len(),
{
    if t.len() == 0 {
        0
    } else {
        count_newlines(t.drop_last()) + if t.last() == '\n' { 1nat } else { 0nat }
    }
}

/// The line number of index `pos` of `s`, counted from 1, in 32 bits.
pub open spec fn line_at(s: Seq<char>, pos: int) -> u32 {
    ((1 + count_newlines(s.subrange(0, pos))) % 0x1_0000_0000) as u32
}

/// The offset in bytes of index `pos` of `s` in its UTF-8 encoding, in the width of `usize`.
pub open spec fn byte_offset_at(s: Seq<char>, pos: int) -> usize {
    (encode_utf8(s.subrange(0, pos)).len() % (usize::MAX as nat + 1)) as usize
}

/// The error that a failure of `kind` at index `pos` of the input `s` is reported as.
pub open spec fn error_matches(e: ParseError, s: Seq<char>, pos: int, kind: ErrorKind) -> bool {
    &&& e.line == line_at(s, pos)
    &&& e.offset == byte_offset_at(s, pos)
    &&& e.fragment@ == s.subrange(pos, s.len() as int)
    &&& e.kind == kind
}

/// The number of bytes of the UTF-8 encoding of `c`.
pub open spec fn utf8_width(c: char) -> nat {
    if (c as u32) <= 0x7f {
        1
    } else if (c as u32) <= 0x7ff {
        2
    } else if (c as u32) <= 0xffff {
        3
    } else {
        4
    }
}

proof fn lemma_encode_utf8_push(t: Seq<char>, c: char)
    ensures
        encode_utf8(t.push(c)).len() == encode_utf8(t).len() + utf8_width(c),
    decreases t.len(),
{
    broadcast use vstd::utf8::char_is_scalar;
    if t.len() == 0 {
        assert(t.push(c).drop_first() =~= Seq::<char>::empty());
        assert(encode_utf8(Seq::<char>::empty()) =~= Seq::<u8>::empty());
    } else {
        lemma_encode_utf8_push(t.drop_first(), c);
        assert(t.push(c).drop_first() =~= t.drop_first().push(c));
    }
}

proof fn lemma_encode_utf8_concat(a: Seq<char>, b: Seq<char>)
    ensures
        encode_utf8(a + b) == encode_utf8(a) + encode_utf8(b),
    decreases a.len(),
{
    if a.len() == 0 {
        assert(a + b =~= b);
        assert(encode_utf8(a) =~= Seq::<u8>::empty());
        assert(encode_utf8(a) + encode_utf8(b) =~= encode_utf8(b));
    } else {
        lemma_encode_utf8_concat(a.drop_first(), b);
        assert((a + b).drop_first() =~= a.drop_first() + b);
        assert((a + b)[0] == a[0]);
        assert(encode_utf8(a + b) =~= encode_utf8(a) + encode_utf8(b));
    }
}

/// The number of line feed bytes in `b`.
pub open spec fn count_line_feed_bytes(b: Seq<u8>) -> nat
    decreases b.len(),
{
    if b.len() == 0 {
        0
    } else {
        (if b[0] == 10u8 { 1nat } else { 0nat }) + count_line_feed_bytes(b.drop_first())
    }
}

proof fn lemma_count_line_feed_bytes_concat(a: Seq<u8>, b: Seq<u8>)
    ensures
        count_line_feed_bytes(a + b) == count_line_feed_bytes(a) + count_line_feed_bytes(b),
    decreases a.len(),
{
    if a.len() == 0 {
        assert(a + b =~= b);
    } else {
        lemma_count_line_feed_bytes_concat(a.drop_first(), b);
        assert((a + b).drop_first() =~= a.drop_first() + b);
        assert((a + b)[0] == a[0]);
    }
}

proof fn lemma_count_newlines_first(t: Seq<char>)
    requires
        t.len() > 0,
    ensures
        count_newlines(t) == (if t[0] == '\n' { 1nat } else { 0nat }) + count_newlines(t.drop_first()),
    decreases t.len(),
{
    if t.len() > 1 {
        lemma_count_newlines_first(t.drop_last());
        assert(t.drop_last().drop_first() =~= t.drop_first().drop_last());
        assert(t.drop_first().last() == t.last());
    } else {
        assert(t.drop_first() =~= Seq::<char>::empty());
        assert(t.drop_last() =~= Seq::<char>::empty());
    }
}

/// A character's UTF-8 encoding holds a line feed byte exactly where the
/// character is a line feed: every byte of a longer encoding has its high bit set.
proof fn lemma_scalar_line_feeds(c: char)
    ensures
        count_line_feed_bytes(encode_scalar(c as u32)) == if c == '\n' { 1nat } else { 0nat },
{
    broadcast use vstd::utf8::char_is_scalar;
    let v = c as u32;
    let e = encode_scalar(v);
    reveal_with_fuel(count_line_feed_bytes, 5);
    if has_width_1_encoding(v) {
        assert(((v & 0x7F) as u8 == 10u8) == (v == 10u32)) by (bit_vector)
            requires
                v <= 0x7F,
        ;
        assert(e.drop_first() =~= Seq::<u8>::empty());
        assert(('\n' as u32) == 10u32);
    } else {
        assert(c != '\n');
        assert((0x80u8 | (v & 0x3F) as u8) != 10u8) by (bit_vector);
        assert((0x80u8 | ((v >> 6) & 0x3F) as u8) != 10u8) by (bit_vector);
        assert((0x80u8 | ((v >> 12) & 0x3F) as u8) != 10u8) by (bit_vector);
        assert((0xC0u8 | ((v >> 6) & 0x1F) as u8) != 10u8) by (bit_vector);
        assert((0xE0u8 | ((v >> 12) & 0x0F) as u8) != 10u8) by (bit_vector);
        assert((0xF0u8 | ((v >> 18) & 0x7) as u8) != 10u8) by (bit_vector);
        let e1 = e.drop_first();
        let e2 = e1.drop_first();
        let e3 = e2.drop_first();
        if has_width_2_encoding(v) {
            assert(e2 =~= Seq::<u8>::empty());
            assert(e1[0] == e[1]);
        } else if has_width_3_encoding(v) {
            assert(e3 =~= Seq::<u8>::empty());
            assert(e1[0] == e[1]);
            assert(e2[0] == e[2]);
        } else {
            assert(e3.drop_first() =~= Seq::<u8>::empty());
            assert(e1[0] == e[1]);
            assert(e2[0] == e[2]);
            assert(e3[0] == e[3]);
        }
    }
}

/// The line feed bytes of an encoding are the line feeds of the text.
proof fn lemma_encode_utf8_line_feeds(t: Seq<char>)
    ensures
        count_line_feed_bytes(encode_utf8(t)) == count_newlines(t),
    decreases t.len(),
{
    if t.len() == 0 {
        assert(encode_utf8(t) =~= Seq::<u8>::empty());
    } else {
        lemma_encode_utf8_line_feeds(t.drop_first());
        lemma_count_line_feed_bytes_concat(encode_scalar(t[0] as u32), encode_utf8(t.drop_first()));
        lemma_scalar_line_feeds(t[0]);
        lemma_count_newlines_first(t);
    }
}

/// The error reported for a failure in the text `s` locates it in the bytes of
/// its UTF-8 encoding: its offset is where the failed input starts among those
/// bytes, the failed input is the encoding from there to the end, and the
/// line is one more than the line feed bytes before the offset (in 32 bits).
pub proof fn law_error_offset_in_bytes(e: ParseError, s: Seq<char>, pos: int, kind: ErrorKind)
    requires
        0 <= pos <= s.len(),
        error_matches(e, s, pos, kind),
        encode_utf8(s).len() <= usize::MAX,
    ensures
        e.offset <= encode_utf8(s).len(),
        encode_utf8(e.fragment@) == encode_utf8(s).subrange(
            e.offset as int,
            encode_utf8(s).len() as int,
        ),
        encode_utf8(s.subrange(0, pos)) == encode_utf8(s).subrange(0, e.offset as int),
        e.line == ((1 + count_line_feed_bytes(encode_utf8(s).subrange(0, e.offset as int)))
            % 0x1_0000_0000) as u32,
{
    let a = s.subrange(0, pos);
    let b = s.subrange(pos, s.len() as int);
    assert(a + b =~= s);
    lemma_encode_utf8_concat(a, b);
    vstd::arithmetic::div_mod::lemma_small_mod(
        encode_utf8(a).len(),
        usize::MAX as nat + 1,
    );
    assert(encode_utf8(s).subrange(e.offset as int, encode_utf8(s).len() as int) =~= encode_utf8(b));
    assert(encode_utf8(s).subrange(0, e.offset as int) =~= encode_utf8(a));
    lemma_encode_utf8_line_feeds(a);
}

fn char_width(c: char) -> (w: usize)
    ensures
        w == utf8_width(c),
{
    let v = c as u32;
    if v <= 0x7f {
        1
    } else if v <= 0x7ff {
        2
    } else if v <= 0xffff {
        3
    } else {
        4
    }
}

impl ParseError {
    /// The error for a failure of `kind` at index `pos` of the input `s`.
    pub fn at(s: &[char], pos: usize, kind: ErrorKind) -> (e: ParseError)
        requires
            pos <= s.len(),
        ensures
            error_matches(e, s@, pos as int, kind),
    {
        let mut line: u32 = 1;
        let mut offset: usize = 0;
        let mut k: usize = 0;
        proof {
            assert(s@.subrange(0, 0) =~= Seq::<char>::empty());
            assert(encode_utf8(Seq::<char>::empty()) =~= Seq::<u8>::empty());
            vstd::arithmetic::div_mod::lemma_small_mod(0, usize::MAX as nat + 1);
        }
        while k < pos
            invariant
                k <= pos <= s.len(),
                line == line_at(s@, k as int),
                offset == byte_offset_at(s@, k as int),
            decreases pos - k,
        {
            let c = s[k];
            proof {
                let prefix = s@.subrange(0, k as int);
                assert(s@.subrange(0, k + 1) =~= prefix.push(c));
                assert(s@.subrange(0, k + 1).drop_last() =~= prefix);
                lemma_encode_utf8_push(prefix, c);
                vstd::arithmetic::div_mod::lemma_add_mod_noop(
                    1 + count_newlines(prefix) as int, 1, 0x1_0000_0000);
                let m: int = usize::MAX + 1;
                let x: int = offset + utf8_width(c);
                vstd::arithmetic::div_mod::lemma_small_mod(utf8_width(c), m as nat);
                vstd::arithmetic::div_mod::lemma_add_mod_noop(
                    encode_utf8(prefix).len() as int, utf8_width(c) as int, m);
                if x >= m {
                    vstd::arithmetic::div_mod::lemma_fundamental_div_mod_converse(x, m, 1, x - m);
                } else {
                    vstd::arithmetic::div_mod::lemma_fundamental_div_mod_converse(x, m, 0, x);
                }
            }
            if c == '\n' {
                line = line.wrapping_add(1);
            }
            offset = offset.wrapping_add(char_width(c));
            k = k + 1;
        }
        let fragment = crate::text::string_of(s, pos, s.len());
        ParseError { line, offset, fragment, kind }
    }

    /// A short name of the kind of error.
    pub fn description(&self) -> (r: &'static str)
        ensures
            r@ == self.kind.spec_description(),
    {
        self.kind.description()
    }

    /// The message of the error: its line and the input that failed.
    pub fn to_string(&self) -> (r: String)
        ensures
            r@ == "Line "@ + decimal(self.line as nat) + ": Error while parsing: "@
                + self.fragment@,
    {
        let mut r = String::new();
        push_str(&mut r, "Line ");
        push_decimal(&mut r, self.line as u64);
        push_str(&mut r, ": Error while parsing: ");
        push_string(&mut r, &self.fragment);
        r
    }
}

} // verus!
