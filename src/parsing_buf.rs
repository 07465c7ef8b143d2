use vstd::prelude::*;
use vstd::string::*;
use vstd::utf8::*;

verus! {

broadcast use encode_utf8_valid_utf8, encode_utf8_decode_utf8;

/// The cause of a failed parse.
#[derive(Clone, Copy, Debug, PartialEq, Eq, Structural)]
pub enum ParseErrorKind {
    VersionSegmentTooBig,
    UnexpectedEnd,
    InvalidChar(char),
}

/// An error raised while parsing a version or a version range.
#[derive(Clone, Copy, Debug, PartialEq, Eq, Structural)]
pub struct ParseRangeError {
    inner: ParseErrorKind,
}

impl ParseRangeError {
    pub closed spec fn spec_kind(&self) -> ParseErrorKind {
        self.inner
    }

    /// The cause of this error.
    pub fn kind(&self) -> (r: ParseErrorKind)
        ensures
            r == self.spec_kind(),
    {
        self.inner
    }

    /// A numeric segment does not fit.
    pub fn too_big() -> (r: Self)
        ensures
            r.spec_kind() == ParseErrorKind::VersionSegmentTooBig,
    {
        Self { inner: ParseErrorKind::VersionSegmentTooBig }
    }

    /// An unexpected character `c` was found.
    pub fn invalid_char(c: char) -> (r: Self)
        ensures
            r.spec_kind() == ParseErrorKind::InvalidChar(c),
    {
        Self { inner: ParseErrorKind::InvalidChar(c) }
    }

    /// The input ended too early.
    pub fn unexpected_end() -> (r: ParseRangeError)
        ensures
            r.spec_kind() == ParseErrorKind::UnexpectedEnd,
    {
        Self { inner: ParseErrorKind::UnexpectedEnd }
    }
}

/// The first character encoded in a non-empty UTF-8 byte sequence.
pub open spec fn head_char(bytes: Seq<u8>) -> char {
    decode_utf8(bytes)[0]
}

/// A cursor over the unread rest of a string.
pub struct ParsingBuf<'a> {
    pub buf: &'a str,
}

impl<'a> View for ParsingBuf<'a> {
    type V = Seq<u8>;

    /// The unread bytes.
    open spec fn view(&self) -> Seq<u8> {
        self.buf.spec_bytes()
    }
}

/// A non-empty valid UTF-8 sequence that starts with an ASCII byte has a
/// character boundary right after that byte.
pub proof fn lemma_ascii_head_boundary(bytes: Seq<u8>)
    requires
        valid_utf8(bytes),
        bytes.len() > 0,
        bytes[0] < 128,
    ensures
        is_char_boundary(bytes, 1),
        head_char(bytes) == bytes[0] as char,
{
    reveal_with_fuel(is_char_boundary, 2);
    reveal_with_fuel(decode_utf8, 2);
    let b = bytes[0];
    assert((b & 0x7f) as u32 == b as u32) by (bit_vector)
        requires
            b < 128,
    ;
}

/// The first byte of an encoding is ASCII exactly when the first character is,
/// and then the two agree.
pub proof fn lemma_encode_head(s: Seq<char>)
    requires
        s.len() > 0,
    ensures
        encode_utf8(s).len() > 0,
        (encode_utf8(s)[0] < 128) == ((s[0] as u32) < 128),
        (s[0] as u32) < 128 ==> encode_utf8(s)[0] as u32 == s[0] as u32,
{
    let v = s[0] as u32;
    assert(encode_utf8(s) == encode_scalar(v) + encode_utf8(s.drop_first()));
    vstd::utf8::char_is_scalar(s[0]);
    assert(v <= 0x7f ==> ((v & 0x7f) as u8) as u32 == v) by (bit_vector);
    assert(v > 0x7f ==> (0xC0 | ((v >> 6) & 0x1F) as u8) >= 128) by (bit_vector);
    assert(v > 0x7f ==> (0xE0 | ((v >> 12) & 0x0F) as u8) >= 128) by (bit_vector);
    assert(v > 0x7f ==> (0xF0 | ((v >> 18) & 0x7) as u8) >= 128) by (bit_vector);
}

/// The encoding of a string is empty exactly when the string is.
pub proof fn lemma_bytes_empty(s: Seq<char>)
    ensures
        (encode_utf8(s).len() == 0) == (s.len() == 0),
{
    if s.len() > 0 {
        vstd::utf8::encode_utf8_first_scalar(s);
    }
}

impl<'a> ParsingBuf<'a> {
    /// A cursor at the start of `source`.
    pub fn new(source: &'a str) -> (r: ParsingBuf<'a>)
        ensures
            r.buf == source,
            r@ == source.spec_bytes(),
    {
        Self { buf: source }
    }

    /// Whether nothing is left.
    pub fn is_empty(&self) -> (r: bool)
        ensures
            r == (self@.len() == 0),
            r == (self.buf@.len() == 0),
    {
        proof {
            lemma_bytes_empty(self.buf@);
        }
        self.buf.is_empty()
    }

    /// Consumes `ch` if it comes next; otherwise reports what was found.
    pub fn read(&mut self, ch: char) -> (r: Result<(), ParseRangeError>)
        ensures
            old(self).buf@.len() == 0 ==> r is Err && r->Err_0.spec_kind() == ParseErrorKind::UnexpectedEnd
                && final(self).buf@ == old(self).buf@,
            old(self).buf@.len() > 0 && old(self).buf@[0] == ch ==> r is Ok && final(self).buf@ == old(
                self,
            ).buf@.drop_first() && final(self)@ == old(self)@.skip(encode_scalar(ch as u32).len() as int),
            old(self).buf@.len() > 0 && old(self).buf@[0] != ch ==> r is Err && r->Err_0.spec_kind()
                == ParseErrorKind::InvalidChar(old(self).buf@[0]) && final(self).buf@ == old(self).buf@,
    {
        if self.is_empty() {
            return Err(ParseRangeError::unexpected_end());
        }
        let c = self.first_char();
        if c == ch {
            let w = utf8_width(c);
            proof {
                let bytes = self@;
                vstd::utf8::encode_utf8_first_scalar(self.buf@);
                reveal_with_fuel(is_char_boundary, 2);
                assert(bytes == encode_scalar(c as u32) + encode_utf8(self.buf@.drop_first()));
                assert(is_char_boundary(bytes, w as int));
            }
            let (_, rest) = self.buf.split_at(w);
            proof {
                assert(rest.spec_bytes() =~= encode_utf8(old(self).buf@.drop_first()));
                assert(rest.spec_bytes() =~= old(self)@.skip(w as int));
                let t = old(self).buf@.drop_first();
                assert(decode_utf8(encode_utf8(rest@)) == rest@);
                assert(decode_utf8(encode_utf8(t)) == t);
                assert(rest@ == t);
            }
            self.buf = rest;
            Ok(())
        } else {
            Err(ParseRangeError::invalid_char(c))
        }
    }

    /// The next byte, if any.
    pub fn first(&self) -> (r: Option<u8>)
        ensures
            r == (if self@.len() > 0 { Some(self@[0]) } else { None::<u8> }),
    {
        self.get(0)
    }

    /// The next character.
    pub fn first_char(&self) -> (r: char)
        requires
            self@.len() > 0,
        ensures
            r == head_char(self@),
            r == self.buf@[0],
    {
        proof {
            lemma_bytes_empty(self.buf@);
            broadcast use vstd::string::axiom_spec_iter;
        }
        let mut it = self.buf.chars();
        let c = it.next();
        proof {
            broadcast use vstd::string::next_postcondition;
        }
        c.unwrap()
    }

    /// Advances past one character that is a single byte; does nothing at the end.
    pub fn skip(&mut self) -> (r: &mut Self)
        requires
            old(self)@.len() == 0 || old(self)@[0] < 128,
        ensures
            old(self)@.len() == 0 ==> (*r)@ == old(self)@,
            old(self)@.len() > 0 ==> (*r)@ == old(self)@.drop_first(),
            *final(r) == *final(self),
    {
        proof {
            lemma_bytes_empty(self.buf@);
        }
        if !self.buf.is_empty() {
            proof {
                lemma_ascii_head_boundary(self@);
            }
            let (_, rest) = self.buf.split_at(1);
            proof {
                assert(rest.spec_bytes() =~= old(self)@.drop_first());
            }
            self.buf = rest;
            assert(self@ =~= old(self)@.drop_first());
        }
        self
    }

    /// The byte `index` places ahead, if any.
    pub fn get(&self, index: usize) -> (r: Option<u8>)
        ensures
            r == (if index < self@.len() { Some(self@[index as int]) } else { None::<u8> }),
    {
        let bytes = self.buf.as_bytes();
        if index < bytes.len() {
            Some(bytes[index])
        } else {
            None
        }
    }

    /// Advances past leading whitespace.
    pub fn skip_ws(&mut self)
        ensures
            final(self)@.len() <= old(self)@.len(),
            final(self)@ == old(self)@.subrange(
                old(self)@.len() - final(self)@.len(),
                old(self)@.len() as int,
            ),
            final(self).buf@ == trimmed_start(old(self).buf@),
            old(self)@.len() > 0 && !is_ascii_whitespace_byte(old(self)@[0]) && old(self)@[0] < 128
                ==> final(self)@ == old(self)@,
    {
        let rest = trim_start(self.buf);
        proof {
            lemma_first_byte_is_ascii_char(self.buf@);
        }
        self.buf = rest;
    }

    /// Consumes the next `count` bytes and returns them.
    pub fn take(&mut self, count: usize) -> (r: &'a str)
        requires
            is_char_boundary(old(self)@, count as int),
        ensures
            r.spec_bytes() == old(self)@.subrange(0, count as int),
            final(self)@ == old(self)@.subrange(count as int, old(self)@.len() as int),
    {
        let (a, b) = self.buf.split_at(count);
        self.buf = b;
        a
    }
}

/// The number of bytes that encode `c`.
fn utf8_width(c: char) -> (w: usize)
    ensures
        w == encode_scalar(c as u32).len(),
{
    proof {
        vstd::utf8::char_is_scalar(c);
    }
    let v = c as u32;
    if v < 0x80 {
        1
    } else if v < 0x800 {
        2
    } else if v < 0x10000 {
        3
    } else {
        4
    }
}

/// ASCII whitespace as `char::is_whitespace` counts it.
pub open spec fn is_ascii_whitespace_byte(b: u8) -> bool {
    b == 0x20 || (0x09 <= b && b <= 0x0d)
}

/// What `str::trim_start` leaves of a string.
pub uninterp spec fn trimmed_start(s: Seq<char>) -> Seq<char>;

/// Relies on `str::trim_start`: it returns the tail of `s` that starts at the
/// first character that is not whitespace, so it is a suffix of `s`, and `s`
/// itself when `s` starts with an ASCII character that is not whitespace.
#[verifier::external_body]
fn trim_start(s: &str) -> (r: &str)
    ensures
        r@ == trimmed_start(s@),
        r.spec_bytes().len() <= s.spec_bytes().len(),
        r.spec_bytes() == s.spec_bytes().subrange(
            s.spec_bytes().len() - r.spec_bytes().len(),
            s.spec_bytes().len() as int,
        ),
        s.spec_bytes().len() > 0 && s.spec_bytes()[0] < 128 && !is_ascii_whitespace_byte(
            s.spec_bytes()[0],
        ) ==> r@ == s@,
{
    s.trim_start()
}

proof fn lemma_first_byte_is_ascii_char(s: Seq<char>)
    ensures
        encode_utf8(s).len() > 0 && encode_utf8(s)[0] < 128 ==> s.len() > 0 && (s[0] as u32)
            < 128 && s[0] as u32 == encode_utf8(s)[0] as u32,
{
    if s.len() > 0 {
        lemma_encode_head(s);
    }
    lemma_bytes_empty(s);
}

proof fn lemma_first_byte_of_ascii(s: Seq<char>, ch: char)
    requires
        s.len() > 0,
        s[0] == ch,
        (ch as u32) < 128,
    ensures
        encode_utf8(s)[0] == ch as u8,
{
    lemma_encode_head(s);
}

proof fn lemma_first_byte_differs(s: Seq<char>, c: char, ch: char)
    requires
        s.len() > 0,
        s[0] == c,
        c != ch,
        (ch as u32) < 128,
    ensures
        encode_utf8(s)[0] != ch as u8,
{
    lemma_first_byte_is_ascii_char(s);
}

} // verus!
