use vstd::prelude::*;
use vstd::string::*;
use vstd::utf8::*;
use crate::parsing_buf::{head_char, ParseErrorKind, ParseRangeError, ParsingBuf};

verus! {

broadcast use encode_utf8_valid_utf8, encode_utf8_decode_utf8;

/// The largest value a numeric segment can hold.
pub const SEGMENT_MAX: u64 = 0xffff_ffff_ffff_ffff;

/// A version as a mathematical value: three numeric segments, the pre-release
/// identifiers and the build metadata, each identifier an ASCII byte string.
pub struct VersionModel {
    pub major: nat,
    pub minor: nat,
    pub patch: nat,
    pub pre: Seq<Seq<u8>>,
    pub build: Seq<Seq<u8>>,
}

/// A parsed version.
#[derive(Debug)]
pub struct Version {
    pub major: u64,
    pub minor: u64,
    pub patch: u64,
    pub pre: Vec<Vec<u8>>,
    pub build: Vec<Vec<u8>>,
}

pub open spec fn ids_view(v: Seq<Vec<u8>>) -> Seq<Seq<u8>> {
    v.map_values(|x: Vec<u8>| x@)
}

impl View for Version {
    type V = VersionModel;

    open spec fn view(&self) -> VersionModel {
        VersionModel {
            major: self.major as nat,
            minor: self.minor as nat,
            patch: self.patch as nat,
            pre: ids_view(self.pre@),
            build: ids_view(self.build@),
        }
    }
}

// ---------------------------------------------------------------- grammar

pub open spec fn is_digit(b: u8) -> bool {
    0x30 <= b <= 0x39
}

/// A byte allowed in a pre-release or build identifier: `[0-9A-Za-z-]`.
pub open spec fn is_ident_byte(b: u8) -> bool {
    is_digit(b) || (0x41 <= b <= 0x5a) || (0x61 <= b <= 0x7a) || b == 0x2d
}

/// Reads the digits at the front of `s` onto `acc`; fails as soon as the value
/// passes `SEGMENT_MAX`. Returns the value and what follows the digits.
pub open spec fn segment_from(s: Seq<u8>, acc: nat) -> Result<(nat, Seq<u8>), ParseErrorKind>
    decreases s.len(),
{
    if s.len() > 0 && is_digit(s[0]) {
        let n = acc * 10 + (s[0] - 0x30);
        if n > SEGMENT_MAX {
            Err(ParseErrorKind::VersionSegmentTooBig)
        } else {
            segment_from(s.drop_first(), n as nat)
        }
    } else {
        Ok((acc, s))
    }
}

/// The error for an input that holds something other than what was expected.
pub open spec fn unexpected(s: Seq<u8>) -> ParseErrorKind {
    if s.len() == 0 {
        ParseErrorKind::UnexpectedEnd
    } else {
        ParseErrorKind::InvalidChar(head_char(s))
    }
}

/// A numeric segment: one or more decimal digits.
pub open spec fn parse_segment(s: Seq<u8>) -> Result<(nat, Seq<u8>), ParseErrorKind> {
    if s.len() > 0 && is_digit(s[0]) {
        segment_from(s, 0)
    } else {
        Err(unexpected(s))
    }
}

/// The byte `c` must come next.
pub open spec fn expect(s: Seq<u8>, c: u8) -> Result<Seq<u8>, ParseErrorKind> {
    if s.len() > 0 && s[0] == c {
        Ok(s.drop_first())
    } else {
        Err(unexpected(s))
    }
}

/// How many identifier bytes stand at the front of `s`.
pub open spec fn ident_run(s: Seq<u8>) -> nat
    decreases s.len(),
{
    if s.len() > 0 && is_ident_byte(s[0]) {
        1 + ident_run(s.drop_first())
    } else {
        0
    }
}

/// Dot-separated non-empty identifiers.
pub open spec fn parse_idents(s: Seq<u8>) -> Result<(Seq<Seq<u8>>, Seq<u8>), ParseErrorKind>
    decreases s.len(),
{
    let n = ident_run(s);
    if n == 0 {
        Err(unexpected(s))
    } else {
        let id = s.take(n as int);
        let rest = s.skip(n as int);
        if rest.len() > 0 && rest[0] == 0x2e && rest.len() < s.len() {
            match parse_idents(rest.drop_first()) {
                Ok((ids, r)) => Ok((seq![id] + ids, r)),
                Err(e) => Err(e),
            }
        } else {
            Ok((seq![id], rest))
        }
    }
}

/// An optional part introduced by `marker` and made of identifiers.
pub open spec fn parse_tagged(s: Seq<u8>, marker: u8) -> Result<(Seq<Seq<u8>>, Seq<u8>), ParseErrorKind> {
    if s.len() > 0 && s[0] == marker {
        parse_idents(s.drop_first())
    } else {
        Ok((Seq::empty(), s))
    }
}

/// A version at the front of `s`: `MAJOR.MINOR.PATCH[-PRE][+BUILD]`, and what follows it.
pub open spec fn parse_version_prefix(s: Seq<u8>) -> Result<(VersionModel, Seq<u8>), ParseErrorKind> {
    match parse_segment(s) {
        Err(e) => Err(e),
        Ok((major, s1)) => match expect(s1, 0x2e) {
            Err(e) => Err(e),
            Ok(s2) => match parse_segment(s2) {
                Err(e) => Err(e),
                Ok((minor, s3)) => match expect(s3, 0x2e) {
                    Err(e) => Err(e),
                    Ok(s4) => match parse_segment(s4) {
                        Err(e) => Err(e),
                        Ok((patch, s5)) => match parse_tagged(s5, 0x2d) {
                            Err(e) => Err(e),
                            Ok((pre, s6)) => match parse_tagged(s6, 0x2b) {
                                Err(e) => Err(e),
                                Ok((build, s7)) => Ok(
                                    (
                                        VersionModel {
                                            major,
                                            minor,
                                            patch,
                                            pre,
                                            build,
                                        },
                                        s7,
                                    ),
                                ),
                            },
                        },
                    },
                },
            },
        },
    }
}

/// A whole input that is one version.
pub open spec fn parse_version(s: Seq<u8>) -> Result<VersionModel, ParseErrorKind> {
    match parse_version_prefix(s) {
        Err(e) => Err(e),
        Ok((v, rest)) => if rest.len() == 0 {
            Ok(v)
        } else {
            Err(unexpected(rest))
        },
    }
}

// ---------------------------------------------------------------- text form

/// The decimal digits of `n`, without leading zeros.
pub open spec fn nat_digits(n: nat) -> Seq<u8>
    decreases n,
{
    if n < 10 {
        seq![(0x30 + n) as u8]
    } else {
        nat_digits(n / 10).push((0x30 + n % 10) as u8)
    }
}

/// Identifiers joined with dots.
pub open spec fn join_ids(ids: Seq<Seq<u8>>) -> Seq<u8>
    decreases ids.len(),
{
    if ids.len() == 0 {
        Seq::empty()
    } else if ids.len() == 1 {
        ids[0]
    } else {
        ids[0] + seq![0x2eu8] + join_ids(ids.drop_first())
    }
}

pub open spec fn tagged_text(ids: Seq<Seq<u8>>, marker: u8) -> Seq<u8> {
    if ids.len() == 0 {
        Seq::empty()
    } else {
        seq![marker] + join_ids(ids)
    }
}

/// The text of a version.
pub open spec fn format_version(v: VersionModel) -> Seq<u8> {
    nat_digits(v.major) + seq![0x2eu8] + nat_digits(v.minor) + seq![0x2eu8] + nat_digits(v.patch)
        + tagged_text(v.pre, 0x2d) + tagged_text(v.build, 0x2b)
}

pub open spec fn valid_ids(ids: Seq<Seq<u8>>) -> bool {
    forall|i: int|
        0 <= i < ids.len() ==> #[trigger] ids[i].len() > 0 && forall|j: int|
            0 <= j < ids[i].len() ==> is_ident_byte(#[trigger] ids[i][j])
}

/// What a parse can produce.
pub open spec fn valid_version(v: VersionModel) -> bool {
    &&& v.major <= SEGMENT_MAX
    &&& v.minor <= SEGMENT_MAX
    &&& v.patch <= SEGMENT_MAX
    &&& valid_ids(v.pre)
    &&& valid_ids(v.build)
}

// ---------------------------------------------------------------- order

/// Byte-wise lexicographic order of two identifiers: -1, 0 or 1.
pub open spec fn cmp_bytes(a: Seq<u8>, b: Seq<u8>) -> int
    decreases a.len(),
{
    if a.len() == 0 {
        if b.len() == 0 {
            0
        } else {
            -1
        }
    } else if b.len() == 0 {
        1
    } else if a[0] < b[0] {
        -1
    } else if a[0] > b[0] {
        1
    } else {
        cmp_bytes(a.drop_first(), b.drop_first())
    }
}

/// Lexicographic order of identifier lists, a shorter prefix first.
pub open spec fn cmp_ids(a: Seq<Seq<u8>>, b: Seq<Seq<u8>>) -> int
    decreases a.len(),
{
    if a.len() == 0 {
        if b.len() == 0 {
            0
        } else {
            -1
        }
    } else if b.len() == 0 {
        1
    } else if cmp_bytes(a[0], b[0]) != 0 {
        cmp_bytes(a[0], b[0])
    } else {
        cmp_ids(a.drop_first(), b.drop_first())
    }
}

pub open spec fn cmp_nat(a: nat, b: nat) -> int {
    if a < b {
        -1
    } else if a > b {
        1
    } else {
        0
    }
}

/// Precedence of two versions: -1, 0 or 1. Segments first; then a version
/// with pre-release identifiers comes before the same segments without; build
/// metadata plays no part.
pub open spec fn cmp_version(a: VersionModel, b: VersionModel) -> int {
    if cmp_nat(a.major, b.major) != 0 {
        cmp_nat(a.major, b.major)
    } else if cmp_nat(a.minor, b.minor) != 0 {
        cmp_nat(a.minor, b.minor)
    } else if cmp_nat(a.patch, b.patch) != 0 {
        cmp_nat(a.patch, b.patch)
    } else if a.pre.len() == 0 && b.pre.len() == 0 {
        0
    } else if a.pre.len() == 0 {
        1
    } else if b.pre.len() == 0 {
        -1
    } else {
        cmp_ids(a.pre, b.pre)
    }
}

/// The same segments, with `a` a pre-release and `b` not: `a` comes first.
pub proof fn lemma_prerelease_precedes(a: VersionModel, b: VersionModel)
    requires
        a.major == b.major,
        a.minor == b.minor,
        a.patch == b.patch,
        a.pre.len() > 0,
        b.pre.len() == 0,
    ensures
        cmp_version(a, b) < 0,
        cmp_version(b, a) > 0,
{
}

// ---------------------------------------------------------------- parsing

fn is_digit_byte(b: u8) -> (r: bool)
    ensures
        r == is_digit(b),
{
    0x30 <= b && b <= 0x39
}

fn is_ident(b: u8) -> (r: bool)
    ensures
        r == is_ident_byte(b),
{
    is_digit_byte(b) || (0x41 <= b && b <= 0x5a) || (0x61 <= b && b <= 0x7a) || b == 0x2d
}

/// The error for what stands at the cursor when something else was expected.
fn unexpected_at(buf: &ParsingBuf) -> (r: ParseRangeError)
    ensures
        r.spec_kind() == unexpected(buf@),
{
    if buf.is_empty() {
        ParseRangeError::unexpected_end()
    } else {
        ParseRangeError::invalid_char(buf.first_char())
    }
}

/// Reads one numeric segment.
pub fn parse_segment_at(buf: &mut ParsingBuf) -> (r: Result<u64, ParseRangeError>)
    ensures
        match parse_segment(old(buf)@) {
            Ok((n, rest)) => r is Ok && r->Ok_0 as nat == n && final(buf)@ == rest,
            Err(k) => r is Err && r->Err_0.spec_kind() == k,
        },
{
    match buf.first() {
        Some(b) => {
            if !is_digit_byte(b) {
                return Err(unexpected_at(buf));
            }
        },
        None => {
            return Err(unexpected_at(buf));
        },
    }
    let ghost start = buf@;
    let mut acc: u64 = 0;
    loop
        invariant
            segment_from(buf@, acc as nat) == segment_from(start, 0),
            start == old(buf)@,
            start.len() > 0 && is_digit(start[0]),
        decreases buf@.len(),
    {
        match buf.first() {
            Some(b) => {
                if !is_digit_byte(b) {
                    return Ok(acc);
                }
                let d = (b - 0x30) as u64;
                let next = match acc.checked_mul(10) {
                    Some(m) => m.checked_add(d),
                    None => None,
                };
                match next {
                    Some(n) => {
                        acc = n;
                        buf.skip();
                    },
                    None => {
                        proof {
                            assert(acc * 10 + d > SEGMENT_MAX) by (nonlinear_arith)
                                requires
                                    acc * 10 > SEGMENT_MAX || acc * 10 + d > SEGMENT_MAX,
                                    d >= 0,
                            ;
                        }
                        return Err(ParseRangeError::too_big());
                    },
                }
            },
            None => {
                return Ok(acc);
            },
        }
    }
}

/// Consumes the byte `c`, which must come next.
fn expect_at(buf: &mut ParsingBuf, c: char) -> (r: Result<(), ParseRangeError>)
    requires
        (c as u32) < 128,
    ensures
        match expect(old(buf)@, c as u8) {
            Ok(rest) => r is Ok && final(buf)@ == rest,
            Err(k) => r is Err && r->Err_0.spec_kind() == k,
        },
{
    proof {
        crate::parsing_buf::lemma_bytes_empty(buf.buf@);
        if buf.buf@.len() > 0 {
            crate::parsing_buf::lemma_encode_head(buf.buf@);
            if buf.buf@[0] != c && buf@[0] == c as u8 {
                assert(buf.buf@[0] as u32 == c as u32);
            }
        }
    }
    let r = buf.read(c);
    proof {
        if old(buf).buf@.len() > 0 && old(buf).buf@[0] == c {
            assert(old(buf)@.skip(1) =~= old(buf)@.drop_first());
        }
    }
    r
}

/// Reads one identifier, which may be empty.
fn read_ident(buf: &mut ParsingBuf) -> (r: Vec<u8>)
    ensures
        r@ == old(buf)@.take(ident_run(old(buf)@) as int),
        final(buf)@ == old(buf)@.skip(ident_run(old(buf)@) as int),
{
    let ghost start = buf@;
    let mut id: Vec<u8> = Vec::new();
    proof {
        lemma_ident_run_bound(start);
    }
    loop
        invariant
            id@.len() + ident_run(buf@) == ident_run(start),
            id@ == start.take(id@.len() as int),
            buf@ == start.skip(id@.len() as int),
            ident_run(start) <= start.len(),
            start == old(buf)@,
        decreases buf@.len(),
    {
        match buf.first() {
            Some(b) => {
                if !is_ident(b) {
                    return id;
                }
                id.push(b);
                buf.skip();
                proof {
                    assert(id@ =~= start.take(id@.len() as int));
                    assert(buf@ =~= start.skip(id@.len() as int));
                }
            },
            None => {
                return id;
            },
        }
    }
}

pub proof fn lemma_ident_run_bound(s: Seq<u8>)
    ensures
        ident_run(s) <= s.len(),
    decreases s.len(),
{
    if s.len() > 0 && is_ident_byte(s[0]) {
        lemma_ident_run_bound(s.drop_first());
    }
}

/// Reads dot-separated identifiers.
fn parse_idents_at(buf: &mut ParsingBuf) -> (r: Result<Vec<Vec<u8>>, ParseRangeError>)
    ensures
        match parse_idents(old(buf)@) {
            Ok((ids, rest)) => r is Ok && ids_view(r->Ok_0@) == ids && final(buf)@ == rest,
            Err(k) => r is Err && r->Err_0.spec_kind() == k,
        },
{
    let ghost start = buf@;
    let mut out: Vec<Vec<u8>> = Vec::new();
    loop
        invariant
            parse_idents(start) == match parse_idents(buf@) {
                Ok((ids, rest)) => Ok((ids_view(out@) + ids, rest)),
                Err(e) => Err(e),
            },
            start == old(buf)@,
        decreases buf@.len(),
    {
        let ghost before = buf@;
        proof {
            lemma_ident_run_bound(before);
        }
        let id = read_ident(buf);
        if id.len() == 0 {
            let e = unexpected_at(buf);
            return Err(e);
        }
        let ghost after_id = buf@;
        let ghost done = ids_view(out@);
        out.push(id);
        proof {
            assert(ids_view(out@) =~= done + seq![id@]);
        }
        match buf.first() {
            Some(b) => {
                if b == 0x2e {
                    buf.skip();
                    proof {
                        assert(after_id.len() < before.len());
                        match parse_idents(buf@) {
                            Ok((ids, rest)) => {
                                assert(ids_view(out@) + ids =~= done + (seq![id@] + ids));
                            },
                            Err(e) => {},
                        }
                    }
                } else {
                    proof {
                        assert(ids_view(out@) =~= done + seq![id@]);
                    }
                    return Ok(out);
                }
            },
            None => {
                return Ok(out);
            },
        }
    }
}

/// Reads an optional part introduced by `marker`.
fn parse_tagged_at(buf: &mut ParsingBuf, marker: u8) -> (r: Result<Vec<Vec<u8>>, ParseRangeError>)
    requires
        marker < 128,
    ensures
        match parse_tagged(old(buf)@, marker) {
            Ok((ids, rest)) => r is Ok && ids_view(r->Ok_0@) == ids && final(buf)@ == rest,
            Err(k) => r is Err && r->Err_0.spec_kind() == k,
        },
{
    match buf.first() {
        Some(b) => {
            if b == marker {
                buf.skip();
                return parse_idents_at(buf);
            }
        },
        None => {},
    }
    let out: Vec<Vec<u8>> = Vec::new();
    proof {
        assert(ids_view(out@) =~= Seq::<Seq<u8>>::empty());
    }
    Ok(out)
}

impl Version {
    /// Reads a version at the cursor, leaving what follows it.
    pub fn parse_at(buf: &mut ParsingBuf) -> (r: Result<Version, ParseRangeError>)
        ensures
            match parse_version_prefix(old(buf)@) {
                Ok((v, rest)) => r is Ok && r->Ok_0@ == v && final(buf)@ == rest,
                Err(k) => r is Err && r->Err_0.spec_kind() == k,
            },
    {
        let major = parse_segment_at(buf)?;
        expect_at(buf, '.')?;
        let minor = parse_segment_at(buf)?;
        expect_at(buf, '.')?;
        let patch = parse_segment_at(buf)?;
        let pre = parse_tagged_at(buf, 0x2d)?;
        let build = parse_tagged_at(buf, 0x2b)?;
        Ok(Version { major, minor, patch, pre, build })
    }

    /// Parses a whole string as a version.
    pub fn parse(s: &str) -> (r: Result<Version, ParseRangeError>)
        ensures
            match parse_version(s.spec_bytes()) {
                Ok(v) => r is Ok && r->Ok_0@ == v,
                Err(k) => r is Err && r->Err_0.spec_kind() == k,
            },
    {
        let mut buf = ParsingBuf::new(s);
        let v = Version::parse_at(&mut buf)?;
        if !buf.is_empty() {
            return Err(unexpected_at(&buf));
        }
        Ok(v)
    }
}

// ---------------------------------------------------------------- formatting

/// Bytes below 128 are valid UTF-8.
pub proof fn lemma_ascii_valid_utf8(bytes: Seq<u8>)
    requires
        forall|i: int| 0 <= i < bytes.len() ==> bytes[i] < 128,
    ensures
        valid_utf8(bytes),
    decreases bytes.len(),
{
    if bytes.len() > 0 {
        let b = bytes[0];
        assert((b & 0x7f) as u32 == b as u32) by (bit_vector)
            requires
                b < 128,
        ;
        assert(pop_first_scalar(bytes) =~= bytes.drop_first());
        lemma_ascii_valid_utf8(bytes.drop_first());
    }
}

/// Relies on `String::from_utf8`: valid UTF-8 bytes become the string they encode.
#[verifier::external_body]
pub(crate) fn string_from_utf8(bytes: Vec<u8>) -> (r: String)
    requires
        valid_utf8(bytes@),
    ensures
        r@ == decode_utf8(bytes@),
{
    String::from_utf8(bytes).unwrap()
}

fn push_digits(n: u64, out: &mut Vec<u8>)
    ensures
        final(out)@ == old(out)@ + nat_digits(n as nat),
    decreases n,
{
    if n >= 10 {
        push_digits(n / 10, out);
    }
    out.push(0x30 + (n % 10) as u8);
    proof {
        assert(final(out)@ =~= old(out)@ + nat_digits(n as nat));
    }
}

fn push_all(out: &mut Vec<u8>, src: &Vec<u8>)
    ensures
        final(out)@ == old(out)@ + src@,
{
    let mut i: usize = 0;
    while i < src.len()
        invariant
            i <= src@.len(),
            out@ == old(out)@ + src@.take(i as int),
        decreases src@.len() - i,
    {
        out.push(src[i]);
        i += 1;
        proof {
            assert(out@ =~= old(out)@ + src@.take(i as int));
        }
    }
    proof {
        assert(src@.take(i as int) =~= src@);
    }
}

fn push_ids_from(ids: &Vec<Vec<u8>>, i: usize, out: &mut Vec<u8>)
    requires
        i < ids@.len(),
    ensures
        final(out)@ == old(out)@ + join_ids(ids_view(ids@).skip(i as int)),
    decreases ids@.len() - i,
{
    let ghost v = ids_view(ids@);
    push_all(out, &ids[i]);
    if i < ids.len() - 1 {
        out.push(0x2e);
        push_ids_from(ids, i + 1, out);
        proof {
            assert(v.skip(i as int).drop_first() =~= v.skip(i + 1));
            assert(final(out)@ =~= old(out)@ + join_ids(v.skip(i as int)));
        }
    } else {
        proof {
            assert(final(out)@ =~= old(out)@ + join_ids(v.skip(i as int)));
        }
    }
}

fn push_tagged(ids: &Vec<Vec<u8>>, marker: u8, out: &mut Vec<u8>)
    ensures
        final(out)@ == old(out)@ + tagged_text(ids_view(ids@), marker),
{
    if ids.len() > 0 {
        out.push(marker);
        push_ids_from(ids, 0, out);
        proof {
            assert(ids_view(ids@).skip(0) =~= ids_view(ids@));
            assert(final(out)@ =~= old(out)@ + tagged_text(ids_view(ids@), marker));
        }
    } else {
        proof {
            assert(final(out)@ =~= old(out)@ + tagged_text(ids_view(ids@), marker));
        }
    }
}

pub proof fn lemma_digits_ascii(n: nat)
    ensures
        forall|i: int| 0 <= i < nat_digits(n).len() ==> is_digit(#[trigger] nat_digits(n)[i]),
        nat_digits(n).len() > 0,
    decreases n,
{
    if n >= 10 {
        lemma_digits_ascii(n / 10);
    }
}

pub open spec fn all_ascii(s: Seq<u8>) -> bool {
    forall|i: int| 0 <= i < s.len() ==> #[trigger] s[i] < 128
}

proof fn lemma_join_ascii(ids: Seq<Seq<u8>>)
    requires
        valid_ids(ids),
    ensures
        all_ascii(join_ids(ids)),
    decreases ids.len(),
{
    if ids.len() > 1 {
        lemma_join_ascii(ids.drop_first());
        assert(valid_ids(ids.drop_first()));
        let j = ids[0] + seq![0x2eu8] + join_ids(ids.drop_first());
        assert forall|i: int| 0 <= i < j.len() implies #[trigger] j[i] < 128 by {
            if i < ids[0].len() {
                assert(is_ident_byte(ids[0][i]));
            } else if i > ids[0].len() {
                assert(join_ids(ids.drop_first())[i - ids[0].len() - 1] < 128);
            }
        }
    } else if ids.len() == 1 {
        assert forall|i: int| 0 <= i < ids[0].len() implies #[trigger] ids[0][i] < 128 by {
            assert(is_ident_byte(ids[0][i]));
        }
    }
}

proof fn lemma_format_ascii(v: VersionModel)
    requires
        valid_version(v),
    ensures
        all_ascii(format_version(v)),
{
    lemma_digits_ascii(v.major);
    lemma_digits_ascii(v.minor);
    lemma_digits_ascii(v.patch);
    lemma_join_ascii(v.pre);
    lemma_join_ascii(v.build);
    let f = format_version(v);
    let a = nat_digits(v.major);
    let b = nat_digits(v.minor);
    let c = nat_digits(v.patch);
    let p = tagged_text(v.pre, 0x2d);
    let q = tagged_text(v.build, 0x2b);
    assert(all_ascii(a));
    assert(all_ascii(b));
    assert(all_ascii(c));
    assert(all_ascii(p)) by {
        if v.pre.len() > 0 {
            assert forall|i: int| 0 <= i < p.len() implies #[trigger] p[i] < 128 by {
                if i > 0 {
                    assert(p[i] == join_ids(v.pre)[i - 1]);
                }
            }
        }
    }
    assert(all_ascii(q)) by {
        if v.build.len() > 0 {
            assert forall|i: int| 0 <= i < q.len() implies #[trigger] q[i] < 128 by {
                if i > 0 {
                    assert(q[i] == join_ids(v.build)[i - 1]);
                }
            }
        }
    }
    lemma_concat_ascii(a, seq![0x2eu8]);
    lemma_concat_ascii(a + seq![0x2eu8], b);
    lemma_concat_ascii(a + seq![0x2eu8] + b, seq![0x2eu8]);
    lemma_concat_ascii(a + seq![0x2eu8] + b + seq![0x2eu8], c);
    lemma_concat_ascii(a + seq![0x2eu8] + b + seq![0x2eu8] + c, p);
    lemma_concat_ascii(a + seq![0x2eu8] + b + seq![0x2eu8] + c + p, q);
}

proof fn lemma_concat_ascii(a: Seq<u8>, b: Seq<u8>)
    requires
        all_ascii(a),
        all_ascii(b),
    ensures
        all_ascii(a + b),
{
    assert forall|i: int| 0 <= i < (a + b).len() implies #[trigger] (a + b)[i] < 128 by {
        if i >= a.len() {
            assert((a + b)[i] == b[i - a.len()]);
        }
    }
}

impl Version {
    /// Whether the version is valid as a parse result: every identifier is
    /// non-empty and made of `[0-9A-Za-z-]`.
    pub open spec fn well_formed(&self) -> bool {
        valid_version(self@)
    }

    /// The text of the version.
    pub fn format(&self) -> (r: String)
        requires
            self.well_formed(),
        ensures
            encode_utf8(r@) == format_version(self@),
    {
        let mut out: Vec<u8> = Vec::new();
        push_digits(self.major, &mut out);
        out.push(0x2e);
        push_digits(self.minor, &mut out);
        out.push(0x2e);
        push_digits(self.patch, &mut out);
        push_tagged(&self.pre, 0x2d, &mut out);
        push_tagged(&self.build, 0x2b, &mut out);
        proof {
            assert(out@ =~= format_version(self@));
            lemma_format_ascii(self@);
            lemma_ascii_valid_utf8(out@);
            vstd::utf8::decode_utf8_encode_utf8(out@);
        }
        string_from_utf8(out)
    }

    /// Whether the version has no pre-release identifiers.
    pub fn is_stable(&self) -> (r: bool)
        ensures
            r == (self@.pre.len() == 0),
    {
        self.pre.len() == 0
    }
}

// ---------------------------------------------------------------- laws

/// The value of digits `d` read onto `acc`, without any bound.
pub open spec fn digits_value(acc: nat, d: Seq<u8>) -> nat
    decreases d.len(),
{
    if d.len() == 0 {
        acc
    } else {
        digits_value((acc * 10 + (d[0] - 0x30)) as nat, d.drop_first())
    }
}

pub open spec fn all_digits(d: Seq<u8>) -> bool {
    forall|i: int| 0 <= i < d.len() ==> is_digit(#[trigger] d[i])
}

pub open spec fn ends_segment(rest: Seq<u8>) -> bool {
    rest.len() == 0 || !is_digit(rest[0])
}

proof fn lemma_digits_value_grows(acc: nat, d: Seq<u8>)
    requires
        all_digits(d),
    ensures
        digits_value(acc, d) >= acc,
    decreases d.len(),
{
    if d.len() > 0 {
        assert(is_digit(d[0]));
        lemma_digits_value_grows((acc * 10 + (d[0] - 0x30)) as nat, d.drop_first());
        assert(acc * 10 + (d[0] - 0x30) >= acc) by (nonlinear_arith)
            requires
                d[0] >= 0x30,
        ;
    }
}

proof fn lemma_digits_value_push(acc: nat, d: Seq<u8>, x: u8)
    requires
        is_digit(x),
    ensures
        digits_value(acc, d.push(x)) == digits_value(acc, d) * 10 + (x - 0x30),
    decreases d.len(),
{
    if d.len() > 0 {
        assert(d.push(x).drop_first() =~= d.drop_first().push(x));
        lemma_digits_value_push((acc * 10 + (d[0] - 0x30)) as nat, d.drop_first(), x);
    } else {
        assert(d.push(x).drop_first() =~= Seq::<u8>::empty());
        reveal_with_fuel(digits_value, 2);
    }
}

proof fn lemma_nat_digits_value(n: nat)
    ensures
        digits_value(0, nat_digits(n)) == n,
        all_digits(nat_digits(n)),
    decreases n,
{
    lemma_digits_ascii(n);
    if n < 10 {
        assert(nat_digits(n).drop_first() =~= Seq::<u8>::empty());
        reveal_with_fuel(digits_value, 2);
    } else {
        lemma_nat_digits_value(n / 10);
        lemma_digits_value_push(0, nat_digits(n / 10), (0x30 + n % 10) as u8);
        assert(n == (n / 10) * 10 + n % 10) by (nonlinear_arith);
    }
}

/// Reading whole digits `d` followed by a non-digit.
proof fn lemma_segment_from_digits(d: Seq<u8>, rest: Seq<u8>, acc: nat)
    requires
        all_digits(d),
        ends_segment(rest),
        acc <= SEGMENT_MAX,
    ensures
        segment_from(d + rest, acc) == (if digits_value(acc, d) <= SEGMENT_MAX {
            Ok::<(nat, Seq<u8>), ParseErrorKind>((digits_value(acc, d), rest))
        } else {
            Err(ParseErrorKind::VersionSegmentTooBig)
        }),
    decreases d.len(),
{
    if d.len() == 0 {
        assert(d + rest =~= rest);
    } else {
        assert(is_digit(d[0]));
        let n = (acc * 10 + (d[0] - 0x30)) as nat;
        assert((d + rest)[0] == d[0]);
        assert((d + rest).drop_first() =~= d.drop_first() + rest);
        if n <= SEGMENT_MAX {
            lemma_segment_from_digits(d.drop_first(), rest, n);
        } else {
            lemma_digits_value_grows(n, d.drop_first());
        }
    }
}

/// A segment whose value exceeds `SEGMENT_MAX` fails with the overflow error;
/// one up to `SEGMENT_MAX`, the largest included, is read as its value.
pub proof fn lemma_segment_ceiling(d: Seq<u8>, rest: Seq<u8>)
    requires
        d.len() > 0,
        all_digits(d),
        ends_segment(rest),
    ensures
        digits_value(0, d) > SEGMENT_MAX ==> parse_segment(d + rest) == Err::<
            (nat, Seq<u8>),
            ParseErrorKind,
        >(ParseErrorKind::VersionSegmentTooBig),
        digits_value(0, d) <= SEGMENT_MAX ==> parse_segment(d + rest) == Ok::<
            (nat, Seq<u8>),
            ParseErrorKind,
        >((digits_value(0, d), rest)),
{
    assert((d + rest)[0] == d[0]);
    lemma_segment_from_digits(d, rest, 0);
}

proof fn lemma_segment_of_nat(n: nat, rest: Seq<u8>)
    requires
        n <= SEGMENT_MAX,
        ends_segment(rest),
    ensures
        parse_segment(nat_digits(n) + rest) == Ok::<(nat, Seq<u8>), ParseErrorKind>((n, rest)),
{
    lemma_nat_digits_value(n);
    lemma_digits_ascii(n);
    lemma_segment_ceiling(nat_digits(n), rest);
}

proof fn lemma_segment_bounded(s: Seq<u8>, acc: nat)
    requires
        acc <= SEGMENT_MAX,
    ensures
        segment_from(s, acc) is Ok ==> segment_from(s, acc)->Ok_0.0 <= SEGMENT_MAX,
    decreases s.len(),
{
    if s.len() > 0 && is_digit(s[0]) {
        let n = acc * 10 + (s[0] - 0x30);
        if n <= SEGMENT_MAX {
            lemma_segment_bounded(s.drop_first(), n as nat);
        }
    }
}

proof fn lemma_ident_run_bytes(s: Seq<u8>)
    ensures
        ident_run(s) <= s.len(),
        forall|j: int| 0 <= j < ident_run(s) ==> is_ident_byte(#[trigger] s[j]),
    decreases s.len(),
{
    lemma_ident_run_bound(s);
    if s.len() > 0 && is_ident_byte(s[0]) {
        lemma_ident_run_bytes(s.drop_first());
        assert forall|j: int| 0 <= j < ident_run(s) implies is_ident_byte(#[trigger] s[j]) by {
            if j > 0 {
                assert(s[j] == s.drop_first()[j - 1]);
            }
        }
    }
}

proof fn lemma_ident_run_of(id: Seq<u8>, rest: Seq<u8>)
    requires
        forall|j: int| 0 <= j < id.len() ==> is_ident_byte(#[trigger] id[j]),
        rest.len() == 0 || !is_ident_byte(rest[0]),
    ensures
        ident_run(id + rest) == id.len(),
    decreases id.len(),
{
    if id.len() == 0 {
        assert(id + rest =~= rest);
    } else {
        assert(is_ident_byte(id[0]));
        assert((id + rest)[0] == id[0]);
        assert((id + rest).drop_first() =~= id.drop_first() + rest);
        lemma_ident_run_of(id.drop_first(), rest);
    }
}

proof fn lemma_parse_idents_valid(s: Seq<u8>)
    ensures
        parse_idents(s) is Ok ==> valid_ids(parse_idents(s)->Ok_0.0),
    decreases s.len(),
{
    let n = ident_run(s);
    lemma_ident_run_bytes(s);
    if n > 0 {
        let id = s.take(n as int);
        let rest = s.skip(n as int);
        assert forall|j: int| 0 <= j < id.len() implies is_ident_byte(#[trigger] id[j]) by {
            assert(id[j] == s[j]);
        }
        if rest.len() > 0 && rest[0] == 0x2e && rest.len() < s.len() {
            lemma_parse_idents_valid(rest.drop_first());
            if parse_idents(rest.drop_first()) is Ok {
                let ids = parse_idents(rest.drop_first())->Ok_0.0;
                assert forall|i: int| 0 <= i < (seq![id] + ids).len() implies #[trigger] (seq![
                    id,
                ] + ids)[i].len() > 0 && forall|j: int|
                    0 <= j < (seq![id] + ids)[i].len() ==> is_ident_byte(
                        #[trigger] (seq![id] + ids)[i][j],
                    ) by {
                    if i > 0 {
                        assert((seq![id] + ids)[i] == ids[i - 1]);
                    }
                }
            }
        }
    }
}

proof fn lemma_parse_joined(ids: Seq<Seq<u8>>, rest: Seq<u8>)
    requires
        ids.len() > 0,
        valid_ids(ids),
        rest.len() == 0 || (!is_ident_byte(rest[0]) && rest[0] != 0x2e),
    ensures
        parse_idents(join_ids(ids) + rest) == Ok::<(Seq<Seq<u8>>, Seq<u8>), ParseErrorKind>(
            (ids, rest),
        ),
    decreases ids.len(),
{
    let id = ids[0];
    assert(id.len() > 0);
    assert forall|j: int| 0 <= j < id.len() implies is_ident_byte(#[trigger] id[j]) by {
        assert(is_ident_byte(ids[0][j]));
    }
    if ids.len() == 1 {
        let s = id + rest;
        assert(join_ids(ids) + rest == s);
        lemma_ident_run_of(id, rest);
        assert(s.take(id.len() as int) =~= id);
        assert(s.skip(id.len() as int) =~= rest);
        assert(seq![id] =~= ids);
    } else {
        let tail = ids.drop_first();
        let after = seq![0x2eu8] + join_ids(tail) + rest;
        let s = id + after;
        assert(join_ids(ids) + rest =~= s);
        lemma_ident_run_of(id, after);
        assert(s.take(id.len() as int) =~= id);
        assert(s.skip(id.len() as int) =~= after);
        assert(after.drop_first() =~= join_ids(tail) + rest);
        assert(valid_ids(tail)) by {
            assert forall|i: int| 0 <= i < tail.len() implies #[trigger] tail[i].len() > 0
                && forall|j: int| 0 <= j < tail[i].len() ==> is_ident_byte(#[trigger] tail[i][j]) by {
                assert(tail[i] == ids[i + 1]);
            }
        }
        lemma_parse_joined(tail, rest);
        assert(seq![id] + tail =~= ids);
    }
}

proof fn lemma_parse_tagged_text(ids: Seq<Seq<u8>>, marker: u8, rest: Seq<u8>)
    requires
        valid_ids(ids),
        marker != 0x2e,
        rest.len() == 0 || (!is_ident_byte(rest[0]) && rest[0] != 0x2e && rest[0] != marker),
    ensures
        parse_tagged(tagged_text(ids, marker) + rest, marker) == Ok::<
            (Seq<Seq<u8>>, Seq<u8>),
            ParseErrorKind,
        >((ids, rest)),
{
    if ids.len() == 0 {
        assert(tagged_text(ids, marker) + rest =~= rest);
        assert(ids =~= Seq::<Seq<u8>>::empty());
    } else {
        let s = tagged_text(ids, marker) + rest;
        assert(s.drop_first() =~= join_ids(ids) + rest);
        lemma_parse_joined(ids, rest);
    }
}

/// Formatting a valid version and parsing the text gives the version back.
pub proof fn lemma_parse_format(v: VersionModel)
    requires
        valid_version(v),
    ensures
        parse_version(format_version(v)) == Ok::<VersionModel, ParseErrorKind>(v),
{
    let dot = seq![0x2eu8];
    let p = tagged_text(v.pre, 0x2d);
    let b = tagged_text(v.build, 0x2b);
    let empty = Seq::<u8>::empty();
    let s7 = empty;
    let s6 = b;
    let s5 = p + b;
    let s4 = nat_digits(v.patch) + s5;
    let s3 = dot + s4;
    let s2 = nat_digits(v.minor) + s3;
    let s1 = dot + s2;
    let s0 = nat_digits(v.major) + s1;
    assert(format_version(v) =~= s0);
    lemma_segment_of_nat(v.major, s1);
    assert(s1.drop_first() =~= s2);
    lemma_segment_of_nat(v.minor, s3);
    assert(s3.drop_first() =~= s4);
    assert(ends_segment(s5)) by {
        if v.pre.len() > 0 {
            assert(s5[0] == 0x2d);
        } else if v.build.len() > 0 {
            assert(s5 =~= b);
            assert(s5[0] == 0x2b);
        } else {
            assert(s5 =~= empty);
        }
    }
    lemma_segment_of_nat(v.patch, s5);
    assert(s6 =~= s6 + empty);
    assert(s6.len() == 0 || (!is_ident_byte(s6[0]) && s6[0] != 0x2e && s6[0] != 0x2d)) by {
        if v.build.len() > 0 {
            assert(s6[0] == 0x2b);
        }
    }
    lemma_parse_tagged_text(v.pre, 0x2d, s6);
    lemma_parse_tagged_text(v.build, 0x2b, empty);
    assert(b + empty =~= b);
}

/// What a parse returns is a valid version.
pub proof fn lemma_parse_valid(s: Seq<u8>)
    ensures
        parse_version(s) is Ok ==> valid_version(parse_version(s)->Ok_0),
{
    lemma_segment_bounded(s, 0);
    if let Ok((_, s1)) = parse_segment(s) {
        if let Ok(s2) = expect(s1, 0x2e) {
            lemma_segment_bounded(s2, 0);
            if let Ok((_, s3)) = parse_segment(s2) {
                if let Ok(s4) = expect(s3, 0x2e) {
                    lemma_segment_bounded(s4, 0);
                    if let Ok((_, s5)) = parse_segment(s4) {
                        if s5.len() > 0 && s5[0] == 0x2d {
                            lemma_parse_idents_valid(s5.drop_first());
                        }
                        if let Ok((_, s6)) = parse_tagged(s5, 0x2d) {
                            if s6.len() > 0 && s6[0] == 0x2b {
                                lemma_parse_idents_valid(s6.drop_first());
                            }
                        }
                    }
                }
            }
        }
    }
}

/// Parsing, formatting and parsing again gives the first result.
pub proof fn lemma_version_round_trip(s: Seq<u8>)
    requires
        parse_version(s) is Ok,
    ensures
        parse_version(format_version(parse_version(s)->Ok_0)) == parse_version(s),
{
    lemma_parse_valid(s);
    lemma_parse_format(parse_version(s)->Ok_0);
}

// ---------------------------------------------------------------- comparing

fn cmp_u64(a: u64, b: u64) -> (r: i8)
    ensures
        r as int == cmp_nat(a as nat, b as nat),
{
    if a < b {
        -1
    } else if a > b {
        1
    } else {
        0
    }
}

fn cmp_byte_strings(a: &Vec<u8>, b: &Vec<u8>) -> (r: i8)
    ensures
        r as int == cmp_bytes(a@, b@),
{
    let mut i: usize = 0;
    proof {
        assert(a@.skip(0) =~= a@);
        assert(b@.skip(0) =~= b@);
    }
    loop
        invariant
            i <= a@.len(),
            i <= b@.len(),
            cmp_bytes(a@, b@) == cmp_bytes(a@.skip(i as int), b@.skip(i as int)),
        decreases a@.len() - i,
    {
        if i == a.len() {
            return if i == b.len() {
                0
            } else {
                -1
            };
        }
        if i == b.len() {
            return 1;
        }
        if a[i] < b[i] {
            return -1;
        }
        if a[i] > b[i] {
            return 1;
        }
        proof {
            assert(a@.skip(i as int).drop_first() =~= a@.skip(i + 1));
            assert(b@.skip(i as int).drop_first() =~= b@.skip(i + 1));
        }
        i += 1;
    }
}

fn cmp_id_lists(a: &Vec<Vec<u8>>, b: &Vec<Vec<u8>>) -> (r: i8)
    ensures
        r as int == cmp_ids(ids_view(a@), ids_view(b@)),
{
    let ghost va = ids_view(a@);
    let ghost vb = ids_view(b@);
    let mut i: usize = 0;
    proof {
        assert(va.skip(0) =~= va);
        assert(vb.skip(0) =~= vb);
    }
    loop
        invariant
            i <= a@.len(),
            i <= b@.len(),
            va == ids_view(a@),
            vb == ids_view(b@),
            cmp_ids(va, vb) == cmp_ids(va.skip(i as int), vb.skip(i as int)),
        decreases a@.len() - i,
    {
        if i == a.len() {
            return if i == b.len() {
                0
            } else {
                -1
            };
        }
        if i == b.len() {
            return 1;
        }
        let c = cmp_byte_strings(&a[i], &b[i]);
        if c != 0 {
            return c;
        }
        proof {
            assert(va.skip(i as int).drop_first() =~= va.skip(i + 1));
            assert(vb.skip(i as int).drop_first() =~= vb.skip(i + 1));
        }
        i += 1;
    }
}

impl Version {
    /// Precedence against `other`: -1 before, 0 same, 1 after.
    pub fn cmp_precedence(&self, other: &Version) -> (r: i8)
        ensures
            r as int == cmp_version(self@, other@),
    {
        let c = cmp_u64(self.major, other.major);
        if c != 0 {
            return c;
        }
        let c = cmp_u64(self.minor, other.minor);
        if c != 0 {
            return c;
        }
        let c = cmp_u64(self.patch, other.patch);
        if c != 0 {
            return c;
        }
        if self.pre.len() == 0 && other.pre.len() == 0 {
            0
        } else if self.pre.len() == 0 {
            1
        } else if other.pre.len() == 0 {
            -1
        } else {
            cmp_id_lists(&self.pre, &other.pre)
        }
    }
}

// ---------------------------------------------------------------- order laws

pub proof fn lemma_cmp_bytes_antisym(a: Seq<u8>, b: Seq<u8>)
    ensures
        cmp_bytes(a, b) == -cmp_bytes(b, a),
        -1 <= cmp_bytes(a, b) <= 1,
        cmp_bytes(a, b) == 0 <==> a == b,
    decreases a.len(),
{
    if a.len() > 0 && b.len() > 0 {
        lemma_cmp_bytes_antisym(a.drop_first(), b.drop_first());
        if a[0] == b[0] && a.drop_first() == b.drop_first() {
            assert(a =~= seq![a[0]] + a.drop_first());
            assert(b =~= seq![b[0]] + b.drop_first());
        }
        if a == b {
            assert(a.drop_first() == b.drop_first());
        }
    } else if a.len() == 0 && b.len() == 0 {
        assert(a =~= b);
    }
}

pub proof fn lemma_cmp_bytes_trans(a: Seq<u8>, b: Seq<u8>, c: Seq<u8>)
    requires
        cmp_bytes(a, b) <= 0,
        cmp_bytes(b, c) <= 0,
    ensures
        cmp_bytes(a, c) <= 0,
        cmp_bytes(a, b) < 0 || cmp_bytes(b, c) < 0 ==> cmp_bytes(a, c) < 0,
    decreases a.len(),
{
    if a.len() > 0 && b.len() > 0 && c.len() > 0 {
        if a[0] == b[0] && b[0] == c[0] {
            lemma_cmp_bytes_trans(a.drop_first(), b.drop_first(), c.drop_first());
        }
    }
}

pub proof fn lemma_cmp_ids_antisym(a: Seq<Seq<u8>>, b: Seq<Seq<u8>>)
    ensures
        cmp_ids(a, b) == -cmp_ids(b, a),
        -1 <= cmp_ids(a, b) <= 1,
    decreases a.len(),
{
    if a.len() > 0 && b.len() > 0 {
        lemma_cmp_bytes_antisym(a[0], b[0]);
        lemma_cmp_ids_antisym(a.drop_first(), b.drop_first());
    }
}

pub proof fn lemma_cmp_ids_trans(a: Seq<Seq<u8>>, b: Seq<Seq<u8>>, c: Seq<Seq<u8>>)
    requires
        cmp_ids(a, b) <= 0,
        cmp_ids(b, c) <= 0,
    ensures
        cmp_ids(a, c) <= 0,
        cmp_ids(a, b) < 0 || cmp_ids(b, c) < 0 ==> cmp_ids(a, c) < 0,
    decreases a.len(),
{
    if a.len() > 0 && b.len() > 0 && c.len() > 0 {
        lemma_cmp_bytes_antisym(a[0], b[0]);
        lemma_cmp_bytes_antisym(b[0], c[0]);
        lemma_cmp_bytes_antisym(a[0], c[0]);
        if cmp_bytes(a[0], b[0]) <= 0 && cmp_bytes(b[0], c[0]) <= 0 {
            lemma_cmp_bytes_trans(a[0], b[0], c[0]);
        }
        if cmp_bytes(a[0], b[0]) == 0 && cmp_bytes(b[0], c[0]) == 0 {
            lemma_cmp_ids_trans(a.drop_first(), b.drop_first(), c.drop_first());
        }
    }
}

/// Precedence is antisymmetric.
pub proof fn lemma_cmp_version_antisym(a: VersionModel, b: VersionModel)
    ensures
        cmp_version(a, b) == -cmp_version(b, a),
{
    lemma_cmp_ids_antisym(a.pre, b.pre);
}

/// Precedence is transitive, strictly where one step is strict.
pub proof fn lemma_cmp_version_trans(a: VersionModel, b: VersionModel, c: VersionModel)
    requires
        cmp_version(a, b) <= 0,
        cmp_version(b, c) <= 0,
    ensures
        cmp_version(a, c) <= 0,
        cmp_version(a, b) < 0 || cmp_version(b, c) < 0 ==> cmp_version(a, c) < 0,
{
    lemma_cmp_ids_antisym(a.pre, b.pre);
    lemma_cmp_ids_antisym(b.pre, c.pre);
    lemma_cmp_ids_antisym(a.pre, c.pre);
    if a.pre.len() > 0 && b.pre.len() > 0 && c.pre.len() > 0 && cmp_ids(a.pre, b.pre) <= 0 && cmp_ids(
        b.pre,
        c.pre,
    ) <= 0 {
        lemma_cmp_ids_trans(a.pre, b.pre, c.pre);
    }
}

/// A version whose segments are digit strings fails with the overflow error
/// when any segment's value exceeds `SEGMENT_MAX`; with every segment up to
/// `SEGMENT_MAX`, the largest included, and nothing after them, it parses to
/// those values.
pub proof fn lemma_version_ceiling(a: Seq<u8>, b: Seq<u8>, c: Seq<u8>, tail: Seq<u8>)
    requires
        a.len() > 0 && all_digits(a),
        b.len() > 0 && all_digits(b),
        c.len() > 0 && all_digits(c),
        ends_segment(tail),
    ensures
        ({
            let s = a + seq![0x2eu8] + b + seq![0x2eu8] + c + tail;
            &&& (digits_value(0, a) > SEGMENT_MAX || digits_value(0, b) > SEGMENT_MAX || digits_value(
                0,
                c,
            ) > SEGMENT_MAX) ==> parse_version(s) == Err::<VersionModel, ParseErrorKind>(
                ParseErrorKind::VersionSegmentTooBig,
            )
            &&& (digits_value(0, a) <= SEGMENT_MAX && digits_value(0, b) <= SEGMENT_MAX
                && digits_value(0, c) <= SEGMENT_MAX && tail.len() == 0) ==> parse_version(s) == Ok::<
                VersionModel,
                ParseErrorKind,
            >(
                VersionModel {
                    major: digits_value(0, a),
                    minor: digits_value(0, b),
                    patch: digits_value(0, c),
                    pre: Seq::empty(),
                    build: Seq::empty(),
                },
            )
        }),
{
    let dot = seq![0x2eu8];
    let s4 = c + tail;
    let s3 = dot + s4;
    let s2 = b + s3;
    let s1 = dot + s2;
    let s = a + s1;
    assert(a + seq![0x2eu8] + b + seq![0x2eu8] + c + tail =~= s);
    lemma_segment_ceiling(a, s1);
    assert(s1.drop_first() =~= s2);
    lemma_segment_ceiling(b, s3);
    assert(s3.drop_first() =~= s4);
    lemma_segment_ceiling(c, tail);
}

} // verus!
