use vstd::prelude::*;
use vstd::string::*;
use vstd::utf8::*;
use crate::parsing_buf::{trimmed_start, ParseErrorKind, ParseRangeError, ParsingBuf};
use crate::version::{
    cmp_version, expect, ident_run, parse_idents, parse_segment, parse_tagged,
    parse_version_prefix, segment_from, Version, VersionModel,
};

verus! {

broadcast use encode_utf8_valid_utf8, encode_utf8_decode_utf8;

/// How a comparator relates a version to its bound.
#[derive(Clone, Copy, Debug, PartialEq, Eq, Structural)]
pub enum CompareOp {
    Eq,
    Gt,
    Ge,
    Lt,
    Le,
}

/// Whether a precedence result `c` (-1, 0, 1 of a version against a bound)
/// satisfies `op`.
pub open spec fn op_holds(op: CompareOp, c: int) -> bool {
    match op {
        CompareOp::Eq => c == 0,
        CompareOp::Gt => c > 0,
        CompareOp::Ge => c >= 0,
        CompareOp::Lt => c < 0,
        CompareOp::Le => c <= 0,
    }
}

pub struct ComparatorModel {
    pub op: CompareOp,
    pub version: VersionModel,
}

/// One bound of a range.
#[derive(Debug)]
pub struct Comparator {
    pub op: CompareOp,
    pub version: Version,
}

impl View for Comparator {
    type V = ComparatorModel;

    open spec fn view(&self) -> ComparatorModel {
        ComparatorModel { op: self.op, version: self.version@ }
    }
}

/// A conjunction of comparators.
#[derive(Debug)]
pub struct VersionRange {
    pub comparators: Vec<Comparator>,
}

pub open spec fn comparators_view(v: Seq<Comparator>) -> Seq<ComparatorModel> {
    v.map_values(|c: Comparator| c@)
}

impl View for VersionRange {
    type V = Seq<ComparatorModel>;

    open spec fn view(&self) -> Seq<ComparatorModel> {
        comparators_view(self.comparators@)
    }
}

/// A version is in a range when it satisfies every comparator of it.
pub open spec fn range_matches(r: Seq<ComparatorModel>, v: VersionModel) -> bool {
    forall|i: int| 0 <= i < r.len() ==> op_holds(r[i].op, cmp_version(v, #[trigger] r[i].version))
}

/// The bytes left after leading whitespace is skipped.
pub open spec fn ws_skipped(s: Seq<u8>) -> Seq<u8> {
    encode_utf8(trimmed_start(decode_utf8(s)))
}

/// The operator at the front of `s`, and what follows it.
pub open spec fn parse_op(s: Seq<u8>) -> (CompareOp, Seq<u8>) {
    if s.len() > 0 && s[0] == 0x3e {
        if s.len() > 1 && s[1] == 0x3d {
            (CompareOp::Ge, s.skip(2))
        } else {
            (CompareOp::Gt, s.skip(1))
        }
    } else if s.len() > 0 && s[0] == 0x3c {
        if s.len() > 1 && s[1] == 0x3d {
            (CompareOp::Le, s.skip(2))
        } else {
            (CompareOp::Lt, s.skip(1))
        }
    } else if s.len() > 0 && s[0] == 0x3d {
        (CompareOp::Eq, s.skip(1))
    } else {
        (CompareOp::Eq, s)
    }
}

/// Comparators, each an optional operator (`>=`, `<=`, `>`, `<`, `=`) followed
/// by a version, with whitespace between them. A bare version is an `=`.
pub open spec fn parse_comparators(s: Seq<u8>) -> Result<Seq<ComparatorModel>, ParseErrorKind>
    decreases s.len(),
{
    let t = ws_skipped(s);
    if t.len() == 0 || t.len() > s.len() {
        Ok(Seq::empty())
    } else {
        let (op, t1) = parse_op(t);
        match parse_version_prefix(t1) {
            Err(e) => Err(e),
            Ok((v, t2)) => if t2.len() < s.len() {
                match parse_comparators(t2) {
                    Err(e) => Err(e),
                    Ok(rest) => Ok(seq![ComparatorModel { op, version: v }] + rest),
                }
            } else {
                Ok(seq![ComparatorModel { op, version: v }])
            },
        }
    }
}

proof fn lemma_segment_from_shrinks(s: Seq<u8>, acc: nat)
    ensures
        segment_from(s, acc) is Ok ==> segment_from(s, acc)->Ok_0.1.len() <= s.len(),
    decreases s.len(),
{
    if s.len() > 0 && crate::version::is_digit(s[0]) {
        let n = acc * 10 + (s[0] - 0x30);
        if n <= crate::version::SEGMENT_MAX {
            lemma_segment_from_shrinks(s.drop_first(), n as nat);
        }
    }
}

proof fn lemma_idents_shrink(s: Seq<u8>)
    ensures
        parse_idents(s) is Ok ==> parse_idents(s)->Ok_0.1.len() <= s.len(),
    decreases s.len(),
{
    crate::version::lemma_ident_run_bound(s);
    let n = ident_run(s);
    if n > 0 {
        let rest = s.skip(n as int);
        if rest.len() > 0 && rest[0] == 0x2e && rest.len() < s.len() {
            lemma_idents_shrink(rest.drop_first());
        }
    }
}

/// A version takes up at least one byte.
proof fn lemma_version_prefix_shrinks(s: Seq<u8>)
    ensures
        parse_version_prefix(s) is Ok ==> parse_version_prefix(s)->Ok_0.1.len() < s.len(),
{
    lemma_segment_from_shrinks(s, 0);
    if let Ok((_, s1)) = parse_segment(s) {
        if let Ok(s2) = expect(s1, 0x2e) {
            lemma_segment_from_shrinks(s2, 0);
            if let Ok((_, s3)) = parse_segment(s2) {
                if let Ok(s4) = expect(s3, 0x2e) {
                    lemma_segment_from_shrinks(s4, 0);
                    if let Ok((_, s5)) = parse_segment(s4) {
                        if s5.len() > 0 && s5[0] == 0x2d {
                            lemma_idents_shrink(s5.drop_first());
                        }
                        if let Ok((_, s6)) = parse_tagged(s5, 0x2d) {
                            if s6.len() > 0 && s6[0] == 0x2b {
                                lemma_idents_shrink(s6.drop_first());
                            }
                        }
                    }
                }
            }
        }
    }
}

fn read_op(buf: &mut ParsingBuf) -> (r: CompareOp)
    ensures
        (r, final(buf)@) == parse_op(old(buf)@),
{
    match buf.first() {
        Some(b) => {
            if b == 0x3e || b == 0x3c {
                let wide = match buf.get(1) {
                    Some(n) => n == 0x3d,
                    None => false,
                };
                buf.skip();
                if wide {
                    buf.skip();
                    proof {
                        assert(buf@ =~= old(buf)@.skip(2));
                    }
                    if b == 0x3e {
                        CompareOp::Ge
                    } else {
                        CompareOp::Le
                    }
                } else {
                    proof {
                        assert(buf@ =~= old(buf)@.skip(1));
                    }
                    if b == 0x3e {
                        CompareOp::Gt
                    } else {
                        CompareOp::Lt
                    }
                }
            } else if b == 0x3d {
                buf.skip();
                proof {
                    assert(buf@ =~= old(buf)@.skip(1));
                }
                CompareOp::Eq
            } else {
                CompareOp::Eq
            }
        },
        None => CompareOp::Eq,
    }
}

impl VersionRange {
    /// Parses a range: comparators separated by whitespace.
    pub fn parse(s: &str) -> (r: Result<VersionRange, ParseRangeError>)
        ensures
            match parse_comparators(s.spec_bytes()) {
                Ok(cs) => r is Ok && r->Ok_0@ == cs,
                Err(k) => r is Err && r->Err_0.spec_kind() == k,
            },
    {
        let mut buf = ParsingBuf::new(s);
        let mut out: Vec<Comparator> = Vec::new();
        loop
            invariant
                parse_comparators(s.spec_bytes()) == match parse_comparators(buf@) {
                    Ok(cs) => Ok(comparators_view(out@) + cs),
                    Err(e) => Err(e),
                },
            decreases buf@.len(),
        {
            let ghost before = buf@;
            buf.skip_ws();
            proof {
                assert(buf@ == ws_skipped(before));
            }
            if buf.is_empty() {
                proof {
                    assert(comparators_view(out@) + Seq::<ComparatorModel>::empty() =~= comparators_view(out@));
                }
                return Ok(VersionRange { comparators: out });
            }
            let op = read_op(&mut buf);
            let version = Version::parse_at(&mut buf)?;
            let ghost done = comparators_view(out@);
            let c = Comparator { op, version };
            let ghost cm = c@;
            out.push(c);
            proof {
                assert(comparators_view(out@) =~= done + seq![cm]);
                lemma_version_prefix_shrinks(parse_op(ws_skipped(before)).1);
                match parse_comparators(buf@) {
                    Ok(cs) => {
                        assert(comparators_view(out@) + cs =~= done + (seq![cm] + cs));
                    },
                    Err(e) => {},
                }
            }
        }
    }

    /// Whether `v` satisfies every comparator.
    pub fn matches(&self, v: &Version) -> (r: bool)
        ensures
            r == range_matches(self@, v@),
    {
        let mut i: usize = 0;
        while i < self.comparators.len()
            invariant
                i <= self@.len(),
                forall|j: int| 0 <= j < i ==> op_holds(self@[j].op, cmp_version(v@, #[trigger] self@[j].version)),
            decreases self@.len() - i,
        {
            let c = &self.comparators[i];
            let o = v.cmp_precedence(&c.version);
            let ok = match c.op {
                CompareOp::Eq => o == 0,
                CompareOp::Gt => o > 0,
                CompareOp::Ge => o >= 0,
                CompareOp::Lt => o < 0,
                CompareOp::Le => o <= 0,
            };
            if !ok {
                proof {
                    assert(self@[i as int] == c@);
                    assert(!op_holds(self@[i as int].op, cmp_version(v@, self@[i as int].version)));
                }
                return false;
            }
            i += 1;
        }
        true
    }
}

} // verus!
