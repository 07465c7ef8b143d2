use vpm_core::parsing_buf::{ParseErrorKind, ParseRangeError, ParsingBuf};
use vpm_core::range::VersionRange;
use vpm_core::version::Version;

#[test]
fn buf_reads_expected_char() {
    let mut b = ParsingBuf::new("a.b");
    assert!(b.read('a').is_ok());
    assert_eq!(b.buf, ".b");
    assert_eq!(b.read('x').unwrap_err().kind(), ParseErrorKind::InvalidChar('.'));
    assert_eq!(b.buf, ".b");
}

#[test]
fn buf_read_at_end_is_unexpected_end() {
    let mut b = ParsingBuf::new("");
    assert_eq!(b.read('a').unwrap_err().kind(), ParseErrorKind::UnexpectedEnd);
    assert!(b.is_empty());
}

#[test]
fn buf_read_reports_non_ascii_char() {
    let mut b = ParsingBuf::new("é1");
    assert_eq!(b.read('1').unwrap_err().kind(), ParseErrorKind::InvalidChar('é'));
}

#[test]
fn buf_lookahead() {
    let b = ParsingBuf::new(">=1");
    assert_eq!(b.first(), Some(b'>'));
    assert_eq!(b.get(1), Some(b'='));
    assert_eq!(b.get(3), None);
    assert_eq!(b.first_char(), '>');
    assert_eq!(ParsingBuf::new("").first(), None);
}

#[test]
fn buf_skip_and_take() {
    let mut b = ParsingBuf::new("abcd");
    b.skip().skip();
    assert_eq!(b.buf, "cd");
    assert_eq!(b.take(1), "c");
    assert_eq!(b.buf, "d");
    let mut e = ParsingBuf::new("");
    e.skip();
    assert!(e.is_empty());
}

#[test]
fn buf_skip_ws() {
    let mut b = ParsingBuf::new(" \t\n x ");
    b.skip_ws();
    assert_eq!(b.buf, "x ");
    let mut c = ParsingBuf::new("y");
    c.skip_ws();
    assert_eq!(c.buf, "y");
}

#[test]
fn error_constructors() {
    assert_eq!(ParseRangeError::too_big().kind(), ParseErrorKind::VersionSegmentTooBig);
    assert_eq!(ParseRangeError::unexpected_end().kind(), ParseErrorKind::UnexpectedEnd);
    assert_eq!(ParseRangeError::invalid_char('q').kind(), ParseErrorKind::InvalidChar('q'));
}

#[test]
fn version_parses_parts() {
    let v = Version::parse("1.22.333-beta.2+build.7").unwrap();
    assert_eq!((v.major, v.minor, v.patch), (1, 22, 333));
    assert_eq!(v.pre, vec![b"beta".to_vec(), b"2".to_vec()]);
    assert_eq!(v.build, vec![b"build".to_vec(), b"7".to_vec()]);
    assert!(!v.is_stable());
    assert!(Version::parse("0.0.0").unwrap().is_stable());
}

#[test]
fn version_round_trip() {
    for s in ["1.2.3", "10.0.7-rc.1", "3.4.5+meta", "0.1.2-alpha-1.x+b.2"] {
        let v = Version::parse(s).unwrap();
        let text = v.format();
        assert_eq!(text, s);
        let w = Version::parse(&text).unwrap();
        assert_eq!(w.format(), text);
        assert_eq!(v.cmp_precedence(&w), 0);
        assert_eq!(v.build, w.build);
    }
}

#[test]
fn version_round_trip_drops_leading_zeros() {
    let v = Version::parse("01.002.3").unwrap();
    assert_eq!(v.format(), "1.2.3");
    let w = Version::parse(&v.format()).unwrap();
    assert_eq!((w.major, w.minor, w.patch), (1, 2, 3));
}

#[test]
fn version_segment_ceiling() {
    let max = Version::parse("18446744073709551615.0.0").unwrap();
    assert_eq!(max.major, u64::MAX);
    let err = Version::parse("18446744073709551616.0.0").unwrap_err();
    assert_eq!(err.kind(), ParseErrorKind::VersionSegmentTooBig);
    let err = Version::parse("1.0.99999999999999999999").unwrap_err();
    assert_eq!(err.kind(), ParseErrorKind::VersionSegmentTooBig);
}

#[test]
fn version_errors() {
    assert_eq!(Version::parse("1.2").unwrap_err().kind(), ParseErrorKind::UnexpectedEnd);
    assert_eq!(Version::parse("1.x.3").unwrap_err().kind(), ParseErrorKind::InvalidChar('x'));
    assert_eq!(Version::parse("1.2.3-").unwrap_err().kind(), ParseErrorKind::UnexpectedEnd);
    assert_eq!(Version::parse("1.2.3 ").unwrap_err().kind(), ParseErrorKind::InvalidChar(' '));
    assert_eq!(Version::parse("").unwrap_err().kind(), ParseErrorKind::UnexpectedEnd);
}

#[test]
fn prerelease_orders_before_release() {
    let a = Version::parse("1.0.0-alpha").unwrap();
    let b = Version::parse("1.0.0").unwrap();
    assert_eq!(a.cmp_precedence(&b), -1);
    assert_eq!(b.cmp_precedence(&a), 1);
}

#[test]
fn version_order() {
    let v = |s: &str| Version::parse(s).unwrap();
    assert_eq!(v("1.2.3").cmp_precedence(&v("1.10.0")), -1);
    assert_eq!(v("2.0.0").cmp_precedence(&v("1.99.99")), 1);
    assert_eq!(v("1.0.0-alpha").cmp_precedence(&v("1.0.0-alpha.1")), -1);
    assert_eq!(v("1.0.0-beta").cmp_precedence(&v("1.0.0-alpha.9")), 1);
    assert_eq!(v("1.0.0+a").cmp_precedence(&v("1.0.0+b")), 0);
}

#[test]
fn range_matches_conjunction() {
    let r = VersionRange::parse(">=1.0.0 <2.0.0").unwrap();
    assert_eq!(r.comparators.len(), 2);
    assert!(r.matches(&Version::parse("1.5.0").unwrap()));
    assert!(r.matches(&Version::parse("1.0.0").unwrap()));
    assert!(!r.matches(&Version::parse("2.0.0").unwrap()));
    assert!(!r.matches(&Version::parse("0.9.9").unwrap()));
}

#[test]
fn range_operators() {
    let v = Version::parse("1.2.3").unwrap();
    assert!(VersionRange::parse("1.2.3").unwrap().matches(&v));
    assert!(VersionRange::parse("=1.2.3").unwrap().matches(&v));
    assert!(!VersionRange::parse(">1.2.3").unwrap().matches(&v));
    assert!(VersionRange::parse("<=1.2.3").unwrap().matches(&v));
    assert!(!VersionRange::parse("<1.2.3").unwrap().matches(&v));
    assert!(VersionRange::parse("  ").unwrap().matches(&v));
}

#[test]
fn range_errors() {
    assert_eq!(VersionRange::parse(">=1.0").unwrap_err().kind(), ParseErrorKind::UnexpectedEnd);
    assert_eq!(VersionRange::parse(">=a").unwrap_err().kind(), ParseErrorKind::InvalidChar('a'));
}

#[test]
fn buf_reads_non_ascii_char() {
    let mut b = ParsingBuf::new("é1");
    assert!(b.read('é').is_ok());
    assert_eq!(b.buf, "1");
    let mut c = ParsingBuf::new("a");
    assert_eq!(c.read('é').unwrap_err().kind(), ParseErrorKind::InvalidChar('a'));
    assert_eq!(c.buf, "a");
    let mut e = ParsingBuf::new("");
    assert_eq!(e.read('é').unwrap_err().kind(), ParseErrorKind::UnexpectedEnd);
}

#[test]
fn version_ceiling_in_any_segment() {
    for s in ["1.18446744073709551616.0", "0.0.18446744073709551616", "99999999999999999999999.1.2-a"] {
        assert_eq!(Version::parse(s).unwrap_err().kind(), ParseErrorKind::VersionSegmentTooBig);
    }
    let v = Version::parse("0.18446744073709551615.18446744073709551615").unwrap();
    assert_eq!((v.minor, v.patch), (u64::MAX, u64::MAX));
}
