use gskit::blacklist::{
    get_query_locus_blacklist, long_ins_regions_in_query, sliding_window, LongInsBlacklist,
    LongInsRegions, LowIdentityBlacklist, QueryLocusBlacklist,
};
use gskit::cigar::{cigar_to_bytes, parse_cigar_string, CigarOp, CigarParseError};
use gskit::range_identity::{RangeIdentity, RangeIdentityCalculator};

fn ident(r: RangeIdentity) -> f32 {
    r.eq_len as f32 / std::cmp::max(1, r.span_len) as f32
}

fn calc(ops: Vec<CigarOp>) -> RangeIdentityCalculator {
    RangeIdentityCalculator::new(&ops)
}

fn range_identity_cases() {
    let cigar_str = vec![
        CigarOp::Equal(5),
        CigarOp::Diff(3),
        CigarOp::Equal(10),
        CigarOp::Ins(2),
        CigarOp::Equal(6),
        CigarOp::Diff(4),
    ];
    let calculator = calc(cigar_str);
    println!("{:?}", calculator);
    let id = |s: u32, e: u32| ident(calculator.compute_range_identity(s, e));
    assert!((id(0, 5) - 1.0).abs() < 1e-6, "{}", id(0, 5));
    assert!((id(5, 8) - 0.0).abs() < 1e-6, "{}", id(5, 8));
    assert!((id(8, 18) - 1.0).abs() < 1e-6, "{}", id(8, 18));
    assert!((id(3, 7) - 0.5).abs() < 1e-6, "{}", id(3, 7));
    assert!((id(7, 12) - 0.8).abs() < 1e-6, "{}", id(7, 12));
    assert!((id(18, 26) - 0.75).abs() < 1e-6, "{}", id(18, 26));
}

fn edge_cases() {
    let calculator = calc(vec![CigarOp::Equal(5), CigarOp::Diff(5)]);
    let id = |s: u32, e: u32| ident(calculator.compute_range_identity(s, e));
    assert!((id(0, 3) - 1.0).abs() < 1e-6, "{}", id(0, 3));
    assert!((id(6, 10) - 0.0).abs() < 1e-6, "{}", id(6, 10));
    assert!((id(4, 7) - 0.333333).abs() < 1e-6, "{}", id(4, 7));
}

#[test]
fn cigar_ext_test_range_identity() {
    range_identity_cases();
}

#[test]
fn test_range_identity() {
    range_identity_cases();
}

#[test]
fn cigar_ext_test_edge_cases() {
    edge_cases();
}

#[test]
fn test_edge_cases() {
    edge_cases();
}

#[test]
fn test_ideneity_special_case() {
    // --A--CTCC---
    // GGACCCT-CGGG
    let cigar_str = parse_cigar_string("2S1=2I2=1D1=3S").unwrap();
    let calculator = RangeIdentityCalculator::new(&cigar_str);
    let id = |s: u32, e: u32| ident(calculator.compute_range_identity(s, e));
    assert!((id(6, 8) - 2.0 / 3.0).abs() < 1e-6);
    assert!((id(0, 10) - 4.0 / 7.0).abs() < 1e-6);
    assert!((id(7, 8) - 1.0).abs() < 1e-6);
    assert!((id(6, 7) - 1.0).abs() < 1e-6);

    // ACTCC
    // ATTCC
    let cigar_str = parse_cigar_string("1=1X3=").unwrap();
    let calc = RangeIdentityCalculator::new(&cigar_str);
    println!("{:?}", calc.compute_range_identity(1, 4));
}

#[test]
fn test_parse_cigar_str() {
    println!("{:?}", parse_cigar_string("4=3S"));
    assert_eq!(
        parse_cigar_string("4=3S"),
        Ok(vec![CigarOp::Equal(4), CigarOp::SoftClip(3)])
    );
}

#[test]
fn test_long_ins_regions_in_query() {
    let cigar_str = parse_cigar_string("10I2=").unwrap();
    let regions = long_ins_regions_in_query(&cigar_str, 5).unwrap();
    assert_eq!(regions[0], (0, 10));

    let long_ins_region = LongInsRegions::new(&cigar_str, 5).unwrap();
    assert_eq!(long_ins_region.within(10), false);
}

#[test]
fn parse_cigar_errors() {
    assert_eq!(
        parse_cigar_string("3Q"),
        Err(CigarParseError::InvalidOperator(b'Q'))
    );
    assert_eq!(parse_cigar_string("3M4"), Err(CigarParseError::TrailingDigits));
    assert_eq!(
        parse_cigar_string("4294967296M"),
        Err(CigarParseError::LengthOverflow)
    );
    assert_eq!(parse_cigar_string(""), Ok(vec![]));
    assert_eq!(
        parse_cigar_string("4294967295M"),
        Ok(vec![CigarOp::Match(4294967295)])
    );
}

#[test]
fn cigar_round_trip() {
    let text = "2S1=2I2=1D1=3S10N0H7P12M";
    let ops = parse_cigar_string(text).unwrap();
    let bytes = cigar_to_bytes(&ops);
    assert_eq!(bytes, text.as_bytes().to_vec());
    let again = parse_cigar_string(std::str::from_utf8(&bytes).unwrap()).unwrap();
    assert_eq!(again, ops);
}

#[test]
fn range_identity_full_and_empty() {
    let ops = parse_cigar_string("2S3=1X2I1D4=3S").unwrap();
    let calculator = RangeIdentityCalculator::new(&ops);
    // aligned part is [2, 12)
    let full = calculator.compute_range_identity(2, 12);
    assert_eq!((full.start, full.end), (2, 12));
    assert_eq!((full.eq_len, full.span_len), (7, 11));
    let clamped = calculator.compute_range_identity(0, 100);
    assert_eq!(clamped, full);
    for x in 0..15 {
        let r = calculator.compute_range_identity(x, x);
        assert_eq!(r.eq_len, 0);
        assert_eq!(ident(r), 0.0);
        assert_eq!(r.start, r.end);
    }
}

#[test]
fn range_identity_split_adds_up() {
    let ops = parse_cigar_string("5=3X4=2I6=").unwrap();
    let calculator = RangeIdentityCalculator::new(&ops);
    let whole = calculator.compute_range_identity(1, 19);
    for p in 2..19 {
        let a = calculator.compute_range_identity(1, p);
        let b = calculator.compute_range_identity(p, 19);
        assert_eq!(a.eq_len + b.eq_len, whole.eq_len, "split at {}", p);
        assert_eq!(a.span_len + b.span_len, whole.span_len, "split at {}", p);
    }
}

#[test]
fn range_identity_refuses_match_ops() {
    let ops = parse_cigar_string("10M").unwrap();
    let calculator = RangeIdentityCalculator::new(&ops);
    assert!(!calculator.can_compute(2, 5));
    // an M strictly inside the range is refused as well
    let ops = parse_cigar_string("2=3M2=").unwrap();
    let calculator = RangeIdentityCalculator::new(&ops);
    assert!(!calculator.can_compute(0, 7));
    assert!(calculator.can_compute(0, 1));
    assert!(calculator.can_compute(3, 3));
}

#[test]
fn long_ins_blacklist_marks_run() {
    let ops = parse_cigar_string("10I2=").unwrap();
    let rec = gskit::record::AlignmentRecord::new(0, false, vec![b'A'; 12], ops).unwrap();
    let mask = LongInsBlacklist::new(5).get_blacklist_locus(&rec).unwrap();
    for q in 0..10 {
        assert!(mask[q]);
    }
    assert!(!mask[10]);
    assert!(!mask[11]);
    let none = LongInsBlacklist::new(11).get_blacklist_locus(&rec).unwrap();
    assert!(none.iter().all(|f| !f));
}

#[test]
fn sliding_window_steps() {
    assert_eq!(
        sliding_window(10, 4, 1, true),
        vec![(0, 4), (3, 7), (6, 10)]
    );
    assert_eq!(
        sliding_window(11, 4, 1, false),
        vec![(0, 4), (3, 7), (6, 10), (9, 11)]
    );
    assert_eq!(sliding_window(0, 4, 1, false), vec![]);
}

#[test]
fn low_identity_blacklist_windows() {
    let ops = parse_cigar_string("4=4X4=").unwrap();
    let rec = gskit::record::AlignmentRecord::new(0, false, vec![b'A'; 12], ops).unwrap();
    let bl = LowIdentityBlacklist::new(4, 5, 4, 0);
    let mask = bl.get_blacklist_locus(&rec).unwrap();
    let expect: Vec<bool> = (0..12).map(|q| (4..8).contains(&q)).collect();
    assert_eq!(mask, expect);
    let both = get_query_locus_blacklist(
        &rec,
        &vec![
            QueryLocusBlacklist::LowIdentity(bl),
            QueryLocusBlacklist::LongIns(LongInsBlacklist::new(1)),
        ],
    )
    .unwrap();
    assert_eq!(both, expect);
    let empty = get_query_locus_blacklist(&rec, &vec![]).unwrap();
    assert_eq!(empty, vec![false; 12]);
}
