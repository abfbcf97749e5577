use gskit::cigar::parse_cigar_string;
use gskit::dna::{reverse_complement, transpose};
use gskit::draw::draw_aligned_seq;
use gskit::record::AlignmentRecord;

#[test]
fn test_reverse_complement() {
    let dna_sequence = "ATCGTAGC";
    let res = reverse_complement(dna_sequence.as_bytes());
    assert_eq!(res, b"GCTACGAT");
}

#[test]
fn reverse_complement_other_bytes() {
    assert_eq!(reverse_complement(b"acgtN-*"), b"*-Nacgt".to_vec());
    assert_eq!(reverse_complement(b"X"), vec![0u8]);
    assert_eq!(reverse_complement(b""), Vec::<u8>::new());
}

#[test]
fn test_transpose() {
    let values = (0..8).into_iter().collect::<Vec<_>>();
    let res = transpose(&values, 2, 4);
    assert_eq!(res, vec![0, 4, 1, 5, 2, 6, 3, 7]);
}

#[test]
fn draw_aligned_rows() {
    let rec = AlignmentRecord::new(
        0,
        false,
        b"GGACCCTCGGG".to_vec(),
        parse_cigar_string("2S1=2I2=1D1=3S").unwrap(),
    )
    .unwrap();
    let (r, q) = draw_aligned_seq(&rec, b"ACTCC", None, None).unwrap();
    assert_eq!(r, "--A--CTCC---");
    assert_eq!(q, "GGACCCT-CGGG");
    let (r, q) = draw_aligned_seq(&rec, b"ACTCC", Some(1), Some(3)).unwrap();
    assert_eq!(r, "CT");
    assert_eq!(q, "CT");
    assert!(draw_aligned_seq(&rec, b"ACT", None, None).is_none());
}
