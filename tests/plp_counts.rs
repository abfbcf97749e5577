use gskit::blacklist::{
    get_query_locus_blacklist, LongInsBlacklist, LowIdentityBlacklist, QueryLocusBlacklist,
};
use gskit::cigar::parse_cigar_string;
use gskit::plp::{
    compute_max_ins_of_each_ref_position, get_base_idx, is_known_base, PileupError, PlpCnts,
};
use gskit::record::{AlignmentRecord, RecordError};

fn record(pos: i64, seq: &str, cigar: &str) -> AlignmentRecord {
    AlignmentRecord::new(
        pos,
        false,
        seq.as_bytes().to_vec(),
        parse_cigar_string(cigar).unwrap(),
    )
    .unwrap()
}

fn three_records() -> Vec<AlignmentRecord> {
    // --A--CTCC---
    // GGACCCT-CGGG
    //   A--TTCC
    //      CTCC
    vec![
        record(0, "GGACCCTCGGG", "2S1=2I2=1D1=3S"),
        record(0, "ATTCC", "1=1X3="),
        record(1, "CTCC", "4="),
    ]
}

#[test]
fn test_test_plp_using_aligned_pairs_with_right_soft_clip() {
    // ACTC---
    // ACTCGGG
    let record = record(0, "ACTCGGG", "4=3S");
    assert_eq!(record.query_alignment_start(), 0);
    assert_eq!(record.query_alignment_end(), 4);
    assert_eq!(record.reference_start(), 0);
    assert_eq!(record.reference_end(), 4);

    let position_max_ins =
        compute_max_ins_of_each_ref_position(&vec![record], None, None, &vec![]).unwrap();
    assert_eq!(position_max_ins.len(), 4);
    assert_eq!(position_max_ins.get(&0), Some(&0));
    assert_eq!(position_max_ins.get(&1), Some(&0));
    assert_eq!(position_max_ins.get(&2), Some(&0));
    assert_eq!(position_max_ins.get(&3), Some(&0));
}

#[test]
fn test_test_plp_using_aligned_pairs_with_indel() {
    // --A-CTCC---
    // GGACCT-CGGG
    let record = record(0, "GGACCTCGGG", "2S1=1I2=1D1=3S");
    assert_eq!(record.query_alignment_start(), 2);
    assert_eq!(record.query_alignment_end(), 7);
    assert_eq!(record.reference_start(), 0);
    assert_eq!(record.reference_end(), 5);

    let position_max_ins =
        compute_max_ins_of_each_ref_position(&vec![record], None, None, &vec![]).unwrap();
    assert_eq!(position_max_ins.len(), 5);
    assert_eq!(position_max_ins.get(&0), Some(&1));
    assert_eq!(position_max_ins.get(&1), Some(&0));
    assert_eq!(position_max_ins.get(&2), Some(&0));
    assert_eq!(position_max_ins.get(&3), Some(&0));
    assert_eq!(position_max_ins.get(&4), Some(&0));
}

#[test]
fn test_plp_cnts() {
    let records = three_records();
    let plp_cnts = PlpCnts::from_records(&records, None, None, &vec![]).unwrap();
    println!("{}", plp_cnts.cnts2str());
    println!("{:?}", plp_cnts.get_cnts());
    assert_eq!(
        plp_cnts.get_cnts(),
        &vec![
            0, 0, 0, 0, 0, 0, 0, 0, 0, 0, 0, 0, 0, 0, 0, 0, 0, 0, 0, 0, 0, 0, 0, 0, 0, 0, 0, 0,
            2, 0, 0, 0, 0, 0, 0, 0, 1, 1, 2, 0, 2, 3, 0, 0, 0, 0, 0, 0, 0, 0, 0, 0, 1, 3, 0, 0,
            0, 0, 0, 0, 0, 0, 0, 0, 0, 0, 0, 0, 1, 0
        ]
    );
    assert_eq!(plp_cnts.get_major(), &vec![0, 0, 0, 1, 2, 3, 4]);
    assert_eq!(plp_cnts.get_minor(), &vec![0, 1, 2, 0, 0, 0, 0]);
}

#[test]
fn test_region_plp_cnts() {
    let records = three_records();
    let plp_cnts = PlpCnts::from_records(&records, Some(1), Some(4), &vec![]).unwrap();
    assert_eq!(
        plp_cnts.get_cnts(),
        &vec![
            0, 0, 0, 0, 0, 0, 0, 0, 0, 0, 0, 0, 0, 0, 0, 2, 0, 2, 0, 0, 0, 1, 3, 0, 0, 0, 0, 0,
            0, 1
        ]
    );
}

#[test]
fn test_plp_cnts_with_blacklist() {
    let blacklist_gen = vec![
        QueryLocusBlacklist::LongIns(LongInsBlacklist::new(2)),
        QueryLocusBlacklist::LowIdentity(LowIdentityBlacklist::new(4, 5, 3, 1)),
    ];
    let records = three_records();
    println!(
        "{:?}",
        get_query_locus_blacklist(&records[0], &blacklist_gen)
    );
    let plp_cnts = PlpCnts::from_records(&records, None, None, &blacklist_gen).unwrap();
    println!("{}", plp_cnts.cnts2str());
    println!("{:?}", plp_cnts.get_cnts());
}

#[test]
fn plp_column_totals_match_coverage() {
    let records = three_records();
    let plp = PlpCnts::from_records(&records, None, None, &vec![]).unwrap();
    let cnts = plp.get_cnts();
    let major = plp.get_major();
    let minor = plp.get_minor();
    let t = major.len();
    for col in 0..t {
        if minor[col] != 0 {
            continue;
        }
        let pos = major[col];
        let total: u32 = (0..10).map(|row| cnts[row * t + col]).sum();
        let covering = records
            .iter()
            .filter(|r| r.reference_start() <= pos && pos < r.reference_end())
            .count() as u32;
        assert_eq!(total, covering, "column {}", col);
    }
}

#[test]
fn plp_layout_columns() {
    let records = three_records();
    let plp = PlpCnts::from_records(&records, None, None, &vec![]).unwrap();
    // position 0 carries two insertion slots, the others none
    assert_eq!(plp.get_major().len(), 7);
    assert_eq!(plp.get_cnts().len(), 70);
}

#[test]
fn cnts2str_rows() {
    let plp = PlpCnts::new(vec![(5, 2), (6, 1)]).unwrap();
    let text = plp.cnts2str();
    let lines: Vec<&str> = text.split('\n').collect();
    assert_eq!(lines.len(), 10);
    assert!(lines.iter().all(|l| *l == "0\t0\t0"));
}

#[test]
fn plp_new_errors() {
    assert_eq!(
        PlpCnts::new(vec![(3, 1), (2, 1)]).err(),
        Some(PileupError::InvalidLayout)
    );
    assert_eq!(
        PlpCnts::new(vec![(3, 0)]).err(),
        Some(PileupError::InvalidLayout)
    );
}

#[test]
fn plp_errors_on_mismatch() {
    let mut plp = PlpCnts::new(vec![(0, 1), (1, 1)]).unwrap();
    let rec = record(0, "AGT", "1=1I1=");
    assert_eq!(
        plp.update_with_record(&rec, &vec![]),
        Err(PileupError::InsertionOverflow(0))
    );
    let plp = PlpCnts::new(vec![(0, 1), (2, 1)]).unwrap();
    let rec = record(0, "AAA", "3=");
    assert_eq!(plp.missing_position(&rec), Some(1));
    let rec = record(2, "A", "1=");
    assert_eq!(plp.missing_position(&rec), None);
    let mut plp = PlpCnts::new(vec![(0, 1)]).unwrap();
    let rec = record(0, "N", "1=");
    assert_eq!(
        plp.update_with_record(&rec, &vec![]),
        Err(PileupError::InvalidBase(b'N'))
    );
    let rec = record(0, "A", "1=");
    let bl = vec![QueryLocusBlacklist::LongIns(LongInsBlacklist::new(1))];
    let mut plp = PlpCnts::new(vec![(0, 1)]).unwrap();
    let m_rec = record(0, "A", "1M");
    assert_eq!(
        plp.update_with_record(&m_rec, &bl),
        Err(PileupError::Blacklist)
    );
    assert_eq!(plp.update_with_record(&rec, &bl), Ok(()));
}

#[test]
fn reverse_strand_rows() {
    let rec = AlignmentRecord::new(
        0,
        true,
        b"ACG".to_vec(),
        parse_cigar_string("1=1D2=").unwrap(),
    )
    .unwrap();
    let plp = PlpCnts::from_records(&vec![rec], None, None, &vec![]).unwrap();
    let t = 4;
    let c = plp.get_cnts();
    assert_eq!(c[0 * t + 0], 1); // reverse A
    assert_eq!(c[8 * t + 1], 1); // reverse gap
    assert_eq!(c[1 * t + 2], 1); // reverse C
    assert_eq!(c[2 * t + 3], 1); // reverse G
}

#[test]
fn base_rows() {
    assert_eq!(get_base_idx(b'A', true), 4);
    assert_eq!(get_base_idx(b'T', false), 3);
    assert_eq!(get_base_idx(b'-', true), 9);
    assert_eq!(get_base_idx(b'*', false), 8);
    assert!(!is_known_base(b'N'));
    assert!(is_known_base(b' '));
}

#[test]
fn record_errors() {
    let ops = parse_cigar_string("3=").unwrap();
    assert_eq!(
        AlignmentRecord::new(-1, false, b"AAA".to_vec(), ops.clone()).err(),
        Some(RecordError::PositionNotSet)
    );
    assert_eq!(
        AlignmentRecord::new(0, false, b"AA".to_vec(), ops).err(),
        Some(RecordError::SequenceLengthMismatch)
    );
}

#[test]
fn plp_layout_follows_profile() {
    let records = three_records();
    let profile = compute_max_ins_of_each_ref_position(&records, None, None, &vec![]).unwrap();
    let plp = PlpCnts::from_records(&records, None, None, &vec![]).unwrap();
    let major = plp.get_major();
    let minor = plp.get_minor();
    let total: u64 = profile.values().map(|v| v + 1).sum();
    assert_eq!(major.len() as u64, total);
    for (pos, ins) in profile.iter() {
        let cols = major.iter().filter(|m| **m == *pos).count() as u64;
        assert_eq!(cols, ins + 1);
        assert!(minor.iter().zip(major.iter()).any(|(mi, ma)| *ma == *pos && *mi == *ins));
    }
}

#[test]
fn plp_from_no_records_is_empty_layout() {
    assert_eq!(
        PlpCnts::from_records(&vec![], None, None, &vec![]).err(),
        Some(PileupError::EmptyLayout)
    );
}

#[test]
fn profile_window_and_blacklist() {
    // insertion of 2 after position 0, one base blacklisted by a long-insertion rule of 2
    let rec = record(0, "AGGCT", "1=2I2=");
    let plain = compute_max_ins_of_each_ref_position(&vec![rec], None, None, &vec![]).unwrap();
    assert_eq!(plain.get(&0), Some(&2));
    let rec = record(0, "AGGCT", "1=2I2=");
    let bl = vec![QueryLocusBlacklist::LongIns(LongInsBlacklist::new(2))];
    let masked = compute_max_ins_of_each_ref_position(&vec![rec], None, None, &bl).unwrap();
    assert_eq!(masked.get(&0), Some(&0));
    let rec = record(0, "AGGCT", "1=2I2=");
    let windowed = compute_max_ins_of_each_ref_position(&vec![rec], Some(1), Some(3), &vec![]).unwrap();
    assert_eq!(windowed.get(&0), None);
    assert_eq!(windowed.get(&1), Some(&0));
}
