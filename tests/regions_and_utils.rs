use gskit::counter::Counter;
use gskit::fastx::{fastx_header_line_to_header, ReadsInfo};
use gskit::header::HeaderSQ;
use gskit::cigar::parse_cigar_string;
use gskit::poly_n::{extract_poly_locus_info_from_record, find_poly_n_regions, move_poly_idx, position_relation, PosRelation, RefPolyLocusInfo};
use gskit::record::AlignmentRecord;
use gskit::region::{Region, Regions};
use gskit::timer::ScopedTimer;

#[test]
fn test_read_info() {
    let r = ReadsInfo::new_fq_record("r1".to_string(), "ACGT".to_string(), "IIII".to_string());
    assert_eq!(r.name, "r1");
    assert_eq!(r.qual, Some("IIII".to_string()));
    let f = ReadsInfo::new_fa_record("r2".to_string(), "AC".to_string());
    assert_eq!(f.qual, None);
}

#[test]
fn test_calcute_gaps() {
    let regions = vec![(1_usize, 5_usize), (1, 5)];
    let regions = Regions::from_pairs(&regions);
    let res = regions.gaps(Some(0), Some(100));
    println!("{:?}", res);
    assert_eq!(res, vec![1, -4, 95]);

    let regions = vec![(1_usize, 5_usize), (5, 10)];
    let regions = Regions::from_pairs(&regions);
    let res = regions.gaps(Some(0), Some(100));
    println!("{:?}", res);
    assert_eq!(res, vec![1, 0, 90]);

    let regions = vec![(1_usize, 5_usize), (5, 10)];
    let regions = Regions::from_pairs(&regions);
    let res = regions.gaps(None, None);
    println!("{:?}", res);
    assert_eq!(res, vec![0]);

    let regions = vec![(1_usize, 5_usize), (7, 10)];
    let regions = Regions::from_pairs(&regions);
    let res = regions.gaps(None, None);
    println!("{:?}", res);
    assert_eq!(res, vec![2]);
}

#[test]
fn test_calcute_overlap_metrics() {
    let regions = Regions::from_pairs(&vec![(1_usize, 5_usize), (1, 5)]);
    let merged = regions.merge_regions();
    let ratio = regions.ovlp_length() as f32 / merged.total_length() as f32;
    println!("{:?}", ratio);
    assert_eq!(ratio, 1.0);

    let regions = Regions::from_pairs(&vec![(1_usize, 5_usize), (5, 10)]);
    let merged = regions.merge_regions();
    let ratio = regions.ovlp_length() as f32 / merged.total_length() as f32;
    println!("{:?}", ratio);
    assert_eq!(ratio, 0.0);
}

#[test]
fn merge_and_overlap() {
    let regions = Regions::from_pairs(&vec![(10, 20), (1, 5), (4, 8), (20, 22), (30, 31)]);
    let merged = regions.merge_regions();
    assert_eq!(
        merged.0,
        vec![Region::new(1, 8), Region::new(10, 22), Region::new(30, 31)]
    );
    assert_eq!(merged.total_length(), 20);
    assert_eq!(regions.ovlp_length(), 1);
    assert_eq!(Regions::new(vec![]).ovlp_length(), 0);
    assert_eq!(Region::new(3, 9).length(), 6);
}

#[test]
fn test_find_homopolymer_regions() {
    let seq = b"AAAACCCGGTT";
    let res = find_poly_n_regions(seq);
    assert_eq!(res, vec![(0, 4, 65), (4, 7, 67), (7, 9, 71), (9, 11, 84)]);

    let seq = b"AAAACCCGGT";
    let res = find_poly_n_regions(seq);
    assert_eq!(res, vec![(0, 4, 65), (4, 7, 67), (7, 9, 71)]);

    let seq = b"ACCCGGT";
    let res = find_poly_n_regions(seq);
    assert_eq!(res, vec![(1, 4, 67), (4, 6, 71)]);

    let seq = b"AACGGT";
    let res = find_poly_n_regions(seq);
    // the run of A comes first: its base is 65
    assert_eq!(res, vec![(0, 2, 65), (3, 5, 71)]);
}

#[test]
fn poly_helpers() {
    assert_eq!(find_poly_n_regions(b""), vec![]);
    assert_eq!(find_poly_n_regions(b"A"), vec![]);
    assert_eq!(position_relation(&(3, 6, b'A'), 2), PosRelation::Left);
    assert_eq!(position_relation(&(3, 6, b'A'), 3), PosRelation::Middle);
    assert_eq!(position_relation(&(3, 6, b'A'), 6), PosRelation::Right);
    let regions = vec![(0, 2, b'A'), (5, 8, b'C'), (9, 12, b'G')];
    assert_eq!(move_poly_idx(&regions, 0, 6), Some(1));
    assert_eq!(move_poly_idx(&regions, 0, 20), None);
    let info = RefPolyLocusInfo::new(5, 8, 10, 13, b'C', 3, b"CCA".to_vec());
    assert_eq!(info.query_repeats, 2);
    assert!(!info.query_clean);
}

#[test]
fn counter_counts() {
    let mut c = Counter::new();
    c.increment(3);
    c.increment(3);
    c.increment(7);
    c.increment(9);
    c.increment(9);
    c.increment(9);
    assert_eq!(c.get(&3), 2);
    assert_eq!(c.get(&4), 0);
    assert_eq!(c.total(), 6);
    assert_eq!(c.mostcommon(2), vec![(9, 3), (3, 2)]);
    assert_eq!(c.mostcommon(10).len(), 3);
    c.reset(9);
    assert_eq!(c.get(&9), 0);
    assert_eq!(c.total(), 3);
    c.clear();
    assert_eq!(c.total(), 0);
    assert_eq!(c.get(&3), 0);
}

#[test]
fn header_and_timer() {
    let sq = HeaderSQ::new(2, "chr1".to_string(), 1000);
    assert_eq!(sq.get_tid(), 2);
    assert_eq!(sq.get_name(), "chr1");
    assert_eq!(sq.get_len(), 1000);
    let mut t = ScopedTimer::new();
    t.add_timing(10, 500);
    t.add_timing(5, 100);
    assert_eq!(t.iterations(), 15);
    assert_eq!(t.elapsed_nanos(), 600);
    t.reset();
    assert_eq!(t.iterations(), 0);
}

#[test]
fn fastx_header_names() {
    assert_eq!(fastx_header_line_to_header(">read1 some text"), Some("read1".to_string()));
    assert_eq!(fastx_header_line_to_header("@read2"), Some("read2".to_string()));
    assert_eq!(fastx_header_line_to_header(">"), Some("".to_string()));
    assert_eq!(fastx_header_line_to_header(""), None);
}

#[test]
fn poly_loci_of_record() {
    let regions = find_poly_n_regions(b"AAAACCCGGTT");
    let rec = AlignmentRecord::new(
        0,
        false,
        b"AAATCCCGGTT".to_vec(),
        parse_cigar_string("11=").unwrap(),
    )
    .unwrap();
    let infos = extract_poly_locus_info_from_record(&rec, &regions).unwrap();
    assert_eq!(infos.len(), 4);
    assert_eq!((infos[0].rstart, infos[0].rend, infos[0].qstart, infos[0].qend), (0, 4, 0, 4));
    assert_eq!(infos[0].qseq, b"AAAT".to_vec());
    assert_eq!(infos[0].query_repeats, 3);
    assert!(!infos[0].query_clean);
    assert_eq!((infos[1].rstart, infos[1].rend, infos[1].qstart, infos[1].qend), (4, 7, 4, 7));
    assert!(infos[1].query_clean);
    assert_eq!(infos[3].qseq, b"TT".to_vec());
    // an insertion inside a run is read with it
    let rec = AlignmentRecord::new(
        0,
        false,
        b"AAAAACCCGGTT".to_vec(),
        parse_cigar_string("2=1I9=").unwrap(),
    )
    .unwrap();
    let infos = extract_poly_locus_info_from_record(&rec, &regions).unwrap();
    assert_eq!(infos[0].qseq, b"AAAAA".to_vec());
    assert_eq!((infos[0].qstart, infos[0].qend), (0, 5));
    assert_eq!(infos[1].qstart, 5);
}

#[test]
fn merge_drops_empty_and_is_stable() {
    let regions = Regions::from_pairs(&vec![(5, 5), (1, 3), (3, 3), (8, 9)]);
    let merged = regions.merge_regions();
    assert_eq!(merged.0, vec![Region::new(1, 3), Region::new(8, 9)]);
    let again = merged.merge_regions();
    assert_eq!(again.0, merged.0);
}
