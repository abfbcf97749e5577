use gskit::intervals::{BedInfo, VcfInfo, VcfRowData};

fn bed() -> BedInfo {
    BedInfo::from_info(vec![
        ("chr1".to_string(), vec![(10, 20), (30, 40), (50, 60)]),
        ("chr2".to_string(), vec![(0, 5)]),
    ])
    .unwrap()
}

#[test]
fn bed_points() {
    let b = bed();
    assert!(b.point_within_region("chr1", 10));
    assert!(b.point_within_region("chr1", 19));
    assert!(!b.point_within_region("chr1", 20));
    assert!(!b.point_within_region("chr1", 5));
    assert!(b.point_within_region("chr1", 55));
    assert!(!b.point_within_region("chr3", 1));
    assert_eq!(b.get_regions("chr2"), Some(&vec![(0, 5)]));
    assert_eq!(b.get_regions("chrX"), None);
}

#[test]
fn bed_ranges() {
    let b = bed();
    assert!(b.within_the_range("chr1", &(10, 20)));
    assert!(b.within_the_range("chr1", &(12, 18)));
    assert!(!b.within_the_range("chr1", &(12, 25)));
    assert!(!b.within_the_range("chr1", &(5, 8)));
    // past the start of the last interval the lookup gives up
    assert!(!b.within_the_range("chr1", &(52, 55)));
    assert!(b.within_the_range("chr1", &(50, 55)));
}

#[test]
fn bed_unsorted_refused() {
    assert!(BedInfo::from_info(vec![("c".to_string(), vec![(5, 6), (1, 2)])]).is_none());
}

#[test]
fn vcf_hits() {
    let v = VcfInfo::from_info(vec![("chr1".to_string(), vec![3, 7, 7, 12])]).unwrap();
    assert!(v.point_hit("chr1", 7));
    assert!(!v.point_hit("chr1", 8));
    assert!(!v.point_hit("chr2", 7));
    assert!(v.range_hit("chr1", &(4, 8)));
    assert!(!v.range_hit("chr1", &(8, 12)));
    assert!(v.range_hit("chr1", &(12, 12)));
    assert!(!v.range_hit("chr1", &(13, 20)));
    assert!(VcfInfo::from_info(vec![("c".to_string(), vec![2, 1])]).is_none());
    let row = VcfRowData::new("chr1".to_string(), 4, "A".to_string(), "T".to_string(), 30);
    assert_eq!(row.pos, 4);
}

#[test]
fn bed_overlapping_or_empty_refused() {
    assert!(BedInfo::from_info(vec![("c".to_string(), vec![(1, 5), (4, 6)])]).is_none());
    assert!(BedInfo::from_info(vec![("c".to_string(), vec![(3, 3)])]).is_none());
    assert!(BedInfo::from_info(vec![("c".to_string(), vec![(1, 4), (4, 6)])]).is_some());
}
