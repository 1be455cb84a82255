use tdc_sieve::{extractor, get_extracted_hits, timesum_extractor, TimeSumError, TIME_SUM_UPPER};

#[test]
fn extractor_matches_unique_pair() {
    let (coordinates, mask) = extractor(&vec![100], &vec![150], &vec![140], 90, 5).unwrap();
    assert_eq!(mask, vec![true]);
    // The relative end times are 50 and 40: the coordinate is their difference.
    assert_eq!(coordinates, vec![10]);
}

#[test]
fn extractor_rejects_ambiguous_end() {
    let (coordinates, mask) = extractor(&vec![100], &vec![150, 151], &vec![140], 90, 5).unwrap();
    assert_eq!(mask, vec![false]);
    assert_eq!(coordinates, vec![0]);
}

#[test]
fn extractor_rejects_time_sum_outside_tolerance() {
    let (_, mask) = extractor(&vec![100], &vec![150], &vec![500], 90, 5).unwrap();
    assert_eq!(mask, vec![false]);
}

#[test]
fn extractor_window_bounds() {
    // A hit equal to the reference lies outside the window; one at reference + width inside.
    let (_, mask) = extractor(&vec![100], &vec![100], &vec![140], 40, 0).unwrap();
    assert_eq!(mask, vec![false]);
    let upper = 100 + TIME_SUM_UPPER;
    let (coordinates, mask) = extractor(&vec![100], &vec![upper], &vec![101], TIME_SUM_UPPER + 1, 0).unwrap();
    assert_eq!(mask, vec![true]);
    assert_eq!(coordinates, vec![TIME_SUM_UPPER as isize - 1]);
    let (_, mask) = extractor(&vec![100], &vec![upper + 1], &vec![101], TIME_SUM_UPPER + 2, 10).unwrap();
    assert_eq!(mask, vec![false]);
}

#[test]
fn extractor_several_references() {
    let (coordinates, mask) =
        extractor(&vec![100, 10_000, 20_000], &vec![130, 10_050, 30_000], &vec![170, 10_010], 100, 0).unwrap();
    assert_eq!(mask, vec![true, false, false]);
    assert_eq!(coordinates, vec![-40, 0, 0]);
    let (coordinates, mask) =
        extractor(&vec![100, 10_000], &vec![130, 10_050], &vec![170, 10_010], 60, 0).unwrap();
    assert_eq!(mask, vec![false, true]);
    assert_eq!(coordinates, vec![0, 40]);
}

#[test]
fn extractor_empty_end() {
    let (coordinates, mask) = extractor(&vec![100, 200], &vec![], &vec![140], 90, 5).unwrap();
    assert_eq!(mask, vec![false, false]);
    assert_eq!(coordinates, vec![0, 0]);
}

#[test]
fn extractor_near_largest_timestamp() {
    let r = usize::MAX - 10;
    let (coordinates, mask) = extractor(&vec![r], &vec![r + 3], &vec![r + 7], 10, 0).unwrap();
    assert_eq!(mask, vec![true]);
    assert_eq!(coordinates, vec![-4]);
}

#[test]
fn extracted_hits_are_index_ranges() {
    let data: Vec<usize> = vec![1, 2, 3, 4, 5];
    let hits = get_extracted_hits(&vec![0, 1, 4], &vec![2, 1, 5], &data);
    assert_eq!(hits.len(), 3);
    assert_eq!(hits[0], &[1, 2][..]);
    assert!(hits[1].is_empty());
    assert_eq!(hits[2], &[5][..]);
}

#[test]
fn calibrator_emits_every_pair() {
    let samples = timesum_extractor(&vec![100], &vec![110, 120], &vec![130], 0).unwrap();
    assert_eq!(samples.len(), 2);
    assert_eq!(samples, vec![40, 50]);
}

#[test]
fn calibrator_orders_by_reference_then_end_1() {
    let samples = timesum_extractor(&vec![100, 200], &vec![110, 120, 210], &vec![130, 205], 5).unwrap();
    // Reference 100: end-1 {110, 120, 210}, end-2 {130, 205}; reference 200: end-1 {210}, end-2 {205}.
    assert_eq!(samples, vec![40, 115, 50, 125, 140, 215, 15]);
}

#[test]
fn calibrator_offset_admits_earlier_hits() {
    let samples = timesum_extractor(&vec![100], &vec![95], &vec![97], 10).unwrap();
    assert_eq!(samples, vec![-8]);
    let samples = timesum_extractor(&vec![100], &vec![95], &vec![97], 3).unwrap();
    assert!(samples.is_empty());
    let samples = timesum_extractor(&vec![3], &vec![0, 1], &vec![2], 500).unwrap();
    assert_eq!(samples, vec![-4, -3]);
}

#[test]
fn calibrator_upper_bound_is_exclusive() {
    let upper = 100 + TIME_SUM_UPPER;
    let samples = timesum_extractor(&vec![100], &vec![upper - 1, upper], &vec![upper - 1], 0).unwrap();
    assert_eq!(samples, vec![2 * TIME_SUM_UPPER as isize - 2]);
}

#[test]
fn calibrator_accepts_any_offset() {
    assert_eq!(timesum_extractor(&vec![], &vec![110], &vec![130], usize::MAX), Ok(vec![]));
    assert_eq!(timesum_extractor(&vec![100], &vec![110], &vec![130], usize::MAX), Ok(vec![40]));
}

#[test]
fn calibrator_rejects_residual_out_of_range() {
    let r = usize::MAX - 10;
    assert_eq!(
        timesum_extractor(&vec![r], &vec![0], &vec![0], usize::MAX),
        Err(TimeSumError::ResidualOutOfRange)
    );
    assert_eq!(timesum_extractor(&vec![r], &vec![r - 3], &vec![r + 5], 10), Ok(vec![2]));
}
