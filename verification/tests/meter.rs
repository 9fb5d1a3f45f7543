use phonetik::meter::{Foot, MeterDetector};

#[test]
fn iambic_pentameter_fits_exactly() {
    let binary = [0, 1, 0, 1, 0, 1, 0, 1, 0, 1];
    let fit = MeterDetector::score_foot(Foot::Iamb, &binary);
    assert_eq!(fit.foot_type, "iamb");
    assert_eq!(fit.foot_count, 5);
    assert_eq!(fit.meter_name, "iambic pentameter");
    assert_eq!(fit.matches, 10);
    assert_eq!(fit.remainder, 0);
    assert_eq!(fit.foot_len, 2);
    assert_eq!(fit.expected_pattern, binary.to_vec());
    assert!(fit.deviations.is_empty());
}

#[test]
fn deviations_name_expected_and_actual() {
    let fit = MeterDetector::score_foot(Foot::Trochee, &[0, 1, 0]);
    assert_eq!(fit.foot_count, 1);
    assert_eq!(fit.remainder, 1);
    assert_eq!(fit.meter_name, "trochaic monometer");
    assert_eq!(fit.expected_pattern, vec![1, 0, 1]);
    assert_eq!(fit.matches, 0);
    assert_eq!(fit.deviations.len(), 3);
    assert_eq!(fit.deviations[0].position, 0);
    assert_eq!(fit.deviations[0].expected, "stressed");
    assert_eq!(fit.deviations[0].actual, "unstressed");
}

#[test]
fn short_line_holds_no_foot() {
    let fit = MeterDetector::score_foot(Foot::Anapest, &[0, 1]);
    assert_eq!(fit.foot_count, 0);
    assert_eq!(fit.meter_name, "anapest");
    assert!(fit.expected_pattern.is_empty());
    let empty = MeterDetector::score_foot(Foot::Iamb, &[]);
    assert_eq!(empty.foot_count, 0);
}

#[test]
fn long_lines_are_named_by_number() {
    let binary: Vec<i32> = (0..20).map(|i| (i % 2) as i32).collect();
    let fit = MeterDetector::score_foot(Foot::Iamb, &binary);
    assert_eq!(fit.meter_name, "iambic 10-meter");
    let fit = MeterDetector::score_foot(Foot::Dactyl, &[1, 0, 0, 1, 0, 0, 1, 0, 0, 1, 0, 0]);
    assert_eq!(fit.meter_name, "dactylic tetrameter");
}

#[test]
fn compare_positions_counts_and_lists() {
    let (matches, mismatches) = MeterDetector::compare_positions(&[0, 1, 1], &[0, 1]);
    assert_eq!(matches, 2);
    assert_eq!(mismatches, vec![2]);
    let (matches, mismatches) = MeterDetector::compare_positions(&[1, 0], &[0, 0, 1, 1]);
    assert_eq!(matches, 1);
    assert_eq!(mismatches, vec![0, 2, 3]);
    assert_eq!(MeterDetector::compare_positions(&[], &[]), (0, vec![]));
}
