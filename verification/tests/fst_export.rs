use libsurfer::fst_export::{common_power_of_ten, scale_time, trailing_zeros_base10};
use libsurfer::fst_merge::{merge_value_changes, FstWriteEvent};

#[test]
fn trailing_zeros_base10_counts_correctly() {
    assert_eq!(trailing_zeros_base10(1), 0);
    assert_eq!(trailing_zeros_base10(7), 0);
    assert_eq!(trailing_zeros_base10(10), 1);
    assert_eq!(trailing_zeros_base10(120), 1);
    assert_eq!(trailing_zeros_base10(100), 2);
    assert_eq!(trailing_zeros_base10(123_000), 3);
    assert_eq!(trailing_zeros_base10(1_000_000_000_000), 12);
}

#[test]
fn common_power_of_ten_of_empty_or_all_zero_is_zero() {
    assert_eq!(common_power_of_ten(&[]), 0);
    assert_eq!(common_power_of_ten(&[0, 0, 0]), 0);
}

#[test]
fn common_power_of_ten_ignores_zero_time_stamps() {
    // The zero time stamp shouldn't constrain the result.
    assert_eq!(common_power_of_ten(&[0, 100, 200]), 2);
}

#[test]
fn common_power_of_ten_uses_the_smallest_shared_shift() {
    assert_eq!(common_power_of_ten(&[10, 20, 30]), 1);
    assert_eq!(common_power_of_ten(&[100, 200, 300]), 2);
    // one non-round time stamp caps the shift for all of them
    assert_eq!(common_power_of_ten(&[100, 200, 305]), 0);
}

#[test]
fn common_power_of_ten_short_circuits_at_zero() {
    assert_eq!(common_power_of_ten(&[1, 100, 1_000_000]), 0);
}

#[test]
fn scale_time_divides_by_the_given_divisor() {
    assert_eq!(scale_time(1_234, 1), 1_234);
    assert_eq!(scale_time(1_230, 10), 123);
    assert_eq!(scale_time(1_200_000, 100), 12_000);
    assert_eq!(scale_time(0, 1000), 0);
}

#[test]
fn trailing_zeros_of_the_largest_stamp() {
    assert_eq!(trailing_zeros_base10(u128::from(u64::MAX)), 0);
    assert_eq!(trailing_zeros_base10(10_000_000_000_000_000_000), 19);
}

#[test]
fn scaling_by_the_common_shift_is_exact() {
    let times = [0u64, 4_500, 12_000, 300];
    let shift = common_power_of_ten(&times);
    assert_eq!(shift, 2);
    let divisor = 10u128.pow(shift);
    for t in times {
        assert_eq!(u128::from(scale_time(t, divisor)) * divisor, u128::from(t));
    }
}

#[test]
fn value_changes_merge_in_time_then_signal_order() {
    let times = vec![vec![0, 2], vec![1, 2], vec![]];
    let table = vec![10, 20, 30, 40];
    let writes = merge_value_changes(&times, &table, 10, 4);
    assert_eq!(
        writes,
        vec![
            FstWriteEvent::TimeChange(1),
            FstWriteEvent::ValueChange { signal: 0, change: 0 },
            FstWriteEvent::TimeChange(2),
            FstWriteEvent::ValueChange { signal: 1, change: 0 },
            FstWriteEvent::TimeChange(3),
            FstWriteEvent::ValueChange { signal: 0, change: 1 },
            FstWriteEvent::ValueChange { signal: 1, change: 1 },
            FstWriteEvent::TimeChange(4),
        ]
    );
}

#[test]
fn merged_body_ends_at_the_last_time_only_when_needed() {
    let table = vec![100, 200];
    assert_eq!(
        merge_value_changes(&vec![vec![1]], &table, 100, 2),
        vec![
            FstWriteEvent::TimeChange(2),
            FstWriteEvent::ValueChange { signal: 0, change: 0 },
        ]
    );
    assert_eq!(
        merge_value_changes(&vec![Vec::new()], &table, 1, 200),
        vec![FstWriteEvent::TimeChange(200)]
    );
    assert_eq!(merge_value_changes(&vec![vec![5]], &Vec::new(), 1, 9), vec![
        FstWriteEvent::TimeChange(0),
        FstWriteEvent::ValueChange { signal: 0, change: 0 },
    ]);
}
