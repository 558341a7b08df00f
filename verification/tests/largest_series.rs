use rust_exercises::error::InvalidArgument;
use rust_exercises::largest_series::get_largest_series;

#[test]
fn largest_run_of_three() {
    let values = [1, 2, 3, 4, 5, 4, 2, 1];
    let run = get_largest_series(&values, 3).unwrap();
    assert_eq!(run, &values[3..6]);
    assert_eq!(run, &[4, 5, 4]);
    assert_eq!(run.iter().sum::<u32>(), 13);
}

#[test]
fn first_of_equal_single_values() {
    let values = [5, 5, 5];
    let run = get_largest_series(&values, 1).unwrap();
    assert_eq!(run, &[5]);
    assert!(std::ptr::eq(&run[0], &values[0]));
}

#[test]
fn first_of_equal_runs() {
    let values = [1, 3, 2, 2, 3, 1];
    let run = get_largest_series(&values, 2).unwrap();
    assert_eq!(run, &[3, 2]);
    assert!(std::ptr::eq(&run[0], &values[1]));
}

#[test]
fn whole_series_when_the_span_is_its_length() {
    let values = [9, 0, 4, 7];
    let run = get_largest_series(&values, 4).unwrap();
    assert_eq!(run, &values);
    let single = [42];
    assert_eq!(get_largest_series(&single, 1).unwrap(), &[42]);
}

#[test]
fn span_longer_than_the_series_is_refused() {
    let values = [1, 2, 3];
    assert_eq!(
        get_largest_series(&values, 4),
        Err(InvalidArgument::SpanOutOfRange { span: 4, length: 3 })
    );
    assert_eq!(
        get_largest_series(&values, usize::MAX),
        Err(InvalidArgument::SpanOutOfRange { span: usize::MAX, length: 3 })
    );
}

#[test]
fn empty_span_is_refused() {
    let values = [1, 2, 3];
    assert_eq!(
        get_largest_series(&values, 0),
        Err(InvalidArgument::SpanOutOfRange { span: 0, length: 3 })
    );
}

#[test]
fn empty_series_has_no_run() {
    let values: [u32; 0] = [];
    assert_eq!(
        get_largest_series(&values, 0),
        Err(InvalidArgument::SpanOutOfRange { span: 0, length: 0 })
    );
    assert_eq!(
        get_largest_series(&values, 1),
        Err(InvalidArgument::SpanOutOfRange { span: 1, length: 0 })
    );
}

#[test]
fn largest_run_at_the_end() {
    let values = [1, 1, 1, 9];
    assert_eq!(get_largest_series(&values, 2).unwrap(), &[1, 9]);
    assert_eq!(get_largest_series(&values, 1).unwrap(), &[9]);
    assert_eq!(get_largest_series(&values, 3).unwrap(), &[1, 1, 9]);
}

#[test]
fn largest_run_at_the_start() {
    let values = [8, 7, 1, 1, 2];
    assert_eq!(get_largest_series(&values, 2).unwrap(), &[8, 7]);
}

#[test]
fn sums_beyond_thirty_two_bits() {
    let top = u32::MAX;
    let values = [top, top, 0, top, top, top, 1];
    let run = get_largest_series(&values, 3).unwrap();
    assert_eq!(run, &[top, top, top]);
    assert!(std::ptr::eq(&run[0], &values[3]));
}

#[test]
fn all_zero_series_gives_the_first_run() {
    let values = [0u32; 6];
    let run = get_largest_series(&values, 4).unwrap();
    assert_eq!(run.len(), 4);
    assert!(std::ptr::eq(&run[0], &values[0]));
}

#[test]
fn agrees_with_trying_every_run() {
    let mut state: u64 = 0x9E37_79B9_7F4A_7C15;
    let mut values = Vec::new();
    for _ in 0..300 {
        state = state.wrapping_mul(6364136223846793005).wrapping_add(1442695040888963407);
        values.push((state >> 40) as u32 % 50);
    }
    for span in [1usize, 2, 3, 7, 64, 299, 300] {
        let mut best_start = 0;
        let mut best_sum: u64 = 0;
        for start in 0..=values.len() - span {
            let sum: u64 = values[start..start + span].iter().map(|&v| v as u64).sum();
            if start == 0 || sum > best_sum {
                best_start = start;
                best_sum = sum;
            }
        }
        let run = get_largest_series(&values, span).unwrap();
        assert_eq!(run.len(), span);
        assert!(std::ptr::eq(&run[0], &values[best_start]));
        assert_eq!(run.iter().map(|&v| v as u64).sum::<u64>(), best_sum);
    }
}
