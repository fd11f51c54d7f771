use bitonic_sort::SortError;
use bitonic_sort::SortOrder::Ascending;
use bitonic_sort::SortOrder::Descending;
use bitonic_sort::utils::is_sorted_ascending;
use bitonic_sort::utils::is_sorted_descending;
use bitonic_sort::utils::new_u32_vec;
use std::cmp::Ordering;

#[test]
fn output_is_permutation_of_input() {
    let mut array: Vec<u32> = vec![7, 7, 1, 9, 1, 9, 7, 2];

    assert!(bitonic_sort::ordered::sort(&mut array, &Ascending).is_ok());

    assert_eq!(array, vec![1, 1, 2, 7, 7, 7, 9, 9]);
}

#[test]
fn equal_elements_stay_put() {
    let mut array: Vec<u32> = vec![5, 5, 5, 5];

    assert!(bitonic_sort::ordered::sort(&mut array, &Descending).is_ok());

    assert_eq!(array, vec![5, 5, 5, 5]);
}

#[test]
fn adjacent_pairs_satisfy_direction() {
    let mut up: Vec<u32> = vec![10, 30, 11, 20, 4, 330, 21, 110];
    let mut down = up.clone();

    assert!(bitonic_sort::ordered::sort(&mut up, &Ascending).is_ok());
    assert!(bitonic_sort::ordered::sort(&mut down, &Descending).is_ok());

    assert!(is_sorted_ascending(&up));
    assert!(is_sorted_descending(&down));
}

#[test]
fn non_power_of_two_lengths_are_rejected() {
    for n in [3usize, 5, 6, 7, 9] {
        let before: Vec<u32> = (0..n as u32).rev().collect();
        let mut array = before.clone();

        let result = bitonic_sort::ordered::sort(&mut array, &Ascending);

        assert_eq!(result, Err(SortError::NotPowerOfTwoLength(n)));
        assert_eq!(array, before);
    }
}

#[test]
fn sort_by_rejects_non_power_of_two_lengths() {
    let before: Vec<u32> = vec![3, 1, 2, 5, 4];
    let mut array = before.clone();

    let result =
        bitonic_sort::comparator::sort_by(&mut array, &|a: &u32, b: &u32| a.cmp(b));

    assert_eq!(result, Err(SortError::NotPowerOfTwoLength(5)));
    assert_eq!(array, before);
}

#[test]
fn parallel_sort_rejects_non_power_of_two_lengths() {
    let before: Vec<u32> = vec![9, 8, 7];
    let mut array = before.clone();

    let result = bitonic_sort::parallel::parallel_sort(&mut array, &Ascending, 2);

    assert_eq!(result, Err(SortError::NotPowerOfTwoLength(3)));
    assert_eq!(array, before);
}

#[test]
fn comparator_equivalence_natural_order() {
    let input: Vec<u32> = vec![10, 30, 11, 20, 4, 330, 21, 110];

    let mut by_direction = input.clone();
    assert!(bitonic_sort::ordered::sort(&mut by_direction, &Ascending).is_ok());

    let mut by_comparator = input.clone();
    assert!(
        bitonic_sort::comparator::sort_by(&mut by_comparator, &|a: &u32, b: &u32| a.cmp(b))
            .is_ok()
    );

    assert_eq!(by_direction, by_comparator);
}

#[test]
fn sequential_and_parallel_agree_at_any_threshold() {
    let input: Vec<u32> = vec![10, 30, 11, 20, 4, 330, 21, 110];

    let mut sequential_up = input.clone();
    assert!(bitonic_sort::ordered::sort(&mut sequential_up, &Ascending).is_ok());
    let mut sequential_down = input.clone();
    assert!(bitonic_sort::ordered::sort(&mut sequential_down, &Descending).is_ok());

    for threshold in [0usize, 1, 2, 4, 8, 100] {
        let mut parallel_up = input.clone();
        assert!(
            bitonic_sort::parallel::parallel_sort(&mut parallel_up, &Ascending, threshold)
                .is_ok()
        );
        assert_eq!(parallel_up, sequential_up);

        let mut parallel_down = input.clone();
        assert!(
            bitonic_sort::parallel::parallel_sort(&mut parallel_down, &Descending, threshold)
                .is_ok()
        );
        assert_eq!(parallel_down, sequential_down);
    }
}

#[test]
fn sorting_twice_changes_nothing() {
    let mut array: Vec<u32> = vec![10, 30, 11, 20, 4, 330, 21, 110];

    assert!(bitonic_sort::ordered::sort(&mut array, &Ascending).is_ok());
    let once = array.clone();
    assert!(bitonic_sort::ordered::sort(&mut array, &Ascending).is_ok());
    assert_eq!(array, once);

    assert!(bitonic_sort::ordered::sort(&mut array, &Descending).is_ok());
    let once_down = array.clone();
    assert!(bitonic_sort::ordered::sort(&mut array, &Descending).is_ok());
    assert_eq!(array, once_down);
}

#[test]
fn descending_comparator_reverses() {
    let mut array: Vec<u32> = vec![10, 30, 11, 20, 4, 330, 21, 110];

    assert!(
        bitonic_sort::comparator::sort_by(&mut array, &|a: &u32, b: &u32| b.cmp(a)).is_ok()
    );

    assert_eq!(array, vec![330, 110, 30, 21, 20, 11, 10, 4]);
}

#[test]
fn order_checks_report_violations() {
    let sorted_up: Vec<u32> = vec![1, 2, 2, 3];
    let sorted_down: Vec<u32> = vec![3, 2, 2, 1];
    let neither: Vec<u32> = vec![1, 3, 2, 4];

    assert!(is_sorted_ascending(&sorted_up));
    assert!(!is_sorted_descending(&sorted_up));
    assert!(is_sorted_descending(&sorted_down));
    assert!(!is_sorted_ascending(&sorted_down));
    assert!(!is_sorted_ascending(&neither));
    assert!(!is_sorted_descending(&neither));
    assert!(is_sorted_ascending(&Vec::<u32>::new()));
    assert!(is_sorted_descending(&Vec::<u32>::new()));
}

#[test]
fn new_u32_vec_has_requested_length() {
    assert_eq!(new_u32_vec(0).len(), 0);
    assert_eq!(new_u32_vec(5).len(), 5);
    assert_eq!(new_u32_vec(1024).len(), 1024);
}

#[test]
fn basic_sort_handles_duplicates() {
    let mut array: Vec<u32> = vec![5, 1, 5, 1];

    bitonic_sort::basic::sort(&mut array, true);

    assert_eq!(array, vec![1, 1, 5, 5]);
}

#[test]
fn parallel_sort_large_both_directions() {
    let mut x = new_u32_vec(1 << 12);
    assert_eq!(
        bitonic_sort::parallel::parallel_sort(&mut x, &Ascending, 64),
        Ok(())
    );
    assert!(is_sorted_ascending(&x));

    let mut y = new_u32_vec(1 << 12);
    assert_eq!(
        bitonic_sort::parallel::parallel_sort(&mut y, &Descending, 64),
        Ok(())
    );
    assert!(is_sorted_descending(&y));
}

#[test]
fn sort_by_custom_modular_order() {
    let mut array: Vec<u32> = vec![10, 30, 11, 20, 4, 330, 21, 110];

    // order by the last decimal digit, ties by value
    assert!(
        bitonic_sort::comparator::sort_by(&mut array, &|a: &u32, b: &u32| {
            let by_digit = (a % 10).cmp(&(b % 10));
            if by_digit == Ordering::Equal {
                a.cmp(b)
            } else {
                by_digit
            }
        })
        .is_ok()
    );

    assert_eq!(array, vec![10, 20, 30, 110, 330, 11, 21, 4]);
}
