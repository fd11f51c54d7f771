use bitonic_sort::SortError;
use bitonic_sort::SortOrder::Ascending;
use bitonic_sort::SortOrder::Descending;
use bitonic_sort::utils::is_sorted_ascending;
use bitonic_sort::utils::is_sorted_descending;
use bitonic_sort::utils::new_u32_vec;
use std::cmp::Ordering;

#[test]
fn first_sort_u32_ascending() {
    let mut array: Vec<u32> = vec![10, 30, 11, 20, 4, 330, 21, 110];

    bitonic_sort::basic::sort(&mut array, true);

    assert_eq!(array, vec![4, 10, 11, 20, 21, 30, 110, 330]);
}

#[test]
fn first_sort_u32_descending() {
    let mut array: Vec<u32> = vec![10, 30, 11, 20, 4, 330, 21, 110];

    bitonic_sort::basic::sort(&mut array, false);

    assert_eq!(array, vec![330, 110, 30, 21, 20, 11, 10, 4]);
}

#[test]
fn first_sort_ascending_zero() {
    let mut array: Vec<u32> = vec![];

    bitonic_sort::basic::sort(&mut array, true);

    assert_eq!(array, vec![]);
}

#[test]
fn first_sort_descending_zero() {
    let mut array: Vec<u32> = vec![];

    bitonic_sort::basic::sort(&mut array, false);

    assert_eq!(array, vec![]);
}

#[test]
fn first_sort_ascending_one() {
    let mut array: Vec<u32> = vec![10];

    bitonic_sort::basic::sort(&mut array, true);

    assert_eq!(array, vec![10]);
}

#[test]
fn first_sort_descending_one() {
    let mut array: Vec<u32> = vec![45];

    bitonic_sort::basic::sort(&mut array, false);

    assert_eq!(array, vec![45]);
}

#[test]
fn second_sort_u32_ascending() {
    let mut array: Vec<u32> = vec![10, 30, 11, 20, 4, 330, 21, 110];

    assert!(bitonic_sort::ordered::sort(&mut array, &Ascending).is_ok());

    assert_eq!(array, vec![4, 10, 11, 20, 21, 30, 110, 330]);
}

#[test]
fn second_sort_u32_descending() {
    let mut array: Vec<u32> = vec![10, 30, 11, 20, 4, 330, 21, 110];

    assert!(bitonic_sort::ordered::sort(&mut array, &Descending).is_ok());

    assert_eq!(array, vec![330, 110, 30, 21, 20, 11, 10, 4]);
}

#[test]
fn second_sort_ascending_zero() {
    let mut array: Vec<u32> = vec![];

    assert!(bitonic_sort::ordered::sort(&mut array, &Ascending).is_ok());

    assert_eq!(array, vec![]);
}

#[test]
fn second_sort_descending_zero() {
    let mut array: Vec<u32> = vec![];

    assert!(bitonic_sort::ordered::sort(&mut array, &Descending).is_ok());

    assert_eq!(array, vec![]);
}

#[test]
fn second_sort_ascending_one() {
    let mut array: Vec<u32> = vec![10];

    assert!(bitonic_sort::ordered::sort(&mut array, &Ascending).is_ok());

    assert_eq!(array, vec![10]);
}

#[test]
fn second_sort_descending_one() {
    let mut array: Vec<u32> = vec![45];

    assert!(bitonic_sort::ordered::sort(&mut array, &Descending).is_ok());

    assert_eq!(array, vec![45]);
}

#[test]
fn second_sort_str_ascending() {
    let mut array = vec![
        "Rust",
        "is",
        "fast",
        "and",
        "memory-efficient",
        "with",
        "no",
        "GC",
    ];

    assert!(bitonic_sort::ordered::sort(&mut array, &Ascending).is_ok());

    assert_eq!(
        array,
        vec![
            "GC",
            "Rust",
            "and",
            "fast",
            "is",
            "memory-efficient",
            "no",
            "with"
        ]
    );
}

#[test]
fn second_sort_str_descending() {
    let mut array = vec![
        "Rust",
        "is",
        "fast",
        "and",
        "memory-efficient",
        "with",
        "no",
        "GC",
    ];

    assert!(bitonic_sort::ordered::sort(&mut array, &Descending).is_ok());

    assert_eq!(
        array,
        vec![
            "with",
            "no",
            "memory-efficient",
            "is",
            "fast",
            "and",
            "Rust",
            "GC"
        ]
    );
}

#[test]
fn second_sort_elemtns_not_power_of_two() {
    let mut array: Vec<u32> = vec![45, 21, 11];

    assert!(bitonic_sort::ordered::sort(&mut array, &Descending).is_err());
}

#[derive(Debug, PartialEq)]
struct Student {
    first_name: String,
    last_name: String,
    age: u8,
}

impl Student {
    fn new(first_name: &str, last_name: &str, age: u8) -> Self {
        Self {
            first_name: first_name.to_string(),
            last_name: last_name.to_string(),
            age,
        }
    }
}

#[test]
fn sort_students_by_age_ascending() {
    let taro = Student::new("Taro", "Yamada", 16);
    let hanako = Student::new("Hanako", "Yamada", 14);
    let kyoko = Student::new("Kyoko", "Ito", 15);
    let ryosuke = Student::new("Ryosuke", "Hayashi", 17);

    let mut array = vec![&taro, &hanako, &kyoko, &ryosuke];

    let expected = vec![&hanako, &kyoko, &taro, &ryosuke];

    assert!(
        bitonic_sort::comparator::sort_by(&mut array, &|a: &&Student, b: &&Student| a
            .age
            .cmp(&b.age))
        .is_ok()
    );

    assert_eq!(array, expected);
}

#[test]
fn sort_students_by_name_ascending() {
    let taro = Student::new("Taro", "Yamada", 16);
    let hanako = Student::new("Hanako", "Yamada", 14);
    let kyoko = Student::new("Kyoko", "Ito", 15);
    let ryosuke = Student::new("Ryosuke", "Hayashi", 17);

    let mut array = vec![&taro, &hanako, &kyoko, &ryosuke];

    let expected = vec![&ryosuke, &kyoko, &hanako, &taro];

    assert!(
        bitonic_sort::comparator::sort_by(&mut array, &|a: &&Student, b: &&Student| {
            let by_last = a.last_name.cmp(&b.last_name);
            if by_last == Ordering::Equal {
                a.first_name.cmp(&b.first_name)
            } else {
                by_last
            }
        })
        .is_ok()
    );

    assert_eq!(array, expected);
}

#[test]
fn third_sort_u32_ascending() {
    let mut array: Vec<u32> = vec![10, 30, 11, 20, 4, 330, 21, 110];

    assert!(bitonic_sort::comparator::sort(&mut array, &Ascending).is_ok());

    assert_eq!(array, vec![4, 10, 11, 20, 21, 30, 110, 330]);
}

#[test]
fn third_sort_u32_descending() {
    let mut array: Vec<u32> = vec![10, 30, 11, 20, 4, 330, 21, 110];

    assert!(bitonic_sort::comparator::sort(&mut array, &Descending).is_ok());

    assert_eq!(array, vec![330, 110, 30, 21, 20, 11, 10, 4]);
}

#[test]
fn third_sort_ascending_zero() {
    let mut array: Vec<u32> = vec![];

    assert!(bitonic_sort::comparator::sort(&mut array, &Ascending).is_ok());

    assert_eq!(array, vec![]);
}

#[test]
fn third_sort_descending_zero() {
    let mut array: Vec<u32> = vec![];

    assert!(bitonic_sort::comparator::sort(&mut array, &Descending).is_ok());

    assert_eq!(array, vec![]);
}

#[test]
fn third_sort_ascending_one() {
    let mut array: Vec<u32> = vec![10];

    assert!(bitonic_sort::comparator::sort(&mut array, &Ascending).is_ok());

    assert_eq!(array, vec![10]);
}

#[test]
fn third_sort_descending_one() {
    let mut array: Vec<u32> = vec![45];

    assert!(bitonic_sort::comparator::sort(&mut array, &Descending).is_ok());

    assert_eq!(array, vec![45]);
}

#[test]
fn third_sort_str_ascending() {
    let mut array = vec![
        "Rust",
        "is",
        "fast",
        "and",
        "memory-efficient",
        "with",
        "no",
        "GC",
    ];

    assert!(bitonic_sort::comparator::sort(&mut array, &Ascending).is_ok());

    assert_eq!(
        array,
        vec![
            "GC",
            "Rust",
            "and",
            "fast",
            "is",
            "memory-efficient",
            "no",
            "with"
        ]
    );
}

#[test]
fn third_sort_str_descending() {
    let mut array = vec![
        "Rust",
        "is",
        "fast",
        "and",
        "memory-efficient",
        "with",
        "no",
        "GC",
    ];

    assert!(bitonic_sort::comparator::sort(&mut array, &Descending).is_ok());

    assert_eq!(
        array,
        vec![
            "with",
            "no",
            "memory-efficient",
            "is",
            "fast",
            "and",
            "Rust",
            "GC"
        ]
    );
}

#[test]
fn third_sort_elemtns_not_power_of_two() {
    let mut array: Vec<u32> = vec![45, 21, 11];

    assert!(bitonic_sort::comparator::sort(&mut array, &Descending).is_err());
}

#[test]
fn sort_u32_large_ascending() {
    let mut x = new_u32_vec(2 << 16);

    assert_eq!(bitonic_sort::comparator::sort(&mut x, &Ascending), Ok(()));
    assert!(is_sorted_ascending(&x));
}

#[test]
fn sort_u32_large_descending() {
    let mut x = new_u32_vec(2 << 16);

    assert_eq!(bitonic_sort::comparator::sort(&mut x, &Descending), Ok(()));
    assert!(is_sorted_descending(&x));
}

#[test]
fn not_power_of_two_error_carries_length() {
    let mut array: Vec<u32> = vec![45, 21, 11];

    let result = bitonic_sort::ordered::sort(&mut array, &Ascending);

    assert_eq!(result, Err(SortError::NotPowerOfTwoLength(3)));
    assert_eq!(array, vec![45, 21, 11]);
}
