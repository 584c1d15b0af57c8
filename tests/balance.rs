use mockomatic::balance::{even_split, is_odd};
use mockomatic::error::AppError;

#[test]
fn is_odd_on_small_numbers() {
    assert!(!is_odd(0));
    assert!(is_odd(1));
    assert!(!is_odd(2));
    assert!(is_odd(7));
    assert!(is_odd(usize::MAX));
}

#[test]
fn even_split_two_buckets_ten_people() {
    let (x, y, z, dx, dy, dz) = even_split(10, 3, 1, 6, 0).unwrap();
    assert_eq!(x % 2, 0);
    assert_eq!(y % 2, 0);
    assert_eq!(x + y, 10);
    assert_eq!(dx + dy + dz, 6);
    assert_eq!((x, y, z, dx, dy, dz), (4, 6, 0, 1, 5, 0));
}

#[test]
fn even_split_two_buckets_even_half() {
    assert_eq!(even_split(8, 2, 2, 4, 0), Ok((4, 4, 0, 2, 2, 0)));
}

#[test]
fn even_split_two_buckets_large_fixed_bucket() {
    assert_eq!(even_split(10, 8, 0, 2, 0), Ok((8, 2, 0, 0, 2, 0)));
    assert_eq!(even_split(10, 0, 7, 3, 0), Ok((2, 8, 0, 2, 1, 0)));
}

#[test]
fn even_split_three_buckets_unconstrained() {
    assert_eq!(even_split(12, 0, 0, 12, 12), Ok((4, 4, 4, 4, 4, 4)));
    assert_eq!(even_split(10, 0, 0, 10, 10), Ok((4, 4, 2, 4, 4, 2)));
    assert_eq!(even_split(14, 0, 0, 14, 14), Ok((6, 4, 4, 6, 4, 4)));
}

#[test]
fn even_split_three_buckets_with_fixed_people() {
    assert_eq!(even_split(20, 9, 1, 10, 10), Ok((10, 6, 4, 1, 5, 4)));
}

#[test]
fn even_split_empty() {
    assert_eq!(even_split(0, 0, 0, 0, 0), Ok((0, 0, 0, 0, 0, 0)));
    assert_eq!(even_split(0, 0, 0, 0, 3), Ok((0, 0, 0, 0, 0, 0)));
}

#[test]
fn even_split_odd_total_is_unresolved() {
    assert_eq!(even_split(9, 3, 1, 5, 0), Err(AppError::ImbalanceUnresolved));
    assert_eq!(even_split(9, 3, 1, 5, 8), Err(AppError::ImbalanceUnresolved));
}

#[test]
fn even_split_total_mismatch_is_unresolved() {
    assert_eq!(even_split(10, 3, 1, 5, 0), Err(AppError::ImbalanceUnresolved));
}

#[test]
fn even_split_odd_fixed_buckets_without_flexible_people() {
    assert_eq!(even_split(2, 1, 1, 0, 0), Err(AppError::ImbalanceUnresolved));
}

#[test]
fn even_split_flexible_pool_over_capacity() {
    assert_eq!(
        even_split(10, 2, 2, 6, 4),
        Err(AppError::CapacityExceeded { supply: 6, capacity: 4 })
    );
}

#[test]
fn even_split_every_success_is_even_and_conserving() {
    for am in 0..7usize {
        for pm in 0..7usize {
            for any in 0..9usize {
                for cap in [0usize, 4, 20] {
                    let total = am + pm + any;
                    if let Ok((x, y, z, dx, dy, dz)) = even_split(total, am, pm, any, cap) {
                        assert_eq!(x % 2, 0);
                        assert_eq!(y % 2, 0);
                        assert_eq!(z % 2, 0);
                        assert!(x >= am && y >= pm);
                        assert_eq!(x + y + z, total);
                        assert_eq!(dx + dy + dz, any);
                    }
                }
            }
        }
    }
}
