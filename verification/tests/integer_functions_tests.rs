use counting_homomorphisms::integer_functions::apply;
use counting_homomorphisms::integer_functions::extend;
use counting_homomorphisms::integer_functions::max_mappings;
use counting_homomorphisms::integer_functions::power;
use counting_homomorphisms::integer_functions::reduce;
use counting_homomorphisms::integer_functions::to_hashmap;

#[test]
fn test_integer_functions_in_diaz_dpdata() {
    // the target graph has 5 vertices
    // 3 * 1 + 0 * 5 + 3 * 25 + 2 * 125 = 328
    let f: u64 = 328;
    assert_eq!(apply(5, f, 0), 3);
    assert_eq!(apply(5, f, 1), 0);
    assert_eq!(apply(5, f, 2), 3);
    assert_eq!(apply(5, f, 3), 2);

    // -> 3 * 1 + 0 * 5 + (2 * 25) + 3 * 125 + 2 * 625 = 1678
    let f_2 = extend(5, f, 2, 2);
    assert_eq!(f_2, 1678);

    // 0 * 1 + 2 * 5 + 3 * 25 + 2 * 125 = 335
    let f_3 = reduce(5, f_2, 0);
    assert_eq!(f_3, 335);

    // 2 * 1 + 3 * 5 = 17
    let f_4 = 3;
    assert_eq!(extend(5, f_4, 0, 2), 17);
}

#[test]
fn apply_extend_reduce_in_base_four() {
    assert_eq!(apply(4, 30, 1), 3);
    assert_eq!(apply(4, 28, 0), 0);
    assert_eq!(extend(4, 15, 1, 2), 59);
    assert_eq!(extend(4, 0, 2, 3), 48);
    assert_eq!(reduce(4, 59, 0), 14);
    assert_eq!(reduce(4, 15, 1), 3);
}

#[test]
fn inserted_digit_is_read_back_and_removed() {
    for n in 1..6u64 {
        for s in 0..4u64 {
            for f in 0..max_mappings(4, n) {
                for v in 0..n {
                    let g = extend(n, f, s, v);
                    assert_eq!(apply(n, g, s), v);
                    assert_eq!(reduce(n, g, s), f);
                }
            }
        }
    }
}

#[test]
fn removed_digit_is_put_back() {
    for n in 1..6u64 {
        for s in 0..4u64 {
            for f in 0..max_mappings(5, n) {
                assert_eq!(extend(n, reduce(n, f, s), s, apply(n, f, s)), f);
            }
        }
    }
}

#[test]
fn max_mappings_is_the_power() {
    assert_eq!(max_mappings(0, 0), 1);
    assert_eq!(max_mappings(3, 0), 0);
    assert_eq!(max_mappings(0, 7), 1);
    assert_eq!(max_mappings(1, 7), 7);
    assert_eq!(max_mappings(3, 4), 64);
    assert_eq!(max_mappings(2, 4), 16);
    assert_eq!(max_mappings(64, 1), 1);
    assert_eq!(max_mappings(63, 2), 1u64 << 63);
    assert_eq!(max_mappings(2, 4294967295), 18446744065119617025);
    assert_eq!(power(10, 19), 10000000000000000000);
}

#[test]
fn to_hashmap_lists_the_digits() {
    // 3 * 1 + 0 * 5 + 3 * 25 + 2 * 125 = 328
    let digits = to_hashmap(5, 328);
    assert_eq!(digits.len(), 4);
    assert_eq!(digits.get(&0), Some(&3));
    assert_eq!(digits.get(&1), Some(&0));
    assert_eq!(digits.get(&2), Some(&3));
    assert_eq!(digits.get(&3), Some(&2));
    assert_eq!(digits.get(&4), None);
    assert!(to_hashmap(5, 0).is_empty());
    assert!(to_hashmap(1, 0).is_empty());
    let one = to_hashmap(2, 1);
    assert_eq!(one.len(), 1);
    assert_eq!(one.get(&0), Some(&1));
    assert_eq!(to_hashmap(2, u64::MAX).len(), 64);
}
