use binpacking::generator::generate_binpacking;
use binpacking::BinPackingInstance;

#[test]
fn generated_sizes_lie_between_one_and_the_capacity() {
    let sizes = generate_binpacking(200, 15).unwrap();
    assert_eq!(sizes.len(), 200);
    assert!(sizes.iter().all(|&s| 1 <= s && s < 15));
    assert!(BinPackingInstance { item_sizes: sizes, capacity: 15 }.is_well_formed());
}

#[test]
fn generated_sizes_are_not_all_alike() {
    let sizes = generate_binpacking(200, 1000).unwrap();
    assert!(sizes.iter().any(|&s| s != sizes[0]));
}

#[test]
fn capacity_of_two_leaves_one_size() {
    assert_eq!(generate_binpacking(3, 2), Some(vec![1, 1, 1]));
}

#[test]
fn no_size_lies_below_a_capacity_of_one() {
    assert_eq!(generate_binpacking(1, 1), None);
    assert_eq!(generate_binpacking(1, 0), None);
}

#[test]
fn no_items_need_no_sizes() {
    assert_eq!(generate_binpacking(0, 0), Some(vec![]));
    assert_eq!(generate_binpacking(0, 15), Some(vec![]));
}
