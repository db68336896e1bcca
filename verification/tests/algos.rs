use data_structs::merge_sort::merge_sort;
use data_structs::reverse::reverse_a;
use data_structs::reverse::reverse_b;

#[test]
fn test_merge_sort() {
    let test = vec![3, 2, 5, 4, 6, 8, 0, 1, 2, 6];

    let res = merge_sort(test);

    assert_eq!(res, vec![0, 1, 2, 2, 3, 4, 5, 6, 6, 8]);
}

#[test]
fn merge_sort_small_inputs() {
    assert_eq!(merge_sort(vec![7]), vec![7]);
    assert_eq!(merge_sort(vec![2, 1]), vec![1, 2]);
    assert_eq!(merge_sort(vec![1, 2]), vec![1, 2]);
    assert_eq!(merge_sort(vec![4, 4, 4]), vec![4, 4, 4]);
}

#[test]
fn test_reverse_a() {
    assert_eq!(reverse_a("Hello"), "olleH")
}

#[test]
fn test_reverse_b() {
    assert_eq!(reverse_b("Hello"), "olleH")
}

#[test]
fn reverse_handles_empty_and_multibyte() {
    assert_eq!(reverse_a(""), "");
    assert_eq!(reverse_b(""), "");
    assert_eq!(reverse_a("héllo"), "olléh");
    assert_eq!(reverse_b("héllo"), "olléh");
}
