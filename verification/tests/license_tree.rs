use marble_puzzles::license::{
    compute_node_value, compute_root_node_value, parse_input, sum_metadata, sum_metadata_r,
    try_compute_node_value, try_compute_root_node_value, try_parse_input, try_sum_metadata,
    try_sum_metadata_r,
};

#[test]
fn test_sum_metadata() {
    let v = [2, 3, 0, 3, 10, 11, 12, 1, 1, 0, 1, 99, 2, 1, 1, 2];
    assert_eq!(138, sum_metadata(&v));
}

#[test]
fn test_parse_input() {
    assert_eq!(
        vec![2, 3, 0, 3, 10, 11, 12, 1, 1, 0, 1, 99, 2, 1, 1, 2],
        parse_input("2 3 0 3 10 11 12 1 1 0 1 99 2 1 1 2")
    );
}

#[test]
fn test_compute_root_node_value() {
    let v = [2, 3, 0, 3, 10, 11, 12, 1, 1, 0, 1, 99, 2, 1, 1, 2];
    assert_eq!(66, compute_root_node_value(&v));
}

#[test]
fn nodes_are_read_one_after_another() {
    let v = [2, 3, 0, 3, 10, 11, 12, 1, 1, 0, 1, 99, 2, 1, 1, 2];
    let mut at = 2;
    assert_eq!(33, sum_metadata_r(&v, &mut at));
    assert_eq!(7, at);
    assert_eq!(101, sum_metadata_r(&v, &mut at));
    assert_eq!(13, at);
    let mut at = 2;
    assert_eq!(33, compute_node_value(&v, &mut at));
    assert_eq!(7, at);
    assert_eq!(0, compute_node_value(&v, &mut at));
    assert_eq!(13, at);
    let mut at = 9;
    assert_eq!(Some(99), try_compute_node_value(&v, &mut at));
    assert_eq!(12, at);
    let mut at = 0;
    assert_eq!(Some(138), try_sum_metadata_r(&v, &mut at));
    assert_eq!(16, at);
}

#[test]
fn lists_cut_short_write_no_tree() {
    assert_eq!(None, try_sum_metadata(&[]));
    assert_eq!(None, try_sum_metadata(&[0]));
    assert_eq!(None, try_sum_metadata(&[1, 0]));
    assert_eq!(None, try_sum_metadata(&[1, 0, 0]));
    assert_eq!(None, try_sum_metadata(&[2, 0, 0, 0]));
    assert_eq!(None, try_compute_root_node_value(&[]));
    assert_eq!(None, try_compute_root_node_value(&[1, 1, 0]));
    assert_eq!(None, try_compute_root_node_value(&[1, 0, 1, 0, 0]));
    let mut at = 7;
    assert_eq!(None, try_sum_metadata_r(&[0, 0], &mut at));
}

#[test]
fn missing_entries_count_nothing() {
    assert_eq!(Some(0), try_sum_metadata(&[0, 0]));
    assert_eq!(Some(0), try_sum_metadata(&[0, 3]));
    assert_eq!(Some(5), try_sum_metadata(&[0, 3, 5]));
    assert_eq!(Some(12), try_sum_metadata(&[0, 2, 5, 7, 9]));
    assert_eq!(Some(5), try_compute_root_node_value(&[0, 3, 5]));
    assert_eq!(Some(7), try_compute_root_node_value(&[1, 5, 0, 1, 7, 1]));
}

#[test]
fn entries_that_refer_to_no_child_count_nothing() {
    let v = [1, 4, 0, 1, 9, 0, 1, 2, 1];
    assert_eq!(Some(13), try_sum_metadata(&v));
    assert_eq!(Some(18), try_compute_root_node_value(&v));
    assert_eq!(18, compute_root_node_value(&v));
}

#[test]
fn sums_that_no_usize_holds_are_refused() {
    let big = usize::MAX;
    assert_eq!(Some(big), try_sum_metadata(&[0, 1, big]));
    assert_eq!(None, try_sum_metadata(&[0, 2, big, 1]));
    assert_eq!(None, try_sum_metadata(&[1, 1, 0, 1, big, 1]));
    assert_eq!(Some(big), try_compute_root_node_value(&[0, 2, big, 0]));
    assert_eq!(None, try_compute_root_node_value(&[0, 2, big, 1]));
    assert_eq!(None, try_compute_root_node_value(&[1, 2, 0, 1, big, 1, 1]));
    assert_eq!(None, try_compute_root_node_value(&[1, 0, 0, 2, big, 1]));
    assert_eq!(Some(big), try_compute_root_node_value(&[1, 1, 0, 1, big, 1]));
}

#[test]
fn try_parse_input_reads_numbers_only() {
    assert_eq!(Some(vec![2, 3, 0]), try_parse_input(" 2\t3\n0 "));
    assert_eq!(Some(vec![]), try_parse_input(""));
    assert_eq!(Some(vec![5, 6]), try_parse_input("+5 06"));
    assert_eq!(Some(vec![usize::MAX]), try_parse_input(&usize::MAX.to_string()));
    assert_eq!(None, try_parse_input("-1"));
    assert_eq!(None, try_parse_input("1 2 x"));
    assert_eq!(None, try_parse_input("1.5"));
    assert_eq!(None, try_parse_input("340282366920938463463374607431768211456"));
}
