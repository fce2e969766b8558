use connect_proxy::recorder::get_overlap;

#[test]
fn test_get_overlap_basic() {
    let buf = [1, 2, 3, 4, 5];
    assert_eq!(get_overlap(&buf, 0, 1, 2), &[2, 3]);
}

#[test]
fn test_get_overlap_with_offset() {
    let buf = [1, 2, 3, 4, 5];
    assert_eq!(get_overlap(&buf, 2, 3, 2), &[2, 3]);
}

#[test]
fn test_get_overlap_out_of_bounds() {
    let buf = [1, 2, 3, 4, 5];
    assert_eq!(get_overlap(&buf, 0, 3, 7), &[4, 5]);
}

#[test]
fn test_get_overlap_empty_buffer() {
    let buf: [u8; 0] = [];
    assert_eq!(get_overlap(&buf, 0, 0, 0), &[]);
}

#[test]
fn test_get_overlap_zero_length() {
    let buf = [1, 2, 3, 4, 5];
    assert_eq!(get_overlap(&buf, 0, 2, 0), &[]);
}

#[test]
fn overlap_window_before_the_run_is_empty() {
    let buf = [1, 2, 3];
    assert_eq!(get_overlap(&buf, 10, 2, 5), &[]);
}

#[test]
fn overlap_window_reaching_into_the_run() {
    let buf = [1, 2, 3];
    assert_eq!(get_overlap(&buf, 10, 8, 4), &[1, 2]);
}

#[test]
fn overlap_window_past_the_run_is_empty() {
    let buf = [1, 2, 3];
    assert_eq!(get_overlap(&buf, 10, 13, 4), &[]);
}

#[test]
fn overlap_survives_a_window_that_ends_past_the_largest_position() {
    let buf = [1, 2, 3];
    assert_eq!(get_overlap(&buf, 0, 1, usize::MAX), &[2, 3]);
    assert_eq!(get_overlap(&buf, usize::MAX, usize::MAX, usize::MAX), &[1, 2, 3]);
}

#[test]
fn overlap_of_two_runs_stitches_the_window() {
    let front = [1, 2, 3];
    let back = [4, 5, 6, 7];
    let mut seen = Vec::new();
    seen.extend_from_slice(get_overlap(&front, 0, 2, 3));
    seen.extend_from_slice(get_overlap(&back, front.len(), 2, 3));
    assert_eq!(seen, vec![3, 4, 5]);
}
