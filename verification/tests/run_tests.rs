use std::cmp::Ordering;

use rle_image::Run;

#[test]
fn same_y_same_r_same_l_test() {
    assert_eq!(
        Run { x_start: 0, x_end: 22, y: 0 }.cmp(&Run { x_start: 0, x_end: 22, y: 0 }),
        Ordering::Equal
    );
    assert_eq!(
        Run { x_start: 0, x_end: 0, y: 1 }.cmp(&Run { x_start: 0, x_end: 0, y: 1 }),
        Ordering::Equal
    );
}

#[test]
fn same_y_same_r_diff_l_test() {
    assert_eq!(
        Run { x_start: 0, x_end: 22, y: 0 }.cmp(&Run { x_start: 1, x_end: 22, y: 0 }),
        Ordering::Less
    );
    assert_eq!(
        Run { x_start: 0, x_end: 1, y: 0 }.cmp(&Run { x_start: 1, x_end: 22, y: 0 }),
        Ordering::Less
    );
}

#[test]
fn same_y_diff_r_same_l_test() {
    assert_eq!(
        Run { x_start: 0, x_end: 1, y: 0 }.cmp(&Run { x_start: 0, x_end: 2, y: 0 }),
        Ordering::Less
    );
    assert_eq!(
        Run { x_start: 0, x_end: 3, y: 0 }.cmp(&Run { x_start: 0, x_end: 1, y: 0 }),
        Ordering::Greater
    );
}

#[test]
fn same_y_diff_r_diff_l_test() {
    assert_eq!(
        Run { x_start: 1, x_end: 22, y: 0 }.cmp(&Run { x_start: 0, x_end: 13, y: 0 }),
        Ordering::Greater
    );
    assert_eq!(
        Run { x_start: 0, x_end: 45, y: 0 }.cmp(&Run { x_start: 2, x_end: 22, y: 0 }),
        Ordering::Less
    );
}

#[test]
fn diff_y_same_r_same_l_test() {
    assert_eq!(
        Run { x_start: 0, x_end: 0, y: 0 }.cmp(&Run { x_start: 0, x_end: 0, y: 1 }),
        Ordering::Less
    );
}

#[test]
fn diff_y_same_r_diff_l_test() {
    assert_eq!(
        Run { x_start: 15, x_end: 22, y: 0 }.cmp(&Run { x_start: 0, x_end: 22, y: 1 }),
        Ordering::Less
    );
    assert_eq!(
        Run { x_start: 0, x_end: 22, y: 0 }.cmp(&Run { x_start: 1, x_end: 22, y: 1 }),
        Ordering::Less
    );
}

#[test]
fn diff_y_diff_r_same_l_test() {
    assert_eq!(
        Run { x_start: 0, x_end: 15, y: 0 }.cmp(&Run { x_start: 0, x_end: 22, y: 1 }),
        Ordering::Less
    );
    assert_eq!(
        Run { x_start: 0, x_end: 22, y: 0 }.cmp(&Run { x_start: 0, x_end: 15, y: 1 }),
        Ordering::Less
    );
}

#[test]
fn diff_y_diff_r_diff_l_test() {
    assert_eq!(
        Run { x_start: 15, x_end: 22, y: 0 }.cmp(&Run { x_start: 0, x_end: 22, y: 1 }),
        Ordering::Less
    );
    assert_eq!(
        Run { x_start: 0, x_end: 22, y: 0 }.cmp(&Run { x_start: 15, x_end: 22, y: 1 }),
        Ordering::Less
    );
}

#[test]
fn run_overlap_test() {
    assert!(Run { x_start: 0, x_end: 10, y: 0 }.overlaps(Run { x_start: 1, x_end: 11, y: 0 }));
    assert!(
        Run { x_start: 0, x_end: 10, y: 0 }.overlaps(Run { x_start: 11, x_end: 12, y: 0 })
            == false
    );
    assert!(
        Run { x_start: 0, x_end: 10, y: 1 }.overlaps(Run { x_start: 11, x_end: 12, y: 0 })
            == false
    );
    assert!(
        Run { x_start: 0, x_end: 10, y: 1 }.overlaps(Run { x_start: 0, x_end: 10, y: 0 })
            == false
    );
}

#[test]
fn run_merge_test() {
    assert_eq!(
        Run { x_start: 0, x_end: 10, y: 0 }.merge(Run { x_start: 5, x_end: 15, y: 0 }),
        Run { x_start: 0, x_end: 15, y: 0 }
    );
    assert_eq!(
        Run { x_start: 1, x_end: 3, y: 0 }.merge(Run { x_start: 2, x_end: 4, y: 0 }),
        Run { x_start: 1, x_end: 4, y: 0 }
    );
}
