use prime_spatial::nearest::{group_by_label, nearest_index, two_nearest};

#[test]
fn nearest_of_no_sites_is_none() {
    assert_eq!(nearest_index(0, |_i: usize, _b: usize| true), None);
}

#[test]
fn nearest_picks_the_smallest_distance() {
    let d = [3, 1, 2];
    assert_eq!(nearest_index(d.len(), |i: usize, b: usize| d[i] < d[b]), Some(1));
    let d = [5, 4, 3, 2, 1];
    assert_eq!(nearest_index(d.len(), |i: usize, b: usize| d[i] < d[b]), Some(4));
}

#[test]
fn nearest_ties_keep_the_lowest_index() {
    let d = [2, 1, 1, 1];
    assert_eq!(nearest_index(d.len(), |i: usize, b: usize| d[i] < d[b]), Some(1));
    let d = [7, 7, 7];
    assert_eq!(nearest_index(d.len(), |i: usize, b: usize| d[i] < d[b]), Some(0));
}

#[test]
fn nearest_compares_against_the_running_best_only() {
    // Site 2 beats site 0 but not site 1, which is the best when 2 is scanned.
    let d = [3, 1, 2];
    let asked: std::cell::RefCell<Vec<(usize, usize)>> = std::cell::RefCell::new(Vec::new());
    let r = nearest_index(d.len(), |i: usize, b: usize| {
        asked.borrow_mut().push((i, b));
        d[i] < d[b]
    });
    assert_eq!(r, Some(1));
    assert_eq!(asked.into_inner(), vec![(1, 0), (2, 1)]);
}

#[test]
fn group_by_label_lists_members_in_order() {
    let labels = vec![2, 0, 2, 1, 0];
    assert_eq!(group_by_label(3, &labels), vec![vec![1, 4], vec![3], vec![0, 2]]);
}

#[test]
fn group_by_label_keeps_empty_groups() {
    let labels = vec![0, 0];
    assert_eq!(group_by_label(3, &labels), vec![vec![0, 1], vec![], vec![]]);
    assert_eq!(group_by_label(2, &Vec::new()), vec![Vec::<usize>::new(), Vec::new()]);
}

fn below(d: &[i32]) -> impl Fn(usize, Option<usize>) -> bool + '_ {
    move |i: usize, b: Option<usize>| match b {
        None => true,
        Some(j) => d[i] < d[j],
    }
}

#[test]
fn two_nearest_of_no_sites_is_none() {
    assert_eq!(two_nearest(0, below(&[])), (None, None));
}

#[test]
fn two_nearest_of_one_site_has_no_second() {
    assert_eq!(two_nearest(1, below(&[4])), (Some(0), None));
}

#[test]
fn two_nearest_finds_the_two_smallest() {
    let d = [5, 2, 9, 1, 3];
    assert_eq!(two_nearest(d.len(), below(&d)), (Some(3), Some(1)));
    let d = [1, 2, 3];
    assert_eq!(two_nearest(d.len(), below(&d)), (Some(0), Some(1)));
}

#[test]
fn two_nearest_ties_keep_the_earlier_site() {
    let d = [2, 2, 2];
    assert_eq!(two_nearest(d.len(), below(&d)), (Some(0), Some(1)));
}
