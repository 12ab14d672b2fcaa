use prime_spatial::draws::first_passing;

#[test]
fn first_passing_keeps_the_first_accepted_draws() {
    assert_eq!(first_passing(10, 3, |k: usize| k % 2 == 1), vec![1, 3, 5]);
}

#[test]
fn first_passing_runs_out_of_tries() {
    assert_eq!(first_passing(6, 10, |k: usize| k % 3 == 0), vec![0, 3]);
    assert_eq!(first_passing(0, 4, |_k: usize| true), Vec::<usize>::new());
}

#[test]
fn first_passing_keep_zero_tests_nothing() {
    let tested = std::cell::Cell::new(0usize);
    let r = first_passing(5, 0, |_k: usize| {
        tested.set(tested.get() + 1);
        true
    });
    assert!(r.is_empty());
    assert_eq!(tested.get(), 0);
}

#[test]
fn first_passing_stops_after_the_last_kept_draw() {
    let tested = std::cell::Cell::new(0usize);
    let r = first_passing(100, 2, |k: usize| {
        tested.set(tested.get() + 1);
        k >= 4
    });
    assert_eq!(r, vec![4, 5]);
    assert_eq!(tested.get(), 6);
}
