use genesplice::zort::{IdentityRanker, PreferLeft, PreferRight, Zort};

fn assert_sorted(a: Vec<usize>, b: Vec<usize>) {
    let mut z = Zort::new(a, b, IdentityRanker, PreferLeft, 0);
    assert_eq!(z.next(), Some(0));
    assert_eq!(z.next(), Some(1));
    assert_eq!(z.next(), Some(2));
    assert_eq!(z.next(), Some(3));
    assert_eq!(z.next(), Some(4));
    assert_eq!(z.next(), Some(5));
    assert_eq!(z.next(), Some(6));
    assert_eq!(z.next(), Some(7));
    assert_eq!(z.next(), Some(8));
    assert_eq!(z.next(), Some(9));
}

fn drain(z: &mut Zort<usize, IdentityRanker, PreferLeft>) -> Vec<usize> {
    let mut out = Vec::new();
    while let Some(item) = z.next() {
        out.push(item);
    }
    out
}

#[test]
fn a_then_b() {
    let a: Vec<usize> = vec![0, 1, 2, 3, 4];
    let b: Vec<usize> = vec![5, 6, 7, 8, 9];
    assert_sorted(a, b);
}

#[test]
fn b_then_a() {
    let a: Vec<usize> = vec![5, 6, 7, 8, 9];
    let b: Vec<usize> = vec![0, 1, 2, 3, 4];
    assert_sorted(a, b);
}

#[test]
fn alternating() {
    let a: Vec<usize> = vec![1, 3, 5, 7, 9];
    let b: Vec<usize> = vec![0, 2, 4, 6, 8];
    assert_sorted(a, b);
}

#[test]
fn random() {
    let a: Vec<usize> = vec![1, 4, 6, 8, 9];
    let b: Vec<usize> = vec![0, 2, 3, 5, 7];
    assert_sorted(a, b);
}

#[test]
fn merge_ends_after_both_drain() {
    let a: Vec<usize> = vec![0, 1];
    let b: Vec<usize> = vec![2];
    let mut z = Zort::new(a, b, IdentityRanker, PreferLeft, 0);
    assert_eq!(drain(&mut z), vec![0, 1, 2]);
    assert_eq!(z.next(), None);
    assert_eq!(z.next(), None);
}

#[test]
fn trail_zero_drains_both_sides() {
    let mut z = Zort::new(vec![1usize, 3], vec![2usize, 4, 5], IdentityRanker, PreferLeft, 0);
    assert_eq!(drain(&mut z), vec![1, 2, 3, 4, 5]);
}

#[test]
fn trail_one_stops_once_left_is_exhausted() {
    let mut z = Zort::new(vec![1usize, 3], vec![2usize, 4, 5], IdentityRanker, PreferLeft, 1);
    assert_eq!(drain(&mut z), vec![1, 2, 3]);
}

#[test]
fn trail_two_drains_right_once_left_is_exhausted() {
    let mut z = Zort::new(vec![1usize, 3], vec![2usize, 4, 5], IdentityRanker, PreferLeft, 2);
    assert_eq!(drain(&mut z), vec![1, 2, 3, 4, 5]);
}

#[test]
fn trail_three_stops_once_either_side_is_exhausted() {
    let mut z = Zort::new(vec![1usize, 3], vec![2usize, 4, 5], IdentityRanker, PreferLeft, 3);
    assert_eq!(drain(&mut z), vec![1, 2, 3]);
}

#[test]
fn empty_right_side_drains_left_under_trails_zero_and_one() {
    for trail in [0usize, 1] {
        let mut z = Zort::new(vec![4usize, 7, 9], Vec::new(), IdentityRanker, PreferLeft, trail);
        assert_eq!(drain(&mut z), vec![4, 7, 9]);
    }
}

#[test]
fn empty_right_side_stops_under_trails_two_and_three() {
    for trail in [2usize, 3] {
        let mut z = Zort::new(vec![4usize, 7, 9], Vec::new(), IdentityRanker, PreferLeft, trail);
        assert_eq!(z.next(), None);
    }
}

#[test]
fn empty_left_side_drains_right_under_trails_zero_and_two() {
    for trail in [0usize, 2] {
        let mut z = Zort::new(Vec::new(), vec![4usize, 7, 9], IdentityRanker, PreferLeft, trail);
        assert_eq!(drain(&mut z), vec![4, 7, 9]);
    }
}

#[test]
fn empty_left_side_stops_under_trails_one_and_three() {
    for trail in [1usize, 3] {
        let mut z = Zort::new(Vec::new(), vec![4usize, 7, 9], IdentityRanker, PreferLeft, trail);
        assert_eq!(z.next(), None);
    }
}

#[test]
fn both_sides_empty_end_at_once() {
    for trail in [0usize, 1, 2, 3] {
        let mut z: Zort<usize, IdentityRanker, PreferLeft> =
            Zort::new(Vec::new(), Vec::new(), IdentityRanker, PreferLeft, trail);
        assert_eq!(z.next(), None);
    }
}

#[test]
fn fully_paired_inputs_yield_one_item_per_rank() {
    let mut z = Zort::new(vec![2usize, 5, 8], vec![2usize, 5, 8], IdentityRanker, PreferRight, 0);
    let mut out = Vec::new();
    while let Some(item) = z.next() {
        out.push(item);
    }
    assert_eq!(out, vec![2, 5, 8]);
}

#[test]
fn set_trail_reconfigures_the_exhaustion_policy() {
    let mut z = Zort::new(vec![1usize, 3], vec![2usize, 4, 5], IdentityRanker, PreferLeft, 3);
    z.set_trail(0);
    assert_eq!(drain(&mut z), vec![1, 2, 3, 4, 5]);
}

#[test]
fn prefer_left_returns_the_left_item() {
    assert_eq!(Zort::<usize, IdentityRanker, PreferLeft>::prefer_left(3, 4), 3);
}

#[test]
fn prefer_right_returns_the_right_item() {
    assert_eq!(Zort::<usize, IdentityRanker, PreferLeft>::prefer_right(3, 4), 4);
}
