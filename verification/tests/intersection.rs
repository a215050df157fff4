use shotgun_intersection::{
    galloping_intersect, intersect, shotgun_intersect16, shotgun_intersect32, shotgun_intersect4,
    shotgun_intersect8, BatchWidth, Phase, ShotgunIntersection,
};

fn two_pointer(a: &[u32], b: &[u32]) -> Vec<u32> {
    let mut i = 0;
    let mut j = 0;
    let mut out = Vec::new();
    while i < a.len() && j < b.len() {
        if a[i] < b[j] {
            i += 1;
        } else if b[j] < a[i] {
            j += 1;
        } else {
            out.push(a[i]);
            i += 1;
            j += 1;
        }
    }
    out
}

fn pull_all(mut it: ShotgunIntersection<'_, u32>) -> Vec<u32> {
    let mut out = Vec::new();
    while let Some(x) = it.next() {
        out.push(*x);
    }
    assert!(it.next().is_none());
    out
}

fn every_width(a: &[u32], b: &[u32]) -> Vec<Vec<u32>> {
    vec![
        pull_all(shotgun_intersect4(a, b)),
        pull_all(shotgun_intersect8(a, b)),
        pull_all(shotgun_intersect16(a, b)),
        pull_all(shotgun_intersect32(a, b)),
        pull_all(intersect(a, b)),
        galloping_intersect(a, b).into_iter().copied().collect(),
    ]
}

fn check_against_oracle(a: &[u32], b: &[u32]) {
    let expected = two_pointer(a, b);
    for got in every_width(a, b) {
        assert_eq!(got, expected);
    }
    for got in every_width(b, a) {
        assert_eq!(got, expected);
    }
}

fn ascending_run(len: usize, seed: u64, spread: u64) -> Vec<u32> {
    let mut state = seed;
    let mut value: u64 = 0;
    let mut out = Vec::with_capacity(len);
    for _ in 0..len {
        state = state.wrapping_mul(6364136223846793005).wrapping_add(1442695040888963407);
        value += 1 + (state >> 33) % spread;
        out.push(u32::try_from(value).unwrap());
    }
    out
}

#[test]
fn odd_numbers_within_a_full_range() {
    let a: Vec<u32> = vec![1, 3, 5, 7, 9, 11, 13, 15];
    let b: Vec<u32> = (0..20).collect();
    for got in every_width(&a, &b) {
        assert_eq!(got, vec![1, 3, 5, 7, 9, 11, 13, 15]);
    }
    for got in every_width(&b, &a) {
        assert_eq!(got, vec![1, 3, 5, 7, 9, 11, 13, 15]);
    }
}

#[test]
fn interleaved_without_overlap_is_empty() {
    let a: Vec<u32> = vec![2, 4, 6];
    let b: Vec<u32> = vec![1, 3, 5];
    for got in every_width(&a, &b) {
        assert_eq!(got, Vec::<u32>::new());
    }
}

#[test]
fn empty_on_either_side_gives_empty() {
    let none: Vec<u32> = Vec::new();
    let some: Vec<u32> = (0..100).collect();
    for got in every_width(&none, &some) {
        assert!(got.is_empty());
    }
    for got in every_width(&some, &none) {
        assert!(got.is_empty());
    }
    for got in every_width(&none, &none) {
        assert!(got.is_empty());
    }
}

#[test]
fn disjoint_ranges_give_empty() {
    let low: Vec<u32> = (0..50).collect();
    let high: Vec<u32> = (50..200).collect();
    for got in every_width(&low, &high) {
        assert!(got.is_empty());
    }
    for got in every_width(&high, &low) {
        assert!(got.is_empty());
    }
}

#[test]
fn a_sequence_with_itself_gives_itself() {
    for len in [0usize, 1, 3, 4, 5, 31, 32, 33, 100] {
        let a = ascending_run(len, 7, 5);
        for got in every_width(&a, &a) {
            assert_eq!(got, a);
        }
    }
}

#[test]
fn lengths_around_each_batch_width_match_the_oracle() {
    let longer = ascending_run(500, 11, 3);
    for width in [4usize, 8, 16, 32] {
        for len in [width - 1, width, width + 1, 2 * width - 1, 2 * width, 2 * width + 1] {
            let shorter = ascending_run(len, 13 + (len as u64), 40);
            check_against_oracle(&shorter, &longer);
        }
    }
}

#[test]
fn random_runs_match_the_oracle() {
    for round in 0..40u64 {
        let len_a = (round * 7 % 70) as usize;
        let len_b = (round * 13 % 300) as usize;
        let a = ascending_run(len_a, round, 1 + round % 9);
        let b = ascending_run(len_b, round + 1000, 1 + round % 4);
        check_against_oracle(&a, &b);
    }
}

#[test]
fn a_tail_key_that_misses_does_not_end_the_traversal() {
    let a: Vec<u32> = vec![1, 2, 3];
    let b: Vec<u32> = vec![3, 4, 5, 6, 7];
    let mut it = shotgun_intersect4(&a, &b);
    assert_eq!(it.next(), Some(&3));
    assert_eq!(it.next(), None);
    assert_eq!(it.next(), None);
}

#[test]
fn a_batch_without_a_match_is_passed_over() {
    let a: Vec<u32> = vec![1, 3, 5, 7, 20, 21];
    let b: Vec<u32> = vec![0, 2, 4, 6, 8, 10, 20, 22];
    let mut it = shotgun_intersect4(&a, &b);
    assert_eq!(it.next(), Some(&20));
    assert_eq!(it.next(), None);
}

#[test]
fn matches_of_one_batch_come_out_ascending() {
    let a: Vec<u32> = vec![10, 20, 30, 40];
    let b: Vec<u32> = vec![5, 10, 15, 20, 25, 30, 35, 40, 45];
    let mut it = shotgun_intersect4(&a, &b);
    assert_eq!(it.next(), Some(&10));
    assert_eq!(it.next(), Some(&20));
    assert_eq!(it.next(), Some(&30));
    assert_eq!(it.next(), Some(&40));
    assert_eq!(it.next(), None);
}

#[test]
fn the_end_is_reported_again_and_again() {
    let a: Vec<u32> = (0..10).collect();
    let b: Vec<u32> = (5..15).collect();
    let mut it = intersect(&a, &b);
    for expected in 5..10u32 {
        assert_eq!(it.next(), Some(&expected));
    }
    for _ in 0..5 {
        assert_eq!(it.next(), None);
    }
}

#[test]
fn a_second_traversal_yields_the_same() {
    let a = ascending_run(40, 3, 4);
    let b = ascending_run(400, 4, 2);
    let first = pull_all(intersect(&a, &b));
    let second = pull_all(intersect(&a, &b));
    assert_eq!(first, second);
    assert_eq!(first, two_pointer(&a, &b));
    let third: Vec<u32> = galloping_intersect(&a, &b).into_iter().copied().collect();
    let fourth: Vec<u32> = galloping_intersect(&a, &b).into_iter().copied().collect();
    assert_eq!(third, fourth);
    assert_eq!(third, first);
}

#[test]
fn equal_lengths_give_the_same_either_way() {
    let a: Vec<u32> = vec![1, 2, 3, 4, 5, 6, 7, 8, 9];
    let b: Vec<u32> = vec![2, 3, 5, 7, 11, 13, 17, 19, 23];
    assert_eq!(pull_all(intersect(&a, &b)), vec![2, 3, 5, 7]);
    assert_eq!(pull_all(intersect(&b, &a)), vec![2, 3, 5, 7]);
}

#[test]
fn collect_hands_out_what_is_left() {
    let a: Vec<u32> = (0..30).collect();
    let b: Vec<u32> = (0..60).filter(|x| x % 3 == 0).collect();
    let mut it = ShotgunIntersection::new(&a, &b, BatchWidth::Sixteen);
    assert_eq!(it.next(), Some(&0));
    assert_eq!(it.next(), Some(&3));
    let rest: Vec<u32> = it.collect().into_iter().copied().collect();
    assert_eq!(rest, vec![6, 9, 12, 15, 18, 21, 24, 27]);
    assert_eq!(it.next(), None);
    assert!(it.collect().is_empty());
}

#[test]
fn batch_widths_have_their_lanes() {
    assert_eq!(BatchWidth::Four.lanes(), 4);
    assert_eq!(BatchWidth::Eight.lanes(), 8);
    assert_eq!(BatchWidth::Sixteen.lanes(), 16);
    assert_eq!(BatchWidth::ThirtyTwo.lanes(), 32);
}

#[test]
fn galloping_returns_the_elements_of_the_first_argument() {
    let a: Vec<String> = vec!["ant".to_string(), "bee".to_string(), "cat".to_string()];
    let b: Vec<String> = vec!["bee".to_string(), "cat".to_string(), "dog".to_string()];
    let got = galloping_intersect(&a, &b);
    assert_eq!(got.len(), 2);
    assert!(std::ptr::eq(got[0], &a[1]));
    assert!(std::ptr::eq(got[1], &a[2]));
}

#[test]
fn galloping_crosses_long_gaps() {
    let a: Vec<u32> = vec![0, 1000, 5000, 9999];
    let b: Vec<u32> = (0..10000).collect();
    let got: Vec<u32> = galloping_intersect(&a, &b).into_iter().copied().collect();
    assert_eq!(got, vec![0, 1000, 5000, 9999]);
    let got: Vec<u32> = galloping_intersect(&b, &a).into_iter().copied().collect();
    assert_eq!(got, vec![0, 1000, 5000, 9999]);
}

#[test]
fn phases_follow_the_stack_and_the_cursors() {
    let a: Vec<u32> = vec![10, 20, 30, 40, 50];
    let b: Vec<u32> = vec![5, 10, 15, 20, 25, 30, 35, 40, 45, 50, 55];
    let mut it = shotgun_intersect4(&a, &b);
    assert_eq!(it.phase(), Phase::AwaitingBatch);
    assert_eq!(it.next(), Some(&10));
    assert_eq!(it.phase(), Phase::DrainingBuffer);
    assert_eq!(it.next(), Some(&20));
    assert_eq!(it.next(), Some(&30));
    assert_eq!(it.phase(), Phase::DrainingBuffer);
    assert_eq!(it.next(), Some(&40));
    assert_eq!(it.phase(), Phase::AwaitingBatch);
    assert_eq!(it.next(), Some(&50));
    assert_eq!(it.phase(), Phase::Exhausted);
    assert_eq!(it.next(), None);
    assert_eq!(it.phase(), Phase::Exhausted);
}

#[test]
fn a_traversal_of_nothing_starts_exhausted() {
    let none: Vec<u32> = Vec::new();
    let some: Vec<u32> = vec![1, 2, 3];
    let mut it = intersect(&some, &none);
    assert_eq!(it.phase(), Phase::Exhausted);
    assert_eq!(it.next(), None);
    assert_eq!(it.phase(), Phase::Exhausted);
}

#[test]
fn thirty_two_keys_against_a_hundred_million() {
    let longer: Vec<u32> = (0..100_000_000u32).map(|x| x * 2).collect();
    let shorter: Vec<u32> = (0..32u32).map(|k| k * 6_000_001 + 17).collect();
    let expected: Vec<u32> = shorter.iter().copied().filter(|x| x % 2 == 0).collect();
    assert_eq!(expected.len(), 16);
    assert_eq!(two_pointer(&shorter, &longer), expected);
    for got in every_width(&shorter, &longer) {
        assert_eq!(got, expected);
    }
    for got in every_width(&longer, &shorter) {
        assert_eq!(got, expected);
    }
}
