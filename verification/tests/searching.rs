use shotgun_intersection::galloping::gallop_end;
use shotgun_intersection::model::is_ascending;
use shotgun_intersection::order::{is_less, is_same};
use shotgun_intersection::search::{batch_lower_bounds, lower_bound};
use shotgun_intersection::{galloping_intersect, shotgun_intersect32};
use std::cell::Cell;
use std::cmp::Ordering;

struct Counted<'c> {
    value: u32,
    hits: &'c Cell<usize>,
}

impl PartialEq for Counted<'_> {
    fn eq(&self, other: &Self) -> bool {
        self.hits.set(self.hits.get() + 1);
        self.value == other.value
    }
}

impl Eq for Counted<'_> {}

impl PartialOrd for Counted<'_> {
    fn partial_cmp(&self, other: &Self) -> Option<Ordering> {
        Some(self.cmp(other))
    }
}

impl Ord for Counted<'_> {
    fn cmp(&self, other: &Self) -> Ordering {
        self.hits.set(self.hits.get() + 1);
        self.value.cmp(&other.value)
    }
}

#[test]
fn lower_bound_finds_the_first_not_less() {
    let s: Vec<u32> = vec![10, 20, 30, 40, 50];
    assert_eq!(lower_bound(&s, 0, 5, &5), 0);
    assert_eq!(lower_bound(&s, 0, 5, &10), 0);
    assert_eq!(lower_bound(&s, 0, 5, &11), 1);
    assert_eq!(lower_bound(&s, 0, 5, &30), 2);
    assert_eq!(lower_bound(&s, 0, 5, &50), 4);
    assert_eq!(lower_bound(&s, 0, 5, &51), 5);
}

#[test]
fn lower_bound_stays_within_its_window() {
    let s: Vec<u32> = vec![10, 20, 30, 40, 50];
    assert_eq!(lower_bound(&s, 2, 4, &5), 2);
    assert_eq!(lower_bound(&s, 2, 4, &35), 3);
    assert_eq!(lower_bound(&s, 2, 4, &99), 4);
    assert_eq!(lower_bound(&s, 3, 3, &0), 3);
    let none: Vec<u32> = Vec::new();
    assert_eq!(lower_bound(&none, 0, 0, &1), 0);
}

#[test]
fn a_batch_gives_each_lane_its_lower_bound() {
    let longer: Vec<u32> = (0..20).map(|x| x * 10).collect();
    let keys: Vec<u32> = vec![0, 5, 10, 95, 190, 191, 500, 7];
    let mut bases: Vec<usize> = vec![99, 99];
    let rounds = batch_lower_bounds(&longer, 0, &keys, 0, 7, &mut bases);
    assert_eq!(bases, vec![0, 1, 1, 10, 19, 20, 20]);
    assert_eq!(rounds, 5);
}

#[test]
fn a_batch_searches_only_its_window_and_its_keys() {
    let longer: Vec<u32> = (0..20).map(|x| x * 10).collect();
    let keys: Vec<u32> = vec![1000, 0, 55, 60, 61];
    let mut bases: Vec<usize> = Vec::new();
    let rounds = batch_lower_bounds(&longer, 4, &keys, 1, 4, &mut bases);
    assert_eq!(bases, vec![4, 6, 6, 7]);
    assert_eq!(rounds, 4);
    let rounds = batch_lower_bounds(&longer, 19, &keys, 0, 2, &mut bases);
    assert_eq!(bases, vec![20, 19]);
    assert_eq!(rounds, 0);
    let rounds = batch_lower_bounds(&longer, 3, &keys, 2, 0, &mut bases);
    assert_eq!(bases, Vec::<usize>::new());
    assert_eq!(rounds, 5);
}

#[test]
fn every_lane_runs_the_same_rounds_whatever_the_keys() {
    let hits = Cell::new(0);
    let longer: Vec<Counted> = (0..1024).map(|value| Counted { value, hits: &hits }).collect();
    let near: Vec<Counted> = (0..8).map(|value| Counted { value, hits: &hits }).collect();
    let far: Vec<Counted> = (2000..2008).map(|value| Counted { value, hits: &hits }).collect();
    let mut bases: Vec<usize> = Vec::new();
    hits.set(0);
    let rounds_near = batch_lower_bounds(&longer, 0, &near, 0, 8, &mut bases);
    let hits_near = hits.get();
    hits.set(0);
    let rounds_far = batch_lower_bounds(&longer, 0, &far, 0, 8, &mut bases);
    let hits_far = hits.get();
    assert_eq!(rounds_near, 10);
    assert_eq!(rounds_far, 10);
    assert_eq!(hits_near, 8 * 11);
    assert_eq!(hits_far, 8 * 11);
}

#[test]
fn gallop_end_doubles_until_not_less() {
    let s: Vec<u32> = (0..100).collect();
    assert_eq!(gallop_end(&s, 0, &1), 1);
    assert_eq!(gallop_end(&s, 0, &2), 2);
    assert_eq!(gallop_end(&s, 0, &3), 4);
    assert_eq!(gallop_end(&s, 0, &50), 64);
    assert_eq!(gallop_end(&s, 10, &50), 74);
    assert_eq!(gallop_end(&s, 10, &40), 42);
    assert_eq!(gallop_end(&s, 0, &99), 100);
    assert_eq!(gallop_end(&s, 0, &1000), 100);
    assert_eq!(gallop_end(&s, 99, &1000), 100);
}

#[test]
fn comparisons_follow_the_element_order() {
    assert!(is_less(&1u32, &2u32));
    assert!(!is_less(&2u32, &2u32));
    assert!(!is_less(&3u32, &2u32));
    assert!(is_same(&"a".to_string(), &"a".to_string()));
    assert!(!is_same(&"a".to_string(), &"b".to_string()));
}

#[test]
fn a_short_list_against_a_long_one_compares_far_less_than_a_scan() {
    let hits = Cell::new(0);
    let long_len: u32 = 1 << 20;
    let longer: Vec<Counted> = (0..long_len).map(|value| Counted { value: value * 3, hits: &hits }).collect();
    let shorter: Vec<Counted> =
        (0..32u32).map(|k| Counted { value: k * 90001 + 1 + (k % 2) * 2, hits: &hits }).collect();
    let mut expected: Vec<u32> = Vec::new();
    for key in shorter.iter() {
        if key.value % 3 == 0 && key.value / 3 < long_len {
            expected.push(key.value);
        }
    }
    assert_eq!(expected.len(), 10);
    hits.set(0);
    let mut it = shotgun_intersect32(&shorter, &longer);
    let mut got: Vec<u32> = Vec::new();
    while let Some(x) = it.next() {
        got.push(x.value);
    }
    let batched = hits.get();
    assert_eq!(got, expected);
    assert_eq!(batched, 32 * 20 + 32 + 32);
    hits.set(0);
    let gallop: Vec<u32> = galloping_intersect(&shorter, &longer).into_iter().map(|x| x.value).collect();
    assert_eq!(gallop, expected);
    assert!(hits.get() < 32 * 200);
}

#[test]
fn is_ascending_refuses_repeats_and_descents() {
    assert!(is_ascending::<u32>(&[]));
    assert!(is_ascending(&[7u32]));
    assert!(is_ascending(&[1u32, 2, 3, 10]));
    assert!(!is_ascending(&[1u32, 2, 2, 10]));
    assert!(!is_ascending(&[1u32, 3, 2]));
    assert!(!is_ascending(&[2u32, 1]));
}

#[test]
fn a_batch_over_an_empty_window_leaves_every_lane_at_the_end() {
    let longer: Vec<u32> = vec![1, 2, 3];
    let keys: Vec<u32> = vec![0, 2, 9];
    let mut bases: Vec<usize> = vec![7];
    let rounds = batch_lower_bounds(&longer, 3, &keys, 0, 3, &mut bases);
    assert_eq!(bases, vec![3, 3, 3]);
    assert_eq!(rounds, 0);
    let none: Vec<u32> = Vec::new();
    let rounds = batch_lower_bounds(&none, 0, &keys, 1, 2, &mut bases);
    assert_eq!(bases, vec![0, 0]);
    assert_eq!(rounds, 0);
}

#[derive(Debug)]
struct Tagged {
    key: u32,
    tag: char,
}

impl PartialEq for Tagged {
    fn eq(&self, other: &Self) -> bool {
        self.key == other.key
    }
}

impl Eq for Tagged {}

impl PartialOrd for Tagged {
    fn partial_cmp(&self, other: &Self) -> Option<Ordering> {
        Some(self.cmp(other))
    }
}

impl Ord for Tagged {
    fn cmp(&self, other: &Self) -> Ordering {
        self.key.cmp(&other.key)
    }
}

fn tagged(keys: &[u32], tag: char) -> Vec<Tagged> {
    keys.iter().map(|&key| Tagged { key, tag }).collect()
}

#[test]
fn the_traversal_hands_out_elements_of_the_shorter_sequence() {
    let a = tagged(&[1, 2, 5], 'a');
    let b = tagged(&[2, 3, 4, 5, 6], 'b');
    let mut it = shotgun_intersection::intersect(&a, &b);
    let got: Vec<(u32, char)> = it.collect().into_iter().map(|x| (x.key, x.tag)).collect();
    assert_eq!(got, vec![(2, 'a'), (5, 'a')]);
    let mut it = shotgun_intersection::intersect(&b, &a);
    let got: Vec<(u32, char)> = it.collect().into_iter().map(|x| (x.key, x.tag)).collect();
    assert_eq!(got, vec![(2, 'a'), (5, 'a')]);
}

#[test]
fn of_two_sequences_of_one_length_the_second_is_the_shorter() {
    let a = tagged(&[1, 2, 5], 'a');
    let b = tagged(&[2, 3, 5], 'b');
    let mut it = shotgun_intersection::intersect(&a, &b);
    let got: Vec<(u32, char)> = it.collect().into_iter().map(|x| (x.key, x.tag)).collect();
    assert_eq!(got, vec![(2, 'b'), (5, 'b')]);
    let mut it = shotgun_intersect32(&b, &a);
    let got: Vec<(u32, char)> = it.collect().into_iter().map(|x| (x.key, x.tag)).collect();
    assert_eq!(got, vec![(2, 'a'), (5, 'a')]);
}

#[test]
fn galloping_hands_out_elements_of_the_first_sequence() {
    let a = tagged(&[1, 2, 5, 7, 8, 9], 'a');
    let b = tagged(&[2, 3, 5], 'b');
    let got: Vec<(u32, char)> =
        galloping_intersect(&a, &b).into_iter().map(|x| (x.key, x.tag)).collect();
    assert_eq!(got, vec![(2, 'a'), (5, 'a')]);
    let got: Vec<(u32, char)> =
        galloping_intersect(&b, &a).into_iter().map(|x| (x.key, x.tag)).collect();
    assert_eq!(got, vec![(2, 'b'), (5, 'b')]);
}
