use dataflow_join::intersect::{
    gallop_count, gallop_retain, intersect, intersect_with, merge_count, merge_retain,
    retain_common, retain_common_with, GALLOP_CROSSOVER,
};

struct Lcg(u64);

impl Lcg {
    fn next(&mut self) -> u64 {
        self.0 = self.0.wrapping_mul(6364136223846793005).wrapping_add(1442695040888963407);
        self.0 >> 33
    }
}

fn ascending_set(rng: &mut Lcg, len: usize, universe: u32) -> Vec<u32> {
    let mut picked = vec![false; universe as usize];
    let mut left = len.min(universe as usize);
    while left > 0 {
        let x = (rng.next() % universe as u64) as usize;
        if !picked[x] {
            picked[x] = true;
            left -= 1;
        }
    }
    (0..universe).filter(|x| picked[*x as usize]).collect()
}

fn reference(a: &[u32], b: &[u32]) -> Vec<u32> {
    a.iter().copied().filter(|x| b.contains(x)).collect()
}

#[test]
fn merge_count_counts_common_elements() {
    let a: Vec<u32> = vec![1, 2, 4, 8, 16];
    let b: Vec<u32> = vec![2, 3, 4, 5, 16, 17];
    assert_eq!(merge_count(&a, &b), 3);
    assert_eq!(merge_count(&b, &a), 3);
}

#[test]
fn gallop_count_counts_common_elements() {
    let a: Vec<u32> = vec![1, 2, 4, 8, 16];
    let b: Vec<u32> = vec![2, 3, 4, 5, 16, 17];
    assert_eq!(gallop_count(&a, &b), 3);
    assert_eq!(gallop_count(&b, &a), 3);
}

#[test]
fn intersect_of_empty_is_zero() {
    let empty: Vec<u32> = Vec::new();
    let b: Vec<u32> = vec![1, 2, 3];
    assert_eq!(intersect(&empty, &b), 0);
    assert_eq!(intersect(&b, &empty), 0);
    assert_eq!(intersect(&empty, &empty), 0);
    assert_eq!(merge_count(&empty, &b), 0);
    assert_eq!(merge_count(&b, &empty), 0);
    assert_eq!(gallop_count(&empty, &b), 0);
    assert_eq!(gallop_count(&b, &empty), 0);
}

#[test]
fn intersect_without_match_is_zero() {
    let a: Vec<u32> = vec![1, 3, 5, 7];
    let b: Vec<u32> = vec![0, 2, 4, 6, 8];
    assert_eq!(intersect(&a, &b), 0);
    assert_eq!(merge_count(&a, &b), 0);
    assert_eq!(gallop_count(&a, &b), 0);
}

#[test]
fn intersect_of_a_sequence_with_itself_is_its_length() {
    let a: Vec<u32> = (0..50).map(|x| x * x).collect();
    assert_eq!(intersect(&a, &a), 50);
    assert_eq!(merge_count(&a, &a), 50);
    assert_eq!(gallop_count(&a, &a), 50);
}

#[test]
fn crossover_is_four() {
    assert_eq!(GALLOP_CROSSOVER, 4);
}

#[test]
fn intersect_below_the_crossover_gallops_to_the_same_count() {
    let a: Vec<u32> = vec![10, 500, 999];
    let b: Vec<u32> = (0..1000).collect();
    assert!(a.len() < b.len() / GALLOP_CROSSOVER);
    assert_eq!(intersect(&a, &b), 3);
    assert_eq!(merge_count(&a, &b), 3);
    assert_eq!(gallop_count(&a, &b), 3);
}

#[test]
fn intersect_above_the_crossover_merges_to_the_same_count() {
    let a: Vec<u32> = (0..100).map(|x| 2 * x).collect();
    let b: Vec<u32> = (0..100).map(|x| 3 * x).collect();
    assert!(a.len() >= b.len() / GALLOP_CROSSOVER);
    assert_eq!(intersect(&a, &b), 34);
    assert_eq!(merge_count(&a, &b), 34);
    assert_eq!(gallop_count(&a, &b), 34);
}

#[test]
fn merge_and_gallop_agree_on_random_sequences() {
    let mut rng = Lcg(0x2545F4914F6CDD1D);
    for round in 0..300 {
        let universe = 1 + (rng.next() % 400) as u32;
        let la = (rng.next() % 60) as usize;
        let lb = (rng.next() % 400) as usize;
        let a = ascending_set(&mut rng, la, universe);
        let b = ascending_set(&mut rng, lb, universe);
        let expected = reference(&a, &b);
        assert_eq!(merge_count(&a, &b), expected.len() as u64, "round {}", round);
        assert_eq!(gallop_count(&a, &b), expected.len() as u64, "round {}", round);
        assert_eq!(intersect(&a, &b), expected.len() as u64, "round {}", round);
        assert_eq!(intersect(&b, &a), expected.len() as u64, "round {}", round);

        let mut merged = a.clone();
        merge_retain(&mut merged, &b);
        assert_eq!(merged, expected, "round {}", round);
        let mut galloped = a.clone();
        gallop_retain(&mut galloped, &b);
        assert_eq!(galloped, expected, "round {}", round);
        let mut adaptive = a.clone();
        retain_common(&mut adaptive, &b);
        assert_eq!(adaptive, expected, "round {}", round);
    }
}

#[test]
fn merge_retain_keeps_survivors_in_order() {
    let mut candidates: Vec<u32> = vec![1, 2, 3, 5, 8, 13, 21];
    merge_retain(&mut candidates, &[2, 3, 4, 5, 6, 21, 22]);
    assert_eq!(candidates, vec![2, 3, 5, 21]);
}

#[test]
fn gallop_retain_keeps_survivors_in_order() {
    let mut candidates: Vec<u32> = vec![1, 2, 3, 5, 8, 13, 21];
    gallop_retain(&mut candidates, &[2, 3, 4, 5, 6, 21, 22]);
    assert_eq!(candidates, vec![2, 3, 5, 21]);
}

#[test]
fn retain_without_match_leaves_nothing() {
    let mut merged: Vec<u32> = vec![1, 3, 5];
    merge_retain(&mut merged, &[2, 4, 6]);
    assert!(merged.is_empty());
    let mut galloped: Vec<u32> = vec![1, 3, 5];
    gallop_retain(&mut galloped, &[2, 4, 6]);
    assert!(galloped.is_empty());
    let mut adaptive: Vec<u32> = vec![1, 3, 5];
    retain_common(&mut adaptive, &[]);
    assert!(adaptive.is_empty());
}

#[test]
fn retain_on_empty_candidates_stays_empty() {
    let mut candidates: Vec<u32> = Vec::new();
    retain_common(&mut candidates, &[1, 2, 3]);
    assert!(candidates.is_empty());
    merge_retain(&mut candidates, &[1, 2, 3]);
    assert!(candidates.is_empty());
    gallop_retain(&mut candidates, &[1, 2, 3]);
    assert!(candidates.is_empty());
}

#[test]
fn retain_common_on_both_sides_of_the_crossover() {
    let other: Vec<u32> = (0..400).map(|x| 5 * x).collect();
    let mut few: Vec<u32> = vec![5, 6, 1000, 1995];
    retain_common(&mut few, &other);
    assert_eq!(few, vec![5, 1000, 1995]);
    let mut many: Vec<u32> = (0..300).map(|x| 10 * x).collect();
    retain_common(&mut many, &other);
    assert_eq!(many, (0..200).map(|x| 10 * x).collect::<Vec<u32>>());
}

#[test]
fn the_count_does_not_depend_on_the_crossover() {
    let mut rng = Lcg(0xD1B54A32D192ED03);
    for round in 0..60 {
        let universe = 1 + (rng.next() % 300) as u32;
        let la = (rng.next() % 40) as usize;
        let lb = (rng.next() % 300) as usize;
        let a = ascending_set(&mut rng, la, universe);
        let b = ascending_set(&mut rng, lb, universe);
        let expected = reference(&a, &b);
        for crossover in [0usize, 1, 2, 3, 4, 5, 8, 64, usize::MAX] {
            assert_eq!(
                intersect_with(&a, &b, crossover),
                expected.len() as u64,
                "round {} crossover {}",
                round,
                crossover
            );
            let mut kept = a.clone();
            retain_common_with(&mut kept, &b, crossover);
            assert_eq!(kept, expected, "round {} crossover {}", round, crossover);
        }
    }
}
