use opti_radar::consensus::{collect_inliers, Consensus, DEFAULT_RANSAC_ITERATIONS};
use rand::rngs::StdRng;
use rand::SeedableRng;

fn rng() -> StdRng {
    StdRng::seed_from_u64(1)
}

#[test]
fn default_iterations_are_one_hundred() {
    assert_eq!(DEFAULT_RANSAC_ITERATIONS, 100);
}

#[test]
fn collect_inliers_lists_the_set_flags_in_order() {
    assert_eq!(collect_inliers(&vec![true, false, true, true, false]), vec![0, 2, 3]);
    assert_eq!(collect_inliers(&vec![false, false]), Vec::<usize>::new());
    assert_eq!(collect_inliers(&vec![]), Vec::<usize>::new());
    assert_eq!(collect_inliers(&vec![true; 4]), vec![0, 1, 2, 3]);
}

#[test]
fn a_fresh_fit_holds_nothing() {
    let fit: Consensus<char> = Consensus::new(5, 10, 3);
    assert_eq!(fit.pool_size(), 5);
    assert_eq!(fit.min_inliers(), 3);
    assert_eq!(fit.remaining_rounds(), 10);
    assert!(!fit.is_awaiting());
    assert!(fit.into_best().is_none());
}

#[test]
fn a_pool_of_two_never_yields_a_sample() {
    let mut rng = rng();
    let mut fit: Consensus<char> = Consensus::new(2, 100, 2);
    assert!(fit.next_sample(&mut rng).is_none());
    assert_eq!(fit.remaining_rounds(), 100);
    assert!(fit.into_best().is_none());
}

#[test]
fn an_empty_pool_never_yields_a_sample() {
    let mut rng = rng();
    let mut fit: Consensus<char> = Consensus::new(0, 100, 0);
    assert!(fit.next_sample(&mut rng).is_none());
    assert!(fit.into_best().is_none());
}

#[test]
fn no_rounds_no_hypothesis() {
    let mut rng = rng();
    let mut fit: Consensus<char> = Consensus::new(10, 0, 0);
    assert!(fit.next_sample(&mut rng).is_none());
    assert!(fit.into_best().is_none());
}

#[test]
fn there_are_exactly_as_many_rounds_as_iterations() {
    let mut rng = rng();
    let mut fit: Consensus<usize> = Consensus::new(6, 25, 3);
    let mut rounds: usize = 0;
    while let Some((a, b, c)) = fit.next_sample(&mut rng) {
        assert!(fit.is_awaiting());
        assert!(a < 6 && b < 6 && c < 6);
        assert!(a != b && a != c && b != c);
        fit.record(rounds, &vec![false; 6]);
        assert!(!fit.is_awaiting());
        rounds += 1;
        assert_eq!(fit.remaining_rounds(), 25 - rounds);
    }
    assert_eq!(rounds, 25);
    assert!(fit.into_best().is_none());
}

#[test]
fn the_hypothesis_with_most_inliers_wins() {
    let mut rng = rng();
    let mut fit: Consensus<char> = Consensus::new(5, 3, 2);
    fit.next_sample(&mut rng).unwrap();
    assert!(fit.record('a', &vec![true, true, false, false, false]));
    fit.next_sample(&mut rng).unwrap();
    assert!(fit.record('b', &vec![true, true, false, true, true]));
    fit.next_sample(&mut rng).unwrap();
    assert!(!fit.record('c', &vec![false, true, true, true, false]));
    let best = fit.into_best().unwrap();
    assert_eq!(best.position, 'b');
    assert_eq!(best.inliers, vec![0, 1, 3, 4]);
}

#[test]
fn ties_go_to_the_first_hypothesis() {
    let mut rng = rng();
    let mut fit: Consensus<char> = Consensus::new(4, 3, 2);
    fit.next_sample(&mut rng).unwrap();
    assert!(fit.record('a', &vec![true, false, true, false]));
    fit.next_sample(&mut rng).unwrap();
    assert!(!fit.record('b', &vec![false, true, false, true]));
    fit.next_sample(&mut rng).unwrap();
    assert!(!fit.record('c', &vec![true, true, false, false]));
    let best = fit.into_best().unwrap();
    assert_eq!(best.position, 'a');
    assert_eq!(best.inliers, vec![0, 2]);
}

#[test]
fn a_hypothesis_below_the_minimum_is_never_kept() {
    let mut rng = rng();
    let mut fit: Consensus<char> = Consensus::new(4, 2, 3);
    fit.next_sample(&mut rng).unwrap();
    assert!(!fit.record('a', &vec![true, true, false, false]));
    fit.next_sample(&mut rng).unwrap();
    assert!(!fit.record('b', &vec![false, false, false, false]));
    assert!(fit.into_best().is_none());
}

#[test]
fn a_hypothesis_at_the_minimum_is_kept() {
    let mut rng = rng();
    let mut fit: Consensus<char> = Consensus::new(4, 1, 3);
    fit.next_sample(&mut rng).unwrap();
    assert!(fit.record('a', &vec![true, true, false, true]));
    let best = fit.into_best().unwrap();
    assert_eq!(best.inliers.len(), 3);
}

#[test]
fn with_a_minimum_of_zero_the_first_hypothesis_is_kept() {
    let mut rng = rng();
    let mut fit: Consensus<char> = Consensus::new(3, 2, 0);
    fit.next_sample(&mut rng).unwrap();
    assert!(fit.record('a', &vec![false, false, false]));
    fit.next_sample(&mut rng).unwrap();
    assert!(!fit.record('b', &vec![false, false, false]));
    let best = fit.into_best().unwrap();
    assert_eq!(best.position, 'a');
    assert!(best.inliers.is_empty());
}

#[test]
fn a_late_better_hypothesis_replaces_an_early_one() {
    let mut rng = rng();
    let mut fit: Consensus<u32> = Consensus::new(6, 4, 1);
    let support: [usize; 4] = [1, 3, 3, 5];
    for (round, &count) in support.iter().enumerate() {
        fit.next_sample(&mut rng).unwrap();
        let flags: Vec<bool> = (0..6).map(|i| i < count).collect();
        let replaced = fit.record(round as u32, &flags);
        assert_eq!(replaced, round == 0 || round == 1 || round == 3);
    }
    let best = fit.into_best().unwrap();
    assert_eq!(best.position, 3);
    assert_eq!(best.inliers, vec![0, 1, 2, 3, 4]);
}
