use telic::planning::utility::{
    best_in_row, collect_actions, concat_actions, greedy_pick, round_robin_order, weighted_random_state, ActionSource,
    Hungarian, ScoringMode,
};

#[test]
fn greedy_pick_takes_highest_unassigned_first_on_ties() {
    let keys = vec![vec![Some(10u64), Some(5)], vec![Some(3), Some(10)]];
    assert_eq!(greedy_pick(&keys, &vec![false, false]), Some((0, 0)));
    assert_eq!(greedy_pick(&keys, &vec![true, false]), Some((1, 1)));
    assert_eq!(greedy_pick(&keys, &vec![true, true]), None);
    let blocked = vec![vec![None, None], vec![None, Some(0)]];
    assert_eq!(greedy_pick(&blocked, &vec![false, false]), Some((1, 1)));
    assert_eq!(greedy_pick(&vec![vec![None]], &vec![false]), None);
}

#[test]
fn best_in_row_first_maximum() {
    assert_eq!(best_in_row(&vec![Some(3u64), Some(8), Some(8), None]), Some(1));
    assert_eq!(best_in_row(&vec![None, None]), None);
    assert_eq!(best_in_row(&vec![]), None);
}

#[test]
fn round_robin_order_default_and_given() {
    assert_eq!(round_robin_order(&None, 3), vec![0, 1, 2]);
    assert_eq!(round_robin_order(&Some(vec![2, 0, 1]), 3), vec![2, 0, 1]);
}

#[test]
fn weighted_random_seed_remap() {
    assert_eq!(weighted_random_state(0), 0x9E37_79B9_7F4A_7C15);
    assert_eq!(weighted_random_state(42), 42);
}

struct Offers(Vec<u32>);

impl ActionSource<u32, u32> for Offers {
    // Only the verifier reads what a source offers; it is never computed.
    fn offered(&self, _context: &u32) -> vstd::seq::Seq<u32> {
        unreachable!()
    }

    fn available_actions(&self, context: &u32) -> Vec<u32> {
        self.0.iter().map(|x| x + context).collect()
    }
}

#[test]
fn collect_actions_concatenates_sources() {
    let a = Offers(vec![1, 2]);
    let b = Offers(vec![]);
    let c = Offers(vec![10]);
    let sources: Vec<&dyn ActionSource<u32, u32>> = vec![&a, &b, &c];
    assert_eq!(collect_actions(&sources, &100), vec![101, 102, 110]);
    assert_eq!(concat_actions(vec![vec![1], vec![], vec![2, 3]]), vec![1, 2, 3]);
}

#[test]
fn scoring_mode_and_hungarian_values() {
    assert_eq!(ScoringMode::Additive, ScoringMode::Additive);
    assert_ne!(ScoringMode::Additive, ScoringMode::Multiplicative);
    let _h: Hungarian = Hungarian::new();
    let _d: Hungarian = Hungarian::default();
}
