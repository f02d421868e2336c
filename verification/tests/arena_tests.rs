use telic::arena::game::GameOutcome;
use telic::arena::multiplayer::{
    continue_game, determine_finish_order, finish_ranks, outcome_ranks, sample_seats, tally_seats, tally_seats_fits,
    winner_of, ArenaCounts, HeadToHead,
};
use telic::rng::xorshift64;

#[test]
fn finish_order_winner_first() {
    assert_eq!(determine_finish_order(Some(GameOutcome::Winner(2)), 4), vec![2, 0, 1, 3]);
    assert_eq!(determine_finish_order(Some(GameOutcome::Draw), 3), vec![0, 1, 2]);
    assert_eq!(determine_finish_order(None, 2), vec![0, 1]);
    // A winner index beyond the seats is still put first.
    assert_eq!(determine_finish_order(Some(GameOutcome::Winner(7)), 2), vec![7, 0, 1]);
}

#[test]
fn ranks_follow_finish_order() {
    assert_eq!(finish_ranks(&vec![2, 0, 1, 3], 4), vec![1, 2, 0, 3]);
    // A seat missing from the order ranks last.
    assert_eq!(finish_ranks(&vec![1], 3), vec![2, 0, 2]);
}

#[test]
fn xorshift_matches_reference_step() {
    let mut s: u64 = 12345;
    let x = xorshift64(&mut s);
    let mut r: u64 = 12345;
    r ^= r << 13;
    r ^= r >> 7;
    r ^= r << 17;
    assert_eq!(x, r);
    assert_eq!(s, r);
}

#[test]
fn seat_sampling_avoids_same_type_on_second_seat() {
    let mut seed: u64 = 12345;
    let seats = sample_seats(&mut seed, 4, 3);
    // Reference computation.
    let mut r: u64 = 12345;
    let mut expected = Vec::new();
    for i in 0..4 {
        r ^= r << 13;
        r ^= r >> 7;
        r ^= r << 17;
        let mut t = r as usize % 3;
        if i == 1 && t == expected[0] {
            t = (t + 1) % 3;
        }
        expected.push(t);
    }
    assert_eq!(seats, expected);
    assert_eq!(seed, r);
    assert_ne!(seats[0], seats[1]);
    // With one type every seat gets it.
    let mut seed1: u64 = 99;
    assert_eq!(sample_seats(&mut seed1, 3, 1), vec![0, 0, 0]);
}

#[test]
fn tally_counts_games_and_wins() {
    let mut games = vec![0u32, 5, 0];
    let mut wins = vec![0u32, 1, 0];
    tally_seats(&mut games, &mut wins, &vec![1, 0, 1], Some(2));
    assert_eq!(games, vec![1, 7, 0]);
    assert_eq!(wins, vec![0, 2, 0]);
    tally_seats(&mut games, &mut wins, &vec![2, 2], None);
    assert_eq!(games, vec![1, 7, 2]);
    assert_eq!(wins, vec![0, 2, 0]);
}

#[test]
fn head_to_head_is_symmetric() {
    let names = vec!["a".to_string(), "b".to_string(), "c".to_string()];
    let mut h = HeadToHead::new();
    assert_eq!(h.len(), 0);
    // seats: a, b, a; ranks: b first, then seat 0, then seat 2.
    assert!(h.record_game(&names, &vec![0, 1, 0], &vec![1, 0, 2]));
    let a = "a".to_string();
    let b = "b".to_string();
    assert_eq!(h.get(&a, &b), Some((0, 2)));
    assert_eq!(h.get(&b, &a), Some((2, 0)));
    assert_eq!(h.get(&a, &a), None);
    assert_eq!(h.len(), 2);
    // A tie counts for neither side but creates the entries.
    assert!(h.record_game(&names, &vec![0, 2], &vec![1, 1]));
    let c = "c".to_string();
    assert_eq!(h.get(&a, &c), Some((0, 0)));
    assert_eq!(h.get(&c, &a), Some((0, 0)));
    for i in 0..h.len() {
        let (x, y, w, l) = h.entry(i);
        assert_eq!(h.get(y, x), Some((l, w)));
    }
}

#[test]
fn finish_order_lists_each_seat_once() {
    for w in 0..4usize {
        let order = determine_finish_order(Some(GameOutcome::Winner(w)), 4);
        let mut sorted = order.clone();
        sorted.sort();
        assert_eq!(sorted, vec![0, 1, 2, 3]);
        let ranks = finish_ranks(&order, 4);
        assert_eq!(ranks[w], 0);
        let mut r = ranks.clone();
        r.sort();
        assert_eq!(r, vec![0, 1, 2, 3]);
    }
    // A winner outside the table is still listed first.
    assert_eq!(determine_finish_order(Some(GameOutcome::Winner(7)), 2), vec![7, 0, 1]);
    assert_eq!(determine_finish_order(Some(GameOutcome::Draw), 3), vec![0, 1, 2]);
    assert_eq!(determine_finish_order(None, 2), vec![0, 1]);
}

#[test]
fn game_continues_until_terminal_or_turn_limit() {
    assert!(continue_game(false, 0, 500));
    assert!(!continue_game(true, 0, 500));
    assert!(!continue_game(false, 500, 500));
    assert!(continue_game(false, 499, 500));
}

#[test]
fn tally_fits_only_below_u32_max() {
    let games = vec![u32::MAX, 0];
    let wins = vec![0, u32::MAX];
    assert!(!tally_seats_fits(&games, &wins, &vec![0], None));
    assert!(tally_seats_fits(&games, &wins, &vec![1, 1], None));
    assert!(!tally_seats_fits(&games, &wins, &vec![1, 1], Some(0)));
    // A winner seat outside the table counts no win.
    assert!(tally_seats_fits(&games, &wins, &vec![1, 1], Some(5)));
    assert!(tally_seats_fits(&vec![u32::MAX - 2, 0], &vec![0, 0], &vec![0, 0], Some(1)));
    assert!(!tally_seats_fits(&vec![u32::MAX - 2, 0], &vec![0, 0], &vec![0, 0, 0], Some(1)));
}

#[test]
fn xorshift_zero_stays_zero_and_nonzero_stays_nonzero() {
    let mut z = 0u64;
    assert_eq!(xorshift64(&mut z), 0);
    let mut x = 1u64;
    for _ in 0..1000 {
        assert_ne!(xorshift64(&mut x), 0);
    }
}

#[test]
fn draw_ties_every_seat_and_has_no_winner() {
    assert_eq!(winner_of(Some(GameOutcome::Draw)), None);
    assert_eq!(winner_of(None), None);
    assert_eq!(winner_of(Some(GameOutcome::Winner(2))), Some(2));
    assert_eq!(outcome_ranks(Some(GameOutcome::Draw), 3), vec![0, 0, 0]);
    assert_eq!(outcome_ranks(None, 2), vec![0, 0]);
    assert_eq!(outcome_ranks(Some(GameOutcome::Winner(2)), 4), vec![1, 2, 0, 3]);
    // A drawn game counts no win and moves no head-to-head count.
    let names = vec!["a".to_string(), "b".to_string()];
    let mut h = HeadToHead::new();
    assert!(h.record_game(&names, &vec![0, 1], &outcome_ranks(Some(GameOutcome::Draw), 2)));
    assert_eq!(h.get(&"a".to_string(), &"b".to_string()), Some((0, 0)));
    assert_eq!(h.get(&"b".to_string(), &"a".to_string()), Some((0, 0)));
    let mut games = vec![0u32, 0];
    let mut wins = vec![0u32, 0];
    tally_seats(&mut games, &mut wins, &vec![0, 1], winner_of(Some(GameOutcome::Draw)));
    assert_eq!(games, vec![1, 1]);
    assert_eq!(wins, vec![0, 0]);
}

#[test]
fn arena_counts_over_games() {
    let names = vec!["a".to_string(), "b".to_string()];
    let mut c = ArenaCounts::new(2);
    assert_eq!(c.games_played, vec![0, 0]);
    assert!(c.record(&names, &vec![0, 1], Some(GameOutcome::Winner(1))));
    assert!(c.record(&names, &vec![1, 1], Some(GameOutcome::Winner(0))));
    assert!(c.record(&names, &vec![1, 0], Some(GameOutcome::Draw)));
    // Three games of two seats: six games played in all, two wins.
    assert_eq!(c.games_played, vec![2, 4]);
    assert_eq!(c.wins, vec![0, 2]);
    assert_eq!(c.head_to_head.get(&"b".to_string(), &"a".to_string()), Some((1, 0)));
    assert_eq!(c.head_to_head.get(&"a".to_string(), &"b".to_string()), Some((0, 1)));
    assert_eq!(c.head_to_head.len(), 2);
}
