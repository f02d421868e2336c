//! Per-game bookkeeping of the multi-player arena: seat sampling, finish
//! order, ranks and win counts.

use vstd::prelude::*;

use crate::arena::game::GameOutcome;
use crate::planning::belief::{copy_names, names_of};
use crate::rng::{xorshift64, xorshift_iter, xorshift_step};

verus! {

/// Result of a single multi-player game.
#[derive(Debug)]
pub struct MultiGameResult {
    /// Agent type name per seat.
    pub seats: Vec<String>,
    /// Finish order: seat indices from 1st to last.
    pub finish_order: Vec<usize>,
    /// Winner seat index (first in finish order).
    pub winner: Option<usize>,
    pub turns: u32,
    pub duration: std::time::Duration,
}

impl Clone for MultiGameResult {
    fn clone(&self) -> (r: Self)
        ensures
            names_of(r.seats@) == names_of(self.seats@),
            r.finish_order@ == self.finish_order@,
            r.winner == self.winner,
            r.turns == self.turns,
    {
        let mut order: Vec<usize> = Vec::new();
        let n = self.finish_order.len();
        let mut i: usize = 0;
        while i < n
            invariant
                n == self.finish_order@.len(),
                0 <= i <= n,
                order@ == self.finish_order@.take(i as int),
            decreases n - i,
        {
            order.push(self.finish_order[i]);
            proof {
                assert(self.finish_order@.take(i + 1) =~= self.finish_order@.take(i as int).push(self.finish_order@[i as int]));
            }
            i += 1;
        }
        proof {
            assert(self.finish_order@.take(n as int) =~= self.finish_order@);
        }
        MultiGameResult {
            seats: copy_names(&self.seats),
            finish_order: order,
            winner: self.winner,
            turns: self.turns,
            duration: self.duration,
        }
    }
}

/// Whether the arena plays another tick of a game: the game is not over
/// and the turn limit is not reached.
pub fn continue_game(is_terminal: bool, turn: u32, max_turns: u32) -> (b: bool)
    ensures
        b == (!is_terminal && turn < max_turns),
{
    !is_terminal && turn < max_turns
}

/// The seats other than `w`, in index order.
pub open spec fn seats_except(w: usize, n: nat) -> Seq<usize> {
    if w < n {
        Seq::new((n - 1) as nat, |i: int| if i < w { i as usize } else { (i + 1) as usize })
    } else {
        Seq::new(n, |i: int| i as usize)
    }
}

/// Finish order of a game with a winner: the winner first, then every
/// other seat in index order. Without a winner (a draw, or no outcome)
/// every seat ties; the order then only lists the seats in index order, and
/// `outcome_ranks` gives them all the same rank.
pub open spec fn finish_order_of(outcome: Option<GameOutcome>, n: nat) -> Seq<usize> {
    match outcome {
        Some(GameOutcome::Winner(w)) => seq![w] + seats_except(w, n),
        _ => Seq::new(n, |i: int| i as usize),
    }
}

/// The outcome names a seat among `n`, or no winner.
pub open spec fn names_seat_or_none(outcome: Option<GameOutcome>, n: nat) -> bool {
    outcome matches Some(GameOutcome::Winner(w)) ==> w < n
}

/// `order` lists each of the seats `0..n` exactly once.
pub open spec fn is_seat_order(order: Seq<usize>, n: nat) -> bool {
    &&& order.len() == n
    &&& order.no_duplicates()
    &&& forall|i: int| 0 <= i < order.len() ==> order[i] < n
}

proof fn lemma_finish_order_is_seat_order(outcome: Option<GameOutcome>, n: nat)
    requires
        names_seat_or_none(outcome, n),
        n <= usize::MAX,
    ensures
        is_seat_order(finish_order_of(outcome, n), n),
{
    let order = finish_order_of(outcome, n);
    match outcome {
        Some(GameOutcome::Winner(w)) => {
            let rest = seats_except(w, n);
            assert(rest.len() == n - 1);
            assert forall|k: int| 0 <= k < rest.len() implies #[trigger] rest[k] == (if k < w { k } else { k + 1 }) && rest[k] != w by {
            }
            assert(order == seq![w] + rest);
            assert forall|i: int, j: int| 0 <= i < order.len() && 0 <= j < order.len() && i != j implies order[i] != order[j] by {
                if i > 0 {
                    assert(order[i] == rest[i - 1]);
                }
                if j > 0 {
                    assert(order[j] == rest[j - 1]);
                }
            }
            assert forall|i: int| 0 <= i < order.len() implies order[i] < n by {
                if i > 0 {
                    assert(order[i] == rest[i - 1]);
                }
            }
        },
        _ => {},
    }
}

/// Finish order of a game from its outcome (`num_players` seats): with a
/// winner, the winner first and the other seats in index order; without
/// one, the seats in index order, all tied (see `outcome_ranks`).
pub fn determine_finish_order(outcome: Option<GameOutcome>, num_players: usize) -> (order: Vec<usize>)
    ensures
        order@ == finish_order_of(outcome, num_players as nat),
        names_seat_or_none(outcome, num_players as nat) ==> is_seat_order(order@, num_players as nat),
{
    match outcome {
        Some(GameOutcome::Winner(w)) => {
            let mut order: Vec<usize> = Vec::new();
            order.push(w);
            let mut i: usize = 0;
            while i < num_players
                invariant
                    0 <= i <= num_players,
                    order@ == seq![w] + (if w < i { Seq::new((i - 1) as nat, |k: int| if k < w { k as usize } else { (k + 1) as usize }) } else { Seq::new(i as nat, |k: int| k as usize) }),
                decreases num_players - i,
            {
                if i != w {
                    order.push(i);
                }
                proof {
                    let ni = (i + 1) as nat;
                    if w < i + 1 {
                        assert(order@ =~= seq![w] + Seq::new((ni - 1) as nat, |k: int| if k < w { k as usize } else { (k + 1) as usize }));
                    } else {
                        assert(order@ =~= seq![w] + Seq::new(ni, |k: int| k as usize));
                    }
                }
                i += 1;
            }
            proof {
                assert(order@ =~= finish_order_of(outcome, num_players as nat));
                if names_seat_or_none(outcome, num_players as nat) {
                    lemma_finish_order_is_seat_order(outcome, num_players as nat);
                }
            }
            order
        },
        _ => {
            let mut order: Vec<usize> = Vec::new();
            let mut i: usize = 0;
            while i < num_players
                invariant
                    0 <= i <= num_players,
                    order@ == Seq::new(i as nat, |k: int| k as usize),
                decreases num_players - i,
            {
                order.push(i);
                proof {
                    assert(order@ =~= Seq::new((i + 1) as nat, |k: int| k as usize));
                }
                i += 1;
            }
            proof {
                if names_seat_or_none(outcome, num_players as nat) {
                    lemma_finish_order_is_seat_order(outcome, num_players as nat);
                }
            }
            order
        },
    }
}

/// Position of `seat` in `order` at or after `from`, or `None`.
pub open spec fn position_of(order: Seq<usize>, seat: usize, from: int) -> Option<int>
    decreases order.len() - from,
{
    if from < 0 || from >= order.len() {
        None
    } else if order[from] == seat {
        Some(from)
    } else {
        position_of(order, seat, from + 1)
    }
}

/// Rank of each seat: its position in the finish order (0 is first), or
/// last place (`n - 1`) when the order does not list it.
pub open spec fn rank_of(order: Seq<usize>, seat: usize, n: nat) -> int {
    match position_of(order, seat, 0) {
        Some(p) => p,
        None => n - 1,
    }
}

proof fn lemma_position_skip(order: Seq<usize>, seat: usize, from: int, to: int)
    requires
        0 <= from <= to <= order.len(),
        forall|m: int| from <= m < to ==> order[m] != seat,
    ensures
        position_of(order, seat, from) == position_of(order, seat, to),
    decreases to - from,
{
    if from < to {
        lemma_position_skip(order, seat, from + 1, to);
    }
}

fn find_position(order: &Vec<usize>, seat: usize) -> (r: Option<usize>)
    ensures
        match r {
            Some(p) => position_of(order@, seat, 0) == Some(p as int),
            None => position_of(order@, seat, 0) is None,
        },
{
    let n = order.len();
    let mut i: usize = 0;
    while i < n
        invariant
            n == order@.len(),
            0 <= i <= n,
            forall|m: int| 0 <= m < i ==> order@[m] != seat,
        decreases n - i,
    {
        if order[i] == seat {
            proof {
                lemma_position_skip(order@, seat, 0, i as int);
            }
            return Some(i);
        }
        i += 1;
    }
    proof {
        lemma_position_skip(order@, seat, 0, n as int);
    }
    None
}

proof fn lemma_position_found(order: Seq<usize>, seat: usize, from: int)
    requires
        0 <= from,
    ensures
        position_of(order, seat, from) matches Some(p) ==> from <= p < order.len() && order[p] == seat,
        (exists|i: int| from <= i < order.len() && order[i] == seat) ==> position_of(order, seat, from) is Some,
    decreases order.len() - from,
{
    if from < order.len() && order[from] != seat {
        lemma_position_found(order, seat, from + 1);
        if exists|i: int| from <= i < order.len() && order[i] == seat {
            let i = choose|i: int| from <= i < order.len() && order[i] == seat;
            assert(from + 1 <= i);
        }
    }
}

/// In a finish order that lists each seat once, the first seat has rank 0,
/// and the seats have distinct ranks below the number of seats.
pub proof fn lemma_seat_order_ranks(order: Seq<usize>, n: nat)
    requires
        is_seat_order(order, n),
        n >= 1,
    ensures
        rank_of(order, order[0], n) == 0,
        forall|s: usize| s < n ==> 0 <= #[trigger] rank_of(order, s, n) < n && order[rank_of(order, s, n)] == s,
        forall|s: usize, t: usize| s < n && t < n && s != t ==> #[trigger] rank_of(order, s, n) != #[trigger] rank_of(order, t, n),
{
    assert(position_of(order, order[0], 0) == Some(0int));
    assert forall|s: usize| s < n implies 0 <= #[trigger] rank_of(order, s, n) < n && order[rank_of(order, s, n)] == s by {
        lemma_position_found(order, s, 0);
        lemma_every_seat_listed(order, n, s);
    }
    assert forall|s: usize, t: usize| s < n && t < n && s != t implies #[trigger] rank_of(order, s, n) != #[trigger] rank_of(order, t, n) by {
        assert(order[rank_of(order, s, n)] == s);
        assert(order[rank_of(order, t, n)] == t);
    }
}

proof fn lemma_every_seat_listed(order: Seq<usize>, n: nat, s: usize)
    requires
        is_seat_order(order, n),
        s < n,
    ensures
        exists|i: int| 0 <= i < order.len() && order[i] == s,
{
    if forall|i: int| 0 <= i < order.len() ==> order[i] != s {
        // The order would hold n distinct seats among the n - 1 others.
        let full = Set::new(|x: usize| x < n);
        let seen = order.to_set();
        assert(seen.subset_of(full.remove(s)));
        lemma_below_len(n);
        order.unique_seq_to_set();
        vstd::set_lib::lemma_len_subset(seen, full.remove(s));
        assert(false);
    }
}

proof fn lemma_below_len(n: nat)
    ensures
        Set::new(|x: usize| x < n).finite(),
        Set::new(|x: usize| x < n).len() == (if n <= usize::MAX + 1 { n } else { (usize::MAX + 1) as nat }),
    decreases n,
{
    if n == 0 {
        assert(Set::new(|x: usize| x < n) =~= Set::<usize>::empty());
    } else {
        lemma_below_len((n - 1) as nat);
        if n <= usize::MAX + 1 {
            assert(Set::new(|x: usize| x < n) =~= Set::new(|x: usize| x < n - 1).insert((n - 1) as usize));
        } else {
            assert(Set::new(|x: usize| x < n) =~= Set::new(|x: usize| x < n - 1));
        }
    }
}

/// The rank of every seat `0..num_players` in the finish order.
pub fn finish_ranks(finish_order: &Vec<usize>, num_players: usize) -> (ranks: Vec<usize>)
    ensures
        ranks@.len() == num_players,
        forall|s: int| 0 <= s < num_players ==> ranks@[s] as int == rank_of(finish_order@, s as usize, num_players as nat),
        num_players >= 1 && is_seat_order(finish_order@, num_players as nat) ==> {
            &&& ranks@[finish_order@[0] as int] == 0
            &&& forall|s: int| 0 <= s < num_players ==> ranks@[s] < num_players
            &&& forall|s: int, t: int| 0 <= s < num_players && 0 <= t < num_players && s != t ==> ranks@[s] != ranks@[t]
        },
{
    let mut ranks: Vec<usize> = Vec::new();
    let mut s: usize = 0;
    while s < num_players
        invariant
            0 <= s <= num_players,
            ranks@.len() == s,
            forall|k: int| 0 <= k < s ==> ranks@[k] as int == rank_of(finish_order@, k as usize, num_players as nat),
        decreases num_players - s,
    {
        let r = match find_position(finish_order, s) {
            Some(p) => p,
            None => num_players - 1,
        };
        ranks.push(r);
        s += 1;
    }
    proof {
        if num_players >= 1 && is_seat_order(finish_order@, num_players as nat) {
            lemma_seat_order_ranks(finish_order@, num_players as nat);
        }
    }
    ranks
}

/// The winning seat of an outcome, if there is one: a draw or no outcome
/// has no winner.
pub fn winner_of(outcome: Option<GameOutcome>) -> (w: Option<usize>)
    ensures
        w == (match outcome {
            Some(GameOutcome::Winner(s)) => Some(s),
            _ => None::<usize>,
        }),
{
    match outcome {
        Some(GameOutcome::Winner(s)) => Some(s),
        _ => None,
    }
}

/// Every seat has the same rank.
pub open spec fn all_tied(ranks: Seq<usize>) -> bool {
    forall|i: int, j: int| 0 <= i < ranks.len() && 0 <= j < ranks.len() ==> ranks[i] == ranks[j]
}

/// The ranks of the seats `0..n` from an outcome: with a winner, each
/// seat's place in the finish order; without one, 0 for every seat.
pub open spec fn outcome_rank_seq(outcome: Option<GameOutcome>, n: nat) -> Seq<usize> {
    Seq::new(n, |s: int|
        match outcome {
            Some(GameOutcome::Winner(_)) => rank_of(finish_order_of(outcome, n), s as usize, n) as usize,
            _ => 0usize,
        })
}

/// The rank of every seat `0..num_players` from the outcome of a game
/// (0 is first): with a winner, each seat's place in the finish order (the
/// winner first); without one (a draw, or no outcome), every seat ties at
/// rank 0.
pub fn outcome_ranks(outcome: Option<GameOutcome>, num_players: usize) -> (ranks: Vec<usize>)
    ensures
        ranks@.len() == num_players,
        ranks@ == outcome_rank_seq(outcome, num_players as nat),
        outcome matches Some(GameOutcome::Winner(w)) ==> forall|s: int| 0 <= s < num_players
            ==> ranks@[s] as int == rank_of(finish_order_of(outcome, num_players as nat), s as usize, num_players as nat),
        !(outcome matches Some(GameOutcome::Winner(_))) ==> forall|s: int| 0 <= s < num_players ==> ranks@[s] == 0,
        !(outcome matches Some(GameOutcome::Winner(_))) ==> all_tied(ranks@),
        outcome matches Some(GameOutcome::Winner(w)) ==> (w < num_players ==> {
            &&& ranks@[w as int] == 0
            &&& forall|s: int| 0 <= s < num_players ==> ranks@[s] < num_players
            &&& forall|s: int, t: int| 0 <= s < num_players && 0 <= t < num_players && s != t ==> ranks@[s] != ranks@[t]
        }),
{
    match outcome {
        Some(GameOutcome::Winner(w)) => {
            let order = determine_finish_order(outcome, num_players);
            proof {
                if w < num_players {
                    assert(order@[0] == w);
                }
            }
            let ranks = finish_ranks(&order, num_players);
            proof {
                assert(ranks@ =~= outcome_rank_seq(outcome, num_players as nat));
            }
            ranks
        },
        _ => {
            let mut ranks: Vec<usize> = Vec::new();
            let mut s: usize = 0;
            while s < num_players
                invariant
                    0 <= s <= num_players,
                    ranks@.len() == s,
                    forall|k: int| 0 <= k < s ==> ranks@[k] == 0,
                decreases num_players - s,
            {
                ranks.push(0);
                s += 1;
            }
            proof {
                assert(ranks@ =~= outcome_rank_seq(outcome, num_players as nat));
            }
            ranks
        },
    }
}

/// Raw type drawn for seat `i`: the generator state after `i + 1` steps,
/// as an index, modulo the number of types.
pub open spec fn raw_seat_type(seed: u64, i: nat, n_types: usize) -> usize {
    ((xorshift_iter(seed, i + 1) as usize) % n_types) as usize
}

/// Agent types of the seats of one game. Each seat draws a type from the
/// generator; when there are several types, the second seat avoids the
/// first seat's type by taking the next one.
pub open spec fn seat_types_of(seed: u64, players: nat, n_types: usize) -> Seq<usize> {
    Seq::new(players, |i: int|
        if i == 1 && n_types > 1 && raw_seat_type(seed, 1, n_types) == raw_seat_type(seed, 0, n_types) {
            ((raw_seat_type(seed, 1, n_types) + 1) % (n_types as int)) as usize
        } else {
            raw_seat_type(seed, i as nat, n_types)
        })
}

/// Draw the agent type of each of `players` seats among `n_types` types,
/// advancing the generator `seed` once per seat.
pub fn sample_seats(seed: &mut u64, players: usize, n_types: usize) -> (seats: Vec<usize>)
    requires
        n_types > 0,
    ensures
        seats@ == seat_types_of(*old(seed), players as nat, n_types),
        *final(seed) == xorshift_iter(*old(seed), players as nat),
        forall|i: int| 0 <= i < seats@.len() ==> seats@[i] < n_types,
        players >= 2 && n_types > 1 ==> seats@[0] != seats@[1],
{
    let ghost start = *seed;
    let mut seats: Vec<usize> = Vec::new();
    let mut i: usize = 0;
    while i < players
        invariant
            0 <= i <= players,
            n_types > 0,
            *seed == xorshift_iter(start, i as nat),
            seats@ == seat_types_of(start, players as nat, n_types).take(i as int),
        decreases players - i,
    {
        let x = xorshift64(seed);
        let mut t = (x as usize) % n_types;
        proof {
            assert(xorshift_iter(start, (i + 1) as nat) == xorshift_step(xorshift_iter(start, i as nat)));
            assert(t == raw_seat_type(start, i as nat, n_types));
        }
        if i == 1 && t == seats[0] && n_types > 1 {
            proof {
                assert(seats@[0] == seat_types_of(start, players as nat, n_types)[0]);
            }
            t = (t + 1) % n_types;
        } else {
            proof {
                if i == 1 && n_types > 1 {
                    assert(seats@[0] == seat_types_of(start, players as nat, n_types)[0]);
                }
            }
        }
        seats.push(t);
        proof {
            assert(seats@ =~= seat_types_of(start, players as nat, n_types).take(i + 1));
        }
        i += 1;
    }
    proof {
        assert(seats@ =~= seat_types_of(start, players as nat, n_types));
        if players >= 2 && n_types > 1 {
            let r0 = raw_seat_type(start, 0, n_types);
            let r1 = raw_seat_type(start, 1, n_types);
            if r1 == r0 {
                if r1 + 1 < n_types {
                    vstd::arithmetic::div_mod::lemma_small_mod((r1 + 1) as nat, n_types as nat);
                } else {
                    vstd::arithmetic::div_mod::lemma_mod_self_0(n_types as int);
                }
            }
        }
    }
    seats
}

/// Number of seats below `upto` with agent type `t`.
pub open spec fn seats_of_type(seats: Seq<usize>, t: usize, upto: int) -> nat
    decreases upto,
{
    if upto <= 0 || upto > seats.len() {
        0
    } else {
        seats_of_type(seats, t, upto - 1) + if seats[upto - 1] == t { 1nat } else { 0nat }
    }
}

/// The sum of the counts.
pub open spec fn total(s: Seq<u32>) -> int
    decreases s.len(),
{
    if s.len() == 0 {
        0
    } else {
        total(s.drop_last()) + s.last()
    }
}

proof fn lemma_total_update(s: Seq<u32>, i: int, v: u32)
    requires
        0 <= i < s.len(),
    ensures
        total(s.update(i, v)) == total(s) - s[i] + v,
    decreases s.len(),
{
    let u = s.update(i, v);
    if i == s.len() - 1 {
        assert(u.drop_last() =~= s.drop_last());
    } else {
        lemma_total_update(s.drop_last(), i, v);
        assert(u.drop_last() =~= s.drop_last().update(i, v));
    }
}

/// Counting a game with these seats and this winner keeps every count
/// within u32.
pub open spec fn seats_tally_fits(games_played: Seq<u32>, wins: Seq<u32>, seat_types: Seq<usize>, winner: Option<usize>) -> bool {
    &&& forall|t: usize| t < games_played.len()
        ==> games_played[t as int] + #[trigger] seats_of_type(seat_types, t, seat_types.len() as int) <= u32::MAX
    &&& winner matches Some(w) ==> (w < seat_types.len() ==> wins[seat_types[w as int] as int] < u32::MAX)
}

/// Number of seats with agent type `t`.
fn count_seats_of_type(seat_types: &Vec<usize>, t: usize) -> (c: usize)
    ensures
        c == seats_of_type(seat_types@, t, seat_types@.len() as int),
{
    let n = seat_types.len();
    let mut c: usize = 0;
    let mut s: usize = 0;
    while s < n
        invariant
            n == seat_types@.len(),
            0 <= s <= n,
            c == seats_of_type(seat_types@, t, s as int),
            c <= s,
        decreases n - s,
    {
        if seat_types[s] == t {
            c += 1;
        }
        s += 1;
    }
    c
}

/// Whether `tally_seats` can count this game without a count passing
/// `u32::MAX`.
pub fn tally_seats_fits(games_played: &Vec<u32>, wins: &Vec<u32>, seat_types: &Vec<usize>, winner: Option<usize>) -> (b: bool)
    requires
        games_played@.len() == wins@.len(),
        forall|i: int| 0 <= i < seat_types@.len() ==> seat_types@[i] < games_played@.len(),
    ensures
        b == seats_tally_fits(games_played@, wins@, seat_types@, winner),
{
    let n_types = games_played.len();
    let mut t: usize = 0;
    while t < n_types
        invariant
            n_types == games_played@.len(),
            0 <= t <= n_types,
            forall|u: usize| u < t ==> games_played@[u as int] + #[trigger] seats_of_type(seat_types@, u, seat_types@.len() as int) <= u32::MAX,
        decreases n_types - t,
    {
        let c = count_seats_of_type(seat_types, t);
        let room = u32::MAX - games_played[t];
        if c > room as usize {
            return false;
        }
        t += 1;
    }
    match winner {
        Some(w) => {
            if w < seat_types.len() && wins[seat_types[w]] == u32::MAX {
                return false;
            }
            true
        },
        None => true,
    }
}

/// Count one game per seat and one win for the winning seat's type:
/// `games_played[t]` grows by the number of seats of type `t`, `wins[t]`
/// by one when the winner sits on a seat of type `t`.
pub fn tally_seats(games_played: &mut Vec<u32>, wins: &mut Vec<u32>, seat_types: &Vec<usize>, winner: Option<usize>)
    requires
        old(games_played)@.len() == old(wins)@.len(),
        forall|i: int| 0 <= i < seat_types@.len() ==> seat_types@[i] < old(games_played)@.len(),
        seats_tally_fits(old(games_played)@, old(wins)@, seat_types@, winner),
    ensures
        final(games_played)@.len() == old(games_played)@.len(),
        final(wins)@.len() == old(wins)@.len(),
        forall|t: usize| t < old(games_played)@.len() ==> final(games_played)@[t as int]
            == old(games_played)@[t as int] + seats_of_type(seat_types@, t, seat_types@.len() as int),
        forall|t: usize| t < old(wins)@.len() ==> final(wins)@[t as int]
            == old(wins)@[t as int] + (if winner matches Some(w) && w < seat_types@.len() && seat_types@[w as int] == t { 1int } else { 0int }),
        total(final(games_played)@) == total(old(games_played)@) + seat_types@.len(),
        total(final(wins)@) == total(old(wins)@) + (if winner matches Some(w) && w < seat_types@.len() { 1int } else { 0int }),
{
    let n = seat_types.len();
    let mut s: usize = 0;
    while s < n
        invariant
            n == seat_types@.len(),
            0 <= s <= n,
            games_played@.len() == old(games_played)@.len(),
            wins@.len() == old(wins)@.len(),
            old(games_played)@.len() == old(wins)@.len(),
            forall|i: int| 0 <= i < n ==> seat_types@[i] < old(games_played)@.len(),
            forall|t: usize| t < old(games_played)@.len() ==> old(games_played)@[t as int] + seats_of_type(seat_types@, t, n as int) <= u32::MAX,
            winner matches Some(w) ==> (w < n ==> old(wins)@[seat_types@[w as int] as int] < u32::MAX),
            forall|t: usize| t < old(games_played)@.len() ==> #[trigger] games_played@[t as int]
                == old(games_played)@[t as int] + seats_of_type(seat_types@, t, s as int),
            forall|t: usize| t < old(wins)@.len() ==> #[trigger] wins@[t as int]
                == old(wins)@[t as int] + (if winner matches Some(w) && w < s && seat_types@[w as int] == t { 1int } else { 0int }),
            total(games_played@) == total(old(games_played)@) + s,
            total(wins@) == total(old(wins)@) + (if winner matches Some(w) && w < s { 1int } else { 0int }),
        decreases n - s,
    {
        let t = seat_types[s];
        proof {
            lemma_seats_of_type_monotone(seat_types@, t, s + 1, n as int);
            assert(seats_of_type(seat_types@, t, s + 1) == seats_of_type(seat_types@, t, s as int) + 1);
        }
        let g = games_played[t];
        proof {
            lemma_total_update(games_played@, t as int, (g + 1) as u32);
        }
        games_played.set(t, g + 1);
        if winner == Some(s) {
            let w = wins[t];
            proof {
                lemma_total_update(wins@, t as int, (w + 1) as u32);
            }
            wins.set(t, w + 1);
        }
        proof {
            assert forall|u: usize| u < old(games_played)@.len() implies #[trigger] games_played@[u as int]
                == old(games_played)@[u as int] + seats_of_type(seat_types@, u, s + 1) by {
                assert(seats_of_type(seat_types@, u, s + 1) == seats_of_type(seat_types@, u, s as int)
                    + if seat_types@[s as int] == u { 1nat } else { 0nat });
            }
        }
        s += 1;
    }
}

proof fn lemma_seats_of_type_monotone(seats: Seq<usize>, t: usize, a: int, b: int)
    requires
        0 <= a <= b <= seats.len(),
    ensures
        seats_of_type(seats, t, a) <= seats_of_type(seats, t, b),
    decreases b - a,
{
    if a < b {
        lemma_seats_of_type_monotone(seats, t, a, b - 1);
    }
}

} // verus!

verus! {

/// Key of a head-to-head entry: the two agent type names.
pub open spec fn entry_key(e: ((String, String), (u32, u32))) -> (Seq<char>, Seq<char>) {
    (e.0.0@, e.0.1@)
}

/// The keys of the entries, in order.
pub open spec fn keys_of(es: Seq<((String, String), (u32, u32))>) -> Seq<(Seq<char>, Seq<char>)> {
    es.map_values(|e: ((String, String), (u32, u32))| entry_key(e))
}

/// The table the entries hold (keys are distinct).
pub open spec fn table_of(es: Seq<((String, String), (u32, u32))>) -> Map<(Seq<char>, Seq<char>), (u32, u32)> {
    Map::new(
        |k: (Seq<char>, Seq<char>)| keys_of(es).contains(k),
        |k: (Seq<char>, Seq<char>)| es[keys_of(es).index_of(k)].1,
    )
}

/// For every pair of names, the entry for `(a, b)` is the entry for
/// `(b, a)` with its two counts swapped.
pub open spec fn symmetric(m: Map<(Seq<char>, Seq<char>), (u32, u32)>) -> bool {
    forall|a: Seq<char>, b: Seq<char>| #[trigger] m.contains_key((a, b)) ==> {
        &&& m.contains_key((b, a))
        &&& m[(a, b)].0 == m[(b, a)].1
        &&& m[(a, b)].1 == m[(b, a)].0
    }
}

/// Count one more finish above (`ahead`) and/or below (`behind`) for `k`,
/// starting from zero when `k` is new.
pub open spec fn bump(m: Map<(Seq<char>, Seq<char>), (u32, u32)>, k: (Seq<char>, Seq<char>), ahead: bool, behind: bool) -> Map<(Seq<char>, Seq<char>), (u32, u32)> {
    let v = if m.contains_key(k) { m[k] } else { (0u32, 0u32) };
    m.insert(k, ((v.0 + if ahead { 1int } else { 0int }) as u32, (v.1 + if behind { 1int } else { 0int }) as u32))
}

/// The update for seats `i` and `j` of different types: the key of their
/// type names in both directions.
pub open spec fn pair_step(
    m: Map<(Seq<char>, Seq<char>), (u32, u32)>,
    names: Seq<Seq<char>>,
    seats: Seq<usize>,
    ranks: Seq<usize>,
    i: int,
    j: int,
) -> Map<(Seq<char>, Seq<char>), (u32, u32)> {
    if seats[i] == seats[j] {
        m
    } else {
        let a = names[seats[i] as int];
        let b = names[seats[j] as int];
        let m1 = bump(m, (a, b), ranks[i] < ranks[j], ranks[j] < ranks[i]);
        bump(m1, (b, a), ranks[j] < ranks[i], ranks[i] < ranks[j])
    }
}

/// The table after the updates for every seat pair `(i, j)`, `i < j`, from
/// `(i, j)` on in row order.
pub open spec fn tally_pairs(
    m: Map<(Seq<char>, Seq<char>), (u32, u32)>,
    names: Seq<Seq<char>>,
    seats: Seq<usize>,
    ranks: Seq<usize>,
    i: int,
    j: int,
) -> Map<(Seq<char>, Seq<char>), (u32, u32)>
    decreases seats.len() - i, seats.len() - j,
{
    if i < 0 || j < 0 || i >= seats.len() {
        m
    } else if j >= seats.len() {
        tally_pairs(m, names, seats, ranks, i + 1, i + 2)
    } else {
        tally_pairs(pair_step(m, names, seats, ranks, i, j), names, seats, ranks, i, j + 1)
    }
}

/// Counting `ahead` and `behind` for key `k` keeps both counts within u32.
pub open spec fn bump_fits(m: Map<(Seq<char>, Seq<char>), (u32, u32)>, k: (Seq<char>, Seq<char>), ahead: bool, behind: bool) -> bool {
    m.contains_key(k) ==> (ahead ==> m[k].0 < u32::MAX) && (behind ==> m[k].1 < u32::MAX)
}

/// The update for seats `i` and `j` keeps every count within u32.
pub open spec fn pair_fits(
    m: Map<(Seq<char>, Seq<char>), (u32, u32)>,
    names: Seq<Seq<char>>,
    seats: Seq<usize>,
    ranks: Seq<usize>,
    i: int,
    j: int,
) -> bool {
    seats[i] == seats[j] || {
        let a = names[seats[i] as int];
        let b = names[seats[j] as int];
        let m1 = bump(m, (a, b), ranks[i] < ranks[j], ranks[j] < ranks[i]);
        &&& bump_fits(m, (a, b), ranks[i] < ranks[j], ranks[j] < ranks[i])
        &&& bump_fits(m1, (b, a), ranks[j] < ranks[i], ranks[i] < ranks[j])
    }
}

/// Every update of `tally_pairs` from `(i, j)` on keeps the counts within
/// u32.
pub open spec fn tally_fits(
    m: Map<(Seq<char>, Seq<char>), (u32, u32)>,
    names: Seq<Seq<char>>,
    seats: Seq<usize>,
    ranks: Seq<usize>,
    i: int,
    j: int,
) -> bool
    decreases seats.len() - i, seats.len() - j,
{
    if i < 0 || j < 0 || i >= seats.len() {
        true
    } else if j >= seats.len() {
        tally_fits(m, names, seats, ranks, i + 1, i + 2)
    } else {
        pair_fits(m, names, seats, ranks, i, j) && tally_fits(pair_step(m, names, seats, ranks, i, j), names, seats, ranks, i, j + 1)
    }
}

proof fn lemma_bump_symmetric_pair(m: Map<(Seq<char>, Seq<char>), (u32, u32)>, a: Seq<char>, b: Seq<char>, x: bool, y: bool)
    requires
        symmetric(m),
    ensures
        symmetric(bump(bump(m, (a, b), x, y), (b, a), y, x)),
{
    let m1 = bump(m, (a, b), x, y);
    let m2 = bump(m1, (b, a), y, x);
    assert forall|p: Seq<char>, q: Seq<char>| #[trigger] m2.contains_key((p, q)) implies {
        &&& m2.contains_key((q, p))
        &&& m2[(p, q)].0 == m2[(q, p)].1
        &&& m2[(p, q)].1 == m2[(q, p)].0
    } by {
        if (p, q) == (a, b) || (p, q) == (b, a) {
            if a == b {
                assert(m.contains_key((a, a)) ==> m[(a, a)].0 == m[(a, a)].1);
            } else {
                assert(m.contains_key((a, b)) ==> m.contains_key((b, a)));
                assert(m.contains_key((b, a)) ==> m.contains_key((a, b)));
            }
        } else {
            assert(m.contains_key((p, q)));
            assert(m.contains_key((q, p)));
            assert((q, p) != (a, b) && (q, p) != (b, a));
        }
    }
}

/// The head-to-head table stays symmetric through the updates of a game.
pub proof fn lemma_tally_keeps_symmetry(
    m: Map<(Seq<char>, Seq<char>), (u32, u32)>,
    names: Seq<Seq<char>>,
    seats: Seq<usize>,
    ranks: Seq<usize>,
    i: int,
    j: int,
)
    requires
        symmetric(m),
    ensures
        symmetric(tally_pairs(m, names, seats, ranks, i, j)),
    decreases seats.len() - i, seats.len() - j,
{
    if i < 0 || j < 0 || i >= seats.len() {
    } else if j >= seats.len() {
        lemma_tally_keeps_symmetry(m, names, seats, ranks, i + 1, i + 2);
    } else {
        if seats[i] != seats[j] {
            let a = names[seats[i] as int];
            let b = names[seats[j] as int];
            lemma_bump_symmetric_pair(m, a, b, ranks[i] < ranks[j], ranks[j] < ranks[i]);
        }
        lemma_tally_keeps_symmetry(pair_step(m, names, seats, ranks, i, j), names, seats, ranks, i, j + 1);
    }
}

/// Seat pair `(p, q)` is updated at or after pair `(i, j)`: the updates run
/// over the pairs in row order.
pub open spec fn pair_not_before(p: int, q: int, i: int, j: int) -> bool {
    p > i || (p == i && q >= j)
}

proof fn lemma_tally_keeps_keys(
    m: Map<(Seq<char>, Seq<char>), (u32, u32)>,
    names: Seq<Seq<char>>,
    seats: Seq<usize>,
    ranks: Seq<usize>,
    i: int,
    j: int,
)
    ensures
        forall|k: (Seq<char>, Seq<char>)| #[trigger] m.contains_key(k) ==> tally_pairs(m, names, seats, ranks, i, j).contains_key(k),
    decreases seats.len() - i, seats.len() - j,
{
    if i < 0 || j < 0 || i >= seats.len() {
    } else if j >= seats.len() {
        lemma_tally_keeps_keys(m, names, seats, ranks, i + 1, i + 2);
    } else {
        let m2 = pair_step(m, names, seats, ranks, i, j);
        lemma_tally_keeps_keys(m2, names, seats, ranks, i, j + 1);
        assert forall|k: (Seq<char>, Seq<char>)| #[trigger] m.contains_key(k) implies m2.contains_key(k) by {
        }
    }
}

proof fn lemma_tally_has_pair(
    m: Map<(Seq<char>, Seq<char>), (u32, u32)>,
    names: Seq<Seq<char>>,
    seats: Seq<usize>,
    ranks: Seq<usize>,
    i: int,
    j: int,
    p: int,
    q: int,
)
    requires
        0 <= i,
        0 <= j,
        0 <= p < q < seats.len(),
        pair_not_before(p, q, i, j),
        seats[p] != seats[q],
    ensures
        tally_pairs(m, names, seats, ranks, i, j).contains_key((names[seats[p] as int], names[seats[q] as int])),
        tally_pairs(m, names, seats, ranks, i, j).contains_key((names[seats[q] as int], names[seats[p] as int])),
    decreases seats.len() - i, seats.len() - j,
{
    if i >= seats.len() {
    } else if j >= seats.len() {
        lemma_tally_has_pair(m, names, seats, ranks, i + 1, i + 2, p, q);
    } else {
        let m2 = pair_step(m, names, seats, ranks, i, j);
        if i == p && j == q {
            lemma_tally_keeps_keys(m2, names, seats, ranks, i, j + 1);
            assert(m2.contains_key((names[seats[p] as int], names[seats[q] as int])));
            assert(m2.contains_key((names[seats[q] as int], names[seats[p] as int])));
        } else {
            lemma_tally_has_pair(m2, names, seats, ranks, i, j + 1, p, q);
        }
    }
}

/// Recording a game gives every two seats of different types an entry for
/// their type names, in both orders.
pub proof fn lemma_game_records_every_pair(
    m: Map<(Seq<char>, Seq<char>), (u32, u32)>,
    names: Seq<Seq<char>>,
    seats: Seq<usize>,
    ranks: Seq<usize>,
    p: int,
    q: int,
)
    requires
        0 <= p < seats.len(),
        0 <= q < seats.len(),
        seats[p] != seats[q],
    ensures
        tally_pairs(m, names, seats, ranks, 0, 1).contains_key((names[seats[p] as int], names[seats[q] as int])),
{
    if p < q {
        lemma_tally_has_pair(m, names, seats, ranks, 0, 1, p, q);
    } else {
        lemma_tally_has_pair(m, names, seats, ranks, 0, 1, q, p);
    }
}

/// Each seat's type and each type's name occur once.
pub open spec fn seats_and_names_distinct(names: Seq<Seq<char>>, seats: Seq<usize>) -> bool {
    &&& seats.no_duplicates()
    &&& names.no_duplicates()
    &&& forall|s: int| 0 <= s < seats.len() ==> seats[s] < names.len()
}

proof fn lemma_other_pair_other_keys(names: Seq<Seq<char>>, seats: Seq<usize>, i: int, j: int, p: int, q: int)
    requires
        seats_and_names_distinct(names, seats),
        0 <= i < j < seats.len(),
        0 <= p < q < seats.len(),
        i != p || j != q,
    ensures
        (names[seats[i] as int], names[seats[j] as int]) != (names[seats[p] as int], names[seats[q] as int]),
        (names[seats[i] as int], names[seats[j] as int]) != (names[seats[q] as int], names[seats[p] as int]),
        (names[seats[j] as int], names[seats[i] as int]) != (names[seats[p] as int], names[seats[q] as int]),
        (names[seats[j] as int], names[seats[i] as int]) != (names[seats[q] as int], names[seats[p] as int]),
{
    assert forall|x: int, y: int| 0 <= x < seats.len() && 0 <= y < seats.len() && names[seats[x] as int] == names[seats[y] as int]
        implies x == y by {
        assert(seats[x] == seats[y]);
    }
}

proof fn lemma_tally_untouched(
    m: Map<(Seq<char>, Seq<char>), (u32, u32)>,
    names: Seq<Seq<char>>,
    seats: Seq<usize>,
    ranks: Seq<usize>,
    i: int,
    j: int,
    p: int,
    q: int,
)
    requires
        seats_and_names_distinct(names, seats),
        0 <= i < j,
        0 <= p < q < seats.len(),
        !pair_not_before(p, q, i, j),
    ensures
        ({
            let r = tally_pairs(m, names, seats, ranks, i, j);
            let k1 = (names[seats[p] as int], names[seats[q] as int]);
            let k2 = (names[seats[q] as int], names[seats[p] as int]);
            &&& r.contains_key(k1) == m.contains_key(k1)
            &&& m.contains_key(k1) ==> r[k1] == m[k1]
            &&& r.contains_key(k2) == m.contains_key(k2)
            &&& m.contains_key(k2) ==> r[k2] == m[k2]
        }),
    decreases seats.len() - i, seats.len() - j,
{
    if i >= seats.len() {
    } else if j >= seats.len() {
        lemma_tally_untouched(m, names, seats, ranks, i + 1, i + 2, p, q);
    } else {
        lemma_other_pair_other_keys(names, seats, i, j, p, q);
        lemma_tally_untouched(pair_step(m, names, seats, ranks, i, j), names, seats, ranks, i, j + 1, p, q);
    }
}

proof fn lemma_tally_pair_counts(
    m: Map<(Seq<char>, Seq<char>), (u32, u32)>,
    names: Seq<Seq<char>>,
    seats: Seq<usize>,
    ranks: Seq<usize>,
    i: int,
    j: int,
    p: int,
    q: int,
)
    requires
        seats_and_names_distinct(names, seats),
        0 <= i < j,
        0 <= p < q < seats.len(),
        pair_not_before(p, q, i, j),
    ensures
        ({
            let r = tally_pairs(m, names, seats, ranks, i, j);
            let k1 = (names[seats[p] as int], names[seats[q] as int]);
            let k2 = (names[seats[q] as int], names[seats[p] as int]);
            &&& r.contains_key(k1)
            &&& r[k1] == bump(m, k1, ranks[p] < ranks[q], ranks[q] < ranks[p])[k1]
            &&& r.contains_key(k2)
            &&& r[k2] == bump(m, k2, ranks[q] < ranks[p], ranks[p] < ranks[q])[k2]
        }),
    decreases seats.len() - i, seats.len() - j,
{
    if i >= seats.len() {
    } else if j >= seats.len() {
        lemma_tally_pair_counts(m, names, seats, ranks, i + 1, i + 2, p, q);
    } else {
        let m2 = pair_step(m, names, seats, ranks, i, j);
        let k1 = (names[seats[p] as int], names[seats[q] as int]);
        let k2 = (names[seats[q] as int], names[seats[p] as int]);
        assert(seats[p] != seats[q]);
        assert(k1 != k2) by {
            assert(names[seats[p] as int] != names[seats[q] as int]);
        }
        if i == p && j == q {
            lemma_tally_untouched(m2, names, seats, ranks, i, j + 1, p, q);
        } else {
            lemma_other_pair_other_keys(names, seats, i, j, p, q);
            lemma_tally_pair_counts(m2, names, seats, ranks, i, j + 1, p, q);
        }
    }
}

/// With distinct seat types and type names, recording a game counts, for
/// every two seats `p != q`, one more finish above in the entry of their
/// names when `p` ranked better than `q`, and one more below when it
/// ranked worse, starting from zero for a pair not yet in the table.
pub proof fn lemma_game_counts_each_pair(
    m: Map<(Seq<char>, Seq<char>), (u32, u32)>,
    names: Seq<Seq<char>>,
    seats: Seq<usize>,
    ranks: Seq<usize>,
    p: int,
    q: int,
)
    requires
        seats_and_names_distinct(names, seats),
        0 <= p < seats.len(),
        0 <= q < seats.len(),
        p != q,
        ({
            let k = (names[seats[p] as int], names[seats[q] as int]);
            m.contains_key(k) ==> m[k].0 < u32::MAX && m[k].1 < u32::MAX
        }),
    ensures
        ({
            let k = (names[seats[p] as int], names[seats[q] as int]);
            let base = if m.contains_key(k) { m[k] } else { (0u32, 0u32) };
            let r = tally_pairs(m, names, seats, ranks, 0, 1);
            &&& r.contains_key(k)
            &&& r[k].0 == base.0 + (if ranks[p] < ranks[q] { 1int } else { 0int })
            &&& r[k].1 == base.1 + (if ranks[q] < ranks[p] { 1int } else { 0int })
        }),
{
    if p < q {
        lemma_tally_pair_counts(m, names, seats, ranks, 0, 1, p, q);
    } else {
        lemma_tally_pair_counts(m, names, seats, ranks, 0, 1, q, p);
    }
}

/// When every seat has the same rank, a game's updates always fit, keep
/// every count, and only add pairs at `(0, 0)`.
pub proof fn lemma_tied_game_keeps_counts(
    m: Map<(Seq<char>, Seq<char>), (u32, u32)>,
    names: Seq<Seq<char>>,
    seats: Seq<usize>,
    ranks: Seq<usize>,
    i: int,
    j: int,
)
    requires
        ranks.len() == seats.len(),
        all_tied(ranks),
    ensures
        tally_fits(m, names, seats, ranks, i, j),
        forall|k: (Seq<char>, Seq<char>)| #[trigger] m.contains_key(k) ==> tally_pairs(m, names, seats, ranks, i, j).contains_key(k)
            && tally_pairs(m, names, seats, ranks, i, j)[k] == m[k],
        forall|k: (Seq<char>, Seq<char>)| #[trigger] tally_pairs(m, names, seats, ranks, i, j).contains_key(k) && !m.contains_key(k)
            ==> tally_pairs(m, names, seats, ranks, i, j)[k] == (0u32, 0u32),
    decreases seats.len() - i, seats.len() - j,
{
    if i < 0 || j < 0 || i >= seats.len() {
    } else if j >= seats.len() {
        lemma_tied_game_keeps_counts(m, names, seats, ranks, i + 1, i + 2);
        assert(tally_pairs(m, names, seats, ranks, i, j) == tally_pairs(m, names, seats, ranks, i + 1, i + 2));
    } else {
        let m2 = pair_step(m, names, seats, ranks, i, j);
        assert(ranks[i] == ranks[j]);
        lemma_tied_game_keeps_counts(m2, names, seats, ranks, i, j + 1);
        let r = tally_pairs(m, names, seats, ranks, i, j);
        assert(r == tally_pairs(m2, names, seats, ranks, i, j + 1));
        if seats[i] != seats[j] {
            let a = names[seats[i] as int];
            let b = names[seats[j] as int];
            let m1 = bump(m, (a, b), false, false);
            assert(m2 == bump(m1, (b, a), false, false));
            assert forall|k: (Seq<char>, Seq<char>)| #[trigger] m.contains_key(k) implies m2.contains_key(k) && m2[k] == m[k] by {
            }
            assert forall|k: (Seq<char>, Seq<char>)| #[trigger] m2.contains_key(k) && !m.contains_key(k) implies m2[k] == (0u32, 0u32) by {
            }
        }
        assert forall|k: (Seq<char>, Seq<char>)| #[trigger] r.contains_key(k) && !m.contains_key(k) implies r[k] == (0u32, 0u32) by {
            if m2.contains_key(k) {
                assert(r[k] == m2[k]);
                if seats[i] != seats[j] {
                    assert(m2[k] == (0u32, 0u32));
                } else {
                    assert(m2 == m);
                }
            } else {
                assert(tally_pairs(m2, names, seats, ranks, i, j + 1).contains_key(k));
            }
        }
        assert forall|k: (Seq<char>, Seq<char>)| #[trigger] m.contains_key(k) implies r.contains_key(k) && r[k] == m[k] by {
            assert(m2.contains_key(k));
        }
    }
}

/// Every pair of the table pairs two different names.
pub open spec fn no_self_pairs(m: Map<(Seq<char>, Seq<char>), (u32, u32)>) -> bool {
    forall|k: (Seq<char>, Seq<char>)| #[trigger] m.contains_key(k) ==> k.0 != k.1
}

/// With distinct type names, a game's updates pair a name only with
/// another name.
pub proof fn lemma_distinct_names_no_self_pairs(
    m: Map<(Seq<char>, Seq<char>), (u32, u32)>,
    names: Seq<Seq<char>>,
    seats: Seq<usize>,
    ranks: Seq<usize>,
    i: int,
    j: int,
)
    requires
        names.no_duplicates(),
        forall|s: int| 0 <= s < seats.len() ==> seats[s] < names.len(),
        no_self_pairs(m),
    ensures
        no_self_pairs(tally_pairs(m, names, seats, ranks, i, j)),
    decreases seats.len() - i, seats.len() - j,
{
    if i < 0 || j < 0 || i >= seats.len() {
    } else if j >= seats.len() {
        lemma_distinct_names_no_self_pairs(m, names, seats, ranks, i + 1, i + 2);
    } else {
        let m2 = pair_step(m, names, seats, ranks, i, j);
        if seats[i] != seats[j] {
            let a = names[seats[i] as int];
            let b = names[seats[j] as int];
            assert(a != b);
            assert forall|k: (Seq<char>, Seq<char>)| #[trigger] m2.contains_key(k) implies k.0 != k.1 by {
                if k != (a, b) && k != (b, a) {
                    assert(m.contains_key(k));
                }
            }
        }
        lemma_distinct_names_no_self_pairs(m2, names, seats, ranks, i, j + 1);
    }
}

proof fn lemma_table_get(es: Seq<((String, String), (u32, u32))>, i: int)
    requires
        keys_of(es).no_duplicates(),
        0 <= i < es.len(),
    ensures
        table_of(es).contains_key(entry_key(es[i])),
        table_of(es)[entry_key(es[i])] == es[i].1,
{
    let k = entry_key(es[i]);
    assert(keys_of(es)[i] == k);
    assert(keys_of(es).contains(k));
    let j = keys_of(es).index_of(k);
    assert(keys_of(es)[j] == k);
}

proof fn lemma_table_update(es: Seq<((String, String), (u32, u32))>, i: int, e: ((String, String), (u32, u32)))
    requires
        keys_of(es).no_duplicates(),
        0 <= i < es.len(),
        entry_key(e) == entry_key(es[i]),
    ensures
        keys_of(es.update(i, e)) == keys_of(es),
        table_of(es.update(i, e)) == table_of(es).insert(entry_key(e), e.1),
{
    let es2 = es.update(i, e);
    assert(keys_of(es2) =~= keys_of(es));
    assert(keys_of(es)[i] == entry_key(e));
    assert(keys_of(es).contains(entry_key(e)));
    let t1 = table_of(es2);
    let t2 = table_of(es).insert(entry_key(e), e.1);
    assert forall|k: (Seq<char>, Seq<char>)| t1.contains_key(k) implies t1[k] == t2[k] by {
        let j = keys_of(es2).index_of(k);
        assert(keys_of(es2)[j] == k);
        if j == i {
            assert(t1[k] == e.1);
        } else {
            assert(es2[j] == es[j]);
            lemma_table_get(es, j);
            assert(keys_of(es)[j] == k);
            assert(keys_of(es)[i] == entry_key(es[i]));
            assert(k != entry_key(e));
        }
    }
    assert(t1 =~= t2);
}

proof fn lemma_table_push(es: Seq<((String, String), (u32, u32))>, e: ((String, String), (u32, u32)))
    requires
        keys_of(es).no_duplicates(),
        !keys_of(es).contains(entry_key(e)),
    ensures
        keys_of(es.push(e)) == keys_of(es).push(entry_key(e)),
        keys_of(es.push(e)).no_duplicates(),
        table_of(es.push(e)) == table_of(es).insert(entry_key(e), e.1),
{
    let es2 = es.push(e);
    assert(keys_of(es2) =~= keys_of(es).push(entry_key(e)));
    assert(keys_of(es2).no_duplicates()) by {
        assert forall|p: int, q: int| 0 <= p < keys_of(es2).len() && 0 <= q < keys_of(es2).len() && p != q
            implies keys_of(es2)[p] != keys_of(es2)[q] by {
            if p == es.len() {
                assert(keys_of(es).contains(keys_of(es2)[q]) || q == es.len());
            } else if q == es.len() {
                assert(keys_of(es).contains(keys_of(es2)[p]));
            }
        }
    }
    let t1 = table_of(es2);
    let t2 = table_of(es).insert(entry_key(e), e.1);
    assert forall|k: (Seq<char>, Seq<char>)| t1.contains_key(k) <==> t2.contains_key(k) by {
        if keys_of(es).contains(k) {
            let j = choose|j: int| 0 <= j < keys_of(es).len() && keys_of(es)[j] == k;
            assert(keys_of(es2)[j] == k);
        }
        if keys_of(es2).contains(k) && k != entry_key(e) {
            let j = choose|j: int| 0 <= j < keys_of(es2).len() && keys_of(es2)[j] == k;
            assert(j != es.len());
            assert(keys_of(es)[j] == k);
        }
        if k == entry_key(e) {
            assert(keys_of(es2)[es.len() as int] == k);
        }
    }
    assert forall|k: (Seq<char>, Seq<char>)| t1.contains_key(k) implies t1[k] == t2[k] by {
        let j = keys_of(es2).index_of(k);
        assert(keys_of(es2)[j] == k);
        if j == es.len() {
            assert(t1[k] == e.1);
        } else {
            assert(es2[j] == es[j]);
            lemma_table_get(es, j);
        }
    }
    assert(t1 =~= t2);
}

/// Head-to-head results between agent types, by type name: the entry for
/// `(a, b)` counts the finishes of a seat of type `a` above (first) and
/// below (second) a seat of type `b` in the same game. It is symmetric.
pub struct HeadToHead {
    entries: Vec<((String, String), (u32, u32))>,
}

impl View for HeadToHead {
    type V = Map<(Seq<char>, Seq<char>), (u32, u32)>;

    closed spec fn view(&self) -> Map<(Seq<char>, Seq<char>), (u32, u32)> {
        table_of(self.entries@)
    }
}

fn find_entry(es: &Vec<((String, String), (u32, u32))>, a: &String, b: &String) -> (r: Option<usize>)
    ensures
        match r {
            Some(i) => i < es@.len() && entry_key(es@[i as int]) == (a@, b@),
            None => !keys_of(es@).contains((a@, b@)),
        },
{
    let n = es.len();
    let mut i: usize = 0;
    while i < n
        invariant
            n == es@.len(),
            0 <= i <= n,
            forall|m: int| 0 <= m < i ==> keys_of(es@)[m] != (a@, b@),
        decreases n - i,
    {
        if es[i].0.0 == *a && es[i].0.1 == *b {
            return Some(i);
        }
        proof {
            assert(keys_of(es@)[i as int] == entry_key(es@[i as int]));
        }
        i += 1;
    }
    None
}

fn bump_entries(es: &mut Vec<((String, String), (u32, u32))>, a: &String, b: &String, ahead: bool, behind: bool) -> (ok: bool)
    requires
        keys_of(old(es)@).no_duplicates(),
    ensures
        keys_of(final(es)@).no_duplicates(),
        ok == bump_fits(table_of(old(es)@), (a@, b@), ahead, behind),
        ok ==> table_of(final(es)@) == bump(table_of(old(es)@), (a@, b@), ahead, behind),
        !ok ==> final(es)@ == old(es)@,
{
    match find_entry(es, a, b) {
        Some(i) => {
            proof {
                lemma_table_get(es@, i as int);
            }
            let v = es[i].1;
            if (ahead && v.0 == u32::MAX) || (behind && v.1 == u32::MAX) {
                return false;
            }
            let nv: (u32, u32) = (if ahead { v.0 + 1 } else { v.0 }, if behind { v.1 + 1 } else { v.1 });
            let k = (es[i].0.0.clone(), es[i].0.1.clone());
            let ghost before = es@;
            es.set(i, (k, nv));
            proof {
                lemma_table_update(before, i as int, (k, nv));
                assert(table_of(es@) =~= bump(table_of(before), (a@, b@), ahead, behind));
            }
            true
        },
        None => {
            let nv: (u32, u32) = (if ahead { 1 } else { 0 }, if behind { 1 } else { 0 });
            let ghost before = es@;
            let e = ((a.clone(), b.clone()), nv);
            let ghost eg = e;
            es.push(e);
            proof {
                lemma_table_push(before, eg);
                assert(table_of(es@) =~= bump(table_of(before), (a@, b@), ahead, behind));
            }
            true
        },
    }
}

fn copy_entries(es: &Vec<((String, String), (u32, u32))>) -> (r: Vec<((String, String), (u32, u32))>)
    ensures
        r@ == es@,
{
    let mut r: Vec<((String, String), (u32, u32))> = Vec::new();
    let n = es.len();
    let mut i: usize = 0;
    while i < n
        invariant
            n == es@.len(),
            0 <= i <= n,
            r@ == es@.take(i as int),
        decreases n - i,
    {
        let e = &es[i];
        r.push(((e.0.0.clone(), e.0.1.clone()), e.1));
        proof {
            assert(es@.take(i + 1) =~= es@.take(i as int).push(es@[i as int]));
        }
        i += 1;
    }
    proof {
        assert(es@.take(n as int) =~= es@);
    }
    r
}

impl HeadToHead {
    #[verifier::type_invariant]
    closed spec fn well_formed(&self) -> bool {
        &&& keys_of(self.entries@).no_duplicates()
        &&& symmetric(table_of(self.entries@))
    }

    /// An empty table.
    pub fn new() -> (h: Self)
        ensures
            h@ == Map::<(Seq<char>, Seq<char>), (u32, u32)>::empty(),
            symmetric(h@),
    {
        let h = HeadToHead { entries: Vec::new() };
        proof {
            assert(keys_of(h.entries@) =~= Seq::<(Seq<char>, Seq<char>)>::empty());
            assert(table_of(h.entries@) =~= Map::<(Seq<char>, Seq<char>), (u32, u32)>::empty());
        }
        h
    }

    /// The counts for `(a, b)`, if the pair has met.
    pub fn get(&self, a: &String, b: &String) -> (r: Option<(u32, u32)>)
        ensures
            r == (if self@.contains_key((a@, b@)) { Some(self@[(a@, b@)]) } else { None::<(u32, u32)> }),
    {
        proof {
            use_type_invariant(self);
        }
        match find_entry(&self.entries, a, b) {
            Some(i) => {
                proof {
                    lemma_table_get(self.entries@, i as int);
                }
                Some(self.entries[i].1)
            },
            None => None,
        }
    }

    /// Number of pairs in the table.
    pub fn len(&self) -> (n: usize)
        ensures
            n == self@.dom().len(),
    {
        proof {
            use_type_invariant(self);
            keys_of(self.entries@).unique_seq_to_set();
            assert(self@.dom() =~= keys_of(self.entries@).to_set());
        }
        self.entries.len()
    }

    /// The entry at position `i`: the two names and their counts.
    pub fn entry(&self, i: usize) -> (r: (&String, &String, u32, u32))
        requires
            i < self@.dom().len(),
        ensures
            self@.contains_key((r.0@, r.1@)),
            self@[(r.0@, r.1@)] == (r.2, r.3),
    {
        proof {
            use_type_invariant(self);
            keys_of(self.entries@).unique_seq_to_set();
            assert(self@.dom() =~= keys_of(self.entries@).to_set());
            lemma_table_get(self.entries@, i as int);
        }
        let e = &self.entries[i];
        (&e.0.0, &e.0.1, e.1.0, e.1.1)
    }

    /// Record one game: for every two seats `i < j` of different types,
    /// the entry of their names counts seat `i` above or below seat `j` by
    /// rank, and the entry of the reversed names the converse. When some
    /// count would pass `u32::MAX`, nothing is recorded and the result is
    /// `false`.
    pub fn record_game(&mut self, type_names: &Vec<String>, seat_types: &Vec<usize>, ranks: &Vec<usize>) -> (recorded: bool)
        requires
            ranks@.len() == seat_types@.len(),
            forall|s: int| 0 <= s < seat_types@.len() ==> seat_types@[s] < type_names@.len(),
        ensures
            recorded == tally_fits(old(self)@, names_of(type_names@), seat_types@, ranks@, 0, 1),
            recorded ==> final(self)@ == tally_pairs(old(self)@, names_of(type_names@), seat_types@, ranks@, 0, 1),
            !recorded ==> final(self)@ == old(self)@,
            symmetric(final(self)@),
            all_tied(ranks@) ==> {
                &&& recorded
                &&& forall|k: (Seq<char>, Seq<char>)| #[trigger] old(self)@.contains_key(k)
                    ==> final(self)@.contains_key(k) && final(self)@[k] == old(self)@[k]
                &&& forall|k: (Seq<char>, Seq<char>)| #[trigger] final(self)@.contains_key(k) && !old(self)@.contains_key(k)
                    ==> final(self)@[k] == (0u32, 0u32)
            },
            names_of(type_names@).no_duplicates() && no_self_pairs(old(self)@) ==> no_self_pairs(final(self)@),
            recorded ==> forall|p: int, q: int| 0 <= p < seat_types@.len() && 0 <= q < seat_types@.len()
                && seat_types@[p] != seat_types@[q] ==> #[trigger] final(self)@.contains_key(
                    (names_of(type_names@)[seat_types@[p] as int], names_of(type_names@)[seat_types@[q] as int])),
    {
        proof {
            use_type_invariant(&*self);
            assert forall|p: int, q: int| 0 <= p < seat_types@.len() && 0 <= q < seat_types@.len()
                && seat_types@[p] != seat_types@[q] implies #[trigger] tally_pairs(old(self)@, names_of(type_names@), seat_types@, ranks@, 0, 1).contains_key(
                    (names_of(type_names@)[seat_types@[p] as int], names_of(type_names@)[seat_types@[q] as int])) by {
                lemma_game_records_every_pair(old(self)@, names_of(type_names@), seat_types@, ranks@, p, q);
            }
        }
        let ghost names = names_of(type_names@);
        let ghost m0 = self@;
        proof {
            if all_tied(ranks@) {
                lemma_tied_game_keeps_counts(m0, names, seat_types@, ranks@, 0, 1);
            }
            if names.no_duplicates() && no_self_pairs(m0) {
                lemma_distinct_names_no_self_pairs(m0, names, seat_types@, ranks@, 0, 1);
            }
        }
        let n = seat_types.len();
        let mut es = copy_entries(&self.entries);
        let mut i: usize = 0;
        while i < n
            invariant
                n == seat_types@.len(),
                n == ranks@.len(),
                names == names_of(type_names@),
                forall|s: int| 0 <= s < n ==> seat_types@[s] < type_names@.len(),
                0 <= i <= n,
                keys_of(es@).no_duplicates(),
                m0 == old(self)@,
                symmetric(m0),
                self.entries@ == old(self).entries@,
                tally_fits(table_of(es@), names, seat_types@, ranks@, i as int, i + 1)
                    == tally_fits(m0, names, seat_types@, ranks@, 0, 1),
                tally_pairs(table_of(es@), names, seat_types@, ranks@, i as int, i + 1)
                    == tally_pairs(m0, names, seat_types@, ranks@, 0, 1),
            decreases n - i,
        {
            let mut j: usize = i + 1;
            while j < n
                invariant
                    n == seat_types@.len(),
                    n == ranks@.len(),
                    names == names_of(type_names@),
                    forall|s: int| 0 <= s < n ==> seat_types@[s] < type_names@.len(),
                    0 <= i < n,
                    i + 1 <= j <= n,
                    keys_of(es@).no_duplicates(),
                    m0 == old(self)@,
                    symmetric(m0),
                    self.entries@ == old(self).entries@,
                    tally_fits(table_of(es@), names, seat_types@, ranks@, i as int, j as int)
                        == tally_fits(m0, names, seat_types@, ranks@, 0, 1),
                    tally_pairs(table_of(es@), names, seat_types@, ranks@, i as int, j as int)
                        == tally_pairs(m0, names, seat_types@, ranks@, 0, 1),
                decreases n - j,
            {
                let ti = seat_types[i];
                let tj = seat_types[j];
                if ti != tj {
                    let ri = ranks[i];
                    let rj = ranks[j];
                    let ghost t0 = table_of(es@);
                    proof {
                        assert(names[ti as int] == type_names@[ti as int]@);
                        assert(names[tj as int] == type_names@[tj as int]@);
                    }
                    if !bump_entries(&mut es, &type_names[ti], &type_names[tj], ri < rj, rj < ri) {
                        return false;
                    }
                    if !bump_entries(&mut es, &type_names[tj], &type_names[ti], rj < ri, ri < rj) {
                        return false;
                    }
                    proof {
                        assert(table_of(es@) == pair_step(t0, names, seat_types@, ranks@, i as int, j as int));
                    }
                }
                j += 1;
            }
            i += 1;
        }
        proof {
            lemma_tally_keeps_symmetry(m0, names, seat_types@, ranks@, 0, 1);
            assert(table_of(es@) == tally_pairs(m0, names, seat_types@, ranks@, 0, 1));
        }
        std::mem::swap(&mut es, &mut self.entries);
        true
    }
}

/// The counts the arena keeps over the games it plays: games and wins per
/// agent type, the head-to-head table, and (for the laws) the number of
/// games counted.
pub struct ArenaCounts {
    pub games_played: Vec<u32>,
    pub wins: Vec<u32>,
    pub head_to_head: HeadToHead,
    pub games: Ghost<nat>,
}

proof fn lemma_total_zeros(n: nat)
    ensures
        total(Seq::new(n, |i: int| 0u32)) == 0,
    decreases n,
{
    if n > 0 {
        lemma_total_zeros((n - 1) as nat);
        assert(Seq::new(n, |i: int| 0u32).drop_last() =~= Seq::new((n - 1) as nat, |i: int| 0u32));
    }
}

impl ArenaCounts {
    /// Across the games counted, each game of `seats_per_game` seats added
    /// that many games played, and at most one win.
    pub open spec fn consistent(&self, seats_per_game: nat) -> bool {
        &&& total(self.games_played@) == self.games@ * seats_per_game
        &&& total(self.wins@) <= self.games@
        &&& symmetric(self.head_to_head@)
    }

    /// No game counted yet, for `n_types` agent types.
    pub fn new(n_types: usize) -> (c: Self)
        ensures
            c.games_played@ == Seq::new(n_types as nat, |i: int| 0u32),
            c.wins@ == Seq::new(n_types as nat, |i: int| 0u32),
            c.head_to_head@ == Map::<(Seq<char>, Seq<char>), (u32, u32)>::empty(),
            c.games@ == 0,
            forall|n: nat| #[trigger] c.consistent(n),
    {
        let mut games_played: Vec<u32> = Vec::new();
        let mut wins: Vec<u32> = Vec::new();
        let mut i: usize = 0;
        while i < n_types
            invariant
                0 <= i <= n_types,
                games_played@ == Seq::new(i as nat, |k: int| 0u32),
                wins@ == Seq::new(i as nat, |k: int| 0u32),
            decreases n_types - i,
        {
            games_played.push(0);
            wins.push(0);
            proof {
                assert(games_played@ =~= Seq::new((i + 1) as nat, |k: int| 0u32));
                assert(wins@ =~= Seq::new((i + 1) as nat, |k: int| 0u32));
            }
            i += 1;
        }
        proof {
            lemma_total_zeros(n_types as nat);
        }
        ArenaCounts { games_played, wins, head_to_head: HeadToHead::new(), games: Ghost(0) }
    }

    /// Count one game with these seat types and this outcome: one game for
    /// each seat's type, one win for the winner's type (none in a draw),
    /// and the head-to-head updates by the outcome's ranks (a draw ties
    /// every seat). When some count would pass `u32::MAX`, nothing is
    /// counted and the result is `false`.
    pub fn record(&mut self, type_names: &Vec<String>, seat_types: &Vec<usize>, outcome: Option<GameOutcome>) -> (recorded: bool)
        requires
            old(self).games_played@.len() == old(self).wins@.len(),
            forall|s: int| 0 <= s < seat_types@.len() ==> seat_types@[s] < old(self).games_played@.len(),
            forall|s: int| 0 <= s < seat_types@.len() ==> seat_types@[s] < type_names@.len(),
        ensures
            ({
                let winner = match outcome {
                    Some(GameOutcome::Winner(w)) => Some(w),
                    _ => None::<usize>,
                };
                let ranks = outcome_rank_seq(outcome, seat_types@.len());
                &&& recorded == (seats_tally_fits(old(self).games_played@, old(self).wins@, seat_types@, winner)
                    && tally_fits(old(self).head_to_head@, names_of(type_names@), seat_types@, ranks, 0, 1))
                &&& recorded ==> {
                    &&& final(self).games_played@.len() == old(self).games_played@.len()
                    &&& final(self).wins@.len() == old(self).wins@.len()
                    &&& forall|t: usize| t < old(self).games_played@.len() ==> final(self).games_played@[t as int]
                        == old(self).games_played@[t as int] + seats_of_type(seat_types@, t, seat_types@.len() as int)
                    &&& forall|t: usize| t < old(self).wins@.len() ==> final(self).wins@[t as int]
                        == old(self).wins@[t as int] + (if winner matches Some(w) && w < seat_types@.len()
                            && seat_types@[w as int] == t { 1int } else { 0int })
                    &&& final(self).head_to_head@ == tally_pairs(old(self).head_to_head@, names_of(type_names@), seat_types@, ranks, 0, 1)
                    &&& final(self).games@ == old(self).games@ + 1
                }
                &&& !recorded ==> {
                    &&& final(self).games_played@ == old(self).games_played@
                    &&& final(self).wins@ == old(self).wins@
                    &&& final(self).head_to_head@ == old(self).head_to_head@
                    &&& final(self).games@ == old(self).games@
                }
            }),
            old(self).consistent(seat_types@.len()) ==> final(self).consistent(seat_types@.len()),
            names_of(type_names@).no_duplicates() && no_self_pairs(old(self).head_to_head@)
                ==> no_self_pairs(final(self).head_to_head@),
    {
        let winner = winner_of(outcome);
        let ranks = outcome_ranks(outcome, seat_types.len());
        if !tally_seats_fits(&self.games_played, &self.wins, seat_types, winner) {
            return false;
        }
        if !self.head_to_head.record_game(type_names, seat_types, &ranks) {
            return false;
        }
        tally_seats(&mut self.games_played, &mut self.wins, seat_types, winner);
        let ghost g = self.games@;
        self.games = Ghost(g + 1);
        proof {
            let n = seat_types@.len();
            assert((g + 1) * n == g * n + n) by (nonlinear_arith);
        }
        true
    }
}

} // verus!
