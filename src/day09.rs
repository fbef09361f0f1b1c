use vstd::prelude::*;

verus! {

/// The marbles in the circle, the index of the current one, and each
/// player's score.
pub struct Game {
    pub circle: Seq<usize>,
    pub current: int,
    pub scores: Seq<usize>,
}

/// Where the marble seven places counter-clockwise of `current` sits.
pub open spec fn seven_back(current: int, len: int) -> int {
    (current - 7) % len
}

/// Playing `marble`: a marble that is not a multiple of 23 goes in between
/// the marbles one and two places clockwise of the current one and becomes
/// current; otherwise the player keeps it and takes the marble seven places
/// counter-clockwise, and the marble after that becomes current.
pub open spec fn place(g: Game, marble: nat, players: nat) -> Game {
    let len = g.circle.len() as int;
    if marble % 23 != 0 {
        let at = (g.current + 1) % len + 1;
        Game { circle: g.circle.insert(at, marble as usize), current: at, scores: g.scores }
    } else {
        let r = seven_back(g.current, len);
        let p = (marble - 1) % (players as int);
        Game {
            circle: g.circle.remove(r),
            current: r,
            scores: g.scores.update(p, (g.scores[p] + marble + g.circle[r]) as usize),
        }
    }
}

/// The game after marbles `1 ..= n` have been played.
pub open spec fn game(players: nat, n: nat) -> Game
    decreases n,
{
    if n == 0 {
        Game { circle: seq![0usize], current: 0, scores: Seq::new(players, |i: int| 0usize) }
    } else {
        place(game(players, (n - 1) as nat), n, players)
    }
}

/// The largest element; zero for an empty sequence.
pub open spec fn seq_max(s: Seq<usize>) -> usize
    decreases s.len(),
{
    if s.len() == 0 {
        0
    } else if s.last() >= seq_max(s.drop_last()) {
        s.last()
    } else {
        seq_max(s.drop_last())
    }
}

/// The winning score: the highest score once the last marble is played.
pub fn solve(num_players: usize, last_marble_points: usize) -> (r: usize)
    requires
        num_players >= 1,
        last_marble_points * (last_marble_points + 1) <= usize::MAX,
    ensures
        r == seq_max(game(num_players as nat, last_marble_points as nat).scores),
{
    let ghost players = num_players as nat;
    let mut scores: Vec<usize> = Vec::new();
    while scores.len() < num_players
        invariant
            scores@.len() <= num_players,
            forall|i: int| 0 <= i < scores@.len() ==> scores@[i] == 0,
        decreases num_players - scores@.len(),
    {
        scores.push(0);
    }
    let mut marbles: Vec<usize> = Vec::new();
    marbles.push(0);
    let mut current_idx: usize = 0;
    let mut current_player_idx: usize = 0;
    let ghost mut removed: nat = 0;
    proof {
        assert(scores@ =~= game(players, 0).scores);
        assert(marbles@ =~= game(players, 0).circle);
    }
    let mut marble_score: usize = 1;
    proof {
        if last_marble_points >= 1 {
            assert(last_marble_points < usize::MAX) by (nonlinear_arith)
                requires last_marble_points >= 1, last_marble_points * (last_marble_points + 1) <= usize::MAX;
        }
    }
    while marble_score <= last_marble_points
        invariant
            num_players >= 1,
            players == num_players,
            last_marble_points * (last_marble_points + 1) <= usize::MAX,
            last_marble_points < usize::MAX,
            1 <= marble_score <= last_marble_points + 1,
            marbles@ == game(players, (marble_score - 1) as nat).circle,
            current_idx == game(players, (marble_score - 1) as nat).current,
            scores@ == game(players, (marble_score - 1) as nat).scores,
            scores@.len() == num_players,
            current_player_idx == (marble_score - 1) % (num_players as int),
            marbles@.len() + 2 * removed == marble_score,
            23 * removed <= marble_score - 1,
            current_idx <= marbles@.len(),
            forall|i: int| 0 <= i < marbles@.len() ==> #[trigger] marbles@[i] < marble_score,
            forall|i: int| 0 <= i < scores@.len() ==> #[trigger] scores@[i] <= (marble_score - 1) * marble_score,
        decreases last_marble_points + 1 - marble_score,
    {
        let ghost m = marble_score as nat;
        let ghost before = game(players, (m - 1) as nat);
        proof {
            assert(game(players, m) == place(before, m, players));
            assert(m * (m + 1) <= usize::MAX) by (nonlinear_arith)
                requires m <= last_marble_points, last_marble_points * (last_marble_points + 1) <= usize::MAX;
            assert((m - 1) * m <= m * (m + 1)) by (nonlinear_arith);
            assert(2 * m <= m * (m + 1)) by (nonlinear_arith)
                requires m >= 1;
        }
        let len = marbles.len();
        if marble_score % 23 != 0 {
            let insert_at = (current_idx + 1) % len;
            current_idx = insert_at + 1;
            marbles.insert(current_idx, marble_score);
            proof {
                assert forall|i: int| 0 <= i < marbles@.len() implies #[trigger] marbles@[i] < marble_score + 1 by {
                    if i < current_idx {
                        assert(marbles@[i] == before.circle[i]);
                    } else if i > current_idx {
                        assert(marbles@[i] == before.circle[i - 1]);
                    }
                };
                assert forall|i: int| 0 <= i < scores@.len() implies #[trigger] scores@[i] <= m * (m + 1) by {
                    assert(scores@[i] <= (m - 1) * m);
                };
            }
        } else {
            proof {
                assert(len >= 8) by {
                    assert(23 * (removed + 1) <= m) by {
                        assert(m % 23 == 0);
                        assert(23 * removed <= m - 1);
                    };
                };
            }
            let back = 7 % len;
            let seven_counter_clockwise = if current_idx % len >= back {
                current_idx % len - back
            } else {
                current_idx % len + len - back
            };
            proof {
                let c = current_idx as int;
                let n = len as int;
                vstd::arithmetic::div_mod::lemma_sub_mod_noop(c, 7, n);
                let t = c % n - 7int % n;
                if t >= 0 {
                    vstd::arithmetic::div_mod::lemma_small_mod(t as nat, n as nat);
                } else {
                    vstd::arithmetic::div_mod::lemma_mod_add_multiples_vanish(t, n);
                    vstd::arithmetic::div_mod::lemma_small_mod((t + n) as nat, n as nat);
                }
                assert(seven_counter_clockwise == seven_back(current_idx as int, len as int));
            }
            let taken = marbles.remove(seven_counter_clockwise);
            let p = current_player_idx;
            proof {
                assert(scores@[p as int] <= (m - 1) * m);
                assert((m - 1) * m + m + (m - 1) <= m * (m + 1)) by (nonlinear_arith)
                    requires m >= 1;
            }
            let updated = scores[p] + marble_score + taken;
            scores.set(p, updated);
            current_idx = seven_counter_clockwise;
            proof {
                removed = removed + 1;
                assert forall|i: int| 0 <= i < marbles@.len() implies #[trigger] marbles@[i] < marble_score + 1 by {
                    if i < seven_counter_clockwise {
                        assert(marbles@[i] == before.circle[i]);
                    } else {
                        assert(marbles@[i] == before.circle[i + 1]);
                    }
                };
                assert forall|i: int| 0 <= i < scores@.len() implies #[trigger] scores@[i] <= m * (m + 1) by {
                    if i != p {
                        assert(scores@[i] <= (m - 1) * m);
                    }
                };
            }
        }
        current_player_idx = (current_player_idx + 1) % scores.len();
        proof {
            let n = num_players as int;
            vstd::arithmetic::div_mod::lemma_add_mod_noop((m - 1) as int, 1, n);
            vstd::arithmetic::div_mod::lemma_mod_twice((m - 1) as int, n);
            vstd::arithmetic::div_mod::lemma_add_mod_noop(((m - 1) as int) % n, 1, n);
            assert(((m - 1) as int) + 1 == m as int);
        }
        marble_score = marble_score + 1;
    }
    max_of(&scores)
}

/// The largest element; zero for an empty slice.
pub fn max_of(values: &Vec<usize>) -> (r: usize)
    ensures
        r == seq_max(values@),
{
    let mut best: usize = 0;
    let mut i: usize = 0;
    while i < values.len()
        invariant
            i <= values@.len(),
            best == seq_max(values@.subrange(0, i as int)),
        decreases values@.len() - i,
    {
        proof {
            assert(values@.subrange(0, i as int + 1).drop_last() =~= values@.subrange(0, i as int));
        }
        if values[i] >= best {
            best = values[i];
        }
        i = i + 1;
    }
    assert(values@.subrange(0, i as int) =~= values@);
    best
}

} // verus!
