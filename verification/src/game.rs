//! The marble game: the ring after each turn, what each turn earns, and the
//! highest score when the last marble has been played.

use vstd::prelude::*;
use crate::circle::{
    lemma_insert, lemma_position_in_range, lemma_remove, lemma_wrapped_step, CircularSequence, Ring,
};
use crate::deque_circle::DequeCircle;
use crate::error::GameError;

verus! {

/// Every marble whose number is a multiple of this is kept by its player.
pub const KEEP_EVERY: u32 = 23;

/// Where a marble is put in, counted from the current marble.
pub const PLACE_OFFSET: i64 = 2;

/// Where a marble is taken out on a keeping turn, counted from the current
/// marble.
pub const TAKE_OFFSET: i64 = -7;

/// The ring when `turns` turns have been played. It starts as marble 0 alone.
/// Turn `v` puts marble `v` in, unless `v` is a multiple of 23: then marble
/// `v` stays out and a marble is taken from the ring.
pub open spec fn ring_after(turns: nat) -> Ring
    decreases turns,
{
    if turns == 0 {
        Ring { marbles: seq![0u32], cursor: 0 }
    } else if turns % (KEEP_EVERY as nat) == 0 {
        ring_after((turns - 1) as nat).remove(TAKE_OFFSET as int)
    } else {
        ring_after((turns - 1) as nat).insert(PLACE_OFFSET as int, turns as u32)
    }
}

/// What turn `turn` earns its player: on a keeping turn the marble played
/// and the marble taken, otherwise nothing.
pub open spec fn gain_at(turn: nat) -> nat {
    if turn > 0 && turn % (KEEP_EVERY as nat) == 0 {
        (turn + ring_after((turn - 1) as nat).target(TAKE_OFFSET as int)) as nat
    } else {
        0
    }
}

/// The player whose turn `turn` is: players take turns in order, and the
/// first turn is player 1's (player 0's where there is one player only).
pub open spec fn player_at(players: nat, turn: nat) -> nat {
    turn % players
}

/// What `player` has earned when `turns` turns have been played.
pub open spec fn score(players: nat, player: nat, turns: nat) -> nat
    decreases turns,
{
    if turns == 0 {
        0
    } else {
        score(players, player, (turns - 1) as nat) + if player_at(players, turns) == player {
            gain_at(turns)
        } else {
            0
        }
    }
}

/// The highest score among the first `upto` players.
pub open spec fn best_of(players: nat, upto: nat, turns: nat) -> nat
    decreases upto,
{
    if upto == 0 {
        0
    } else if best_of(players, (upto - 1) as nat, turns) >= score(
        players,
        (upto - 1) as nat,
        turns,
    ) {
        best_of(players, (upto - 1) as nat, turns)
    } else {
        score(players, (upto - 1) as nat, turns)
    }
}

/// The highest score of all when the last marble has been played.
pub open spec fn highest_score(players: nat, last_marble: nat) -> nat {
    best_of(players, players, last_marble)
}

/// What a game with these settings comes to: no game without a player, and
/// otherwise the highest score.
pub open spec fn is_outcome(
    player_count: usize,
    last_marble_value: u32,
    outcome: Result<u64, GameError>,
) -> bool {
    if player_count == 0 {
        outcome == Err::<u64, GameError>(GameError::InvalidPlayerCount)
    } else {
        outcome matches Ok(best) && best == highest_score(
            player_count as nat,
            last_marble_value as nat,
        )
    }
}

/// The ring is never empty during a game, its cursor always names a marble,
/// and its size follows from the number of turns: each turn adds a marble,
/// but a keeping turn takes one instead.
pub proof fn lemma_ring_size(turns: nat)
    ensures
        ring_after(turns).wf(),
        ring_after(turns).marbles.len() == 1 + turns - 2 * (turns / (KEEP_EVERY as nat)),
        ring_after(turns).marbles.len() >= 1,
    decreases turns,
{
    if turns > 0 {
        let before = ring_after((turns - 1) as nat);
        lemma_ring_size((turns - 1) as nat);
        if turns % (KEEP_EVERY as nat) == 0 {
            lemma_remove(before, TAKE_OFFSET as int);
        } else {
            lemma_insert(before, PLACE_OFFSET as int, turns as u32);
        }
    }
}

/// No marble is in the ring twice, and none has a number above that of the
/// last turn. With the size of the ring this says that no marble is lost:
/// each turn that keeps no marble adds one that was not there, and each
/// keeping turn takes one out.
pub proof fn lemma_ring_marbles_distinct(turns: nat)
    requires
        turns <= u32::MAX,
    ensures
        forall|i: int|
            0 <= i < ring_after(turns).marbles.len() ==> #[trigger] ring_after(turns).marbles[i]
                <= turns,
        forall|i: int, j: int|
            0 <= i < j < ring_after(turns).marbles.len() ==> #[trigger] ring_after(
                turns,
            ).marbles[i] != #[trigger] ring_after(turns).marbles[j],
    decreases turns,
{
    if turns > 0 {
        let before = ring_after((turns - 1) as nat);
        let after = ring_after(turns);
        lemma_ring_marbles_distinct((turns - 1) as nat);
        lemma_ring_size((turns - 1) as nat);
        if turns % (KEEP_EVERY as nat) == 0 {
            let at = before.position(TAKE_OFFSET as int);
            lemma_position_in_range(before, TAKE_OFFSET as int);
            before.marbles.remove_ensures(at);
            assert forall|i: int| 0 <= i < after.marbles.len() implies #[trigger] after.marbles[i]
                <= turns by {
                if i < at {
                    assert(after.marbles[i] == before.marbles[i]);
                } else {
                    assert(after.marbles[i] == before.marbles[i + 1]);
                }
            }
            assert forall|i: int, j: int| 0 <= i < j < after.marbles.len() implies #[trigger]
                after.marbles[i] != #[trigger] after.marbles[j] by {
                let from_i = if i < at {
                    i
                } else {
                    i + 1
                };
                let from_j = if j < at {
                    j
                } else {
                    j + 1
                };
                assert(after.marbles[i] == before.marbles[from_i]);
                assert(after.marbles[j] == before.marbles[from_j]);
            }
        } else {
            let at = before.position(PLACE_OFFSET as int);
            lemma_position_in_range(before, PLACE_OFFSET as int);
            before.marbles.insert_ensures(at, turns as u32);
            assert forall|i: int| 0 <= i < after.marbles.len() implies #[trigger] after.marbles[i]
                <= turns by {
                if i < at {
                    assert(after.marbles[i] == before.marbles[i]);
                } else if i > at {
                    assert(after.marbles[i] == before.marbles[i - 1]);
                }
            }
            assert forall|i: int, j: int| 0 <= i < j < after.marbles.len() implies #[trigger]
                after.marbles[i] != #[trigger] after.marbles[j] by {
                if i != at && j != at {
                    let from_i = if i < at {
                        i
                    } else {
                        i - 1
                    };
                    let from_j = if j < at {
                        j
                    } else {
                        j - 1
                    };
                    assert(after.marbles[i] == before.marbles[from_i]);
                    assert(after.marbles[j] == before.marbles[from_j]);
                } else if i == at {
                    assert(after.marbles[j] == before.marbles[j - 1]);
                } else {
                    assert(after.marbles[i] == before.marbles[i]);
                }
            }
        }
    }
}

/// A game without turns leaves every score at 0.
pub proof fn lemma_no_turns_no_score(players: nat)
    ensures
        highest_score(players, 0) == 0,
{
    lemma_best_of_nothing(players, players);
}

proof fn lemma_best_of_nothing(players: nat, upto: nat)
    ensures
        best_of(players, upto, 0) == 0,
    decreases upto,
{
    if upto > 0 {
        lemma_best_of_nothing(players, (upto - 1) as nat);
    }
}

/// Nobody scores before the first keeping turn.
pub proof fn lemma_no_score_before_first_keep(players: nat, turns: nat)
    requires
        turns < KEEP_EVERY,
    ensures
        highest_score(players, turns) == 0,
{
    lemma_best_of_early(players, players, turns);
}

proof fn lemma_score_early(players: nat, player: nat, turns: nat)
    requires
        turns < KEEP_EVERY,
    ensures
        score(players, player, turns) == 0,
    decreases turns,
{
    if turns > 0 {
        lemma_score_early(players, player, (turns - 1) as nat);
    }
}

proof fn lemma_best_of_early(players: nat, upto: nat, turns: nat)
    requires
        turns < KEEP_EVERY,
    ensures
        best_of(players, upto, turns) == 0,
    decreases upto,
{
    if upto > 0 {
        lemma_best_of_early(players, (upto - 1) as nat, turns);
        lemma_score_early(players, (upto - 1) as nat, turns);
    }
}

/// A longer game never ends with a lower highest score.
pub proof fn lemma_highest_score_grows(players: nat, turns: nat)
    ensures
        highest_score(players, turns) <= highest_score(players, turns + 1),
{
    lemma_best_of_grows(players, players, turns);
}

proof fn lemma_best_of_grows(players: nat, upto: nat, turns: nat)
    ensures
        best_of(players, upto, turns) <= best_of(players, upto, turns + 1),
    decreases upto,
{
    if upto > 0 {
        lemma_best_of_grows(players, (upto - 1) as nat, turns);
        assert(score(players, (upto - 1) as nat, turns) <= score(
            players,
            (upto - 1) as nat,
            turns + 1,
        ));
    }
}

/// The highest score is a score that some player has, and no player has more.
pub proof fn lemma_highest_is_maximum(players: nat, turns: nat)
    requires
        players > 0,
    ensures
        forall|player: nat| player < players ==> score(players, player, turns) <= highest_score(
            players,
            turns,
        ),
        exists|player: nat| player < players && score(players, player, turns) == highest_score(
            players,
            turns,
        ),
{
    lemma_best_of_is_maximum(players, players, turns);
}

proof fn lemma_best_of_is_maximum(players: nat, upto: nat, turns: nat)
    requires
        upto > 0,
    ensures
        forall|player: nat| player < upto ==> score(players, player, turns) <= best_of(
            players,
            upto,
            turns,
        ),
        exists|player: nat| player < upto && score(players, player, turns) == best_of(
            players,
            upto,
            turns,
        ),
    decreases upto,
{
    let last = (upto - 1) as nat;
    if last > 0 {
        lemma_best_of_is_maximum(players, last, turns);
        let earlier = choose|player: nat| player < last && score(players, player, turns)
            == best_of(players, last, turns);
        if best_of(players, last, turns) >= score(players, last, turns) {
            assert(earlier < upto && score(players, earlier, turns) == best_of(
                players,
                upto,
                turns,
            ));
        } else {
            assert(last < upto && score(players, last, turns) == best_of(players, upto, turns));
        }
    } else {
        assert(best_of(players, 0, turns) == 0);
        assert(last < upto && score(players, last, turns) == best_of(players, upto, turns));
    }
}

/// Two outcomes of one game are the same outcome.
pub proof fn lemma_outcome_unique(
    player_count: usize,
    last_marble_value: u32,
    first: Result<u64, GameError>,
    second: Result<u64, GameError>,
)
    requires
        is_outcome(player_count, last_marble_value, first),
        is_outcome(player_count, last_marble_value, second),
    ensures
        first == second,
{
}

/// No turn earns more than two marbles are worth.
proof fn lemma_gain_bound(turn: nat)
    requires
        turn <= u32::MAX,
    ensures
        gain_at(turn) <= 2 * (u32::MAX as nat),
{
}

/// A score grows only on keeping turns, by at most two marbles' worth.
proof fn lemma_score_bound(players: nat, player: nat, turns: nat)
    requires
        turns <= u32::MAX,
    ensures
        score(players, player, turns) <= (turns / (KEEP_EVERY as nat)) * 0x2_0000_0000,
    decreases turns,
{
    if turns > 0 {
        lemma_score_bound(players, player, (turns - 1) as nat);
        lemma_gain_bound(turns);
    }
}

/// The turn passes to the next player, and from the last player to the first.
pub proof fn lemma_next_player(players: nat, turn: nat)
    requires
        players > 0,
    ensures
        player_at(players, turn + 1) == if player_at(players, turn) + 1 == players {
            0
        } else {
            player_at(players, turn) + 1
        },
{
    lemma_wrapped_step(turn as int, players as int);
}

/// A game in progress: the ring, and the number of the marble played last.
pub struct GameState<S> {
    marbles: S,
    current_val: u32,
}

impl<S: CircularSequence> GameState<S> {
    /// The number of turns played.
    pub closed spec fn turn(&self) -> nat {
        self.current_val as nat
    }

    /// The ring as it stands.
    pub closed spec fn ring(&self) -> Ring {
        self.marbles.ring()
    }

    /// The ring is the one that the turns played lead to.
    pub closed spec fn wf(&self) -> bool {
        &&& self.marbles.wf()
        &&& self.marbles.ring() == ring_after(self.current_val as nat)
    }

    /// A game before its first turn: marble 0 alone in the ring.
    pub fn new() -> (state: Self)
        ensures
            state.wf(),
            state.turn() == 0,
            state.ring() == ring_after(0),
    {
        let mut marbles = S::new();
        marbles.insert_at_offset(0, 0);
        GameState { marbles, current_val: 0 }
    }

    /// The number of the marble played last; 0 before the first turn.
    pub fn current_val(&self) -> (value: u32)
        ensures
            value == self.turn(),
    {
        self.current_val
    }

    /// Makes room for the marbles of `turns` turns more; the game is as it
    /// was.
    pub fn reserve(&mut self, turns: usize)
        requires
            old(self).wf(),
        ensures
            final(self).wf(),
            final(self).turn() == old(self).turn(),
            final(self).ring() == old(self).ring(),
    {
        self.marbles.reserve(turns);
    }

    /// Plays the next marble and returns what the turn earns.
    pub fn place_marble(&mut self) -> (gain: u64)
        requires
            old(self).wf(),
            old(self).turn() < u32::MAX,
        ensures
            final(self).wf(),
            final(self).turn() == old(self).turn() + 1,
            final(self).ring() == ring_after(final(self).turn()),
            gain == gain_at(final(self).turn()),
    {
        let value: u32 = self.current_val + 1;
        proof {
            lemma_ring_size(self.current_val as nat);
        }
        if value % KEEP_EVERY == 0 {
            let marble: u32 = self.marbles.remove_at_offset(TAKE_OFFSET).unwrap();
            self.current_val = value;
            value as u64 + marble as u64
        } else {
            self.marbles.insert_at_offset(PLACE_OFFSET, value);
            self.current_val = value;
            0
        }
    }

    /// The marbles once round the ring, clockwise from the current one.
    pub fn marbles(&self) -> (v: Vec<u32>)
        requires
            self.wf(),
        ensures
            v@ == self.ring().clockwise(),
    {
        let all: Vec<u32> = self.marbles.snapshot();
        let cursor: usize = self.marbles.cursor();
        let length: usize = all.len();
        proof {
            self.marbles.lemma_ring_wf();
        }
        let ahead: usize = length - cursor;
        let mut v: Vec<u32> = Vec::new();
        let mut step: usize = 0;
        while step < length
            invariant
                all@ == self.ring().marbles,
                cursor == self.ring().cursor,
                length == all.len(),
                cursor <= length,
                ahead == length - cursor,
                step <= length,
                v@ == self.ring().clockwise().subrange(0, step as int),
            decreases length - step,
        {
            let index: usize = if step < ahead {
                cursor + step
            } else {
                step - ahead
            };
            v.push(all[index]);
            step = step + 1;
            assert(v@ =~= self.ring().clockwise().subrange(0, step as int));
        }
        assert(v@ =~= self.ring().clockwise());
        v
    }
}

/// Two games that have played the same number of turns hold the same ring,
/// however each of them keeps its marbles.
pub proof fn lemma_games_agree<A: CircularSequence, B: CircularSequence>(
    first: GameState<A>,
    second: GameState<B>,
)
    requires
        first.wf(),
        second.wf(),
        first.turn() == second.turn(),
    ensures
        first.ring() == second.ring(),
{
}

/// Two rings that are equal stay equal when the same marble goes into both
/// or comes out of both, however each of them keeps its marbles.
pub proof fn lemma_strategies_agree<A: CircularSequence, B: CircularSequence>(
    first: A,
    second: B,
    offset: int,
    value: u32,
)
    requires
        first.ring() == second.ring(),
    ensures
        first.ring().insert(offset, value) == second.ring().insert(offset, value),
        first.ring().remove(offset) == second.ring().remove(offset),
        first.ring().target(offset) == second.ring().target(offset),
{
}

/// A vector of `count` zeros.
fn zero_scores(count: usize) -> (scores: Vec<u64>)
    ensures
        scores.len() == count,
        forall|i: int| 0 <= i < count ==> scores[i] == 0,
{
    let mut scores: Vec<u64> = Vec::new();
    let mut filled: usize = 0;
    while filled < count
        invariant
            filled <= count,
            scores.len() == filled,
            forall|i: int| 0 <= i < filled ==> scores[i] == 0,
        decreases count - filled,
    {
        scores.push(0);
        filled = filled + 1;
    }
    scores
}

/// Plays the game on rings of kind `S` and returns the highest score.
pub fn find_highest_score_with<S: CircularSequence>(
    player_count: usize,
    last_marble_value: u32,
) -> (outcome: Result<u64, GameError>)
    ensures
        is_outcome(player_count, last_marble_value, outcome),
        player_count > 0 && last_marble_value == 0 ==> outcome == Ok::<u64, GameError>(0),
{
    if player_count == 0 {
        return Err(GameError::InvalidPlayerCount);
    }
    let ghost players: nat = player_count as nat;
    let mut state: GameState<S> = GameState::new();
    state.reserve(last_marble_value as usize);
    let mut scores: Vec<u64> = zero_scores(player_count);
    let mut current_player: usize = 0;
    let mut turn: u32 = 0;
    while turn < last_marble_value
        invariant
            players == player_count,
            players > 0,
            state.wf(),
            state.turn() == turn,
            turn <= last_marble_value,
            scores.len() == player_count,
            current_player == player_at(players, turn as nat),
            forall|i: int| 0 <= i < player_count ==> scores[i] == score(players, i as nat, turn as nat),
        decreases last_marble_value - turn,
    {
        proof {
            lemma_next_player(players, turn as nat);
        }
        current_player = if current_player + 1 == player_count {
            0
        } else {
            current_player + 1
        };
        let gain: u64 = state.place_marble();
        turn = turn + 1;
        proof {
            lemma_score_bound(players, current_player as nat, turn as nat);
        }
        let ghost before = scores@;
        scores.set(current_player, scores[current_player] + gain);
        assert forall|i: int| 0 <= i < player_count implies scores[i] == score(
            players,
            i as nat,
            turn as nat,
        ) by {
            assert(before[i] == score(players, i as nat, (turn - 1) as nat));
        }
    }
    let mut best: u64 = 0;
    let mut seen: usize = 0;
    while seen < player_count
        invariant
            players == player_count,
            seen <= player_count,
            scores.len() == player_count,
            forall|i: int| 0 <= i < player_count ==> scores[i] == score(
                players,
                i as nat,
                last_marble_value as nat,
            ),
            best == best_of(players, seen as nat, last_marble_value as nat),
        decreases player_count - seen,
    {
        if scores[seen] > best {
            best = scores[seen];
        }
        seen = seen + 1;
    }
    proof {
        if last_marble_value == 0 {
            lemma_no_turns_no_score(players);
        }
    }
    Ok(best)
}

/// Plays the game and returns the highest score: `Err(InvalidPlayerCount)`
/// without a player, and otherwise the most that any player has earned when
/// marble `last_marble_value` has been played.
pub fn find_highest_score(player_count: usize, last_marble_value: u32) -> (outcome: Result<
    u64,
    GameError,
>)
    ensures
        is_outcome(player_count, last_marble_value, outcome),
        player_count > 0 && last_marble_value == 0 ==> outcome == Ok::<u64, GameError>(0),
{
    find_highest_score_with::<DequeCircle>(player_count, last_marble_value)
}

} // verus!
