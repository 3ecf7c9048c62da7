use marble_puzzles::array_circle::ArrayCircle;
use marble_puzzles::circle::{normalize, CircularSequence};
use marble_puzzles::deque_circle::DequeCircle;
use marble_puzzles::error::GameError;
use marble_puzzles::game::{find_highest_score, find_highest_score_with, GameState};
use marble_puzzles::setup::parse_line;

#[test]
fn day9_test_parse_line() {
    assert_eq!(
        Ok((10, 1618)),
        parse_line("10 players; last marble is worth 1618 points")
    );
}

#[test]
fn test_place_marble() {
    let mut state: GameState<DequeCircle> = GameState::new();
    for _ in 0..25 {
        state.place_marble();
    }
    assert_eq!(
        vec![
            25, 10, 21, 5, 22, 11, 1, 12, 6, 13, 3, 14, 7, 15, 0, 16, 8, 17, 4, 18, 19, 2, 24, 20,
        ],
        state.marbles()
    );
}

#[test]
fn test_find_highest_score() {
    assert_eq!(Ok(0), find_highest_score(9, 22));
    assert_eq!(Ok(32), find_highest_score(9, 23));
    assert_eq!(Ok(32), find_highest_score(9, 25));
    assert_eq!(Ok(8317), find_highest_score(10, 1618));
    assert_eq!(Ok(146373), find_highest_score(13, 7999));
    assert_eq!(Ok(2764), find_highest_score(17, 1104));
    assert_eq!(Ok(54718), find_highest_score(21, 6111));
    assert_eq!(Ok(37305), find_highest_score(30, 5807));
}

#[test]
fn place_marble_on_array_ring() {
    let mut state: GameState<ArrayCircle> = GameState::new();
    let mut earned = Vec::new();
    for _ in 0..25 {
        earned.push(state.place_marble());
    }
    assert_eq!(25, state.current_val());
    assert_eq!(32, earned[22]);
    assert_eq!(32u64, earned.iter().sum::<u64>());
    assert_eq!(
        vec![
            25, 10, 21, 5, 22, 11, 1, 12, 6, 13, 3, 14, 7, 15, 0, 16, 8, 17, 4, 18, 19, 2, 24, 20,
        ],
        state.marbles()
    );
}

#[test]
fn ring_after_25_turns_has_each_marble_once() {
    let mut state: GameState<DequeCircle> = GameState::new();
    for _ in 0..25 {
        state.place_marble();
    }
    let mut marbles = state.marbles();
    marbles.sort();
    let mut expected: Vec<u32> = (0..=25).collect();
    expected.retain(|value| *value != 9 && *value != 23);
    assert_eq!(expected, marbles);
}

#[test]
fn no_turns_no_score() {
    for players in 1..40 {
        assert_eq!(Ok(0), find_highest_score(players, 0));
    }
}

#[test]
fn no_players_is_an_error() {
    assert_eq!(Err(GameError::InvalidPlayerCount), find_highest_score(0, 0));
    assert_eq!(Err(GameError::InvalidPlayerCount), find_highest_score(0, 100));
    assert_eq!(
        Err(GameError::InvalidPlayerCount),
        find_highest_score_with::<ArrayCircle>(0, 100)
    );
}

#[test]
fn repeated_games_agree() {
    assert_eq!(find_highest_score(13, 7999), find_highest_score(13, 7999));
    assert_eq!(find_highest_score(0, 7), find_highest_score(0, 7));
}

#[test]
fn one_player_earns_everything() {
    assert_eq!(Ok(32), find_highest_score(1, 23));
    assert_eq!(Ok(32 + 46 + 17), find_highest_score(1, 46));
}

#[test]
fn both_rings_give_the_same_scores() {
    let games = [(9, 22), (9, 23), (9, 25), (10, 1618), (13, 7999), (17, 1104), (21, 6111), (30, 5807)];
    for (players, last) in games {
        assert_eq!(
            find_highest_score_with::<ArrayCircle>(players, last),
            find_highest_score_with::<DequeCircle>(players, last)
        );
    }
}

#[test]
fn both_rings_give_the_same_snapshots() {
    let mut array = ArrayCircle::new();
    let mut deque = DequeCircle::new();
    array.insert_at_offset(0, 0);
    deque.insert_at_offset(0, 0);
    for value in 1..2000u32 {
        if value % 23 == 0 {
            assert_eq!(array.remove_at_offset(-7), deque.remove_at_offset(-7));
        } else {
            array.insert_at_offset(2, value);
            deque.insert_at_offset(2, value);
        }
        assert_eq!(array.cursor(), deque.cursor());
        assert_eq!(array.len(), deque.len());
        if value % 97 == 0 || value < 60 {
            assert_eq!(array.snapshot(), deque.snapshot());
        }
    }
}

#[test]
fn first_turns_follow_the_rules() {
    let mut ring = DequeCircle::new();
    ring.insert_at_offset(0, 0);
    assert_eq!(vec![0], ring.snapshot());
    ring.insert_at_offset(2, 1);
    assert_eq!(vec![1, 0], ring.snapshot());
    assert_eq!(0, ring.cursor());
    ring.insert_at_offset(2, 2);
    assert_eq!(vec![2, 1, 0], ring.snapshot());
    assert_eq!(0, ring.cursor());
    ring.insert_at_offset(2, 3);
    assert_eq!(vec![2, 1, 3, 0], ring.snapshot());
    assert_eq!(2, ring.cursor());
    ring.insert_at_offset(2, 4);
    assert_eq!(vec![4, 2, 1, 3, 0], ring.snapshot());
    assert_eq!(0, ring.cursor());
}

#[test]
fn remove_from_empty_ring_fails() {
    let mut array = ArrayCircle::new();
    assert_eq!(Err(GameError::EmptySequence), array.remove_at_offset(-7));
    assert_eq!(0, array.len());
    let mut deque = DequeCircle::new();
    assert_eq!(Err(GameError::EmptySequence), deque.remove_at_offset(0));
    deque.insert_at_offset(5, 11);
    assert_eq!(Ok(11), deque.remove_at_offset(-3));
    assert_eq!(Err(GameError::EmptySequence), deque.remove_at_offset(1));
    assert_eq!(Vec::<u32>::new(), deque.snapshot());
}

#[test]
fn remove_moves_cursor_to_the_follower() {
    for offset in [-9i64, -1, 0, 1, 2, 3, 4, 12] {
        let mut array = ArrayCircle::new();
        let mut deque = DequeCircle::new();
        for value in 0..5u32 {
            array.insert_at_offset(1, value);
            deque.insert_at_offset(1, value);
        }
        assert_eq!(vec![1, 2, 3, 4, 0], array.snapshot());
        assert_eq!(3, array.cursor());
        let at = normalize(3, offset, 5);
        let expected = [1u32, 2, 3, 4, 0][at];
        assert_eq!(Ok(expected), array.remove_at_offset(offset));
        assert_eq!(Ok(expected), deque.remove_at_offset(offset));
        assert_eq!(if at == 4 { 0 } else { at }, array.cursor());
        assert_eq!(array.cursor(), deque.cursor());
        assert_eq!(array.snapshot(), deque.snapshot());
    }
}

#[test]
fn normalize_wraps_both_ways() {
    assert_eq!(0, normalize(0, 2, 1));
    assert_eq!(0, normalize(0, 2, 2));
    assert_eq!(2, normalize(0, 2, 3));
    assert_eq!(0, normalize(3, 2, 5));
    assert_eq!(1, normalize(3, -7, 5));
    assert_eq!(3, normalize(3, -7, 7));
    assert_eq!(16, normalize(0, -7, 23));
    assert_eq!(0, normalize(0, -7, 7));
    assert_eq!(0, normalize(0, -7, 1));
    assert_eq!(4, normalize(9, 0, 5));
    assert_eq!(2, normalize(0, i64::MIN, 5));
    assert_eq!(2, normalize(0, i64::MAX, 5));
    assert_eq!(usize::MAX - 1, normalize(usize::MAX - 2, 1, usize::MAX));
    assert_eq!(0, normalize(usize::MAX - 1, 1, usize::MAX));
}

#[test]
fn parse_line_rejects_other_lines() {
    assert_eq!(Err(GameError::MalformedInput), parse_line(""));
    assert_eq!(Err(GameError::MalformedInput), parse_line("ten players; last marble is worth 5 points"));
    assert_eq!(Err(GameError::MalformedInput), parse_line(" 10 players; last marble is worth 5 points"));
    assert_eq!(Err(GameError::MalformedInput), parse_line("10 players; last marble is worth points"));
    assert_eq!(
        Err(GameError::MalformedInput),
        parse_line("10 players; last marble is worth 4294967296 points")
    );
    assert_eq!(Ok((0, 4294967295)), parse_line("0 players; last marble is worth 4294967295"));
    assert_eq!(Ok((7, 12)), parse_line("007 players; last marble is worth 12 points\n"));
}
