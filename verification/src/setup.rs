//! Reading the line of text that describes a marble game.

use vstd::prelude::*;
use crate::error::GameError;
use crate::pattern::{
    captures, captures_view, pattern_captures, read_u32_group, read_usize_group, u32_group,
    usize_group,
};

verus! {

/// The form of the line that describes a game: the number of players, then
/// the value of the last marble.
pub const SETUP_PATTERN: &'static str = r"^(\d+) players; last marble is worth (\d+)";

/// What describes a game: the number of players, and the value of the last
/// marble.
pub type GameSetup = (usize, u32);

/// The game that captured groups describe: the first group is the number of
/// players and the second the value of the last marble. Without a match, or
/// where a number is missing or too large, the input is malformed.
pub open spec fn setup_from(found: Option<Seq<Option<Seq<char>>>>) -> Result<
    GameSetup,
    GameError,
> {
    match found {
        Some(groups) => match (usize_group(groups, 1), u32_group(groups, 2)) {
            (Some(player_count), Some(last_marble_value)) => Ok(
                (player_count, last_marble_value),
            ),
            _ => Err(GameError::MalformedInput),
        },
        None => Err(GameError::MalformedInput),
    }
}

/// Reads the number of players and the value of the last marble out of what
/// the pattern captured.
pub fn setup_from_captures(found: &Option<Vec<Option<String>>>) -> (r: Result<
    GameSetup,
    GameError,
>)
    ensures
        r == setup_from(captures_view(*found)),
{
    match found {
        Some(groups) => {
            let player_count = read_usize_group(groups, 1);
            let last_marble_value = read_u32_group(groups, 2);
            match (player_count, last_marble_value) {
                (Some(player_count), Some(last_marble_value)) => Ok(
                    (player_count, last_marble_value),
                ),
                _ => Err(GameError::MalformedInput),
            }
        },
        None => Err(GameError::MalformedInput),
    }
}

/// Reads a line of the form `<players> players; last marble is worth <value>
/// points` and returns the two numbers, or `MalformedInput` where the line
/// does not have that form.
pub fn parse_line(line: &str) -> (r: Result<GameSetup, GameError>)
    ensures
        r == setup_from(pattern_captures(SETUP_PATTERN@, line@)),
{
    let found = captures(SETUP_PATTERN, line);
    setup_from_captures(&found)
}

} // verus!
