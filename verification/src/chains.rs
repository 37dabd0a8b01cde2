//! Plain facts about chains, on which the laws of the game rest.

use crate::rules::{
    can_merge, column_of, is_direction, neighbour, on_board, on_chain, resolve_chain, resolve_pass,
    row_of, same_line, step, step_gain, steps_to_edge, DOWN, LEFT, RIGHT, TILES, UP,
};
use vstd::prelude::*;

verus! {

/// Resolving a chain keeps the number of tiles.
pub proof fn lemma_chain_keeps_length(tiles: Seq<nat>, index: int, direction: int)
    requires
        tiles.len() == TILES,
    ensures
        resolve_chain(tiles, index, direction).tiles.len() == tiles.len(),
    decreases steps_to_edge(index, direction),
{
    match neighbour(index, direction) {
        Some(next) => {
            lemma_chain_keeps_length(tiles, next, direction);
        },
        None => {},
    }
}

/// A place that a chain reaches lies strictly nearer to the edge than any tile
/// behind the chain's start.
pub proof fn lemma_chain_leads_ahead(place: int, start: int, direction: int)
    requires
        on_chain(place, start, direction),
    ensures
        steps_to_edge(place, direction) <= steps_to_edge(start, direction),
        on_board(start) ==> on_board(place),
        place != start ==> on_board(start) && steps_to_edge(place, direction) < steps_to_edge(
            start,
            direction,
        ),
    decreases steps_to_edge(start, direction),
{
    if place != start {
        lemma_chain_leads_ahead(place, neighbour(start, direction).unwrap(), direction);
    }
}

/// Resolving a chain leaves every tile off the chain as it was.
pub proof fn lemma_chain_keeps_tiles_behind(
    tiles: Seq<nat>,
    index: int,
    direction: int,
    other: int,
)
    requires
        tiles.len() == TILES,
        0 <= other < TILES,
        !on_chain(other, index, direction),
    ensures
        resolve_chain(tiles, index, direction).tiles.len() == TILES,
        resolve_chain(tiles, index, direction).tiles[other] == tiles[other],
    decreases steps_to_edge(index, direction),
{
    lemma_chain_keeps_length(tiles, index, direction);
    match neighbour(index, direction) {
        Some(next) => {
            assert(other != index && !on_chain(other, next, direction));
            assert(on_chain(next, next, direction));
            assert(other != next);
            lemma_chain_keeps_length(tiles, next, direction);
            lemma_chain_keeps_tiles_behind(tiles, next, direction, other);
        },
        None => {},
    }
}

/// A pass only ever adds to the score, so a prefix of it earns no more than
/// the whole.
pub proof fn lemma_pass_gain_grows(tiles: Seq<nat>, direction: int, fewer: nat, more: nat)
    requires
        fewer <= more,
    ensures
        resolve_pass(tiles, direction, fewer).gain <= resolve_pass(tiles, direction, more).gain,
    decreases more,
{
    if fewer < more {
        lemma_pass_gain_grows(tiles, direction, fewer, (more - 1) as nat);
    }
}

/// A tile that is empty, or whose neighbour will not take it in, stays where
/// it is and earns nothing.
pub proof fn lemma_idle_step(tiles: Seq<nat>, from: int, to: int)
    requires
        tiles.len() == TILES,
        on_board(from),
        on_board(to),
        tiles[from] == 0 || !can_merge(tiles[to], tiles[from]),
    ensures
        step(tiles, from, to) == tiles,
        step_gain(tiles, from, to) == 0,
{
    assert(step(tiles, from, to) =~= tiles);
}

/// The closed form of [`on_chain`]: `place` lies in the row or column of
/// `start`, at `start` or between it and the edge that `direction` points to.
pub open spec fn ahead_in_line(place: int, start: int, direction: int) -> bool {
    if direction == UP {
        column_of(place) == column_of(start) && 0 <= place <= start
    } else if direction == RIGHT {
        row_of(place) == row_of(start) && start <= place
    } else if direction == DOWN {
        column_of(place) == column_of(start) && start <= place < TILES
    } else if direction == LEFT {
        row_of(place) == row_of(start) && place <= start
    } else {
        place == start
    }
}

/// A chain reaches exactly the places that lie ahead of its start in the
/// same row or column.
pub proof fn lemma_chain_is_line_ahead(place: int, start: int, direction: int)
    requires
        on_board(start),
        is_direction(direction),
    ensures
        on_chain(place, start, direction) == ahead_in_line(place, start, direction),
    decreases steps_to_edge(start, direction),
{
    match neighbour(start, direction) {
        Some(next) => {
            lemma_chain_is_line_ahead(place, next, direction);
        },
        None => {},
    }
}

/// A chain stays in the row or column of its start.
pub proof fn lemma_chain_stays_in_line(place: int, start: int, direction: int)
    requires
        on_board(start),
        is_direction(direction),
        on_chain(place, start, direction),
    ensures
        on_board(place),
        same_line(place, start, direction),
{
    lemma_chain_is_line_ahead(place, start, direction);
}

/// A chain leaves every other row or column as it was.
pub proof fn lemma_chain_keeps_other_lines(
    tiles: Seq<nat>,
    start: int,
    direction: int,
    place: int,
)
    requires
        tiles.len() == TILES,
        on_board(start),
        is_direction(direction),
        on_board(place),
        !same_line(place, start, direction),
    ensures
        resolve_chain(tiles, start, direction).tiles[place] == tiles[place],
{
    if on_chain(place, start, direction) {
        lemma_chain_stays_in_line(place, start, direction);
    }
    lemma_chain_keeps_tiles_behind(tiles, start, direction, place);
}

} // verus!
