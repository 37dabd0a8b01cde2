//! The mathematical model of the board and of one move.
//!
//! A board is a sequence of sixteen tile values in row-major order, `0` standing
//! for an empty cell. Everything here is ghost code: the executable board in
//! [`crate::board`] is proved to follow it.

use vstd::prelude::*;

verus! {

/// Number of tiles on the board.
pub const TILES: usize = 16;

/// Direction towards row zero.
pub const UP: usize = 0;

/// Direction towards the last column.
pub const RIGHT: usize = 1;

/// Direction towards the last row.
pub const DOWN: usize = 2;

/// Direction towards column zero.
pub const LEFT: usize = 3;

/// What a move does to a board: the tile values it leaves and the score it earns.
pub struct Outcome {
    pub tiles: Seq<nat>,
    pub gain: nat,
}

/// Whether `index` names one of the sixteen cells.
pub open spec fn on_board(index: int) -> bool {
    0 <= index < TILES
}

/// Whether `direction` is one of up, right, down and left.
pub open spec fn is_direction(direction: int) -> bool {
    0 <= direction < 4
}

/// The row of a cell, counted from the top.
pub open spec fn row_of(index: int) -> int {
    index / 4
}

/// The column of a cell, counted from the left.
pub open spec fn column_of(index: int) -> int {
    index % 4
}

/// The tile next to `index` in `direction`, if the board has one there.
pub open spec fn neighbour(index: int, direction: int) -> Option<int> {
    if !on_board(index) {
        None
    } else if direction == UP && row_of(index) > 0 {
        Some(index - 4)
    } else if direction == RIGHT && column_of(index) < 3 {
        Some(index + 1)
    } else if direction == DOWN && row_of(index) < 3 {
        Some(index + 4)
    } else if direction == LEFT && column_of(index) > 0 {
        Some(index - 1)
    } else {
        None
    }
}

/// How many tiles lie between `index` and the edge that `direction` points to.
pub open spec fn steps_to_edge(index: int, direction: int) -> nat {
    if !on_board(index) {
        0
    } else if direction == UP {
        row_of(index) as nat
    } else if direction == RIGHT {
        (3 - column_of(index)) as nat
    } else if direction == DOWN {
        (3 - row_of(index)) as nat
    } else if direction == LEFT {
        column_of(index) as nat
    } else {
        0
    }
}

/// Whether `place` lies on the path that leads from `start` to the edge in
/// `direction`, `start` itself included.
pub open spec fn on_chain(place: int, start: int, direction: int) -> bool
    decreases steps_to_edge(start, direction),
{
    place == start || match neighbour(start, direction) {
        Some(next) => on_chain(place, next, direction),
        None => false,
    }
}

/// A tile may move into a neighbour that is empty or holds the same value.
pub open spec fn can_merge(target: nat, moving: nat) -> bool {
    target == moving || target == 0
}

/// The board after the tile at `from` has tried to move into `to`.
pub open spec fn step(tiles: Seq<nat>, from: int, to: int) -> Seq<nat> {
    if can_merge(tiles[to], tiles[from]) {
        tiles.update(to, tiles[to] + tiles[from]).update(from, 0)
    } else {
        tiles
    }
}

/// The score earned when the tile at `from` tries to move into `to`: the value
/// that `to` holds afterwards, or nothing if the tile stays.
pub open spec fn step_gain(tiles: Seq<nat>, from: int, to: int) -> nat {
    if can_merge(tiles[to], tiles[from]) {
        tiles[to] + tiles[from]
    } else {
        0
    }
}

/// Resolves the chain that starts at `index`: the tiles ahead settle first,
/// from the edge backwards, then the tile at `index` tries to move one cell.
pub open spec fn resolve_chain(tiles: Seq<nat>, index: int, direction: int) -> Outcome
    decreases steps_to_edge(index, direction),
{
    match neighbour(index, direction) {
        Some(next) => {
            let ahead = resolve_chain(tiles, next, direction);
            Outcome {
                tiles: step(ahead.tiles, index, next),
                gain: ahead.gain + step_gain(ahead.tiles, index, next),
            }
        },
        None => Outcome { tiles, gain: 0 },
    }
}

/// One pass cut short: the chains that start at the tiles `0..count` are
/// resolved in index order.
pub open spec fn resolve_pass(tiles: Seq<nat>, direction: int, count: nat) -> Outcome
    decreases count,
{
    if count == 0 {
        Outcome { tiles, gain: 0 }
    } else {
        let before = resolve_pass(tiles, direction, (count - 1) as nat);
        let chain = resolve_chain(before.tiles, count - 1, direction);
        Outcome { tiles: chain.tiles, gain: before.gain + chain.gain }
    }
}

/// A whole move: two full passes over the board.
pub open spec fn resolve_move(tiles: Seq<nat>, direction: int) -> Outcome {
    let first = resolve_pass(tiles, direction, TILES as nat);
    let second = resolve_pass(first.tiles, direction, TILES as nat);
    Outcome { tiles: second.tiles, gain: first.gain + second.gain }
}

/// The board on which every cell is empty.
pub open spec fn empty_board() -> Seq<nat> {
    Seq::new(TILES as nat, |index: int| 0nat)
}

/// Sum of the first `count` tile values.
pub open spec fn sum_to(tiles: Seq<nat>, count: nat) -> nat
    decreases count,
{
    if count == 0 {
        0
    } else {
        sum_to(tiles, (count - 1) as nat) + tiles[count - 1]
    }
}

/// Sum of all tile values.
pub open spec fn total(tiles: Seq<nat>) -> nat {
    sum_to(tiles, tiles.len())
}

/// The index of the cell that lies `position` cells from the edge that
/// `direction` points to, in the row or column of number `line`.
pub open spec fn cell_at(line: int, position: int, direction: int) -> int {
    if direction == UP {
        4 * position + line
    } else if direction == RIGHT {
        4 * line + 3 - position
    } else if direction == DOWN {
        4 * (3 - position) + line
    } else {
        4 * line + position
    }
}

/// The number of the row, for a move to the left or right, or of the column,
/// for a move up or down, in which `index` lies.
pub open spec fn line_of(index: int, direction: int) -> int {
    if direction == LEFT || direction == RIGHT {
        row_of(index)
    } else {
        column_of(index)
    }
}

/// The four values of one row or column, counted from the edge that
/// `direction` points to.
pub open spec fn line_cells(tiles: Seq<nat>, line: int, direction: int) -> Seq<nat> {
    Seq::new(4, |position: int| tiles[cell_at(line, position, direction)])
}

/// A line of four cells after the tile at `from` has tried to move one cell
/// towards the edge, with what that earns added.
pub open spec fn line_step(line: Outcome, from: int) -> Outcome {
    Outcome {
        tiles: step(line.tiles, from, from - 1),
        gain: line.gain + step_gain(line.tiles, from, from - 1),
    }
}

/// A line after the chain from the cell `start` cells off the edge: the
/// tiles one, two, up to `start` cells off the edge try to move, in that
/// order.
pub open spec fn line_chain(line: Outcome, start: int) -> Outcome {
    if start == 1 {
        line_step(line, 1)
    } else if start == 2 {
        line_step(line_step(line, 1), 2)
    } else if start == 3 {
        line_step(line_step(line_step(line, 1), 2), 3)
    } else {
        line
    }
}

/// One pass over a line of four cells. Towards row or column zero the
/// chains start at the edge and then ever further from it; towards the last
/// row or column they start at the far end and then ever nearer.
pub open spec fn line_pass(cells: Seq<nat>, direction: int) -> Outcome {
    let line = Outcome { tiles: cells, gain: 0 };
    if direction == UP || direction == LEFT {
        line_chain(line_chain(line_chain(line, 1), 2), 3)
    } else {
        line_chain(line_chain(line_chain(line, 3), 2), 1)
    }
}

/// A whole move on a line of four cells: two passes.
pub open spec fn line_move(cells: Seq<nat>, direction: int) -> Outcome {
    let first = line_pass(cells, direction);
    let second = line_pass(first.tiles, direction);
    Outcome { tiles: second.tiles, gain: first.gain + second.gain }
}

/// A whole move told line by line: every cell ends as the move of its own
/// row or column says, and the score earned is the sum over the four lines.
pub open spec fn move_by_lines(tiles: Seq<nat>, direction: int) -> Outcome {
    Outcome {
        tiles: Seq::new(
            TILES as nat,
            |index: int|
                line_move(
                    line_cells(tiles, line_of(index, direction), direction),
                    direction,
                ).tiles[steps_to_edge(index, direction) as int],
        ),
        gain: line_move(line_cells(tiles, 0, direction), direction).gain + line_move(
            line_cells(tiles, 1, direction),
            direction,
        ).gain + line_move(line_cells(tiles, 2, direction), direction).gain + line_move(
            line_cells(tiles, 3, direction),
            direction,
        ).gain,
    }
}

/// Whether two places lie in the same row, for a move to the left or right,
/// or in the same column, for a move up or down.
pub open spec fn same_line(one: int, other: int, direction: int) -> bool {
    if direction == LEFT || direction == RIGHT {
        row_of(one) == row_of(other)
    } else {
        column_of(one) == column_of(other)
    }
}

/// Whether two boards hold the same values along the line through `place`.
pub open spec fn agree_on_line(one: Seq<nat>, other: Seq<nat>, place: int, direction: int) -> bool {
    forall|index: int|
        on_board(index) && same_line(index, place, direction) ==> #[trigger] one[index]
            == other[index]
}

/// The direction that points the other way.
pub open spec fn opposite(direction: int) -> int {
    (direction + 2) % 4
}

/// Whether the tile at `index` gives its value to its neighbour while the
/// chain through it is resolved: it does if that neighbour has itself moved
/// away, is empty, or holds the same value.
pub open spec fn departs(tiles: Seq<nat>, index: int, direction: int) -> bool
    decreases steps_to_edge(index, direction),
{
    match neighbour(index, direction) {
        Some(next) => departs(tiles, next, direction) || can_merge(tiles[next], tiles[index]),
        None => false,
    }
}

/// What the cell at `place` holds once the chain from `start` is resolved,
/// told from the board before: off the chain what it held; on the chain what
/// it kept, plus what the one tile behind it gave.
pub open spec fn settled(tiles: Seq<nat>, start: int, direction: int, place: int) -> nat {
    if !on_chain(place, start, direction) {
        tiles[place]
    } else {
        let kept = if departs(tiles, place, direction) {
            0nat
        } else {
            tiles[place]
        };
        let received = match neighbour(place, opposite(direction)) {
            Some(behind) => if place != start && departs(tiles, behind, direction) {
                tiles[behind]
            } else {
                0nat
            },
            None => 0nat,
        };
        kept + received
    }
}

/// What resolving the chain from `start` earns, told from the board before:
/// every tile that departs is scored once, with the value that the cell it
/// moves into then holds.
pub open spec fn chain_gain(tiles: Seq<nat>, start: int, direction: int) -> nat
    decreases steps_to_edge(start, direction),
{
    match neighbour(start, direction) {
        Some(next) => chain_gain(tiles, next, direction) + if departs(tiles, start, direction) {
            settled(tiles, start, direction, next)
        } else {
            0nat
        },
        None => 0,
    }
}

/// Every tile value is a multiple of two, as on any board that was built
/// from spawned tiles alone.
pub open spec fn all_even(tiles: Seq<nat>) -> bool {
    forall|index: int| 0 <= index < tiles.len() ==> #[trigger] tiles[index] % 2 == 0
}

/// The tile at `index` is not empty and its neighbour in `direction` is empty
/// or holds the same value.
pub open spec fn tile_can_move(tiles: Seq<nat>, index: int, direction: int) -> bool {
    &&& on_board(index)
    &&& tiles[index] != 0
    &&& neighbour(index, direction) matches Some(next) && can_merge(tiles[next], tiles[index])
}

/// Some tile that is not empty has a neighbour in `direction` that would
/// take it in.
pub open spec fn some_tile_can_move(tiles: Seq<nat>, direction: int) -> bool {
    exists|index: int| #[trigger]
        tile_can_move(tiles, index, direction)
}

/// The board whose only tile, of value `val`, sits at `place`.
pub open spec fn lone(place: int, val: nat) -> Seq<nat> {
    Seq::new(
        TILES as nat,
        |index: int|
            if index == place {
                val
            } else {
                0nat
            },
    )
}

/// The last tile that a chain from `place` reaches: the one at the edge that
/// `direction` points to, in the same row or column.
pub open spec fn far_edge(place: int, direction: int) -> int {
    if direction == UP {
        column_of(place)
    } else if direction == RIGHT {
        4 * row_of(place) + 3
    } else if direction == DOWN {
        12 + column_of(place)
    } else if direction == LEFT {
        4 * row_of(place)
    } else {
        place
    }
}

} // verus!
