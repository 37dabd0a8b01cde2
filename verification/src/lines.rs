//! A move resolves every row, or column, on its own: the proof that the
//! passes over the board and the passes over each line of four cells agree.

use crate::chains::{lemma_chain_keeps_length, lemma_chain_keeps_other_lines};
use crate::laws::law_move_conserves_total;
use crate::rules::{
    agree_on_line, cell_at, column_of, is_direction, line_cells, line_chain, line_move, line_of,
    line_pass, line_step, move_by_lines, neighbour, on_board, resolve_chain, resolve_move,
    resolve_pass, row_of, same_line, step, steps_to_edge, Outcome, LEFT, RIGHT, TILES, UP,
};
use vstd::prelude::*;

verus! {

/// A line of four cells keeps its length through a chain.
pub proof fn lemma_line_chain_keeps_length(line: Outcome, start: int)
    requires
        line.tiles.len() == 4,
    ensures
        line_chain(line, start).tiles.len() == 4,
{
}

/// A line of four cells after the first `count` of its four chains of one
/// pass, in the order in which the pass over the board comes to them. The
/// chain that starts at the edge cell itself changes nothing.
#[verifier::opaque]
pub open spec fn line_sweep(line: Outcome, direction: int, count: int) -> Outcome {
    if direction == UP || direction == LEFT {
        if count <= 1 {
            line
        } else if count == 2 {
            line_chain(line, 1)
        } else if count == 3 {
            line_chain(line_chain(line, 1), 2)
        } else {
            line_chain(line_chain(line_chain(line, 1), 2), 3)
        }
    } else {
        if count <= 0 {
            line
        } else if count == 1 {
            line_chain(line, 3)
        } else if count == 2 {
            line_chain(line_chain(line, 3), 2)
        } else {
            line_chain(line_chain(line_chain(line, 3), 2), 1)
        }
    }
}

/// The start position of the chain that comes after `done` chains of a line.
pub open spec fn next_start(direction: int, done: int) -> int {
    if direction == UP || direction == LEFT {
        done
    } else {
        3 - done
    }
}

/// The chains of a line follow one another in the order of its pass.
pub proof fn lemma_line_sweep_steps(line: Outcome, direction: int, done: int)
    requires
        line.tiles.len() == 4,
        0 <= done < 4,
    ensures
        line_sweep(line, direction, 0) == line,
        line_sweep(line, direction, done).tiles.len() == 4,
        line_sweep(line, direction, done + 1).tiles.len() == 4,
        line_sweep(line, direction, done + 1) == line_chain(
            line_sweep(line, direction, done),
            next_start(direction, done),
        ),
        line.gain == 0 ==> line_sweep(line, direction, 4) == line_pass(line.tiles, direction),
{
    reveal(line_sweep);
    lemma_line_chain_keeps_length(line, 1);
    lemma_line_chain_keeps_length(line, 3);
    lemma_line_chain_keeps_length(line_chain(line, 1), 2);
    lemma_line_chain_keeps_length(line_chain(line, 3), 2);
    lemma_line_chain_keeps_length(line_chain(line_chain(line, 1), 2), 3);
    lemma_line_chain_keeps_length(line_chain(line_chain(line, 3), 2), 1);
}

/// How many of the chains that start at the tiles `0..count` start in the
/// row or column of `place` that `direction` runs along.
pub open spec fn chains_in_line(place: int, direction: int, count: nat) -> int {
    let met = if direction == LEFT || direction == RIGHT {
        count - 4 * row_of(place)
    } else {
        (count - column_of(place) + 3) / 4
    };
    if met < 0 {
        0
    } else if met > 4 {
        4
    } else {
        met
    }
}

/// How the count of a line's chains grows with the chain from tile
/// `count - 1`: by one if that tile lies in the line, and then the tile is
/// the next start of the line's pass.
pub proof fn lemma_chains_in_line_grow(line: int, direction: int, count: nat)
    requires
        0 <= line < 4,
        is_direction(direction),
        0 < count <= TILES,
    ensures
        ({
            let before = chains_in_line(cell_at(line, 0, direction), direction, (count - 1) as nat);
            let after = chains_in_line(cell_at(line, 0, direction), direction, count);
            &&& 0 <= before <= after <= 4
            &&& line_of(count - 1, direction) == line ==> after == before + 1
                && steps_to_edge(count - 1, direction) == next_start(direction, before)
            &&& line_of(count - 1, direction) != line ==> after == before
        }),
        chains_in_line(cell_at(line, 0, direction), direction, 0) == 0,
        chains_in_line(cell_at(line, 0, direction), direction, TILES as nat) == 4,
{
}

/// A chain on the board does to its row or column what the chain of the same
/// start does to that line taken by itself, and earns the same.
pub proof fn lemma_chain_follows_line(
    tiles: Seq<nat>,
    line: int,
    start: int,
    direction: int,
    state: Outcome,
)
    requires
        tiles.len() == TILES,
        0 <= line < 4,
        0 <= start < 4,
        is_direction(direction),
        state.tiles.len() == 4,
        forall|position: int|
            0 <= position < 4 ==> tiles[cell_at(line, position, direction)]
                == #[trigger] state.tiles[position],
    ensures
        line_chain(state, start).tiles.len() == 4,
        forall|position: int|
            0 <= position < 4 ==> resolve_chain(
                tiles,
                cell_at(line, start, direction),
                direction,
            ).tiles[cell_at(line, position, direction)] == #[trigger] line_chain(
                state,
                start,
            ).tiles[position],
        state.gain + resolve_chain(tiles, cell_at(line, start, direction), direction).gain
            == line_chain(state, start).gain,
    decreases start,
{
    lemma_line_chain_keeps_length(state, start);
    let here = cell_at(line, start, direction);
    if start > 0 {
        let next = cell_at(line, start - 1, direction);
        assert(neighbour(here, direction) == Some(next));
        lemma_chain_follows_line(tiles, line, start - 1, direction, state);
        lemma_chain_keeps_length(tiles, next, direction);
        let ahead = resolve_chain(tiles, next, direction);
        let so_far = line_chain(state, start - 1);
        assert(line_chain(state, start) == line_step(so_far, start));
        assert(ahead.tiles[here] == so_far.tiles[start]);
        assert(ahead.tiles[next] == so_far.tiles[start - 1]);
        assert forall|position: int| 0 <= position < 4 implies resolve_chain(
            tiles,
            here,
            direction,
        ).tiles[cell_at(line, position, direction)] == #[trigger] line_chain(
            state,
            start,
        ).tiles[position] by {
            assert(ahead.tiles[cell_at(line, position, direction)] == so_far.tiles[position]);
        }
    } else {
        assert(neighbour(here, direction) is None);
    }
}

/// The state of one row or column after the chains from the tiles
/// `0..count`: as many chains of the line's own pass as start among them.
#[verifier::opaque]
pub open spec fn line_state(tiles: Seq<nat>, line: int, direction: int, count: nat) -> Outcome {
    line_sweep(
        Outcome { tiles: line_cells(tiles, line, direction), gain: 0 },
        direction,
        chains_in_line(cell_at(line, 0, direction), direction, count),
    )
}

/// Before any chain a line holds what the board holds, and has earned
/// nothing.
pub proof fn lemma_line_state_at_start(tiles: Seq<nat>, line: int, direction: int)
    requires
        0 <= line < 4,
        is_direction(direction),
    ensures
        line_state(tiles, line, direction, 0) == (Outcome {
            tiles: line_cells(tiles, line, direction),
            gain: 0,
        }),
{
    reveal(line_state);
    lemma_chains_in_line_grow(line, direction, 1);
    lemma_line_sweep_steps(Outcome { tiles: line_cells(tiles, line, direction), gain: 0 }, direction, 0);
}

/// The chain from tile `count - 1` is the next chain of the pass of its own
/// line, and no chain of any other line.
pub proof fn lemma_line_state_next(tiles: Seq<nat>, line: int, direction: int, count: nat)
    requires
        0 <= line < 4,
        is_direction(direction),
        0 < count <= TILES,
    ensures
        line_state(tiles, line, direction, count).tiles.len() == 4,
        line_state(tiles, line, direction, (count - 1) as nat).tiles.len() == 4,
        line_of(count - 1, direction) == line ==> line_state(tiles, line, direction, count)
            == line_chain(
            line_state(tiles, line, direction, (count - 1) as nat),
            steps_to_edge(count - 1, direction) as int,
        ),
        line_of(count - 1, direction) != line ==> line_state(tiles, line, direction, count)
            == line_state(tiles, line, direction, (count - 1) as nat),
{
    reveal(line_state);
    let fresh = Outcome { tiles: line_cells(tiles, line, direction), gain: 0 };
    let before = chains_in_line(cell_at(line, 0, direction), direction, (count - 1) as nat);
    lemma_chains_in_line_grow(line, direction, count);
    if before < 4 {
        lemma_line_sweep_steps(fresh, direction, before);
    } else {
        lemma_line_sweep_steps(fresh, direction, 3);
    }
}

/// After all sixteen chains a line has been through one pass of its own.
pub proof fn lemma_line_state_at_end(tiles: Seq<nat>, line: int, direction: int)
    requires
        0 <= line < 4,
        is_direction(direction),
    ensures
        line_state(tiles, line, direction, TILES as nat) == line_pass(
            line_cells(tiles, line, direction),
            direction,
        ),
        line_pass(line_cells(tiles, line, direction), direction).tiles.len() == 4,
{
    reveal(line_state);
    lemma_chains_in_line_grow(line, direction, 1);
    lemma_line_sweep_steps(Outcome { tiles: line_cells(tiles, line, direction), gain: 0 }, direction, 3);
}

/// After any number of chains every row or column stands where its own
/// pass has brought it, and the score earned is the sum over the lines.
pub proof fn lemma_pass_follows_lines(tiles: Seq<nat>, direction: int, count: nat)
    requires
        tiles.len() == TILES,
        is_direction(direction),
        count <= TILES,
    ensures
        resolve_pass(tiles, direction, count).tiles.len() == TILES,
        forall|line: int, position: int|
            0 <= line < 4 && 0 <= position < 4 ==> resolve_pass(
                tiles,
                direction,
                count,
            ).tiles[#[trigger] cell_at(line, position, direction)] == line_state(
                tiles,
                line,
                direction,
                count,
            ).tiles[position],
        resolve_pass(tiles, direction, count).gain == line_state(tiles, 0, direction, count).gain
            + line_state(tiles, 1, direction, count).gain + line_state(
            tiles,
            2,
            direction,
            count,
        ).gain + line_state(tiles, 3, direction, count).gain,
    decreases count,
{
    if count > 0 {
        let start = count - 1;
        let fewer = (count - 1) as nat;
        lemma_pass_follows_lines(tiles, direction, fewer);
        let before = resolve_pass(tiles, direction, fewer);
        let after = resolve_chain(before.tiles, start, direction);
        let own = line_of(start, direction);
        let off = steps_to_edge(start, direction) as int;
        assert(0 <= own < 4 && 0 <= off < 4);
        assert(cell_at(own, off, direction) == start);
        let state = line_state(tiles, own, direction, fewer);
        lemma_line_state_next(tiles, 0, direction, count);
        lemma_line_state_next(tiles, 1, direction, count);
        lemma_line_state_next(tiles, 2, direction, count);
        lemma_line_state_next(tiles, 3, direction, count);
        assert forall|position: int| 0 <= position < 4 implies before.tiles[cell_at(
            own,
            position,
            direction,
        )] == #[trigger] state.tiles[position] by {}
        lemma_chain_follows_line(before.tiles, own, off, direction, state);
        lemma_chain_keeps_length(before.tiles, start, direction);
        assert(line_state(tiles, own, direction, count) == line_chain(state, off));
        assert forall|line: int, position: int|
            0 <= line < 4 && 0 <= position < 4 implies after.tiles[#[trigger] cell_at(
            line,
            position,
            direction,
        )] == line_state(tiles, line, direction, count).tiles[position] by {
            if line == own {
                assert(after.tiles[cell_at(own, position, direction)] == line_chain(
                    state,
                    off,
                ).tiles[position]);
            } else {
                assert(!same_line(cell_at(line, position, direction), start, direction));
                lemma_chain_keeps_other_lines(
                    before.tiles,
                    start,
                    direction,
                    cell_at(line, position, direction),
                );
            }
        }
    } else {
        lemma_line_state_at_start(tiles, 0, direction);
        lemma_line_state_at_start(tiles, 1, direction);
        lemma_line_state_at_start(tiles, 2, direction);
        lemma_line_state_at_start(tiles, 3, direction);
    }
}

/// The two passes over the board do to each row or column what two passes
/// over its four cells alone do, and earn the sum of what the lines earn.
pub proof fn lemma_move_follows_lines(tiles: Seq<nat>, direction: int)
    requires
        tiles.len() == TILES,
        is_direction(direction),
    ensures
        forall|line: int, position: int|
            0 <= line < 4 && 0 <= position < 4 ==> resolve_move(
                tiles,
                direction,
            ).tiles[#[trigger] cell_at(line, position, direction)] == line_move(
                line_cells(tiles, line, direction),
                direction,
            ).tiles[position],
        resolve_move(tiles, direction).gain == line_move(
            line_cells(tiles, 0, direction),
            direction,
        ).gain + line_move(line_cells(tiles, 1, direction), direction).gain + line_move(
            line_cells(tiles, 2, direction),
            direction,
        ).gain + line_move(line_cells(tiles, 3, direction), direction).gain,
{
    let first = resolve_pass(tiles, direction, TILES as nat);
    lemma_pass_follows_lines(tiles, direction, TILES as nat);
    lemma_pass_follows_lines(first.tiles, direction, TILES as nat);
    assert forall|line: int| 0 <= line < 4 implies #[trigger] line_state(
        first.tiles,
        line,
        direction,
        TILES as nat,
    ) == line_pass(line_pass(line_cells(tiles, line, direction), direction).tiles, direction)
        && line_state(tiles, line, direction, TILES as nat) == line_pass(
        line_cells(tiles, line, direction),
        direction,
    ) by {
        let cells = line_cells(tiles, line, direction);
        lemma_line_state_at_end(tiles, line, direction);
        lemma_line_state_at_end(first.tiles, line, direction);
        assert forall|position: int| 0 <= position < 4 implies line_cells(
            first.tiles,
            line,
            direction,
        )[position] == line_pass(cells, direction).tiles[position] by {
            assert(first.tiles[cell_at(line, position, direction)] == line_state(
                tiles,
                line,
                direction,
                TILES as nat,
            ).tiles[position]);
        }
        assert(line_cells(first.tiles, line, direction) =~= line_pass(cells, direction).tiles);
    }
}

/// A move resolves the board line by line: each row, for a move to the left
/// or right, or column, for a move up or down, ends as the move of four
/// cells says of it alone, and the score earned is the sum over the four
/// lines.
pub proof fn law_move_resolves_line_by_line(tiles: Seq<nat>, direction: int)
    requires
        tiles.len() == TILES,
        is_direction(direction),
    ensures
        resolve_move(tiles, direction) == move_by_lines(tiles, direction),
{
    lemma_move_follows_lines(tiles, direction);
    law_move_conserves_total(tiles, direction);
    let whole = resolve_move(tiles, direction);
    let lines = move_by_lines(tiles, direction);
    assert forall|index: int| 0 <= index < TILES implies whole.tiles[index]
        == lines.tiles[index] by {
        let line = line_of(index, direction);
        let position = steps_to_edge(index, direction) as int;
        assert(cell_at(line, position, direction) == index);
    }
    assert(whole.tiles =~= lines.tiles);
}

/// What a chain does to its row or column depends on that row or column
/// alone, and so does what it earns.
pub proof fn lemma_chain_reads_its_line_only(
    one: Seq<nat>,
    other: Seq<nat>,
    start: int,
    direction: int,
)
    requires
        one.len() == TILES,
        other.len() == TILES,
        on_board(start),
        is_direction(direction),
        agree_on_line(one, other, start, direction),
    ensures
        agree_on_line(
            resolve_chain(one, start, direction).tiles,
            resolve_chain(other, start, direction).tiles,
            start,
            direction,
        ),
        resolve_chain(one, start, direction).gain == resolve_chain(other, start, direction).gain,
    decreases steps_to_edge(start, direction),
{
    match neighbour(start, direction) {
        Some(next) => {
            assert(same_line(next, start, direction));
            assert(agree_on_line(one, other, next, direction)) by {
                assert forall|index: int|
                    on_board(index) && same_line(index, next, direction) implies #[trigger] one[index]
                    == other[index] by {
                    assert(same_line(index, start, direction));
                }
            }
            lemma_chain_reads_its_line_only(one, other, next, direction);
            lemma_chain_keeps_length(one, next, direction);
            lemma_chain_keeps_length(other, next, direction);
            let left = resolve_chain(one, next, direction).tiles;
            let right = resolve_chain(other, next, direction).tiles;
            assert(left[start] == right[start]);
            assert(left[next] == right[next]);
            assert forall|index: int|
                on_board(index) && same_line(index, start, direction) implies #[trigger] step(
                left,
                start,
                next,
            )[index] == step(right, start, next)[index] by {
                assert(same_line(index, next, direction));
                assert(left[index] == right[index]);
            }
        },
        None => {},
    }
}

/// Two boards that agree on a row or column still agree on it after any
/// number of chains.
pub proof fn lemma_pass_reads_each_line_alone(
    one: Seq<nat>,
    other: Seq<nat>,
    place: int,
    direction: int,
    count: nat,
)
    requires
        one.len() == TILES,
        other.len() == TILES,
        on_board(place),
        is_direction(direction),
        count <= TILES,
        agree_on_line(one, other, place, direction),
    ensures
        resolve_pass(one, direction, count).tiles.len() == TILES,
        resolve_pass(other, direction, count).tiles.len() == TILES,
        agree_on_line(
            resolve_pass(one, direction, count).tiles,
            resolve_pass(other, direction, count).tiles,
            place,
            direction,
        ),
    decreases count,
{
    if count > 0 {
        let start = count - 1;
        lemma_pass_reads_each_line_alone(one, other, place, direction, (count - 1) as nat);
        let left = resolve_pass(one, direction, (count - 1) as nat).tiles;
        let right = resolve_pass(other, direction, (count - 1) as nat).tiles;
        lemma_chain_keeps_length(left, start, direction);
        lemma_chain_keeps_length(right, start, direction);
        if same_line(start, place, direction) {
            assert(agree_on_line(left, right, start, direction)) by {
                assert forall|index: int|
                    on_board(index) && same_line(index, start, direction) implies #[trigger] left[index]
                    == right[index] by {
                    assert(same_line(index, place, direction));
                }
            }
            lemma_chain_reads_its_line_only(left, right, start, direction);
            assert forall|index: int|
                on_board(index) && same_line(index, place, direction) implies #[trigger] resolve_chain(
                left,
                start,
                direction,
            ).tiles[index] == resolve_chain(right, start, direction).tiles[index] by {
                assert(same_line(index, start, direction));
            }
        } else {
            assert forall|index: int|
                on_board(index) && same_line(index, place, direction) implies #[trigger] resolve_chain(
                left,
                start,
                direction,
            ).tiles[index] == resolve_chain(right, start, direction).tiles[index] by {
                assert(!same_line(index, start, direction));
                lemma_chain_keeps_other_lines(left, start, direction, index);
                lemma_chain_keeps_other_lines(right, start, direction, index);
                assert(left[index] == right[index]);
            }
        }
    }
}

/// Every row, or column, is resolved on its own: what a move leaves in it
/// depends on nothing but what it held before.
pub proof fn law_lines_resolve_independently(
    one: Seq<nat>,
    other: Seq<nat>,
    place: int,
    direction: int,
)
    requires
        one.len() == TILES,
        other.len() == TILES,
        on_board(place),
        is_direction(direction),
        agree_on_line(one, other, place, direction),
    ensures
        agree_on_line(
            resolve_move(one, direction).tiles,
            resolve_move(other, direction).tiles,
            place,
            direction,
        ),
{
    lemma_pass_reads_each_line_alone(one, other, place, direction, TILES as nat);
    lemma_pass_reads_each_line_alone(
        resolve_pass(one, direction, TILES as nat).tiles,
        resolve_pass(other, direction, TILES as nat).tiles,
        place,
        direction,
        TILES as nat,
    );
}

} // verus!
