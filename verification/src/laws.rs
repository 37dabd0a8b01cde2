//! What holds of every board and every round: the laws of the game, proved
//! from the model in [`crate::rules`].

use crate::chains::{
    lemma_chain_is_line_ahead, lemma_chain_keeps_length, lemma_chain_keeps_tiles_behind,
    lemma_chain_leads_ahead, lemma_idle_step,
};
use crate::lines::{chains_in_line, law_lines_resolve_independently};
use crate::round::{react, Key, Round};
use crate::rules::{
    agree_on_line, all_even, can_merge, chain_gain, column_of, departs, empty_board, far_edge,
    is_direction, lone, neighbour, on_board, on_chain, opposite, resolve_chain, resolve_move,
    resolve_pass, row_of, same_line, settled, some_tile_can_move, step, steps_to_edge, sum_to,
    tile_can_move, total, Outcome, DOWN, LEFT, RIGHT, TILES, UP,
};
use crate::spawn::{spawn, spawned_to, SPAWN_VALUE};
use vstd::prelude::*;

verus! {

/// Writing `val` into one cell changes a prefix sum by the difference to
/// what the cell held, if the cell lies in the prefix.
pub proof fn lemma_sum_after_update(tiles: Seq<nat>, place: int, val: nat, count: nat)
    requires
        0 <= place < tiles.len(),
        count <= tiles.len(),
    ensures
        sum_to(tiles.update(place, val), count) == if place < count {
            sum_to(tiles, count) - tiles[place] + val
        } else {
            sum_to(tiles, count) as int
        },
    decreases count,
{
    if count > 0 {
        lemma_sum_after_update(tiles, place, val, (count - 1) as nat);
    }
}

/// One tile moving into its neighbour keeps the sum of the board.
pub proof fn lemma_step_conserves_total(tiles: Seq<nat>, from: int, to: int)
    requires
        tiles.len() == TILES,
        on_board(from),
        on_board(to),
        from != to,
    ensures
        step(tiles, from, to).len() == TILES,
        total(step(tiles, from, to)) == total(tiles),
{
    if can_merge(tiles[to], tiles[from]) {
        let raised = tiles.update(to, tiles[to] + tiles[from]);
        lemma_sum_after_update(tiles, to, tiles[to] + tiles[from], TILES as nat);
        lemma_sum_after_update(raised, from, 0, TILES as nat);
    }
}

/// Resolving a chain keeps the sum of the board.
pub proof fn lemma_chain_conserves_total(tiles: Seq<nat>, index: int, direction: int)
    requires
        tiles.len() == TILES,
    ensures
        resolve_chain(tiles, index, direction).tiles.len() == TILES,
        total(resolve_chain(tiles, index, direction).tiles) == total(tiles),
    decreases steps_to_edge(index, direction),
{
    match neighbour(index, direction) {
        Some(next) => {
            lemma_chain_conserves_total(tiles, next, direction);
            lemma_step_conserves_total(
                resolve_chain(tiles, next, direction).tiles,
                index,
                next,
            );
        },
        None => {},
    }
}

/// Resolving the chains of the first `count` tiles keeps the sum of the board.
pub proof fn lemma_pass_conserves_total(tiles: Seq<nat>, direction: int, count: nat)
    requires
        tiles.len() == TILES,
    ensures
        resolve_pass(tiles, direction, count).tiles.len() == TILES,
        total(resolve_pass(tiles, direction, count).tiles) == total(tiles),
    decreases count,
{
    if count > 0 {
        lemma_pass_conserves_total(tiles, direction, (count - 1) as nat);
        lemma_chain_conserves_total(
            resolve_pass(tiles, direction, (count - 1) as nat).tiles,
            count - 1,
            direction,
        );
    }
}

/// A move only shifts and sums tile values, so the sum of all tiles after
/// the move equals the sum before it.
pub proof fn law_move_conserves_total(tiles: Seq<nat>, direction: int)
    requires
        tiles.len() == TILES,
    ensures
        resolve_move(tiles, direction).tiles.len() == TILES,
        total(resolve_move(tiles, direction).tiles) == total(tiles),
{
    lemma_pass_conserves_total(tiles, direction, TILES as nat);
    lemma_pass_conserves_total(
        resolve_pass(tiles, direction, TILES as nat).tiles,
        direction,
        TILES as nat,
    );
}

/// The spawn scan raises a prefix sum by the spawn value for each cell of
/// the prefix that receives a tile.
pub proof fn lemma_spawn_adds_to_sum(tiles: Seq<nat>, hits: Seq<bool>, count: nat)
    requires
        tiles.len() == TILES,
        count <= TILES,
    ensures
        sum_to(spawn(tiles, hits), count) == sum_to(tiles, count) + SPAWN_VALUE * spawned_to(
            tiles,
            hits,
            count,
        ),
    decreases count,
{
    if count > 0 {
        lemma_spawn_adds_to_sum(tiles, hits, (count - 1) as nat);
    }
}

/// After an accepted move and the spawn scan that follows it, the sum of all
/// tiles is the sum before the move plus the values of the newly spawned
/// tiles.
pub proof fn law_turn_conserves_total(round: Round, direction: int, hits: Seq<bool>)
    requires
        round.tiles.len() == TILES,
        round.accepts(direction),
    ensures
        total(round.played(direction, hits).tiles) == total(round.tiles) + SPAWN_VALUE * spawned_to(
            resolve_move(round.tiles, direction).tiles,
            hits,
            TILES as nat,
        ),
{
    law_move_conserves_total(round.tiles, direction);
    lemma_spawn_adds_to_sum(resolve_move(round.tiles, direction).tiles, hits, TILES as nat);
}

/// After the chain from `start` is resolved, every cell holds what it kept
/// plus what the single tile behind it gave.
/// So a tile's value goes to its immediate neighbour or nowhere, and never
/// on into a second merge; and each such move is scored once.
pub proof fn law_chain_moves_each_tile_once(
    tiles: Seq<nat>,
    start: int,
    direction: int,
    place: int,
)
    requires
        tiles.len() == TILES,
        on_board(start),
        is_direction(direction),
        on_board(place),
    ensures
        resolve_chain(tiles, start, direction).tiles[place] == settled(
            tiles,
            start,
            direction,
            place,
        ),
        resolve_chain(tiles, start, direction).gain == chain_gain(tiles, start, direction),
    decreases steps_to_edge(start, direction),
{
    match neighbour(start, direction) {
        Some(next) => {
            let ahead = resolve_chain(tiles, next, direction);
            lemma_chain_keeps_length(tiles, next, direction);
            law_chain_moves_each_tile_once(tiles, next, direction, place);
            law_chain_moves_each_tile_once(tiles, next, direction, next);
            if on_chain(start, next, direction) {
                lemma_chain_leads_ahead(start, next, direction);
            }
            lemma_chain_keeps_tiles_behind(tiles, next, direction, start);
            assert(ahead.tiles[start] == tiles[start]);
            assert(on_chain(next, next, direction));
            assert(ahead.tiles[next] == if departs(tiles, next, direction) {
                0nat
            } else {
                tiles[next]
            });
            assert(can_merge(ahead.tiles[next], ahead.tiles[start]) == departs(
                tiles,
                start,
                direction,
            ));
            assert(neighbour(next, opposite(direction)) == Some(start));
            if place != start && place != next && on_chain(place, next, direction) {
                lemma_chain_leads_ahead(place, next, direction);
            }
        },
        None => {},
    }
}

/// On a board where no tile can move, resolving a chain changes nothing.
pub proof fn lemma_blocked_chain(tiles: Seq<nat>, index: int, direction: int)
    requires
        tiles.len() == TILES,
        !some_tile_can_move(tiles, direction),
    ensures
        resolve_chain(tiles, index, direction) == (Outcome { tiles, gain: 0 }),
    decreases steps_to_edge(index, direction),
{
    match neighbour(index, direction) {
        Some(next) => {
            lemma_blocked_chain(tiles, next, direction);
            assert(!tile_can_move(tiles, index, direction));
            lemma_idle_step(tiles, index, next);
        },
        None => {},
    }
}

/// On a board where no tile can move, resolving any number of chains changes
/// nothing.
pub proof fn lemma_blocked_pass(tiles: Seq<nat>, direction: int, count: nat)
    requires
        tiles.len() == TILES,
        !some_tile_can_move(tiles, direction),
    ensures
        resolve_pass(tiles, direction, count) == (Outcome { tiles, gain: 0 }),
    decreases count,
{
    if count > 0 {
        lemma_blocked_pass(tiles, direction, (count - 1) as nat);
        lemma_blocked_chain(tiles, count - 1, direction);
    }
}

/// A move in a direction in which no tile can slide or merge leaves every
/// tile value as it is and earns no score.
pub proof fn law_blocked_move_changes_nothing(tiles: Seq<nat>, direction: int)
    requires
        tiles.len() == TILES,
        !some_tile_can_move(tiles, direction),
    ensures
        resolve_move(tiles, direction) == (Outcome { tiles, gain: 0 }),
{
    lemma_blocked_pass(tiles, direction, TILES as nat);
}

/// Where a lone tile at `place` stands after the chain from `start` was
/// resolved: one cell ahead if the chain passes through it and it is not at
/// the edge.
pub open spec fn advance(place: int, start: int, direction: int) -> int {
    match neighbour(place, direction) {
        Some(next) => if on_chain(place, start, direction) {
            next
        } else {
            place
        },
        None => place,
    }
}

/// Where a lone tile that started at `place` stands after the chains from
/// the tiles `0..count` were resolved in index order.
pub open spec fn drift(place: int, direction: int, count: nat) -> int
    decreases count,
{
    if count == 0 {
        place
    } else {
        advance(drift(place, direction, (count - 1) as nat), count - 1, direction)
    }
}

/// How many cells a lone tile at `place` has gone after the chains from the
/// tiles `0..count`. Towards the last row or column each chain of its line
/// carries it on until it arrives. Towards row or column zero only the
/// chains that start at or behind it do.
pub open spec fn cells_gone(place: int, direction: int, count: nat) -> int {
    let far = steps_to_edge(place, direction) as int;
    let met = chains_in_line(place, direction, count);
    let pushes = if direction == RIGHT || direction == DOWN {
        met
    } else if met > far {
        met - far
    } else {
        0
    };
    if pushes < far {
        pushes
    } else {
        far
    }
}

/// The index of the cell that lies `cells` cells from `place` in `direction`.
pub open spec fn cell_ahead(place: int, direction: int, cells: int) -> int {
    if direction == UP {
        place - 4 * cells
    } else if direction == RIGHT {
        place + cells
    } else if direction == DOWN {
        place + 4 * cells
    } else {
        place - cells
    }
}

/// Where a lone tile that started at `place` stands after one full pass.
/// Towards the last row or column every chain that starts behind the tile
/// carries it one cell on, so it arrives; towards row or column zero the
/// chains come in the wrong order for a tile in the last row or column,
/// which gets one cell ahead only.
pub open spec fn after_one_pass(place: int, direction: int) -> int {
    if (direction == UP || direction == LEFT) && steps_to_edge(place, direction) == 3 {
        neighbour(place, direction).unwrap()
    } else {
        far_edge(place, direction)
    }
}

/// A lone tile on the chain that is resolved moves one cell ahead and earns
/// its value; off the chain, or at the edge, it stays and earns nothing.
pub proof fn lemma_lone_chain(place: int, val: nat, start: int, direction: int)
    requires
        on_board(place),
        on_board(start),
        is_direction(direction),
    ensures
        resolve_chain(lone(place, val), start, direction) == (Outcome {
            tiles: lone(advance(place, start, direction), val),
            gain: if advance(place, start, direction) != place {
                val
            } else {
                0
            },
        }),
    decreases steps_to_edge(start, direction),
{
    let board = lone(place, val);
    match neighbour(start, direction) {
        Some(next) => {
            lemma_lone_chain(place, val, next, direction);
            let ahead = resolve_chain(board, next, direction);
            let reached = advance(place, next, direction);
            assert(ahead.tiles == lone(reached, val));
            if on_chain(start, next, direction) {
                lemma_chain_leads_ahead(start, next, direction);
            }
            if place == start {
                assert(reached == place);
                assert(on_chain(start, start, direction));
                assert(step(ahead.tiles, start, next) =~= lone(next, val));
            } else {
                if on_chain(place, next, direction) {
                    lemma_chain_leads_ahead(place, next, direction);
                }
                assert(reached != start);
                lemma_idle_step(ahead.tiles, start, next);
            }
        },
        None => {},
    }
}

/// A lone tile stays alone through any number of chains: it stands where
/// [`drift`] says, and has earned its value once for each cell it went.
pub proof fn lemma_lone_pass(place: int, val: nat, direction: int, count: nat)
    requires
        on_board(place),
        is_direction(direction),
        count <= TILES,
    ensures
        on_board(drift(place, direction, count)),
        steps_to_edge(drift(place, direction, count), direction) <= steps_to_edge(
            place,
            direction,
        ),
        resolve_pass(lone(place, val), direction, count) == (Outcome {
            tiles: lone(drift(place, direction, count), val),
            gain: (val * (steps_to_edge(place, direction) - steps_to_edge(
                drift(place, direction, count),
                direction,
            ))) as nat,
        }),
    decreases count,
{
    if count > 0 {
        let before = drift(place, direction, (count - 1) as nat);
        let after = drift(place, direction, count);
        lemma_lone_pass(place, val, direction, (count - 1) as nat);
        lemma_lone_chain(before, val, count - 1, direction);
        let far = steps_to_edge(place, direction) as int;
        let left = steps_to_edge(before, direction) as int;
        if after != before {
            assert(steps_to_edge(after, direction) == left - 1);
            assert(val * (far - left) + val == val * (far - (left - 1))) by (nonlinear_arith);
            assert(val * (far - (left - 1)) >= 0) by (nonlinear_arith)
                requires
                    far - (left - 1) >= 0,
            ;
        }
        assert(val * (far - left) >= 0) by (nonlinear_arith)
            requires
                far - left >= 0,
        ;
    } else {
        assert(val * 0 == 0) by (nonlinear_arith);
    }
}

/// The place of a lone tile after any number of chains, in closed form.
pub proof fn lemma_drift_in_closed_form(place: int, direction: int, count: nat)
    requires
        on_board(place),
        is_direction(direction),
        count <= TILES,
    ensures
        drift(place, direction, count) == cell_ahead(
            place,
            direction,
            cells_gone(place, direction, count),
        ),
    decreases count,
{
    if count > 0 {
        lemma_drift_in_closed_form(place, direction, (count - 1) as nat);
        let before = drift(place, direction, (count - 1) as nat);
        lemma_chain_is_line_ahead(before, count - 1, direction);
    }
}

/// Where one full pass leaves a lone tile.
pub proof fn lemma_drift_of_one_pass(place: int, direction: int)
    requires
        on_board(place),
        is_direction(direction),
    ensures
        drift(place, direction, TILES as nat) == after_one_pass(place, direction),
{
    lemma_drift_in_closed_form(place, direction, TILES as nat);
}

/// A lone tile ends the move at the far edge of its row or column, with its
/// value unchanged and every other cell empty. Each cell that it travels
/// earns its value once.
pub proof fn law_lone_tile_slides_to_edge(place: int, val: nat, direction: int)
    requires
        on_board(place),
        is_direction(direction),
    ensures
        resolve_move(lone(place, val), direction) == (Outcome {
            tiles: lone(far_edge(place, direction), val),
            gain: val * steps_to_edge(place, direction),
        }),
{
    let mid = drift(place, direction, TILES as nat);
    lemma_lone_pass(place, val, direction, TILES as nat);
    lemma_lone_pass(mid, val, direction, TILES as nat);
    lemma_drift_of_one_pass(place, direction);
    lemma_drift_of_one_pass(mid, direction);
    let far = steps_to_edge(place, direction) as int;
    let left = steps_to_edge(mid, direction) as int;
    assert(drift(mid, direction, TILES as nat) == far_edge(place, direction));
    assert(steps_to_edge(far_edge(place, direction), direction) == 0);
    assert(val * (far - left) + val * (left - 0) == val * far) by (nonlinear_arith);
    assert(val * (far - left) >= 0) by (nonlinear_arith)
        requires
            far - left >= 0,
    ;
    assert(val * (left - 0) >= 0) by (nonlinear_arith)
        requires
            left >= 0,
    ;
}

/// A lone tile that already stands at the edge stays there and the move
/// earns nothing.
pub proof fn law_lone_tile_at_edge_stays(place: int, val: nat, direction: int)
    requires
        on_board(place),
        is_direction(direction),
        neighbour(place, direction) is None,
    ensures
        resolve_move(lone(place, val), direction) == (Outcome { tiles: lone(place, val), gain: 0 }),
{
    law_lone_tile_slides_to_edge(place, val, direction);
    assert(val * 0 == 0) by (nonlinear_arith);
}

/// On any board, a tile that is alone in its row, for a move to the left or
/// right, or in its column, for a move up or down, ends the move at the far
/// edge of that line with its value unchanged, and every other cell of the
/// line is empty.
pub proof fn law_tile_alone_in_line_slides_to_edge(tiles: Seq<nat>, place: int, direction: int)
    requires
        tiles.len() == TILES,
        on_board(place),
        is_direction(direction),
        forall|index: int|
            on_board(index) && same_line(index, place, direction) && index != place
                ==> #[trigger] tiles[index] == 0,
    ensures
        resolve_move(tiles, direction).tiles[far_edge(place, direction)] == tiles[place],
        forall|index: int|
            on_board(index) && same_line(index, place, direction) && index != far_edge(
                place,
                direction,
            ) ==> #[trigger] resolve_move(tiles, direction).tiles[index] == 0,
{
    let alone = lone(place, tiles[place]);
    assert(agree_on_line(tiles, alone, place, direction));
    law_lines_resolve_independently(tiles, alone, place, direction);
    law_lone_tile_slides_to_edge(place, tiles[place], direction);
    let after = resolve_move(tiles, direction).tiles;
    let after_alone = resolve_move(alone, direction).tiles;
    assert(same_line(far_edge(place, direction), place, direction));
    assert(after[far_edge(place, direction)] == after_alone[far_edge(place, direction)]);
    assert forall|index: int|
        on_board(index) && same_line(index, place, direction) && index != far_edge(
            place,
            direction,
        ) implies #[trigger] after[index] == 0 by {
        assert(after[index] == after_alone[index]);
    }
}

/// A tile at the edge that a move points to has no neighbour there, and the
/// tiles of every other row or column have one.
pub proof fn law_edge_tiles_have_no_outward_neighbour(index: int)
    requires
        on_board(index),
    ensures
        neighbour(index, UP as int) is None <==> row_of(index) == 0,
        neighbour(index, DOWN as int) is None <==> row_of(index) == 3,
        neighbour(index, LEFT as int) is None <==> column_of(index) == 0,
        neighbour(index, RIGHT as int) is None <==> column_of(index) == 3,
        neighbour(index, UP as int) matches Some(next) ==> next == index - 4,
        neighbour(index, DOWN as int) matches Some(next) ==> next == index + 4,
        neighbour(index, LEFT as int) matches Some(next) ==> next == index - 1,
        neighbour(index, RIGHT as int) matches Some(next) ==> next == index + 1,
{
}

/// Resolving the chain of a tile that has no neighbour in the direction of
/// the move changes nothing and earns nothing.
pub proof fn law_edge_chain_changes_nothing(tiles: Seq<nat>, index: int, direction: int)
    requires
        neighbour(index, direction) is None,
    ensures
        resolve_chain(tiles, index, direction) == (Outcome { tiles, gain: 0 }),
{
}

/// Resolving a chain never lowers the value of a tile that has no neighbour
/// in the direction of the move.
pub proof fn lemma_chain_keeps_edge_value(tiles: Seq<nat>, index: int, direction: int, edge: int)
    requires
        tiles.len() == TILES,
        on_board(edge),
        neighbour(edge, direction) is None,
    ensures
        resolve_chain(tiles, index, direction).tiles.len() == TILES,
        resolve_chain(tiles, index, direction).tiles[edge] >= tiles[edge],
    decreases steps_to_edge(index, direction),
{
    match neighbour(index, direction) {
        Some(next) => {
            lemma_chain_keeps_edge_value(tiles, next, direction, edge);
        },
        None => {},
    }
}

/// Resolving any number of chains never lowers the value of a tile that has
/// no neighbour in the direction of the move.
pub proof fn lemma_pass_keeps_edge_value(tiles: Seq<nat>, direction: int, count: nat, edge: int)
    requires
        tiles.len() == TILES,
        on_board(edge),
        neighbour(edge, direction) is None,
    ensures
        resolve_pass(tiles, direction, count).tiles.len() == TILES,
        resolve_pass(tiles, direction, count).tiles[edge] >= tiles[edge],
    decreases count,
{
    if count > 0 {
        lemma_pass_keeps_edge_value(tiles, direction, (count - 1) as nat, edge);
        lemma_chain_keeps_edge_value(
            resolve_pass(tiles, direction, (count - 1) as nat).tiles,
            count - 1,
            direction,
            edge,
        );
    }
}

/// A tile at the edge that a move points to is never moved away: over the
/// whole move its value can only grow.
pub proof fn law_edge_tile_never_moves_out(tiles: Seq<nat>, direction: int, edge: int)
    requires
        tiles.len() == TILES,
        on_board(edge),
        neighbour(edge, direction) is None,
    ensures
        resolve_move(tiles, direction).tiles[edge] >= tiles[edge],
{
    lemma_pass_keeps_edge_value(tiles, direction, TILES as nat, edge);
    lemma_pass_keeps_edge_value(
        resolve_pass(tiles, direction, TILES as nat).tiles,
        direction,
        TILES as nat,
        edge,
    );
}

/// Resolving a chain keeps every tile value even.
pub proof fn lemma_chain_keeps_tiles_even(tiles: Seq<nat>, index: int, direction: int)
    requires
        tiles.len() == TILES,
        all_even(tiles),
    ensures
        resolve_chain(tiles, index, direction).tiles.len() == TILES,
        all_even(resolve_chain(tiles, index, direction).tiles),
    decreases steps_to_edge(index, direction),
{
    match neighbour(index, direction) {
        Some(next) => {
            lemma_chain_keeps_tiles_even(tiles, next, direction);
            let ahead = resolve_chain(tiles, next, direction).tiles;
            assert(ahead[index] % 2 == 0 && ahead[next] % 2 == 0);
        },
        None => {},
    }
}

/// Resolving any number of chains keeps every tile value even.
pub proof fn lemma_pass_keeps_tiles_even(tiles: Seq<nat>, direction: int, count: nat)
    requires
        tiles.len() == TILES,
        all_even(tiles),
    ensures
        resolve_pass(tiles, direction, count).tiles.len() == TILES,
        all_even(resolve_pass(tiles, direction, count).tiles),
    decreases count,
{
    if count > 0 {
        lemma_pass_keeps_tiles_even(tiles, direction, (count - 1) as nat);
        lemma_chain_keeps_tiles_even(
            resolve_pass(tiles, direction, (count - 1) as nat).tiles,
            count - 1,
            direction,
        );
    }
}

/// Tile values stay even: on a board of even values no key leads to an odd
/// one, and neither does a restart. A fresh round starts on such a board.
pub proof fn law_tile_values_stay_even(round: Round, key: Key, hits: Seq<bool>, persisted: nat)
    requires
        round.tiles.len() == TILES,
        all_even(round.tiles),
    ensures
        all_even(react(round, key, hits).tiles),
        react(round, key, hits).tiles.len() == TILES,
        all_even(round.restarted(persisted).tiles),
        round.restarted(persisted).tiles.len() == TILES,
        all_even(Round::fresh(persisted).tiles),
{
    let first = resolve_pass(round.tiles, UP as int, TILES as nat).tiles;
    lemma_pass_keeps_tiles_even(round.tiles, UP as int, TILES as nat);
    lemma_pass_keeps_tiles_even(first, UP as int, TILES as nat);
    let first = resolve_pass(round.tiles, RIGHT as int, TILES as nat).tiles;
    lemma_pass_keeps_tiles_even(round.tiles, RIGHT as int, TILES as nat);
    lemma_pass_keeps_tiles_even(first, RIGHT as int, TILES as nat);
    let first = resolve_pass(round.tiles, DOWN as int, TILES as nat).tiles;
    lemma_pass_keeps_tiles_even(round.tiles, DOWN as int, TILES as nat);
    lemma_pass_keeps_tiles_even(first, DOWN as int, TILES as nat);
    let first = resolve_pass(round.tiles, LEFT as int, TILES as nat).tiles;
    lemma_pass_keeps_tiles_even(round.tiles, LEFT as int, TILES as nat);
    lemma_pass_keeps_tiles_even(first, LEFT as int, TILES as nat);
}

/// No key ever lowers the score or the high score.
pub proof fn law_scores_never_fall(round: Round, key: Key, hits: Seq<bool>)
    ensures
        react(round, key, hits).score >= round.score,
        react(round, key, hits).highscore >= round.highscore,
{
}

/// A restart keeps the high score from falling as long as the value read
/// back from storage is no lower than the high score that was stored.
pub proof fn law_restart_keeps_highscore(round: Round, persisted: nat)
    requires
        persisted >= round.highscore,
    ensures
        round.restarted(persisted).highscore >= round.highscore,
{
}

} // verus!
