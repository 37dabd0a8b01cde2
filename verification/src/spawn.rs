//! The spawn policy: which empty cells receive a new tile after a move, and
//! when a full board ends the round.
//!
//! Every tile gets one draw. The draws come from the `rand` crate; what is
//! done with them is decided here, on plain numbers.

use crate::rules::TILES;
use rand::Rng;
use vstd::prelude::*;

verus! {

/// The value of a newly spawned tile.
pub const SPAWN_VALUE: u64 = 2;

/// A draw is a number below this bound, each equally likely.
pub const DRAW_RANGE: u32 = 10;

/// A draw below this threshold is a hit: one chance in ten.
pub const SPAWN_THRESHOLD: u32 = 1;

/// Whether a draw is below the spawn threshold.
pub open spec fn is_hit(draw: u32) -> bool {
    draw < SPAWN_THRESHOLD
}

/// For each draw, whether it is a hit.
pub open spec fn hits_of(draws: Seq<u32>) -> Seq<bool> {
    Seq::new(draws.len(), |index: int| is_hit(draws[index]))
}

/// No cell of the board is empty.
pub open spec fn is_full(tiles: Seq<nat>) -> bool {
    forall|index: int| 0 <= index < TILES ==> #[trigger] tiles[index] != 0
}

/// At least one of the sixteen draws was a hit.
pub open spec fn any_hit(hits: Seq<bool>) -> bool {
    exists|index: int| 0 <= index < TILES && #[trigger] hits[index]
}

/// The board after spawning: every empty cell whose draw was a hit holds a
/// new tile, every other cell is as before.
pub open spec fn spawn(tiles: Seq<nat>, hits: Seq<bool>) -> Seq<nat> {
    Seq::new(
        TILES as nat,
        |index: int|
            if tiles[index] == 0 && hits[index] {
                SPAWN_VALUE as nat
            } else {
                tiles[index]
            },
    )
}

/// The round ends when the board was already full before the scan and some
/// draw was a hit.
pub open spec fn ends_round(tiles: Seq<nat>, hits: Seq<bool>) -> bool {
    is_full(tiles) && any_hit(hits)
}

/// How many of the first `count` cells receive a new tile.
pub open spec fn spawned_to(tiles: Seq<nat>, hits: Seq<bool>, count: nat) -> nat
    decreases count,
{
    if count == 0 {
        0
    } else {
        spawned_to(tiles, hits, (count - 1) as nat) + if tiles[count - 1] == 0 && hits[count - 1] {
            1nat
        } else {
            0nat
        }
    }
}

/// `rand::rngs::ThreadRng`, the generator that `rand::thread_rng` hands out.
/// It is carried from there to the draws; nothing inside it is visible here.
#[verifier::external_type_specification]
#[verifier::external_body]
pub struct ExThreadRng(rand::rngs::ThreadRng);

/// `rand::thread_rng` hands out the generator of the current thread, seeded
/// by the system. Nothing is claimed of what it returns. The call takes no
/// input; it panics only if the system cannot seed the generator.
pub assume_specification[ rand::thread_rng ]() -> (rng: rand::rngs::ThreadRng);

/// Calls `Rng::gen_range` of `rand` on the range `0..bound`. The range must
/// not be empty, else the call panics. All that is claimed of the number
/// drawn is that it lies in the range.
#[verifier::external_body]
fn draw_below(rng: &mut rand::rngs::ThreadRng, bound: u32) -> (draw: u32)
    requires
        bound > 0,
    ensures
        draw < bound,
{
    rng.gen_range(0..bound)
}

/// Draws one number for each tile of the board.
pub fn roll_draws() -> (draws: [u32; 16])
    ensures
        forall|index: int| 0 <= index < TILES ==> #[trigger] draws[index] < DRAW_RANGE,
{
    let mut rng = rand::thread_rng();
    let mut draws = [0u32; 16];
    let mut i: usize = 0;
    while i < TILES
        invariant
            i <= TILES,
            forall|index: int| 0 <= index < i ==> #[trigger] draws[index] < DRAW_RANGE,
        decreases TILES - i,
    {
        let draw = draw_below(&mut rng, DRAW_RANGE);
        draws[i] = draw;
        i += 1;
    }
    draws
}

} // verus!
