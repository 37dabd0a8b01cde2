//! The executable board: tiles with their stored adjacency, and the move
//! resolver that slides and merges them.

use crate::chains::{lemma_chain_keeps_tiles_behind, lemma_chain_leads_ahead, lemma_pass_gain_grows};
use crate::lines::law_move_resolves_line_by_line;
use crate::rules::{
    can_merge, empty_board, move_by_lines, neighbour, on_chain, resolve_chain, resolve_move,
    resolve_pass, step, steps_to_edge, TILES,
};
use vstd::prelude::*;

verus! {

/// A move was refused because the score it earns does not fit in a `u64`.
#[derive(Clone, Copy, Debug, PartialEq, Eq)]
pub struct ScoreOverflow;

/// One cell of the board: its value, `0` when empty, and the indices of the
/// cells next to it, in the order up, right, down, left.
#[derive(Clone, Copy, Debug)]
pub struct Field {
    pub val: u64,
    pub neighbours: [Option<usize>; 4],
}

/// The sixteen tiles in row-major order.
#[derive(Debug)]
pub struct Grid {
    pub fields: Vec<Field>,
}

/// The colour in which a tile is shown.
#[derive(Clone, Copy, Debug, PartialEq, Eq)]
pub enum TileColor {
    Black,
    LightYellow,
    Gray,
    Blue,
    Green,
    Yellow,
    Red,
    Cyan,
    LightMagenta,
    Magenta,
    LightBlue,
    Rgb(u8, u8, u8),
    DarkGray,
}

/// The colour that belongs to a tile value.
pub open spec fn color_of(val: nat) -> TileColor {
    if val == 0 {
        TileColor::Black
    } else if val == 2 {
        TileColor::LightYellow
    } else if val == 4 {
        TileColor::Gray
    } else if val == 8 {
        TileColor::Blue
    } else if val == 16 {
        TileColor::Green
    } else if val == 32 {
        TileColor::Yellow
    } else if val == 64 {
        TileColor::Red
    } else if val == 128 {
        TileColor::Cyan
    } else if val == 256 {
        TileColor::LightMagenta
    } else if val == 512 {
        TileColor::Magenta
    } else if val == 1024 {
        TileColor::LightBlue
    } else if val == 2024 {
        TileColor::Rgb(255, 0, 255)
    } else {
        TileColor::DarkGray
    }
}

/// The neighbour of `index` in `direction` as a tile stores it.
pub open spec fn stored_neighbour(index: int, direction: int) -> Option<usize> {
    match neighbour(index, direction) {
        Some(next) => Some(next as usize),
        None => None,
    }
}

/// The tiles are sixteen and each stores the adjacency of its place.
pub open spec fn linked(fields: Seq<Field>) -> bool {
    &&& fields.len() == TILES
    &&& forall|index: int, direction: int|
        0 <= index < TILES && 0 <= direction < 4 ==> (#[trigger] fields[index].neighbours[direction])
            == stored_neighbour(index, direction)
}

/// The values that the tiles hold.
pub open spec fn tile_values(fields: Seq<Field>) -> Seq<nat> {
    Seq::new(fields.len(), |index: int| fields[index].val as nat)
}

impl Field {
    /// An empty tile that is not yet linked to any other.
    pub fn new() -> (field: Field)
        ensures
            field.val == 0,
            forall|direction: int| 0 <= direction < 4 ==> field.neighbours[direction] is None,
    {
        Field { val: 0, neighbours: [None, None, None, None] }
    }

    /// Whether a tile of value `next_val` may move into this one.
    pub fn check_for_merge(&self, next_val: u64) -> (allowed: bool)
        ensures
            allowed == can_merge(self.val as nat, next_val as nat),
    {
        self.val == next_val || self.val == 0
    }

    /// The colour in which this tile is shown.
    pub fn get_color(&self) -> (color: TileColor)
        ensures
            color == color_of(self.val as nat),
    {
        match self.val {
            0 => TileColor::Black,
            2 => TileColor::LightYellow,
            4 => TileColor::Gray,
            8 => TileColor::Blue,
            16 => TileColor::Green,
            32 => TileColor::Yellow,
            64 => TileColor::Red,
            128 => TileColor::Cyan,
            256 => TileColor::LightMagenta,
            512 => TileColor::Magenta,
            1024 => TileColor::LightBlue,
            2024 => TileColor::Rgb(255, 0, 255),
            _ => TileColor::DarkGray,
        }
    }

    /// Takes in a tile of value `moving` and adds the new value to `score`.
    /// Nothing changes if the score would not fit.
    pub fn merge(&mut self, moving: u64, score: &mut u64) -> (done: Result<(), ScoreOverflow>)
        ensures
            final(self).neighbours == old(self).neighbours,
            done is Ok <==> *old(score) + old(self).val + moving <= u64::MAX,
            done is Ok ==> final(self).val == old(self).val + moving && *final(score) == *old(score)
                + old(self).val + moving,
            done is Err ==> *final(self) == *old(self) && *final(score) == *old(score),
    {
        match self.val.checked_add(moving) {
            Some(sum) => match score.checked_add(sum) {
                Some(raised) => {
                    self.val = sum;
                    *score = raised;
                    Ok(())
                },
                None => Err(ScoreOverflow),
            },
            None => Err(ScoreOverflow),
        }
    }
}

/// Resolves the chain that starts at `mv_field` in `direction`, adding what the
/// merges earn to `score`, and tells whether there was a tile to start from.
///
/// It fails exactly when the score would leave the range of `u64`; the chain
/// is then resolved only from some tile further ahead.
pub fn recursive_merge(
    mv_field: &Option<usize>,
    direction: usize,
    fields: &mut Vec<Field>,
    score: &mut u64,
) -> (moved: Result<bool, ScoreOverflow>)
    requires
        linked(old(fields)@),
        direction < 4,
        *mv_field matches Some(index) ==> index < TILES,
    ensures
        linked(final(fields)@),
        *mv_field is None ==> moved == Ok::<bool, ScoreOverflow>(false) && final(fields)@ == old(
            fields,
        )@ && *final(score) == *old(score),
        *mv_field matches Some(index) ==> ({
            let before = tile_values(old(fields)@);
            let whole = resolve_chain(before, index as int, direction as int);
            &&& moved is Ok <==> *old(score) + whole.gain <= u64::MAX
            &&& moved is Ok ==> moved == Ok::<bool, ScoreOverflow>(true) && tile_values(
                final(fields)@,
            ) == whole.tiles && *final(score) == *old(score) + whole.gain
            &&& moved is Err ==> exists|reached: int| #[trigger]
                on_chain(reached, index as int, direction as int) && reached != index && ({
                    let part = resolve_chain(before, reached, direction as int);
                    tile_values(final(fields)@) == part.tiles && *final(score) == *old(score)
                        + part.gain
                })
        }),
    decreases
            match *mv_field {
                Some(index) => 1 + steps_to_edge(index as int, direction as int),
                None => 0,
            },
{
    match *mv_field {
        None => Ok(false),
        Some(field) => {
            let ghost before = tile_values(fields@);
            let next_index = fields[field].neighbours[direction];
            assert(next_index == stored_neighbour(field as int, direction as int));
            let is_movable = match recursive_merge(&next_index, direction, fields, score) {
                Ok(found) => found,
                Err(overflow) => {
                    proof {
                        let next = next_index.unwrap() as int;
                        let reached = choose|reached: int| #[trigger]
                            on_chain(reached, next, direction as int) && reached != next && ({
                                let part = resolve_chain(before, reached, direction as int);
                                tile_values(fields@) == part.tiles && *score == *old(score)
                                    + part.gain
                            });
                        assert(on_chain(reached, field as int, direction as int));
                        lemma_chain_leads_ahead(reached, next, direction as int);
                    }
                    return Err(overflow);
                },
            };
            if !is_movable {
                return Ok(true);
            }
            let next = next_index.unwrap();
            let ghost ahead = resolve_chain(before, next as int, direction as int);
            assert(tile_values(fields@) == ahead.tiles);
            assert(fields@[field as int].val == old(fields)@[field as int].val) by {
                if on_chain(field as int, next as int, direction as int) {
                    lemma_chain_leads_ahead(field as int, next as int, direction as int);
                }
                lemma_chain_keeps_tiles_behind(before, next as int, direction as int, field as int);
                assert(ahead.tiles[field as int] == before[field as int]);
                assert(tile_values(fields@)[field as int] == fields@[field as int].val);
            }
            let current_val = fields[field].val;
            let can_move = fields[next].check_for_merge(current_val);
            assert(tile_values(fields@)[next as int] == fields@[next as int].val);
            assert(tile_values(fields@)[field as int] == fields@[field as int].val);
            if can_move {
                let ghost unmoved = fields@;
                match fields[next].merge(current_val, score) {
                    Ok(()) => {},
                    Err(overflow) => {
                        proof {
                            assert(on_chain(next as int, next as int, direction as int));
                            assert(on_chain(next as int, field as int, direction as int));
                            assert(fields@ =~= unmoved);
                        }
                        return Err(overflow);
                    },
                }
                fields[field].val = 0;
                assert(tile_values(fields@) =~= step(ahead.tiles, field as int, next as int));
            }
            Ok(true)
        },
    }
}

/// Whether two stored neighbours name the same place.
fn same_place(one: Option<usize>, other: Option<usize>) -> (same: bool)
    ensures
        same == (one == other),
{
    match (one, other) {
        (Some(a), Some(b)) => a == b,
        (None, None) => true,
        _ => false,
    }
}

impl View for Grid {
    type V = Seq<nat>;

    open spec fn view(&self) -> Seq<nat> {
        tile_values(self.fields@)
    }
}

impl Grid {
    /// The board holds sixteen tiles, each linked to the cells next to it.
    pub open spec fn wf(&self) -> bool {
        linked(self.fields@)
    }

    /// An empty board with its adjacency in place: the tile in row `r` and
    /// column `c` has one above it unless `r` is 0, one below unless `r` is 3,
    /// one to its left unless `c` is 0 and one to its right unless `c` is 3.
    pub fn new() -> (grid: Grid)
        ensures
            grid.wf(),
            grid@ == empty_board(),
    {
        let mut fields: Vec<Field> = Vec::new();
        let mut made: usize = 0;
        while made < TILES
            invariant
                made <= TILES,
                fields.len() == made,
                forall|index: int| 0 <= index < made ==> (#[trigger] fields[index]).val == 0,
            decreases TILES - made,
        {
            fields.push(Field::new());
            made += 1;
        }
        let mut grid = Grid { fields };
        let mut i: usize = 0;
        while i < TILES
            invariant
                i <= TILES,
                grid.fields.len() == TILES,
                forall|index: int| 0 <= index < TILES ==> (#[trigger] grid.fields[index]).val == 0,
                forall|index: int, direction: int|
                    0 <= index < i && 0 <= direction < 4 ==> (
                    #[trigger] grid.fields[index].neighbours[direction]) == stored_neighbour(
                        index,
                        direction,
                    ),
            decreases TILES - i,
        {
            let top: Option<usize> = if i < 4 {
                None
            } else {
                Some(i - 4)
            };
            let left: Option<usize> = if i % 4 == 0 {
                None
            } else {
                Some(i - 1)
            };
            let bot: Option<usize> = if i > 11 {
                None
            } else {
                Some(i + 4)
            };
            let right: Option<usize> = if i % 4 == 3 {
                None
            } else {
                Some(i + 1)
            };
            grid.fields[i].neighbours = [top, right, bot, left];
            i += 1;
        }
        assert(grid@ =~= empty_board());
        grid
    }

    /// Whether the board holds sixteen tiles, each linked to the cells next to
    /// it: what every other operation asks of a board.
    pub fn is_linked(&self) -> (sound: bool)
        ensures
            sound == self.wf(),
    {
        if self.fields.len() != TILES {
            return false;
        }
        let mut i: usize = 0;
        while i < TILES
            invariant
                i <= TILES,
                self.fields.len() == TILES,
                forall|index: int, direction: int|
                    0 <= index < i && 0 <= direction < 4 ==> (
                    #[trigger] self.fields[index].neighbours[direction]) == stored_neighbour(
                        index,
                        direction,
                    ),
            decreases TILES - i,
        {
            let top: Option<usize> = if i < 4 {
                None
            } else {
                Some(i - 4)
            };
            let left: Option<usize> = if i % 4 == 0 {
                None
            } else {
                Some(i - 1)
            };
            let bot: Option<usize> = if i > 11 {
                None
            } else {
                Some(i + 4)
            };
            let right: Option<usize> = if i % 4 == 3 {
                None
            } else {
                Some(i + 1)
            };
            let stored = &self.fields[i].neighbours;
            if !(same_place(stored[0], top) && same_place(stored[1], right) && same_place(
                stored[2],
                bot,
            ) && same_place(stored[3], left)) {
                assert(stored[0] == self.fields[i as int].neighbours[0]);
                assert(stored[1] == self.fields[i as int].neighbours[1]);
                assert(stored[2] == self.fields[i as int].neighbours[2]);
                assert(stored[3] == self.fields[i as int].neighbours[3]);
                return false;
            }
            i += 1;
        }
        true
    }

    /// The value of the tile at `index`.
    pub fn value(&self, index: usize) -> (val: u64)
        requires
            self.wf(),
            index < TILES,
        ensures
            val == self@[index as int],
    {
        self.fields[index].val
    }

    /// Writes `val` into the tile at `index`.
    pub fn set_value(&mut self, index: usize, val: u64)
        requires
            old(self).wf(),
            index < TILES,
        ensures
            final(self).wf(),
            final(self)@ == old(self)@.update(index as int, val as nat),
    {
        self.fields[index].val = val;
        assert(self@ =~= old(self)@.update(index as int, val as nat));
    }

    /// The values of all tiles in row-major order.
    pub fn values(&self) -> (vals: Vec<u64>)
        requires
            self.wf(),
        ensures
            vals.len() == TILES,
            forall|index: int| 0 <= index < TILES ==> (#[trigger] vals[index]) == self@[index],
    {
        let mut vals: Vec<u64> = Vec::new();
        let mut i: usize = 0;
        while i < TILES
            invariant
                i <= TILES,
                self.wf(),
                vals.len() == i,
                forall|index: int| 0 <= index < i ==> (#[trigger] vals[index]) == self@[index],
            decreases TILES - i,
        {
            vals.push(self.fields[i].val);
            i += 1;
        }
        vals
    }

    /// Puts back the values that `values` returned earlier.
    fn restore(&mut self, vals: &Vec<u64>)
        requires
            old(self).wf(),
            vals.len() == TILES,
        ensures
            final(self).wf(),
            final(self)@.len() == TILES,
            forall|index: int| 0 <= index < TILES ==> (#[trigger] final(self)@[index]) == vals[index],
    {
        let mut i: usize = 0;
        while i < TILES
            invariant
                i <= TILES,
                self.wf(),
                vals.len() == TILES,
                forall|index: int| 0 <= index < i ==> (#[trigger] self.fields[index]).val == vals[index],
            decreases TILES - i,
        {
            self.fields[i].val = vals[i];
            i += 1;
        }
        assert forall|index: int| 0 <= index < TILES implies (#[trigger] self@[index])
            == vals[index] by {
            assert(self@[index] == self.fields[index].val);
        }
    }

    /// One pass: resolves the chain of every tile in index order. On failure
    /// the board is left part-way through the pass.
    fn sweep(&mut self, direction: usize, score: &mut u64) -> (done: Result<(), ScoreOverflow>)
        requires
            old(self).wf(),
            direction < 4,
        ensures
            final(self).wf(),
            ({
                let pass = resolve_pass(old(self)@, direction as int, TILES as nat);
                &&& done is Ok <==> *old(score) + pass.gain <= u64::MAX
                &&& done is Ok ==> final(self)@ == pass.tiles && *final(score) == *old(score)
                    + pass.gain
            }),
    {
        let ghost start = self@;
        let ghost start_score = *score;
        let mut i: usize = 0;
        while i < self.fields.len()
            invariant
                i <= TILES,
                direction < 4,
                self.wf(),
                start == old(self)@,
                start_score == *old(score),
                self@ == resolve_pass(start, direction as int, i as nat).tiles,
                *score == start_score + resolve_pass(start, direction as int, i as nat).gain,
            decreases TILES - i,
        {
            match recursive_merge(&Some(i), direction, &mut self.fields, score) {
                Ok(_) => {},
                Err(overflow) => {
                    proof {
                        let upto = resolve_pass(start, direction as int, i as nat);
                        let next = resolve_pass(start, direction as int, (i + 1) as nat);
                        assert(next.gain == upto.gain + resolve_chain(
                            upto.tiles,
                            i as int,
                            direction as int,
                        ).gain);
                        lemma_pass_gain_grows(start, direction as int, (i + 1) as nat, TILES as nat);
                    }
                    return Err(overflow);
                },
            }
            i += 1;
        }
        Ok(())
    }

    /// Slides and merges the whole board in `direction` (0 up, 1 right, 2 down,
    /// 3 left) and adds what the merges earn to `score`. Any other direction
    /// changes nothing.
    ///
    /// The outcome is that of two passes of chain resolution over the sixteen
    /// tiles, which is the same as resolving each row or column by itself.
    ///
    /// The move is refused, and board and score stay as they were, exactly
    /// when the new score would not fit in a `u64`.
    pub fn move_vals(&mut self, direction: usize, score: &mut u64) -> (done: Result<
        (),
        ScoreOverflow,
    >)
        requires
            old(self).wf(),
        ensures
            final(self).wf(),
            direction >= 4 ==> done is Ok && final(self)@ == old(self)@ && *final(score) == *old(
                score,
            ),
            direction < 4 ==> ({
                let whole = resolve_move(old(self)@, direction as int);
                &&& whole == move_by_lines(old(self)@, direction as int)
                &&& done is Ok <==> *old(score) + whole.gain <= u64::MAX
                &&& done is Ok ==> final(self)@ == whole.tiles && *final(score) == *old(score)
                    + whole.gain
                &&& done is Err ==> final(self)@ == old(self)@ && *final(score) == *old(score)
            }),
    {
        if direction > 3 {
            return Ok(());
        }
        proof {
            law_move_resolves_line_by_line(self@, direction as int);
        }
        let saved = self.values();
        let saved_score = *score;
        let mut pass: usize = 0;
        while pass < 2
            invariant
                pass <= 2,
                direction < 4,
                self.wf(),
                saved.len() == TILES,
                old(self)@.len() == TILES,
                forall|index: int| 0 <= index < TILES ==> (#[trigger] saved[index]) == old(self)@[index],
                saved_score == *old(score),
                resolve_move(old(self)@, direction as int) == move_by_lines(
                    old(self)@,
                    direction as int,
                ),
                pass == 0 ==> self@ == old(self)@ && *score == *old(score),
                pass == 1 ==> ({
                    let first = resolve_pass(old(self)@, direction as int, TILES as nat);
                    self@ == first.tiles && *score == *old(score) + first.gain
                }),
                pass == 2 ==> ({
                    let whole = resolve_move(old(self)@, direction as int);
                    self@ == whole.tiles && *score == *old(score) + whole.gain
                }),
            decreases 2 - pass,
        {
            match self.sweep(direction, score) {
                Ok(()) => {},
                Err(overflow) => {
                    self.restore(&saved);
                    *score = saved_score;
                    assert(self@ =~= old(self)@);
                    return Err(overflow);
                },
            }
            pass += 1;
        }
        Ok(())
    }
}
} // verus!
