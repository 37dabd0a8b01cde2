//! The round controller: one input at a time it moves the board, spawns new
//! tiles, keeps score and high score, and tracks whether the round is active,
//! paused or over.

use crate::board::{Grid, ScoreOverflow};
use crate::lines::law_move_resolves_line_by_line;
use crate::rules::{
    empty_board, is_direction, move_by_lines, resolve_move, DOWN, LEFT, RIGHT, TILES, UP,
};
use crate::spawn::{ends_round, hits_of, is_full, roll_draws, spawn, SPAWN_THRESHOLD, SPAWN_VALUE};
use vstd::prelude::*;

verus! {

/// The state of a round as the rules see it.
pub struct Round {
    pub tiles: Seq<nat>,
    pub score: nat,
    pub highscore: nat,
    pub exit: bool,
    pub paused: bool,
    pub dead: bool,
}

impl Round {
    /// A new round on an empty board.
    pub open spec fn fresh(highscore: nat) -> Round {
        Round {
            tiles: empty_board(),
            score: 0,
            highscore,
            exit: false,
            paused: false,
            dead: false,
        }
    }

    /// Moves are accepted only while the round is neither paused nor over.
    pub open spec fn active(self) -> bool {
        !self.paused && !self.dead
    }

    /// After the pause toggle.
    pub open spec fn toggled(self) -> Round {
        Round { paused: !self.paused, ..self }
    }

    /// After the request to quit.
    pub open spec fn left(self) -> Round {
        Round { exit: true, ..self }
    }

    /// After the round was declared over.
    pub open spec fn ended(self) -> Round {
        Round { dead: true, ..self }
    }

    /// After the high score was raised to the score, where the score is higher.
    pub open spec fn topped(self) -> Round {
        Round {
            highscore: if self.score > self.highscore {
                self.score
            } else {
                self.highscore
            },
            ..self
        }
    }

    /// After a restart with the high score read back from storage: a round
    /// that is over starts afresh, any other stays as it is.
    pub open spec fn restarted(self, persisted: nat) -> Round {
        if self.dead {
            Round {
                tiles: empty_board(),
                score: 0,
                highscore: persisted,
                exit: self.exit,
                paused: false,
                dead: false,
            }
        } else {
            self
        }
    }

    /// After the spawn scan with the given hits.
    pub open spec fn spawned(self, hits: Seq<bool>) -> Round {
        Round {
            tiles: spawn(self.tiles, hits),
            dead: self.dead || ends_round(self.tiles, hits),
            ..self
        }
    }

    /// Whether the score after a move in `direction` fits in a `u64`.
    pub open spec fn fits(self, direction: int) -> bool {
        self.score + resolve_move(self.tiles, direction).gain <= u64::MAX
    }

    /// Whether a move in `direction` is carried out.
    pub open spec fn accepts(self, direction: int) -> bool {
        self.active() && is_direction(direction) && self.fits(direction)
    }

    /// After a directional input: an accepted move is resolved, its gain is
    /// added to the score, new tiles spawn, and the high score follows the
    /// score. Any other input leaves the round as it is.
    pub open spec fn played(self, direction: int, hits: Seq<bool>) -> Round {
        if self.accepts(direction) {
            let moved = resolve_move(self.tiles, direction);
            Round { tiles: moved.tiles, score: self.score + moved.gain, ..self }.spawned(
                hits,
            ).topped()
        } else {
            self
        }
    }
}

/// A key as the controller reads it.
#[derive(Clone, Copy, Debug, PartialEq, Eq)]
pub enum Key {
    Char(char),
    Esc,
    Enter,
    Right,
    Left,
    Up,
    Down,
    Other,
}

/// What the caller has to do after a key was handled.
#[derive(Clone, Copy, Debug, PartialEq, Eq)]
pub enum Effect {
    /// Nothing.
    Idle,
    /// Store this high score, read the stored record back and hand it to
    /// `restart`.
    Persist(u64),
}

/// The direction that a key stands for.
pub open spec fn direction_of(key: Key) -> Option<int> {
    match key {
        Key::Right => Some(RIGHT as int),
        Key::Left => Some(LEFT as int),
        Key::Up => Some(UP as int),
        Key::Down => Some(DOWN as int),
        _ => None,
    }
}

/// The round after `key` was handled, `hits` telling which draws of the
/// spawn scan were hits.
pub open spec fn react(round: Round, key: Key, hits: Seq<bool>) -> Round {
    match key {
        Key::Char(c) => if c == 'q' {
            round.left()
        } else {
            round
        },
        Key::Esc => round.toggled(),
        Key::Right => round.played(RIGHT as int, hits),
        Key::Left => round.played(LEFT as int, hits),
        Key::Up => round.played(UP as int, hits),
        Key::Down => round.played(DOWN as int, hits),
        _ => round,
    }
}

/// What handling `key` returns: a refused move is an error, a restart of a
/// round that is over asks for the high score to be stored and read back.
pub open spec fn reply(round: Round, key: Key) -> Result<Effect, ScoreOverflow> {
    match direction_of(key) {
        Some(direction) => if round.active() && !round.fits(direction) {
            Err(ScoreOverflow)
        } else {
            Ok(Effect::Idle)
        },
        None => if key == Key::Enter && round.dead {
            Ok(Effect::Persist(round.highscore as u64))
        } else {
            Ok(Effect::Idle)
        },
    }
}

/// The round controller.
#[derive(Debug)]
pub struct App {
    pub score: u64,
    pub highscore: u64,
    pub exit: bool,
    pub on_pause: bool,
    pub dead: bool,
    pub grid: Grid,
}

impl View for App {
    type V = Round;

    open spec fn view(&self) -> Round {
        Round {
            tiles: self.grid@,
            score: self.score as nat,
            highscore: self.highscore as nat,
            exit: self.exit,
            paused: self.on_pause,
            dead: self.dead,
        }
    }
}

impl App {
    /// The board behind the round is well formed.
    pub open spec fn wf(&self) -> bool {
        self.grid.wf()
    }

    /// Whether the board behind the round is well formed: what every other
    /// operation asks of a round.
    pub fn is_sound(&self) -> (sound: bool)
        ensures
            sound == self.wf(),
    {
        self.grid.is_linked()
    }

    /// A new, active round on an empty board, with score and high score 0.
    pub fn new() -> (app: App)
        ensures
            app.wf(),
            app@ == Round::fresh(0),
    {
        App {
            score: 0,
            highscore: 0,
            exit: false,
            dead: false,
            on_pause: false,
            grid: Grid::new(),
        }
    }

    /// Raises the high score to the score if the score is higher.
    pub fn highscore(&mut self)
        ensures
            final(self)@ == old(self)@.topped(),
            final(self).grid == old(self).grid,
    {
        if self.score > self.highscore {
            self.highscore = self.score;
        }
    }

    /// Handles one key: `q` quits, escape toggles the pause, enter asks for a
    /// restart, the arrows move. Every other key is ignored.
    pub fn handle_key_event(&mut self, key: Key) -> (done: Result<Effect, ScoreOverflow>)
        requires
            old(self).wf(),
        ensures
            final(self).wf(),
            done == reply(old(self)@, key),
            exists|hits: Seq<bool>| #[trigger]
                hits.len() == TILES && final(self)@ == react(old(self)@, key, hits),
            final(self).score >= old(self).score,
            final(self).highscore >= old(self).highscore,
    {
        let ghost none = Seq::new(TILES as nat, |index: int| false);
        match key {
            Key::Char(c) => {
                if c == 'q' {
                    self.exit();
                }
                assert(none.len() == TILES && self@ == react(old(self)@, key, none));
                Ok(Effect::Idle)
            },
            Key::Esc => {
                self.pause();
                assert(none.len() == TILES && self@ == react(old(self)@, key, none));
                Ok(Effect::Idle)
            },
            Key::Enter => {
                assert(none.len() == TILES && self@ == react(old(self)@, key, none));
                if self.dead {
                    Ok(Effect::Persist(self.highscore))
                } else {
                    Ok(Effect::Idle)
                }
            },
            Key::Right => match self.move_right() {
                Ok(()) => Ok(Effect::Idle),
                Err(overflow) => Err(overflow),
            },
            Key::Left => match self.move_left() {
                Ok(()) => Ok(Effect::Idle),
                Err(overflow) => Err(overflow),
            },
            Key::Up => match self.move_up() {
                Ok(()) => Ok(Effect::Idle),
                Err(overflow) => Err(overflow),
            },
            Key::Down => match self.move_down() {
                Ok(()) => Ok(Effect::Idle),
                Err(overflow) => Err(overflow),
            },
            Key::Other => {
                assert(none.len() == TILES && self@ == react(old(self)@, key, none));
                Ok(Effect::Idle)
            },
        }
    }

    /// Starts a round that is over afresh: an empty board, score 0, neither
    /// paused nor over, and as high score the value read back from storage.
    /// A round that is not over stays as it is.
    pub fn restart(&mut self, persisted: u64)
        requires
            old(self).wf(),
        ensures
            final(self).wf(),
            final(self)@ == old(self)@.restarted(persisted as nat),
    {
        if self.dead {
            self.highscore = persisted;
            self.score = 0;
            self.on_pause = false;
            self.dead = false;
            self.grid = Grid::new();
        }
    }

    /// Asks the caller's loop to end.
    pub fn exit(&mut self)
        ensures
            final(self)@ == old(self)@.left(),
            final(self).grid == old(self).grid,
    {
        self.exit = true;
    }

    /// Toggles the pause.
    pub fn pause(&mut self)
        ensures
            final(self)@ == old(self)@.toggled(),
            final(self).grid == old(self).grid,
    {
        if self.on_pause {
            self.on_pause = false;
        } else {
            self.on_pause = true;
        }
    }

    /// Declares the round over.
    pub fn is_dead(&mut self)
        ensures
            final(self)@ == old(self)@.ended(),
            final(self).grid == old(self).grid,
    {
        if !self.dead {
            self.dead = true;
        }
    }

    /// A move towards column zero, followed by the spawn scan.
    pub fn move_left(&mut self) -> (done: Result<(), ScoreOverflow>)
        requires
            old(self).wf(),
        ensures
            final(self).wf(),
            done is Err <==> old(self)@.active() && !old(self)@.fits(LEFT as int),
            exists|hits: Seq<bool>| #[trigger]
                hits.len() == TILES && final(self)@ == old(self)@.played(LEFT as int, hits),
            final(self).score >= old(self).score,
            final(self).highscore >= old(self).highscore,
    {
        let draws = roll_draws();
        assert(hits_of(draws@).len() == TILES);
        self.play(LEFT, &draws)
    }

    /// A move towards the last column, followed by the spawn scan.
    pub fn move_right(&mut self) -> (done: Result<(), ScoreOverflow>)
        requires
            old(self).wf(),
        ensures
            final(self).wf(),
            done is Err <==> old(self)@.active() && !old(self)@.fits(RIGHT as int),
            exists|hits: Seq<bool>| #[trigger]
                hits.len() == TILES && final(self)@ == old(self)@.played(RIGHT as int, hits),
            final(self).score >= old(self).score,
            final(self).highscore >= old(self).highscore,
    {
        let draws = roll_draws();
        assert(hits_of(draws@).len() == TILES);
        self.play(RIGHT, &draws)
    }

    /// A move towards the last row, followed by the spawn scan.
    pub fn move_down(&mut self) -> (done: Result<(), ScoreOverflow>)
        requires
            old(self).wf(),
        ensures
            final(self).wf(),
            done is Err <==> old(self)@.active() && !old(self)@.fits(DOWN as int),
            exists|hits: Seq<bool>| #[trigger]
                hits.len() == TILES && final(self)@ == old(self)@.played(DOWN as int, hits),
            final(self).score >= old(self).score,
            final(self).highscore >= old(self).highscore,
    {
        let draws = roll_draws();
        assert(hits_of(draws@).len() == TILES);
        self.play(DOWN, &draws)
    }

    /// A move towards row zero, followed by the spawn scan.
    pub fn move_up(&mut self) -> (done: Result<(), ScoreOverflow>)
        requires
            old(self).wf(),
        ensures
            final(self).wf(),
            done is Err <==> old(self)@.active() && !old(self)@.fits(UP as int),
            exists|hits: Seq<bool>| #[trigger]
                hits.len() == TILES && final(self)@ == old(self)@.played(UP as int, hits),
            final(self).score >= old(self).score,
            final(self).highscore >= old(self).highscore,
    {
        let draws = roll_draws();
        assert(hits_of(draws@).len() == TILES);
        self.play(UP, &draws)
    }

    /// One turn with the draws given: while the round is active, the move in
    /// `direction` is resolved, its gain added to the score, the spawn scan
    /// run with `draws`, and the high score raised to the score. A paused or
    /// finished round and an unknown direction change nothing. A move whose
    /// score would not fit in a `u64` is refused and changes nothing.
    pub fn play(&mut self, direction: usize, draws: &[u32; 16]) -> (done: Result<
        (),
        ScoreOverflow,
    >)
        requires
            old(self).wf(),
        ensures
            final(self).wf(),
            final(self)@ == old(self)@.played(direction as int, hits_of(draws@)),
            done is Err <==> old(self)@.active() && is_direction(direction as int) && !old(
                self,
            )@.fits(direction as int),
            is_direction(direction as int) ==> resolve_move(old(self)@.tiles, direction as int)
                == move_by_lines(old(self)@.tiles, direction as int),
            final(self).score >= old(self).score,
            final(self).highscore >= old(self).highscore,
    {
        proof {
            if direction < 4 {
                law_move_resolves_line_by_line(self@.tiles, direction as int);
            }
        }
        if self.on_pause || self.dead || direction > 3 {
            return Ok(());
        }
        match self.grid.move_vals(direction, &mut self.score) {
            Ok(()) => {},
            Err(overflow) => {
                return Err(overflow);
            },
        }
        self.place_pieces(draws);
        self.highscore();
        Ok(())
    }

    /// The spawn scan with draws of its own.
    pub fn new_pieces(&mut self)
        requires
            old(self).wf(),
        ensures
            final(self).wf(),
            exists|hits: Seq<bool>| #[trigger]
                hits.len() == TILES && final(self)@ == old(self)@.spawned(hits),
    {
        let draws = roll_draws();
        assert(hits_of(draws@).len() == TILES);
        self.place_pieces(&draws);
    }

    /// The spawn scan with the draws given: every empty cell whose draw is
    /// below the threshold receives a new tile; if the board was full before
    /// the scan and any draw is below the threshold, the round is over.
    pub fn place_pieces(&mut self, draws: &[u32; 16])
        requires
            old(self).wf(),
        ensures
            final(self).wf(),
            final(self)@ == old(self)@.spawned(hits_of(draws@)),
    {
        let ghost hits = hits_of(draws@);
        let ghost start = self.grid@;
        let all_full = self.all_full();
        let mut i: usize = 0;
        while i < TILES
            invariant
                i <= TILES,
                self.wf(),
                start == old(self).grid@,
                start.len() == TILES,
                hits == hits_of(draws@),
                all_full == is_full(start),
                self.score == old(self).score,
                self.highscore == old(self).highscore,
                self.exit == old(self).exit,
                self.on_pause == old(self).on_pause,
                self.dead == old(self).dead,
                forall|index: int| 0 <= index < i ==> (#[trigger] self.grid@[index]) == spawn(start, hits)[index],
                forall|index: int| i <= index < TILES ==> (#[trigger] self.grid@[index]) == start[index],
                all_full ==> forall|index: int| 0 <= index < i ==> !(#[trigger] hits[index]),
            decreases TILES - i,
        {
            let hit = draws[i] < SPAWN_THRESHOLD;
            assert(hit == hits[i as int]);
            if self.grid.value(i) == 0 && hit {
                self.grid.set_value(i, SPAWN_VALUE);
            }
            if hit && all_full {
                self.is_dead();
                assert(self.grid@ =~= spawn(start, hits));
                assert(ends_round(start, hits));
                return ;
            }
            i += 1;
        }
        assert(self.grid@ =~= spawn(start, hits));
        assert(!ends_round(start, hits));
    }

    /// Whether no cell of the board is empty.
    pub fn all_full(&self) -> (full: bool)
        requires
            self.wf(),
        ensures
            full == is_full(self@.tiles),
    {
        let mut i: usize = 0;
        while i < TILES
            invariant
                i <= TILES,
                self.wf(),
                forall|index: int| 0 <= index < i ==> (#[trigger] self.grid@[index]) != 0,
            decreases TILES - i,
        {
            if self.grid.value(i) == 0 {
                return false;
            }
            i += 1;
        }
        true
    }
}

} // verus!
