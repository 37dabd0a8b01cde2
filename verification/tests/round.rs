use game2048::board::ScoreOverflow;
use game2048::round::{App, Effect, Key};
use game2048::rules::{DOWN, LEFT, RIGHT, UP};
use game2048::spawn::{roll_draws, DRAW_RANGE, SPAWN_THRESHOLD, SPAWN_VALUE};

const HIT: [u32; 16] = [0; 16];
const MISS: [u32; 16] = [9; 16];

fn full_of_twos() -> App {
    let mut app = App::new();
    app.place_pieces(&HIT);
    app
}

fn finished() -> App {
    let mut app = full_of_twos();
    app.place_pieces(&HIT);
    app
}

#[test]
fn spawn_policy_is_one_chance_in_ten_of_a_two() {
    assert_eq!(SPAWN_VALUE, 2);
    assert_eq!(DRAW_RANGE, 10 * SPAWN_THRESHOLD);
}

#[test]
fn new_round_is_active_and_empty() {
    let app = App::new();
    assert_eq!(app.score, 0);
    assert_eq!(app.highscore, 0);
    assert!(!app.exit);
    assert!(!app.on_pause);
    assert!(!app.dead);
    assert_eq!(app.grid.values(), vec![0u64; 16]);
    assert!(app.is_sound());
    assert!(!app.all_full());
}

#[test]
fn pause_toggles() {
    let mut app = App::new();
    app.pause();
    assert!(app.on_pause);
    app.pause();
    assert!(!app.on_pause);
}

#[test]
fn exit_asks_to_leave() {
    let mut app = App::new();
    app.exit();
    assert!(app.exit);
    app.exit();
    assert!(app.exit);
}

#[test]
fn is_dead_ends_the_round() {
    let mut app = App::new();
    app.is_dead();
    assert!(app.dead);
    app.is_dead();
    assert!(app.dead);
}

#[test]
fn highscore_follows_a_higher_score_only() {
    let mut app = App::new();
    app.score = 10;
    app.highscore = 4;
    app.highscore();
    assert_eq!(app.highscore, 10);
    app.score = 3;
    app.highscore();
    assert_eq!(app.highscore, 10);
    assert_eq!(app.score, 3);
}

#[test]
fn every_hit_on_an_empty_cell_spawns_a_two() {
    let mut app = App::new();
    app.place_pieces(&HIT);
    assert_eq!(app.grid.values(), vec![2u64; 16]);
    assert!(!app.dead);
    assert!(app.all_full());
}

#[test]
fn only_draws_below_the_threshold_spawn() {
    let mut app = App::new();
    let mut draws = [9u32; 16];
    draws[3] = 0;
    draws[7] = 1;
    draws[11] = 0;
    app.place_pieces(&draws);
    let mut expected = vec![0u64; 16];
    expected[3] = 2;
    expected[11] = 2;
    assert_eq!(app.grid.values(), expected);
    assert!(!app.dead);
}

#[test]
fn no_hit_spawns_nothing() {
    let mut app = App::new();
    app.place_pieces(&MISS);
    assert_eq!(app.grid.values(), vec![0u64; 16]);
    assert!(!app.dead);
}

#[test]
fn a_hit_never_overwrites_a_tile() {
    let mut app = App::new();
    app.grid.set_value(5, 64);
    app.place_pieces(&HIT);
    let mut expected = vec![2u64; 16];
    expected[5] = 64;
    assert_eq!(app.grid.values(), expected);
    assert!(!app.dead);
}

#[test]
fn a_hit_on_a_full_board_ends_the_round() {
    let mut app = full_of_twos();
    let mut draws = [9u32; 16];
    draws[15] = 0;
    app.place_pieces(&draws);
    assert!(app.dead);
    assert_eq!(app.grid.values(), vec![2u64; 16]);
}

#[test]
fn a_full_board_without_a_hit_goes_on() {
    let mut app = full_of_twos();
    app.place_pieces(&MISS);
    assert!(!app.dead);
    assert_eq!(app.grid.values(), vec![2u64; 16]);
}

#[test]
fn a_board_filled_by_the_scan_itself_does_not_end_the_round() {
    let mut app = App::new();
    for index in 0..15 {
        app.grid.set_value(index, 4);
    }
    app.place_pieces(&HIT);
    assert!(!app.dead);
    assert_eq!(app.grid.value(15), 2);
}

#[test]
fn restart_of_a_finished_round_starts_afresh() {
    let mut app = finished();
    assert!(app.dead);
    app.score = 120;
    app.highscore = 300;
    app.pause();
    app.restart(300);
    assert_eq!(app.score, 0);
    assert_eq!(app.highscore, 300);
    assert!(!app.dead);
    assert!(!app.on_pause);
    assert_eq!(app.grid.values(), vec![0u64; 16]);
    assert!(app.is_sound());
}

#[test]
fn restart_takes_the_high_score_from_storage() {
    let mut app = finished();
    app.highscore = 300;
    app.restart(12);
    assert_eq!(app.highscore, 12);
    assert_eq!(app.score, 0);
    assert!(!app.dead);
}

#[test]
fn restart_of_a_running_round_changes_nothing() {
    let mut app = full_of_twos();
    app.score = 50;
    app.highscore = 70;
    app.restart(999);
    assert_eq!(app.score, 50);
    assert_eq!(app.highscore, 70);
    assert_eq!(app.grid.values(), vec![2u64; 16]);
    assert!(!app.dead);
}

#[test]
fn a_turn_moves_scores_spawns_and_raises_the_high_score() {
    let mut app = full_of_twos();
    let mut draws = [9u32; 16];
    draws[0] = 0;
    draws[1] = 0;
    assert_eq!(app.play(LEFT, &draws), Ok(()));
    // every row 2 2 2 2 ends as 8 0 0 0 and earns 20; cell 1 is empty and hit
    assert_eq!(
        app.grid.values(),
        vec![8, 2, 0, 0, 8, 0, 0, 0, 8, 0, 0, 0, 8, 0, 0, 0]
    );
    assert_eq!(app.score, 80);
    assert_eq!(app.highscore, 80);
    assert!(!app.dead);
}

#[test]
fn the_sum_after_a_turn_is_the_sum_before_plus_the_new_tiles() {
    let mut app = full_of_twos();
    let before: u64 = app.grid.values().iter().sum();
    let mut draws = [9u32; 16];
    draws[1] = 0;
    draws[2] = 0;
    draws[4] = 0;
    draws[7] = 0;
    assert_eq!(app.play(UP, &draws), Ok(()));
    let after: u64 = app.grid.values().iter().sum();
    // row 0 is full after the move, so only cells 4 and 7 receive a tile
    assert_eq!(after, before + 2 * 2);
}

#[test]
fn a_turn_on_a_board_that_stays_full_can_end_the_round() {
    let mut app = App::new();
    let full = [2, 4, 2, 4, 4, 2, 4, 2, 2, 4, 2, 4, 4, 2, 4, 2];
    for (index, val) in full.iter().enumerate() {
        app.grid.set_value(index, *val);
    }
    app.score = 9;
    app.highscore = 5;
    assert_eq!(app.play(DOWN, &HIT), Ok(()));
    assert!(app.dead);
    assert_eq!(app.grid.values(), full.to_vec());
    assert_eq!(app.score, 9);
    // the high score follows the score even on the turn that ends the round
    assert_eq!(app.highscore, 9);
}

#[test]
fn moves_are_ignored_while_paused() {
    let mut app = full_of_twos();
    app.pause();
    for direction in [UP, RIGHT, DOWN, LEFT] {
        assert_eq!(app.play(direction, &HIT), Ok(()));
    }
    assert_eq!(app.move_left(), Ok(()));
    assert_eq!(app.handle_key_event(Key::Right), Ok(Effect::Idle));
    assert_eq!(app.grid.values(), vec![2u64; 16]);
    assert_eq!(app.score, 0);
    assert!(!app.dead);
    assert!(app.on_pause);
}

#[test]
fn moves_are_ignored_once_the_round_is_over() {
    let mut app = finished();
    for direction in [UP, RIGHT, DOWN, LEFT] {
        assert_eq!(app.play(direction, &HIT), Ok(()));
    }
    assert_eq!(app.move_up(), Ok(()));
    assert_eq!(app.handle_key_event(Key::Down), Ok(Effect::Idle));
    assert_eq!(app.grid.values(), vec![2u64; 16]);
    assert_eq!(app.score, 0);
    assert_eq!(app.highscore, 0);
    assert!(app.dead);
}

#[test]
fn unknown_direction_is_ignored_by_the_round() {
    let mut app = full_of_twos();
    assert_eq!(app.play(4, &HIT), Ok(()));
    assert_eq!(app.grid.values(), vec![2u64; 16]);
    assert_eq!(app.score, 0);
    assert!(!app.dead);
}

#[test]
fn a_move_that_does_not_fit_is_refused() {
    let mut app = App::new();
    app.grid.set_value(1, u64::MAX);
    app.score = 1;
    app.highscore = 1;
    assert_eq!(app.play(LEFT, &HIT), Err(ScoreOverflow));
    assert_eq!(app.handle_key_event(Key::Left), Err(ScoreOverflow));
    assert_eq!(app.move_left(), Err(ScoreOverflow));
    let mut expected = vec![0u64; 16];
    expected[1] = u64::MAX;
    assert_eq!(app.grid.values(), expected);
    assert_eq!(app.score, 1);
    assert_eq!(app.highscore, 1);
    // towards the edge at which the tile stands nothing is earned
    assert_eq!(app.play(UP, &MISS), Ok(()));
    assert_eq!(app.score, 1);
}

#[test]
fn score_and_high_score_never_fall() {
    let mut app = full_of_twos();
    app.highscore = 30;
    let mut score = app.score;
    let mut highscore = app.highscore;
    let mut draws = [9u32; 16];
    for turn in 0..40usize {
        draws[turn % 16] = (turn % 3) as u32;
        let direction = [LEFT, UP, RIGHT, DOWN][turn % 4];
        assert_eq!(app.play(direction, &draws), Ok(()));
        assert!(app.score >= score);
        assert!(app.highscore >= highscore);
        assert!(app.highscore >= app.score);
        score = app.score;
        highscore = app.highscore;
    }
    assert!(score > 0);
}

#[test]
fn keys_map_to_commands() {
    let mut app = App::new();
    assert_eq!(app.handle_key_event(Key::Esc), Ok(Effect::Idle));
    assert!(app.on_pause);
    assert_eq!(app.handle_key_event(Key::Esc), Ok(Effect::Idle));
    assert!(!app.on_pause);
    assert_eq!(app.handle_key_event(Key::Char('q')), Ok(Effect::Idle));
    assert!(app.exit);
}

#[test]
fn other_keys_change_nothing() {
    let mut app = full_of_twos();
    for key in [Key::Other, Key::Char('x'), Key::Char('Q'), Key::Enter] {
        assert_eq!(app.handle_key_event(key), Ok(Effect::Idle));
        assert_eq!(app.grid.values(), vec![2u64; 16]);
        assert_eq!(app.score, 0);
        assert!(!app.exit);
        assert!(!app.on_pause);
        assert!(!app.dead);
    }
}

#[test]
fn arrow_keys_move_the_board() {
    for (key, edge) in [
        (Key::Left, [0usize, 4, 8, 12]),
        (Key::Right, [3, 7, 11, 15]),
        (Key::Up, [0, 1, 2, 3]),
        (Key::Down, [12, 13, 14, 15]),
    ] {
        let mut app = full_of_twos();
        assert_eq!(app.handle_key_event(key), Ok(Effect::Idle));
        assert_eq!(app.score, 80);
        assert_eq!(app.highscore, 80);
        for index in edge {
            assert_eq!(app.grid.value(index), 8);
        }
        let sum: u64 = app.grid.values().iter().sum();
        assert!(sum >= 32 && sum <= 32 + 2 * 12);
    }
}

#[test]
fn move_methods_move_the_board() {
    let mut app = full_of_twos();
    assert_eq!(app.move_left(), Ok(()));
    assert_eq!(app.score, 80);
    let mut app = full_of_twos();
    assert_eq!(app.move_right(), Ok(()));
    assert_eq!(app.grid.value(3), 8);
    let mut app = full_of_twos();
    assert_eq!(app.move_up(), Ok(()));
    assert_eq!(app.grid.value(0), 8);
    let mut app = full_of_twos();
    assert_eq!(app.move_down(), Ok(()));
    assert_eq!(app.grid.value(12), 8);
    assert_eq!(app.highscore, 80);
}

#[test]
fn enter_on_a_finished_round_asks_to_store_the_high_score() {
    let mut app = finished();
    app.score = 64;
    app.highscore = 128;
    assert_eq!(app.handle_key_event(Key::Enter), Ok(Effect::Persist(128)));
    // nothing changes until the stored record is handed back
    assert!(app.dead);
    assert_eq!(app.score, 64);
    app.restart(128);
    assert_eq!(app.score, 0);
    assert_eq!(app.highscore, 128);
    assert!(!app.dead);
    assert!(!app.on_pause);
}

#[test]
fn draws_stay_below_the_range() {
    for _ in 0..200 {
        let draws = roll_draws();
        assert!(draws.iter().all(|draw| *draw < DRAW_RANGE));
    }
}

#[test]
fn draws_differ() {
    let mut seen = [false; 10];
    for _ in 0..200 {
        for draw in roll_draws() {
            seen[draw as usize] = true;
        }
    }
    assert!(seen.iter().all(|value| *value));
}

#[test]
fn the_scan_with_its_own_draws_spawns_twos_only() {
    let mut app = App::new();
    let mut rounds = 0;
    while app.grid.values().iter().all(|val| *val == 0) {
        app.new_pieces();
        rounds += 1;
        assert!(rounds < 10_000);
    }
    assert!(app.grid.values().iter().all(|val| *val == 0 || *val == 2));
    assert!(!app.dead);
    assert_eq!(app.score, 0);
}

#[test]
fn tile_values_stay_even() {
    let mut app = App::new();
    let mut draws = [9u32; 16];
    for turn in 0..60usize {
        draws[(5 * turn) % 16] = (turn % 2) as u32;
        draws[(3 * turn + 1) % 16] = 0;
        let direction = [DOWN, LEFT, UP, RIGHT][turn % 4];
        assert_eq!(app.play(direction, &draws), Ok(()));
        assert!(app.grid.values().iter().all(|val| val % 2 == 0));
        assert!(app.is_sound());
    }
    assert!(app.grid.values().iter().any(|val| *val > 2));
}
