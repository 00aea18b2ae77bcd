use easyminer::board::{CellEnvironment, GameState, ICellState};
use easyminer::game::{CellLabel, ConfigError, Game};
use easyminer::logic::{CellState, Logic, Outcome, UIUpdate};

/// Puts a mine on `target`, whose choice index is counted as `place_mine` counts it.
fn place_at(game: &mut Game, keep: (usize, usize), target: (usize, usize), mined: &mut Vec<(usize, usize)>) {
    let (w, h) = game.get_dim();
    let near = |a: usize, b: usize| (a as i64 - b as i64).abs() <= 1;
    let mut choice = 0;
    for y in 0..h {
        for x in 0..w {
            if (x, y) == target {
                let j = game.place_mine(keep, choice);
                assert_eq!(j, y * w + x);
                mined.push(target);
                return;
            }
            if !mined.contains(&(x, y)) && !(near(x, keep.0) && near(y, keep.1)) {
                choice += 1;
            }
        }
    }
    panic!("target not on the field");
}

/// A 5x5 field with a wall of mines down column 2.
fn wall_field() -> Game {
    let mut game = Game::new((5, 5), 5).unwrap();
    let mut mined = Vec::new();
    for y in 0..5 {
        place_at(&mut game, (0, 0), (2, y), &mut mined);
    }
    game
}

fn states(logic: &Logic) -> Vec<Vec<CellState>> {
    let (w, h) = logic.get_dim();
    (0..h).map(|y| (0..w).map(|x| logic.cell_state((x, y))).collect()).collect()
}

fn count_mines(game: &Game) -> usize {
    let (w, h) = game.get_dim();
    let mut n = 0;
    for y in 0..h {
        for x in 0..w {
            if game.get_cell_label((x, y)) == CellLabel::Mine {
                n += 1;
            }
        }
    }
    n
}

#[test]
fn fresh_session_is_all_veiled() {
    let logic = Logic::new(Game::new((5, 4), 3).unwrap(), false, false);
    assert_eq!(logic.get_dim(), (5, 4));
    assert_eq!(logic.get_mine_count(), 3);
    assert_eq!(logic.get_flag_count(), 0);
    assert_eq!(logic.outcome(), Outcome::InProgress);
    for row in states(&logic) {
        for s in row {
            assert_eq!(s, CellState::Veiled);
        }
    }
}

#[test]
fn first_reveal_neighbourhood_never_mined() {
    for round in 0..300 {
        let keep = [(0, 0), (2, 2), (4, 4), (4, 0), (1, 3)][round % 5];
        let mut game = Game::new((5, 5), 16).unwrap();
        game.spread_mines(keep);
        for dy in 0..3 {
            for dx in 0..3 {
                let (x, y) = (keep.0 + dx, keep.1 + dy);
                if x >= 1 && y >= 1 && x - 1 < 5 && y - 1 < 5 {
                    assert_ne!(game.get_cell_label((x - 1, y - 1)), CellLabel::Mine);
                }
            }
        }
    }
}

#[test]
fn spread_places_exactly_the_configured_count() {
    for _ in 0..100 {
        let mut game = Game::new((6, 5), 12).unwrap();
        assert_eq!(count_mines(&game), 0);
        game.spread_mines((3, 2));
        assert_eq!(count_mines(&game), 12);
        assert_eq!(game.get_mine_count(), 12);
        // A second spread has nothing left to place.
        game.spread_mines((0, 0));
        assert_eq!(count_mines(&game), 12);
    }
}

#[test]
fn spread_fills_every_allowed_cell_at_the_limit() {
    let mut game = Game::new((3, 4), 3).unwrap();
    game.spread_mines((1, 1));
    for x in 0..3 {
        assert_eq!(game.get_cell_label((x, 3)), CellLabel::Mine);
    }
}

#[test]
fn place_mine_counts_allowed_cells_in_row_major_order() {
    let mut game = Game::new((5, 5), 2).unwrap();
    // With (0, 0) kept free, the allowed cells start (2,0), (3,0), (4,0), (2,1), ...
    assert_eq!(game.place_mine((0, 0), 3), 7);
    assert_eq!(game.get_cell_label((2, 1)), CellLabel::Mine);
    // (2, 1) is taken now, so choice 3 moves on to (3, 1).
    assert_eq!(game.place_mine((0, 0), 3), 8);
    assert_eq!(game.get_cell_label((3, 1)), CellLabel::Mine);
}

#[test]
fn labels_count_mined_neighbours() {
    let game = wall_field();
    assert_eq!(game.get_cell_label((2, 2)), CellLabel::Mine);
    assert_eq!(game.get_cell_label((0, 0)), CellLabel::Safe(0));
    assert_eq!(game.get_cell_label((1, 0)), CellLabel::Safe(2));
    assert_eq!(game.get_cell_label((1, 2)), CellLabel::Safe(3));
    assert_eq!(game.get_cell_label((3, 4)), CellLabel::Safe(2));
    assert_eq!(game.get_cell_label((4, 3)), CellLabel::Safe(0));
}

#[test]
fn configuration_limits() {
    assert!(Game::new((3, 3), 0).is_ok());
    assert_eq!(Game::new((3, 3), 1).err(), Some(ConfigError::TooManyMines));
    assert_eq!(Game::new((2, 5), 0).err(), Some(ConfigError::TooSmall));
    assert_eq!(Game::new((5, 2), 0).err(), Some(ConfigError::TooSmall));
    assert!(Game::new((30, 16), 99).is_ok());
    assert!(Game::new((4, 4), 7).is_ok());
    assert_eq!(Game::new((4, 4), 8).err(), Some(ConfigError::TooManyMines));
}

#[test]
fn new_game_clears_the_field() {
    let mut game = wall_field();
    game.new_game();
    assert_eq!(count_mines(&game), 0);
    assert_eq!(game.get_mine_count(), 5);
    game.spread_mines((4, 4));
    assert_eq!(count_mines(&game), 5);
}

#[test]
fn end_to_end_first_reveal_in_corner() {
    for _ in 0..100 {
        let mut logic = Logic::new(Game::new((5, 5), 1).unwrap(), false, false);
        logic.pressed((0, 0));
        let events = logic.get_ui_updates();
        assert!(events.iter().any(|e| e.pos == (0, 0) && matches!(e.state, CellState::Safe(_))));
        for (x, y) in [(0, 0), (1, 0), (0, 1), (1, 1)] {
            assert!(matches!(logic.cell_state((x, y)), CellState::Safe(_)));
        }
        assert_ne!(logic.outcome(), Outcome::Lost);
    }
}

#[test]
fn cascade_stops_at_numbers_and_flags() {
    let mut logic = Logic::new(wall_field(), false, false);
    logic.toggle_flag((0, 4));
    assert_eq!(logic.get_flag_count(), 1);
    logic.get_ui_updates();
    logic.pressed((0, 0));
    let s = states(&logic);
    for y in 0..4 {
        assert_eq!(s[y][0], CellState::Safe(0));
    }
    assert_eq!(s[4][0], CellState::Flagged);
    assert_eq!(s[0][1], CellState::Safe(2));
    assert_eq!(s[1][1], CellState::Safe(3));
    assert_eq!(s[2][1], CellState::Safe(3));
    assert_eq!(s[3][1], CellState::Safe(3));
    assert_eq!(s[4][1], CellState::Safe(2));
    for y in 0..5 {
        for x in 2..5 {
            assert_eq!(s[y][x], CellState::Veiled);
        }
    }
    assert_eq!(logic.outcome(), Outcome::InProgress);
    let events = logic.get_ui_updates();
    assert_eq!(events.len(), 9);
    assert_eq!(events[0], UIUpdate { pos: (0, 0), state: CellState::Safe(0) });
    // Unveiled and mined cells never outnumber the field.
    let unveiled = s.iter().flatten().filter(|c| matches!(c, CellState::Safe(_))).count();
    assert!(unveiled + logic.get_mine_count() <= 25);
    assert!(logic.get_ui_updates().is_empty());
}

#[test]
fn revealing_the_last_safe_cell_wins_and_flags_the_rest() {
    let mut game = Game::new((5, 5), 1).unwrap();
    game.place_mine((0, 0), 20);
    assert_eq!(game.get_cell_label((4, 4)), CellLabel::Mine);
    let mut logic = Logic::new(game, false, false);
    logic.pressed((0, 0));
    assert_eq!(logic.outcome(), Outcome::Won);
    assert_eq!(logic.cell_state((4, 4)), CellState::Flagged);
    assert_eq!(logic.cell_state((3, 3)), CellState::Safe(1));
    assert_eq!(logic.get_flag_count(), 1);
    let events = logic.get_ui_updates();
    assert_eq!(events.len(), 25);
    assert_eq!(events[24], UIUpdate { pos: (4, 4), state: CellState::Flagged });
    // The session is over: further clicks change nothing.
    logic.toggle_flag((4, 4));
    logic.pressed((4, 4));
    assert_eq!(logic.cell_state((4, 4)), CellState::Flagged);
    assert!(logic.get_ui_updates().is_empty());
}

#[test]
fn revealing_a_mine_loses_and_shows_each_mine_once() {
    let mut logic = Logic::new(wall_field(), false, false);
    logic.pressed((0, 0));
    logic.get_ui_updates();
    logic.pressed((2, 3));
    assert_eq!(logic.outcome(), Outcome::Lost);
    let events = logic.get_ui_updates();
    let expected: Vec<UIUpdate> =
        (0..5).map(|y| UIUpdate { pos: (2, y), state: CellState::Mine }).collect();
    assert_eq!(events, expected);
    logic.pressed((4, 4));
    assert_eq!(logic.cell_state((4, 4)), CellState::Veiled);
    assert!(logic.get_ui_updates().is_empty());
}

#[test]
fn chord_reveals_when_flags_match() {
    let mut logic = Logic::new(wall_field(), false, false);
    logic.pressed((0, 0));
    logic.toggle_flag((2, 0));
    logic.toggle_flag((2, 1));
    logic.get_ui_updates();
    // (1, 0) shows 2 with both mined neighbours flagged; nothing veiled is left around it.
    logic.pressed((1, 0));
    assert!(logic.get_ui_updates().is_empty());
    // Chording (1, 4), which shows 2, with only (2, 3) and (2, 4) around: flag them first.
    logic.toggle_flag((2, 3));
    logic.toggle_flag((2, 4));
    logic.pressed((1, 4));
    assert!(logic.get_ui_updates().len() == 2);
    assert_eq!(logic.outcome(), Outcome::InProgress);
}

/// Column 2 mined but for (2, 4); the fifth mine sits at (3, 4).
fn notched_field() -> Game {
    let mut game = Game::new((5, 5), 5).unwrap();
    let mut mined = Vec::new();
    for p in [(2, 0), (2, 1), (2, 2), (2, 3), (3, 4)] {
        place_at(&mut game, (0, 0), p, &mut mined);
    }
    game
}

#[test]
fn chord_flags_forced_mines() {
    let mut logic = Logic::new(wall_field(), false, false);
    logic.pressed((0, 0));
    logic.get_ui_updates();
    // (1, 0) shows 2 and has exactly two veiled neighbours.
    logic.pressed((1, 0));
    assert_eq!(logic.cell_state((2, 0)), CellState::Flagged);
    assert_eq!(logic.cell_state((2, 1)), CellState::Flagged);
    assert_eq!(logic.cell_state((2, 2)), CellState::Veiled);
    assert_eq!(logic.get_flag_count(), 2);
    assert_eq!(
        logic.get_ui_updates(),
        vec![
            UIUpdate { pos: (2, 0), state: CellState::Flagged },
            UIUpdate { pos: (2, 1), state: CellState::Flagged },
        ]
    );
    assert_eq!(logic.outcome(), Outcome::InProgress);
}

#[test]
fn chord_reveals_when_flags_match_the_number() {
    let mut logic = Logic::new(notched_field(), false, false);
    logic.pressed((0, 0));
    assert_eq!(logic.cell_state((1, 4)), CellState::Safe(1));
    logic.toggle_flag((2, 3));
    logic.get_ui_updates();
    logic.pressed((1, 4));
    assert_eq!(logic.cell_state((2, 4)), CellState::Safe(2));
    assert_eq!(logic.get_ui_updates(), vec![UIUpdate { pos: (2, 4), state: CellState::Safe(2) }]);
    assert_eq!(logic.outcome(), Outcome::InProgress);
}

#[test]
fn chord_with_a_wrong_flag_loses() {
    let mut logic = Logic::new(notched_field(), false, false);
    logic.pressed((0, 0));
    logic.toggle_flag((2, 4));
    logic.get_ui_updates();
    logic.pressed((1, 4));
    assert_eq!(logic.outcome(), Outcome::Lost);
    assert_eq!(logic.cell_state((2, 3)), CellState::Mine);
    let events = logic.get_ui_updates();
    let expected: Vec<UIUpdate> = [(2, 0), (2, 1), (2, 2), (2, 3), (3, 4)]
        .iter()
        .map(|&pos| UIUpdate { pos, state: CellState::Mine })
        .collect();
    assert_eq!(events, expected);
}

#[test]
fn toggling_a_revealed_cell_does_nothing() {
    let mut logic = Logic::new(wall_field(), false, false);
    logic.pressed((0, 0));
    logic.get_ui_updates();
    logic.toggle_flag((1, 0));
    assert_eq!(logic.cell_state((1, 0)), CellState::Safe(2));
    assert_eq!(logic.get_flag_count(), 0);
    assert!(logic.get_ui_updates().is_empty());
}

#[test]
fn toggle_flag_round_trip() {
    let mut logic = Logic::new(Game::new((4, 4), 2).unwrap(), false, false);
    logic.toggle_flag((1, 2));
    assert_eq!(logic.cell_state((1, 2)), CellState::Flagged);
    assert_eq!(logic.get_flag_count(), 1);
    logic.toggle_flag((1, 2));
    assert_eq!(logic.cell_state((1, 2)), CellState::Veiled);
    assert_eq!(logic.get_flag_count(), 0);
    let events = logic.get_ui_updates();
    assert_eq!(
        events,
        vec![
            UIUpdate { pos: (1, 2), state: CellState::Flagged },
            UIUpdate { pos: (1, 2), state: CellState::Veiled },
        ]
    );
    // A flagged cell is not revealed by a click.
    logic.toggle_flag((3, 3));
    logic.pressed((3, 3));
    assert_eq!(logic.cell_state((3, 3)), CellState::Flagged);
}

#[test]
fn auto_assist_flags_forced_mines() {
    let mut logic = Logic::new(wall_field(), true, false);
    logic.pressed((0, 0));
    // Every cell of column 1 is forced: its mined neighbours get flagged.
    for y in 0..5 {
        assert_eq!(logic.cell_state((2, y)), CellState::Flagged);
    }
    assert_eq!(logic.get_flag_count(), 5);
}

#[test]
fn touch_mode_flags_forced_mines_and_reveals_free_cells() {
    let mut logic = Logic::new(wall_field(), false, true);
    logic.pressed((0, 0));
    assert_eq!(logic.cell_state((1, 0)), CellState::Safe(2));
    // (1, 0) shows 2 and has exactly two veiled neighbours: both are forced mines.
    logic.pressed((2, 0));
    assert_eq!(logic.cell_state((2, 0)), CellState::Flagged);
    logic.pressed((2, 1));
    assert_eq!(logic.cell_state((2, 1)), CellState::Flagged);
    // (4, 2) touches no number: it is taken as safe and revealed.
    logic.pressed((4, 2));
    assert_eq!(logic.cell_state((4, 2)), CellState::Safe(0));
    assert_eq!(logic.cell_state((3, 2)), CellState::Safe(3));
    assert_eq!(logic.outcome(), Outcome::Won);
}

#[test]
fn new_game_starts_over() {
    let mut logic = Logic::new(wall_field(), false, false);
    logic.pressed((2, 2));
    assert_eq!(logic.outcome(), Outcome::Lost);
    logic.new_game();
    assert_eq!(logic.outcome(), Outcome::InProgress);
    assert_eq!(logic.get_flag_count(), 0);
    assert!(logic.get_ui_updates().is_empty());
    for row in states(&logic) {
        for s in row {
            assert_eq!(s, CellState::Veiled);
        }
    }
    logic.pressed((2, 2));
    assert!(matches!(logic.cell_state((2, 2)), CellState::Safe(_)));
    assert_ne!(logic.outcome(), Outcome::Lost);
}

#[test]
fn visible_state_of_internal_status() {
    assert_eq!(CellState::from(ICellState::Veiled), CellState::Veiled);
    assert_eq!(CellState::from(ICellState::Flagged), CellState::Flagged);
    assert_eq!(CellState::from(ICellState::Mine), CellState::Mine);
    assert_eq!(CellState::from(ICellState::Safe(4)), CellState::Safe(4));
}

#[test]
fn board_counters_follow_transitions() {
    let mut b = GameState::new((4, 3), 2);
    assert_eq!(b.get_dim(), (4, 3));
    b.set((1, 1), ICellState::Flagged);
    b.set((1, 1), ICellState::Flagged);
    assert_eq!(b.get_flag_count(), 1);
    b.set((2, 1), ICellState::Safe(3));
    b.set((3, 1), ICellState::DefinitelySafe);
    assert_eq!(b.get_unveiled_count(), 2);
    b.set((1, 1), ICellState::Veiled);
    assert_eq!(b.get_flag_count(), 0);
    b.set((0, 0), ICellState::Mine);
    assert_eq!(b.get_unveiled_count(), 2);
    assert_eq!(b.get((2, 1)), ICellState::Safe(3));
    assert!(b.sanity_check());
    b.clear();
    assert_eq!(b.get_unveiled_count(), 0);
    assert_eq!(b.get((0, 0)), ICellState::Veiled);
}

#[test]
fn sanity_check_catches_both_invariants() {
    let mut b = GameState::new((3, 3), 1);
    b.set((0, 0), ICellState::Flagged);
    assert!(b.sanity_check());
    b.set((1, 0), ICellState::Flagged);
    assert!(!b.sanity_check());
    let mut c = GameState::new((3, 3), 1);
    for i in 0..8 {
        c.set((i % 3, i / 3), ICellState::Safe(0));
    }
    assert!(c.sanity_check());
    c.set((2, 2), ICellState::DefinitelySafe);
    assert!(!c.sanity_check());
}

/// A 4x4 board where (1, 1) shows `n` and the given cells of its window are revealed.
fn board_around(n: usize, revealed: &[(usize, usize)], flagged: &[(usize, usize)]) -> GameState {
    let mut b = GameState::new((4, 4), 3);
    b.set((1, 1), ICellState::Safe(n));
    for &p in revealed {
        b.set(p, ICellState::Safe(1));
    }
    for &p in flagged {
        b.set(p, ICellState::Flagged);
    }
    b
}

#[test]
fn classification_table() {
    let b = board_around(1, &[], &[(0, 0)]);
    assert_eq!(b.safe_cell_environment((1, 1)), CellEnvironment::AllSafe);
    let b = board_around(1, &[(0, 0), (1, 0), (2, 0), (0, 1), (2, 1), (0, 2), (1, 2)], &[]);
    assert_eq!(b.safe_cell_environment((1, 1)), CellEnvironment::AllMines);
    let b = board_around(1, &[], &[(0, 0), (1, 0)]);
    assert_eq!(b.safe_cell_environment((1, 1)), CellEnvironment::Impossible);
    let b = board_around(2, &[(0, 0), (1, 0), (2, 0), (0, 1), (2, 1), (0, 2), (1, 2)], &[]);
    assert_eq!(b.safe_cell_environment((1, 1)), CellEnvironment::Impossible);
    let b = board_around(2, &[], &[]);
    assert_eq!(b.safe_cell_environment((1, 1)), CellEnvironment::Unsure);
    assert_eq!(b.safe_cell_environment((3, 3)), CellEnvironment::Unsure);
}

/// A 4x4 board over mines at (0, 2), (2, 2) and (3, 0) whose two top rows are
/// revealed with their true numbers, (3, 0) excepted.
fn half_revealed() -> GameState {
    let mines = [(0usize, 2usize), (2, 2), (3, 0)];
    let mut b = GameState::new((4, 4), 3);
    for y in 0..2usize {
        for x in 0..4usize {
            if (x, y) == (3, 0) {
                continue;
            }
            let n = mines
                .iter()
                .filter(|&&(mx, my)| (mx, my) != (x, y) && mx + 1 >= x && mx <= x + 1 && my + 1 >= y && my <= y + 1)
                .count();
            b.set((x, y), ICellState::Safe(n));
        }
    }
    b
}

#[test]
fn speculation_finds_forced_mines() {
    let b = half_revealed();
    assert_eq!(b.get((2, 0)), ICellState::Safe(1));
    assert_eq!(b.get((1, 1)), ICellState::Safe(2));
    // (2, 0) shows 1 and (3, 0) is its only veiled neighbour.
    assert!(b.is_definitely_mined((3, 0)));
    // Supposing (0, 2) safe forces (1, 2) and (2, 2), and then too many mines near (2, 1).
    assert!(b.is_definitely_mined((0, 2)));
    // (1, 2) can be safe; (1, 3) touches no number.
    assert!(!b.is_definitely_mined((1, 2)));
    assert!(!b.is_definitely_mined((1, 3)));
    // The board itself is untouched.
    assert_eq!(b.get((3, 0)), ICellState::Veiled);
    assert_eq!(b.get_flag_count(), 0);
}

#[test]
fn propagation_marks_and_detects_contradictions() {
    let mut b = half_revealed();
    b.set((1, 2), ICellState::DefinitelySafe);
    assert!(b.environment_propagate((1, 2)));
    assert_eq!(b.get((0, 2)), ICellState::Flagged);
    assert_eq!(b.get((2, 2)), ICellState::Flagged);
    assert_eq!(b.get_flag_count(), 2);
    let mut c = half_revealed();
    c.set((3, 0), ICellState::DefinitelySafe);
    assert!(!c.environment_propagate((3, 0)));
}

#[test]
fn snapshot_is_independent() {
    let b = board_around(1, &[], &[]);
    let mut s = b.snapshot();
    s.set((3, 3), ICellState::Flagged);
    assert_eq!(b.get((3, 3)), ICellState::Veiled);
    assert_eq!(s.get((3, 3)), ICellState::Flagged);
    assert_eq!(b.get_flag_count(), 0);
}

#[test]
fn window_cells_stay_on_the_board() {
    let b = GameState::new((3, 3), 0);
    assert_eq!(b.window_cell((0, 0), 0), None);
    assert_eq!(b.window_cell((0, 0), 4), Some((0, 0)));
    assert_eq!(b.window_cell((0, 0), 8), Some((1, 1)));
    assert_eq!(b.window_cell((2, 2), 8), None);
    assert_eq!(b.window_cell((1, 1), 5), Some((2, 1)));
}
