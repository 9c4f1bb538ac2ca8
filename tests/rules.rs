use yinsh::actions::{Action, Command, MoveRing, PlaceMarker, PlaceRing, RemoveRing, RemoveRun};
use yinsh::board::Board;
use yinsh::coord::{is_on_board, HexCoord};
use yinsh::entities::{Piece, Player};
use yinsh::game::{Game, UiAction};
use yinsh::state::{same_points, Phase, State, StateChange};

fn c(q: i32, r: i32) -> HexCoord {
    HexCoord::new(q, r)
}

fn line(q0: i32, q1: i32) -> Vec<HexCoord> {
    (q0..=q1).map(|q| c(q, 0)).collect()
}

#[test]
fn board_has_eighty_five_points() {
    let board = Board::new();
    assert_eq!(board.board_coords().len(), 85);
    assert_eq!(board.free_fields().len(), 85);
    assert_eq!(board.get_radius_squared(), 21);
    assert!(c(-1, 4).is_valid());
    assert!(c(4, -1).is_valid());
    assert!(!c(5, 0).is_valid());
    assert!(!c(2, -4).is_valid());
    assert!(is_on_board(-5, -4));
    assert!(!is_on_board(i32::MAX as i64, 0));
}

#[test]
fn free_field_iff_unoccupied_and_valid() {
    let mut board = Board::new();
    board.place_unchecked(&Piece::Ring(Player::Black), &c(1, 1));
    for p in [c(0, 0), c(1, 1), c(5, 0), c(-1, 4), c(100, -100)] {
        assert_eq!(board.free_board_field(&p), board.occupied(&p).is_none() && p.is_valid());
    }
    assert!(!board.free_board_field(&c(1, 1)));
    assert!(board.free_board_field(&c(0, 0)));
    assert!(!board.free_board_field(&c(5, 0)));
}

#[test]
fn placing_off_the_board_stores_nothing() {
    let mut board = Board::new();
    board.place_unchecked(&Piece::Marker(Player::White), &c(5, 5));
    assert!(board.occupied(&c(5, 5)).is_none());
    assert_eq!(board.markers().len(), 0);
    board.place_unchecked(&Piece::Marker(Player::White), &c(0, 0));
    assert_eq!(board.occupied(&c(0, 0)), Some(Piece::Marker(Player::White)));
    board.remove(&c(0, 0));
    assert!(board.occupied(&c(0, 0)).is_none());
}

#[test]
fn enumerations_by_kind_and_owner() {
    let mut board = Board::new();
    board.place_unchecked(&Piece::Ring(Player::White), &c(0, 0));
    board.place_unchecked(&Piece::Ring(Player::Black), &c(1, 0));
    board.place_unchecked(&Piece::Marker(Player::White), &c(2, 0));
    board.place_unchecked(&Piece::Marker(Player::White), &c(3, 0));
    assert_eq!(board.rings().len(), 2);
    assert_eq!(board.markers().len(), 2);
    assert_eq!(board.player_rings(Player::White), vec![c(0, 0)]);
    assert_eq!(board.player_rings(Player::Black), vec![c(1, 0)]);
    assert_eq!(board.player_markers(Player::White).len(), 2);
    assert_eq!(board.player_markers(Player::Black).len(), 0);
    assert!(board.player_marker_at(&c(2, 0), &Player::White));
    assert!(!board.player_marker_at(&c(2, 0), &Player::Black));
    assert!(board.player_ring_at(&c(1, 0), &Player::Black));
    assert!(board.rings().contains(&(c(0, 0), Player::White)));
    assert!(board.markers().contains(&(c(3, 0), Player::White)));
}

#[test]
fn ring_targets_jump_one_block_and_stop_at_rings() {
    let mut board = Board::new();
    board.place_unchecked(&Piece::Marker(Player::White), &c(2, 0));
    board.place_unchecked(&Piece::Marker(Player::Black), &c(3, 0));
    board.place_unchecked(&Piece::Ring(Player::Black), &c(0, 1));
    board.place_unchecked(&Piece::Marker(Player::Black), &c(-1, 0));
    board.place_unchecked(&Piece::Marker(Player::White), &c(-3, 0));
    let targets = board.ring_targets(&c(0, 0));
    // along (1, 0): one empty point, a block of two markers, then one more empty point
    assert!(targets.contains(&c(1, 0)));
    assert!(targets.contains(&c(4, 0)));
    assert!(!targets.contains(&c(2, 0)));
    assert!(!targets.contains(&c(3, 0)));
    assert!(!targets.contains(&c(5, 0)));
    // along (0, 1): a ring right away
    assert!(!targets.contains(&c(0, 1)));
    assert!(!targets.contains(&c(0, 2)));
    // along (-1, 0): a marker, one empty point, then a second block
    assert!(!targets.contains(&c(-1, 0)));
    assert!(targets.contains(&c(-2, 0)));
    assert!(!targets.contains(&c(-3, 0)));
    assert!(!targets.contains(&c(-4, 0)));
    for t in targets.iter() {
        assert!(board.occupied(t).is_none());
        assert!(t.is_valid());
    }
}

#[test]
fn ring_targets_continue_into_empty_points_after_a_jump() {
    let mut board = Board::new();
    board.place_unchecked(&Piece::Marker(Player::White), &c(-3, 0));
    let targets = board.ring_targets(&c(-4, 0));
    for q in -2..=4 {
        assert!(targets.contains(&c(q, 0)));
    }
    assert!(!targets.contains(&c(-3, 0)));
}

#[test]
fn ring_targets_on_an_empty_board() {
    let board = Board::new();
    let targets = board.ring_targets(&c(0, 0));
    // four points in each of the six directions
    assert_eq!(targets.len(), 24);
    let targets = board.ring_targets(&c(50, 50));
    assert!(targets.is_empty());
}

#[test]
fn flip_between_turns_over_only_the_markers_between() {
    let mut board = Board::new();
    board.place_unchecked(&Piece::Marker(Player::White), &c(0, 0));
    board.place_unchecked(&Piece::Marker(Player::Black), &c(1, 1));
    board.place_unchecked(&Piece::Marker(Player::Black), &c(3, 3));
    board.place_unchecked(&Piece::Marker(Player::Black), &c(1, 0));
    let flipped = board.flip_between(&c(-1, -1), &c(3, 3));
    assert_eq!(flipped.len(), 2);
    assert!(board.player_marker_at(&c(0, 0), &Player::Black));
    assert!(board.player_marker_at(&c(1, 1), &Player::White));
    assert!(board.player_marker_at(&c(3, 3), &Player::Black));
    assert!(board.player_marker_at(&c(1, 0), &Player::Black));
    let flipped = board.flip_between(&c(0, 0), &c(1, 2));
    assert!(flipped.is_empty());
}

#[test]
fn five_in_a_row_is_exactly_one_run() {
    let mut board = Board::new();
    for p in line(-2, 2) {
        board.place_unchecked(&Piece::Marker(Player::White), &p);
    }
    let runs = board.runs(&Player::White);
    assert_eq!(runs, vec![line(-2, 2)]);
    assert!(board.runs(&Player::Black).is_empty());
}

#[test]
fn four_in_a_row_is_no_run() {
    let mut board = Board::new();
    for p in line(-2, 1) {
        board.place_unchecked(&Piece::Marker(Player::White), &p);
    }
    board.place_unchecked(&Piece::Marker(Player::Black), &c(2, 0));
    assert!(board.runs(&Player::White).is_empty());
    assert!(board.runs(&Player::Black).is_empty());
}

#[test]
fn six_in_a_row_is_no_run() {
    let mut board = Board::new();
    for p in line(-3, 2) {
        board.place_unchecked(&Piece::Marker(Player::White), &p);
    }
    assert!(board.runs(&Player::White).is_empty());
}

#[test]
fn runs_along_every_axis() {
    let mut board = Board::new();
    for k in -2..=2 {
        board.place_unchecked(&Piece::Marker(Player::Black), &c(0, k));
        board.place_unchecked(&Piece::Marker(Player::Black), &c(k + 1, k + 3));
    }
    let runs = board.runs(&Player::Black);
    assert_eq!(runs.len(), 2);
    let vertical: Vec<HexCoord> = (-2..=2).map(|k| c(0, k)).collect();
    let diagonal: Vec<HexCoord> = (-2..=2).map(|k| c(k + 1, k + 3)).collect();
    assert!(runs.contains(&vertical));
    assert!(runs.contains(&diagonal));
}

#[test]
fn tenth_ring_starts_the_marker_phase() {
    let mut game = State::new();
    let points: Vec<HexCoord> = (-4..=4).map(|q| c(q, 0)).chain([c(0, 1)]).collect();
    for (i, p) in points.iter().enumerate() {
        assert_eq!(game.current_phase, Phase::PlaceRing);
        assert!(game.execute_for_coord(p));
        assert_eq!(game.board.rings().len(), i + 1);
    }
    assert_eq!(game.current_phase, Phase::PlaceMarker);
    assert_eq!(game.board.player_rings(Player::White).len(), 5);
    assert_eq!(game.board.player_rings(Player::Black).len(), 5);
    assert_eq!(game.current_player, Player::White);
    assert!(game.undo());
    assert_eq!(game.current_phase, Phase::PlaceRing);
    assert_eq!(game.current_player, Player::Black);
    assert_eq!(game.board.rings().len(), 9);
}

#[test]
fn slide_turns_over_the_jumped_markers() {
    let mut board = Board::new();
    board.place_unchecked(&Piece::Marker(Player::Black), &c(0, 0));
    board.place_unchecked(&Piece::Marker(Player::White), &c(1, 0));
    let mut game = State::from_board(board);
    game.set_phase(Phase::MoveRing(c(-2, 0)));
    assert!(game.execute_for_coord(&c(2, 0)));
    assert!(game.board.player_marker_at(&c(0, 0), &Player::White));
    assert!(game.board.player_marker_at(&c(1, 0), &Player::Black));
    assert!(game.board.player_ring_at(&c(2, 0), &Player::White));
    let log = game.last_state_change().clone();
    assert_eq!(log[0], StateChange::RingMoved(Player::White, c(-2, 0), c(2, 0)));
    assert_eq!(log.len(), 3);
    assert!(log.contains(&StateChange::MarkerFlipped(c(0, 0))));
    assert!(log.contains(&StateChange::MarkerFlipped(c(1, 0))));
    assert!(game.undo());
    assert!(game.board.player_marker_at(&c(0, 0), &Player::Black));
    assert!(game.board.player_marker_at(&c(1, 0), &Player::White));
    assert!(game.board.occupied(&c(2, 0)).is_none());
    assert_eq!(game.current_phase, Phase::MoveRing(c(-2, 0)));
    assert_eq!(game.current_player, Player::White);
}

#[test]
fn clearing_a_run_and_undoing_it() {
    let mut board = Board::new();
    for p in line(-2, 1) {
        board.place_unchecked(&Piece::Marker(Player::White), &p);
    }
    board.place_unchecked(&Piece::Marker(Player::White), &c(2, 1));
    board.place_unchecked(&Piece::Ring(Player::White), &c(2, 0));
    let mut game = State::from_board(board);
    game.set_phase(Phase::PlaceMarker);
    assert!(game.execute_for_coord(&c(2, 0)));
    assert_eq!(game.current_phase, Phase::MoveRing(c(2, 0)));
    assert!(game.execute_for_coord(&c(2, 2)));
    assert_eq!(game.current_phase, Phase::RemoveRun);
    assert_eq!(game.current_player, Player::White);
    assert!(game.has_run(&Player::White));
    assert_eq!(game.get_run(&Player::White, 0), Some(&line(-2, 2)));
    let moves = game.legal_moves();
    assert_eq!(moves.len(), 1);
    assert_eq!(moves[0].coord(), c(-2, 0));
    assert!(game.execute_for_coord(&c(-2, 0)));
    for p in line(-2, 2) {
        assert!(game.board.occupied(&p).is_none());
    }
    assert_eq!(game.current_phase, Phase::RemoveRing);
    assert!(!game.has_run(&Player::White));
    assert!(game.undo());
    for p in line(-2, 2) {
        assert!(game.board.player_marker_at(&p, &Player::White));
    }
    assert_eq!(game.current_phase, Phase::RemoveRun);
    assert!(game.has_run(&Player::White));
}

#[test]
fn third_removed_ring_wins_despite_pending_runs() {
    let mut board = Board::new();
    board.place_unchecked(&Piece::Ring(Player::Black), &c(3, 3));
    for p in line(-2, 2) {
        board.place_unchecked(&Piece::Marker(Player::Black), &p);
    }
    let mut game = State::from_board(board);
    game.current_player = Player::Black;
    game.points_black = 2;
    game.set_phase(Phase::RemoveRing);
    assert!(game.has_run(&Player::Black));
    assert!(game.execute_for_coord(&c(3, 3)));
    assert_eq!(game.get_score(&Player::Black), 3);
    assert_eq!(game.current_phase, Phase::PlayerWon(Player::Black));
    assert_eq!(game.won_by(), Some(Player::Black));
    assert!(game.legal_moves().is_empty());
    assert!(!game.execute_for_coord(&c(0, 0)));
    assert!(game.undo());
    assert_eq!(game.get_score(&Player::Black), 2);
    assert_eq!(game.current_phase, Phase::RemoveRing);
    assert_eq!(game.won_by(), None);
    assert!(game.board.player_ring_at(&c(3, 3), &Player::Black));
}

#[test]
fn first_removed_ring_scores_one() {
    let mut board = Board::new();
    board.place_unchecked(&Piece::Ring(Player::White), &c(0, 2));
    let mut game = State::from_board(board);
    game.set_phase(Phase::RemoveRing);
    assert_eq!(game.get_score(&Player::White), 0);
    assert!(game.execute_for_coord(&c(0, 2)));
    assert_eq!(game.get_score(&Player::White), 1);
    assert_eq!(game.current_phase, Phase::PlaceMarker);
    assert_eq!(game.current_player, Player::Black);
    assert_eq!(game.last_state_change(), &vec![StateChange::RingRemoved(Player::White, c(0, 2))]);
    assert!(game.undo());
    assert_eq!(game.get_score(&Player::White), 0);
    assert_eq!(game.current_phase, Phase::RemoveRing);
    assert_eq!(game.current_player, Player::White);
    assert_eq!(game.last_state_change(), &vec![StateChange::RingPlaced(Player::White, c(0, 2))]);
}

#[test]
fn every_command_is_undone_exactly() {
    let mut board = Board::new();
    board.place_unchecked(&Piece::Ring(Player::White), &c(0, 0));
    board.place_unchecked(&Piece::Marker(Player::Black), &c(0, 1));
    let start = State::from_board(board);
    let slide = MoveRing { from: c(-1, 1), to: c(1, 1), player: Player::White };
    let phases = [
        (Phase::PlaceRing, Action::PlaceRing(PlaceRing { pos: c(1, 1) })),
        (Phase::PlaceMarker, Action::PlaceMarker(PlaceMarker { pos: c(0, 0) })),
        (Phase::MoveRing(c(-1, 1)), Action::MoveRing(slide)),
        (Phase::RemoveRing, Action::RemoveRing(RemoveRing { pos: c(0, 0), player: Player::White })),
    ];
    for (phase, action) in phases.iter() {
        let mut game = State::from_board(start.board.clone());
        game.set_phase(*phase);
        assert!(action.is_legal(&game));
        let before = game.board.rings().len() + 10 * game.board.markers().len();
        action.execute(&mut game);
        action.undo(&mut game);
        assert_eq!(game.current_phase, *phase);
        assert_eq!(game.current_player, Player::White);
        assert_eq!(game.points_white, 0);
        assert_eq!(game.points_black, 0);
        assert_eq!(game.board.rings().len() + 10 * game.board.markers().len(), before);
        assert!(game.board.player_ring_at(&c(0, 0), &Player::White));
        assert!(game.board.player_marker_at(&c(0, 1), &Player::Black));
    }
}

#[test]
fn remove_run_needs_a_cached_run() {
    let mut game = State::new();
    game.set_phase(Phase::RemoveRun);
    let action = RemoveRun { run_idx: 0, run: line(-2, 2), pos: c(-2, 0) };
    assert!(!action.is_legal(&game));
    assert!(!game.is_valid_run(&Player::White, &line(-2, 2)));
    assert!(game.get_run(&Player::White, 0).is_none());
}

#[test]
fn legal_moves_by_phase() {
    let mut game = State::new();
    assert_eq!(game.legal_moves().len(), 85);
    game.board.place_unchecked(&Piece::Ring(Player::White), &c(0, 0));
    game.board.place_unchecked(&Piece::Ring(Player::Black), &c(1, 0));
    assert_eq!(game.legal_moves().len(), 83);
    game.set_phase(Phase::PlaceMarker);
    let moves = game.legal_moves();
    assert_eq!(moves.len(), 1);
    assert_eq!(moves[0].coord(), c(0, 0));
    game.set_phase(Phase::RemoveRing);
    assert_eq!(game.legal_moves().len(), 1);
    game.set_phase(Phase::PlayerWon(Player::White));
    assert!(game.legal_moves().is_empty());
}

#[test]
fn illegal_input_changes_nothing() {
    let mut game = State::new();
    assert!(!game.undo());
    assert!(!game.execute_for_coord(&c(5, 0)));
    assert!(game.execute_for_coord(&c(0, 0)));
    assert!(!game.execute_for_coord(&c(0, 0)));
    assert_eq!(game.history.len(), 1);
    assert_eq!(game.current_player, Player::Black);
    assert!(game.at_phase(&Phase::PlaceRing));
}

#[test]
fn score_bookkeeping() {
    let mut game = State::new();
    game.inc_score(&Player::Black);
    game.inc_score(&Player::Black);
    assert_eq!(game.get_score(&Player::Black), 2);
    assert_eq!(game.get_score(&Player::White), 0);
    game.dec_score(&Player::Black);
    assert_eq!(game.get_score(&Player::Black), 1);
    game.next_player();
    assert_eq!(game.current_player, Player::Black);
    assert_eq!(Player::Black.other(), Player::White);
    assert_eq!(Piece::Ring(Player::Black).player(), Player::Black);
}

#[test]
fn points_compare_by_value() {
    assert!(same_points(&line(0, 2), &line(0, 2)));
    assert!(!same_points(&line(0, 2), &line(0, 3)));
    assert!(!same_points(&line(0, 2), &line(1, 3)));
}

#[test]
fn game_dispatches_user_actions() {
    let mut game = Game::new(Player::White, Board::new());
    assert!(game.is_human_turn());
    assert_eq!(game.opponent_player(), Player::Black);
    assert!(game.handle(UiAction::ActionAtCoord(c(0, 0))));
    assert!(!game.is_human_turn());
    assert!(!game.handle(UiAction::Idle));
    assert!(game.handle(UiAction::Undo));
    assert!(game.state.board.occupied(&c(0, 0)).is_none());
    assert!(game.execute_for_coord(&c(1, 0)));
    assert!(game.undo());
    assert!(!game.undo());
}

#[test]
fn two_runs_are_cleared_one_after_the_other() {
    let mut board = Board::new();
    for q in -2..=2 {
        board.place_unchecked(&Piece::Marker(Player::White), &c(q, 0));
        board.place_unchecked(&Piece::Marker(Player::White), &c(q, -2));
    }
    board.place_unchecked(&Piece::Ring(Player::White), &c(3, 3));
    board.place_unchecked(&Piece::Ring(Player::White), &c(0, 3));
    let mut game = State::from_board(board);
    game.set_phase(Phase::RemoveRun);
    assert_eq!(game.legal_moves().len(), 2);
    assert!(game.execute_for_coord(&c(-2, 0)));
    assert_eq!(game.current_phase, Phase::RemoveRing);
    assert!(game.execute_for_coord(&c(3, 3)));
    assert_eq!(game.current_phase, Phase::RemoveRun);
    assert_eq!(game.current_player, Player::White);
    let moves = game.legal_moves();
    assert_eq!(moves.len(), 1);
    assert_eq!(moves[0].coord(), c(-2, -2));
    assert!(game.execute_for_coord(&c(-2, -2)));
    assert!(game.execute_for_coord(&c(0, 3)));
    assert_eq!(game.get_score(&Player::White), 2);
    assert_eq!(game.current_player, Player::Black);
    assert_eq!(game.current_phase, Phase::PlaceMarker);
}

#[test]
fn tick_lets_the_opponent_play_and_waits_while_busy() {
    let mut game = Game::new(Player::Black, Board::new());
    assert!(!game.tick(UiAction::Busy, 0));
    assert_eq!(game.state.history.len(), 0);
    assert!(game.tick(UiAction::Idle, 7));
    assert_eq!(game.state.history.len(), 1);
    assert_eq!(game.state.board.rings().len(), 1);
    assert!(game.is_human_turn());
    assert!(!game.tick(UiAction::Idle, 0));
    // the eighth point of the board, in the order of `legal_moves`
    assert!(game.state.board.player_ring_at(&c(-4, -2), &Player::White));
    assert!(game.tick(UiAction::ActionAtCoord(c(0, 0)), 0));
    assert!(game.state.board.player_ring_at(&c(0, 0), &Player::Black));
    assert!(!game.is_human_turn());
    assert!(game.tick(UiAction::Undo, 0));
    assert_eq!(game.state.history.len(), 3);
    assert!(game.is_human_turn());
    assert!(game.tick(UiAction::Undo, 0));
    assert_eq!(game.state.history.len(), 2);
    assert!(!game.is_human_turn());
}

#[test]
fn play_applies_a_legal_command_and_refuses_an_illegal_one() {
    let mut game = State::new();
    let snapshot = game.clone();
    assert!(!game.play(Action::PlaceMarker(PlaceMarker { pos: c(0, 0) })));
    assert_eq!(game.history.len(), 0);
    assert_eq!(game.current_phase, snapshot.current_phase);
    assert!(game.play(Action::PlaceRing(PlaceRing { pos: c(0, 0) })));
    assert_eq!(game.history.len(), 1);
    assert!(game.board.player_ring_at(&c(0, 0), &Player::White));
    assert_eq!(game.last_state_change(), &vec![StateChange::RingPlaced(Player::White, c(0, 0))]);
    assert!(snapshot.board.occupied(&c(0, 0)).is_none());
}

#[test]
fn legal_moves_offer_each_point_once() {
    let mut game = State::new();
    game.board.place_unchecked(&Piece::Ring(Player::White), &c(0, 0));
    let moves = game.legal_moves();
    let mut anchors: Vec<HexCoord> = moves.iter().map(|m| m.coord()).collect();
    let n = anchors.len();
    anchors.sort_by_key(|p| (p.q, p.r));
    anchors.dedup();
    assert_eq!(anchors.len(), n);
    assert_eq!(n, 84);
    game.set_phase(Phase::MoveRing(c(0, 0)));
    let targets = game.board.ring_targets(&c(0, 0));
    let slides: Vec<HexCoord> = game.legal_moves().iter().map(|m| m.coord()).collect();
    assert_eq!(slides, targets);
}

#[test]
fn compute_runs_matches_the_board() {
    let mut game = State::new();
    for p in line(-2, 2) {
        game.board.place_unchecked(&Piece::Marker(Player::Black), &p);
    }
    assert!(!game.has_run(&Player::Black));
    game.compute_runs();
    assert_eq!(game.runs_black, game.board.runs(&Player::Black));
    assert_eq!(game.runs_black, vec![line(-2, 2)]);
    assert!(game.runs_white.is_empty());
}
