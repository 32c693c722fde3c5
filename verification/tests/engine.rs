//! Scenario tests for the Go rules engine: coordinate mapping, capture
//! resolution, suicide and ko legality, and turn bookkeeping.

use go_engine::game::{GoGame, Move, MoveError};
use go_engine::player::Player;
use go_engine::position::GoPosition;

/// Builds a position and drops stones on it without legality checks.
fn place(pos: &mut GoPosition, stones: &[(usize, usize, Player)]) {
    for &(x, y, p) in stones {
        pos.process_move(x, y, p);
    }
}

#[test]
fn coordinate_round_trip_9x9() {
    let pos = GoPosition::new(9);
    for x in 0..9usize {
        for y in 0..9usize {
            let i = pos.coord_to_index(x, y);
            assert_eq!(pos.index_to_coord(i), (x, y));
        }
    }
}

#[test]
fn coordinate_round_trip_19x19() {
    let pos = GoPosition::new(19);
    assert_eq!(pos.coord_to_index(0, 0), 0);
    assert_eq!(pos.coord_to_index(3, 2), 2 * 19 + 3);
    assert_eq!(pos.index_to_coord(2 * 19 + 3), (3, 2));
    assert_eq!(pos.index_to_coord(19 * 19 - 1), (18, 18));
}

#[test]
fn surrounding_indices_interior_edge_corner() {
    let pos = GoPosition::new(5);
    let interior = pos.get_surrounding_valid_indicies(pos.coord_to_index(2, 2));
    assert_eq!(interior.len(), 4);
    assert!(interior.contains(&pos.coord_to_index(1, 2)));
    assert!(interior.contains(&pos.coord_to_index(3, 2)));
    assert!(interior.contains(&pos.coord_to_index(2, 1)));
    assert!(interior.contains(&pos.coord_to_index(2, 3)));
    let edge = pos.get_surrounding_valid_indicies(pos.coord_to_index(2, 0));
    assert_eq!(edge.len(), 3);
    let corner = pos.get_surrounding_valid_indicies(pos.coord_to_index(0, 0));
    assert_eq!(corner.len(), 2);
    assert!(corner.contains(&pos.coord_to_index(1, 0)));
    assert!(corner.contains(&pos.coord_to_index(0, 1)));
}

#[test]
fn capture_symmetry_interior_stone() {
    let mut pos = GoPosition::new(5);
    place(
        &mut pos,
        &[
            (1, 2, Player::Black),
            (3, 2, Player::Black),
            (2, 1, Player::Black),
            (2, 3, Player::Black),
            (2, 2, Player::White),
        ],
    );
    let target = pos.coord_to_index(2, 2);
    let captured = pos.check_for_capture(target);
    assert_eq!(captured, vec![target]);
}

#[test]
fn capture_symmetry_corner_stone() {
    let mut pos = GoPosition::new(5);
    place(
        &mut pos,
        &[(1, 0, Player::Black), (0, 1, Player::Black), (0, 0, Player::White)],
    );
    let target = pos.coord_to_index(0, 0);
    assert_eq!(pos.check_for_capture(target), vec![target]);
}

#[test]
fn group_with_liberty_is_not_captured() {
    let mut pos = GoPosition::new(5);
    place(
        &mut pos,
        &[(1, 2, Player::Black), (3, 2, Player::Black), (2, 1, Player::Black), (2, 2, Player::White)],
    );
    let target = pos.coord_to_index(2, 2);
    assert!(pos.check_for_capture(target).is_empty());
    let empty_cell = pos.coord_to_index(4, 4);
    assert!(pos.check_for_capture(empty_cell).is_empty());
}

#[test]
fn suicide_rejected_on_5x5() {
    let mut pos = GoPosition::new(5);
    place(
        &mut pos,
        &[
            (1, 2, Player::White),
            (3, 2, Player::White),
            (2, 1, Player::White),
            (2, 3, Player::White),
        ],
    );
    assert!(!pos.is_valid_move(2, 2, Player::Black));
    assert!(pos.is_valid_move(2, 2, Player::White));
    assert!(pos.is_valid_move(0, 0, Player::Black));
}

#[test]
fn move_validation_basics() {
    let mut pos = GoPosition::new(5);
    assert!(!pos.is_valid_move(5, 0, Player::Black));
    assert!(!pos.is_valid_move(0, 7, Player::White));
    assert!(!pos.is_valid_move(1, 1, Player::Empty));
    assert!(pos.is_valid_move(1, 1, Player::Black));
    place(&mut pos, &[(1, 1, Player::White)]);
    assert!(!pos.is_valid_move(1, 1, Player::Black));
}

#[test]
fn lone_stone_on_1x1_board_is_suicide() {
    let mut pos = GoPosition::new(1);
    assert!(!pos.is_valid_move(0, 0, Player::Black));
}

#[test]
fn ko_recapture_rejected_then_allowed() {
    let mut pos = GoPosition::new(5);
    // The minimal ko shape around (1, 1) and (2, 1):
    //   . B W .
    //   B W . W
    //   . B W .
    place(
        &mut pos,
        &[
            (1, 1, Player::White),
            (1, 0, Player::Black),
            (0, 1, Player::Black),
            (1, 2, Player::Black),
            (2, 0, Player::White),
            (3, 1, Player::White),
            (2, 2, Player::White),
        ],
    );
    // Black captures the single white stone at (1, 1) by playing (2, 1).
    assert!(pos.is_valid_move(2, 1, Player::Black));
    pos.process_move(2, 1, Player::Black);
    let ko_point = pos.coord_to_index(1, 1);
    assert_eq!(pos.position()[ko_point], Player::Empty);
    // Immediate single-stone recapture at the ko point is rejected...
    assert!(!pos.is_valid_move(1, 1, Player::White));
    // ...while an ordinary move elsewhere is fine,
    assert!(pos.is_valid_move(4, 4, Player::White));
    // and after an intervening move the recapture is accepted.
    pos.process_move(4, 4, Player::White);
    assert!(pos.is_valid_move(1, 1, Player::White));
}

#[test]
fn multi_stone_capture_sets_no_ko() {
    let mut pos = GoPosition::new(5);
    place(
        &mut pos,
        &[
            (0, 0, Player::Black),
            (1, 0, Player::Black),
            (2, 0, Player::White),
            (0, 1, Player::White),
        ],
    );
    pos.process_move(1, 1, Player::White);
    assert_eq!(pos.position()[pos.coord_to_index(0, 0)], Player::Empty);
    assert_eq!(pos.position()[pos.coord_to_index(1, 0)], Player::Empty);
    // No ko arises from a two-stone capture: replaying into the cleared
    // area at once is allowed.
    assert!(pos.is_valid_move(0, 0, Player::Black));
    assert!(pos.is_valid_move(1, 0, Player::Black));
}

#[test]
fn ko_through_game_plays() {
    let mut game = GoGame::new(5);
    assert_eq!(game.play_move(1, 0), Ok(())); // Black
    assert_eq!(game.play_move(2, 0), Ok(())); // White
    assert_eq!(game.play_move(0, 1), Ok(())); // Black
    assert_eq!(game.play_move(3, 1), Ok(())); // White
    assert_eq!(game.play_move(1, 2), Ok(())); // Black
    assert_eq!(game.play_move(2, 2), Ok(())); // White
    game.pass(); // Black
    assert_eq!(game.play_move(1, 1), Ok(())); // White takes the shape's eye
    assert_eq!(game.play_move(2, 1), Ok(())); // Black captures it
    assert_eq!(game.position()[game.coord_to_index(1, 1)], Player::Empty);
    // White may not recapture the single stone at once...
    assert!(!game.is_valid_move(1, 1, Player::White));
    assert_eq!(game.play_move(4, 4), Ok(())); // White, elsewhere
    game.pass(); // Black
    // ...but may after the intervening move.
    assert!(game.is_valid_move(1, 1, Player::White));
}

#[test]
fn turn_cycling() {
    let mut game = GoGame::new(9);
    assert_eq!(game.next_player(), Player::Black);
    assert_eq!(game.first_player(), Player::Black);
    assert_eq!(game.turn(), 0);
    assert_eq!(game.half_turn(), 0);

    assert_eq!(game.play_move(0, 0), Ok(()));
    assert_eq!(game.next_player(), Player::White);
    assert_eq!(game.turn(), 1);
    assert_eq!(game.half_turn(), 1);

    assert_eq!(game.play_move(1, 0), Ok(()));
    assert_eq!(game.next_player(), Player::Black);
    assert_eq!(game.turn(), 1);
    assert_eq!(game.half_turn(), 2);

    game.pass();
    assert_eq!(game.next_player(), Player::White);
    assert_eq!(game.turn(), 2);
    assert_eq!(game.half_turn(), 3);

    game.pass();
    assert_eq!(game.next_player(), Player::Black);
    assert_eq!(game.turn(), 2);
    assert_eq!(game.half_turn(), 4);
}

#[test]
fn rejected_moves_leave_state_untouched() {
    let mut game = GoGame::new(9);
    assert_eq!(game.play_move(0, 0), Ok(()));
    let half_before = game.half_turn();
    let turn_before = game.turn();
    let next_before = game.next_player();

    assert_eq!(game.play_move(9, 0), Err(MoveError::OutOfBounds));
    assert_eq!(game.play_move(0, 9), Err(MoveError::OutOfBounds));
    assert_eq!(game.play_move(0, 0), Err(MoveError::Occupied));

    assert_eq!(game.half_turn(), half_before);
    assert_eq!(game.turn(), turn_before);
    assert_eq!(game.next_player(), next_before);
    assert_eq!(game.move_history().len(), half_before);
}

#[test]
fn end_to_end_corner_capture_9x9() {
    let mut game = GoGame::new(9);
    assert_eq!(game.play_move(0, 0), Ok(())); // Black
    assert_eq!(game.play_move(1, 0), Ok(())); // White
    assert_eq!(game.play_move(0, 1), Ok(())); // Black
    assert_eq!(game.play_move(1, 1), Ok(())); // White
    // The black corner group still breathes at (0, 2), so it stays.
    assert_eq!(game.position()[game.coord_to_index(0, 0)], Player::Black);
    assert_eq!(game.position()[game.coord_to_index(0, 1)], Player::Black);
    assert_eq!(game.play_move(5, 5), Ok(())); // Black, elsewhere
    assert_eq!(game.play_move(0, 2), Ok(())); // White closes the last liberty
    let cells = game.position();
    assert_eq!(cells[game.coord_to_index(0, 0)], Player::Empty);
    assert_eq!(cells[game.coord_to_index(0, 1)], Player::Empty);
    assert_eq!(cells[game.coord_to_index(1, 0)], Player::White);
    assert_eq!(cells[game.coord_to_index(1, 1)], Player::White);
    assert_eq!(cells[game.coord_to_index(0, 2)], Player::White);
}

#[test]
fn history_records_each_ply() {
    let mut game = GoGame::new(5);
    assert_eq!(game.play_move(2, 2), Ok(()));
    game.pass();
    assert_eq!(game.move_history().len(), 2);
    assert_eq!(
        game.move_history()[0],
        Move::Play { player: Player::Black, x: 2, y: 2, half_turn: 0 }
    );
    assert_eq!(game.move_history()[1], Move::Pass { player: Player::White, half_turn: 1 });
}

#[test]
fn fresh_game_observable_state() {
    let game = GoGame::new(5);
    assert_eq!(game.board_size(), 5);
    assert_eq!(game.position().len(), 25);
    assert!(game.position().iter().all(|&c| c == Player::Empty));
    assert_eq!(game.move_history().len(), 0);
}

#[test]
fn default_game_is_19x19() {
    let game = GoGame::default();
    assert_eq!(game.board_size(), 19);
    assert_eq!(game.next_player(), Player::Black);
    assert_eq!(Player::default(), Player::Empty);
}

#[test]
fn game_delegates_legality_preview() {
    let mut game = GoGame::new(5);
    assert!(game.is_valid_move(2, 2, Player::Black));
    assert!(!game.is_valid_move(5, 5, Player::Black));
    assert_eq!(game.play_move(2, 2), Ok(()));
    assert!(!game.is_valid_move(2, 2, Player::White));
}
