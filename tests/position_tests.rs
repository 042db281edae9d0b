use gto_poker::game::GameError;
use gto_poker::position::{first_to_act, next_button, role_of_seat, Position};

#[test]
fn layouts_by_seat_count() {
    assert_eq!(Position::positions_for_players(2), vec![Position::Button, Position::BigBlind]);
    assert_eq!(
        Position::positions_for_players(5),
        vec![Position::Button, Position::SmallBlind, Position::BigBlind, Position::UTG, Position::CO]
    );
    assert_eq!(Position::positions_for_players(8), Position::all_positions());
    assert!(Position::positions_for_players(1).is_empty());
    assert!(Position::positions_for_players(9).is_empty());
}

#[test]
fn next_position_wraps_round() {
    assert_eq!(Position::Button.next_position(3), Position::SmallBlind);
    assert_eq!(Position::BigBlind.next_position(3), Position::Button);
    assert_eq!(Position::BigBlind.next_position(2), Position::Button);
    // A role not in the layout moves to the second role.
    assert_eq!(Position::MP.next_position(4), Position::SmallBlind);
}

#[test]
fn blinds_and_distances() {
    assert!(Position::SmallBlind.is_blind());
    assert!(Position::BigBlind.is_blind());
    assert!(!Position::Button.is_blind());
    assert_eq!(Position::Button.distance_from_btn(), 0);
    assert_eq!(Position::CO.distance_from_btn(), 7);
}

#[test]
fn roles_follow_the_button() {
    assert_eq!(role_of_seat(2, 2, 4), Position::Button);
    assert_eq!(role_of_seat(3, 2, 4), Position::SmallBlind);
    assert_eq!(role_of_seat(0, 2, 4), Position::BigBlind);
    assert_eq!(role_of_seat(1, 2, 4), Position::UTG);
    assert_eq!(next_button(3, 4), 0);
}

#[test]
fn first_to_act_by_street() {
    assert_eq!(first_to_act(0, 6, true), 3);
    assert_eq!(first_to_act(4, 6, true), 1);
    assert_eq!(first_to_act(4, 6, false), 5);
    assert_eq!(first_to_act(1, 2, true), 0);
    assert_eq!(first_to_act(1, 2, false), 0);
}

#[test]
fn seat_count_outside_two_to_eight_fails() {
    assert_eq!(Position::positions_for_seat_count(1), Err(GameError::InvalidPlayerCount));
    assert_eq!(Position::positions_for_seat_count(9), Err(GameError::InvalidPlayerCount));
    assert_eq!(Position::positions_for_seat_count(3).unwrap(), Position::positions_for_players(3));
}
