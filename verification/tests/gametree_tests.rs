use stones::engine::Board;
use stones::engine::Color;
use stones::gametree::GameTree;
use stones::gametree::Symbol;
use stones::gametree::Turn;
use stones::gametree::TurnResult;

fn square_game() -> GameTree {
    GameTree::new(Board::new(vec![(0, 1), (1, 2), (2, 3), (3, 0)]))
}

fn colors(game: &GameTree) -> Vec<Color> {
    (0..game.board().point_count()).map(|p| game.color_at(p)).collect()
}

const E: Color = Color::Empty;
const B: Color = Color::Black;
const W: Color = Color::White;

#[test]
fn a_new_game_is_empty_with_black_to_play() {
    let game = square_game();
    assert_eq!(game.whose_turn(), B);
    assert_eq!(colors(&game), vec![E, E, E, E]);
    assert_eq!(game.last_turn(), None);
    assert!(!game.game_over());
    assert_eq!(game.node_count(), 1);
    assert_eq!(game.board().point_count(), 4);
    for p in 0..4 {
        assert_eq!(game.symbol_at(p), Symbol::Blank);
        assert!(!game.is_immortal(p));
    }
}

#[test]
fn colors_take_turns() {
    let mut game = square_game();
    assert_eq!(game.turn(W, Turn::Play(0)), TurnResult::FailNotYourTurn);
    assert_eq!(game.turn(E, Turn::Pass), TurnResult::FailNotYourTurn);
    assert_eq!(game.node_count(), 1);
    assert_eq!(game.turn(B, Turn::Play(0)), TurnResult::Success);
    assert_eq!(game.whose_turn(), W);
    assert_eq!(game.turn(B, Turn::Play(1)), TurnResult::FailNotYourTurn);
    assert_eq!(game.turn(W, Turn::Play(1)), TurnResult::Success);
    assert_eq!(game.whose_turn(), B);
    assert_eq!(colors(&game), vec![B, W, E, E]);
    assert_eq!(game.last_turn(), Some(Turn::Play(1)));
}

#[test]
fn a_taken_point_cannot_be_played() {
    let mut game = square_game();
    assert_eq!(game.turn(B, Turn::Play(0)), TurnResult::Success);
    assert_eq!(game.turn(W, Turn::Play(0)), TurnResult::FailStoneAlreadyThere);
    assert_eq!(game.whose_turn(), W);
    assert_eq!(game.node_count(), 2);
    assert_eq!(colors(&game), vec![B, E, E, E]);
}

#[test]
fn a_position_of_the_line_cannot_come_back() {
    let mut game = square_game();
    assert_eq!(game.turn(B, Turn::Play(0)), TurnResult::Success);
    assert_eq!(game.turn(W, Turn::Play(1)), TurnResult::Success);
    assert_eq!(game.turn(B, Turn::Play(2)), TurnResult::Success);
    assert_eq!(colors(&game), vec![B, E, B, E]);
    let nodes = game.node_count();
    assert_eq!(game.turn(W, Turn::Play(3)), TurnResult::FailKoRule);
    assert_eq!(game.whose_turn(), W);
    assert_eq!(game.last_turn(), Some(Turn::Play(2)));
    assert_eq!(game.node_count(), nodes);
    assert_eq!(colors(&game), vec![B, E, B, E]);
}

#[test]
fn a_position_of_an_earlier_ply_cannot_come_back() {
    let mut game = GameTree::new(Board::new(vec![(0, 1), (1, 2)]));
    assert_eq!(game.turn(B, Turn::Play(1)), TurnResult::Success);
    assert_eq!(game.turn(W, Turn::Pass), TurnResult::Success);
    assert_eq!(game.turn(B, Turn::Play(0)), TurnResult::Success);
    assert_eq!(game.turn(W, Turn::Play(2)), TurnResult::Success);
    assert_eq!(colors(&game), vec![E, E, W]);
    assert_eq!(game.turn(B, Turn::Play(1)), TurnResult::FailKoRule);
    assert_eq!(game.whose_turn(), B);
}

#[test]
fn two_passes_end_the_game() {
    let mut game = square_game();
    assert_eq!(game.turn(B, Turn::Pass), TurnResult::Success);
    assert!(!game.game_over());
    assert_eq!(game.turn(W, Turn::Pass), TurnResult::SuccessGameOver);
    assert!(game.game_over());
    assert_eq!(game.turn(B, Turn::Pass), TurnResult::FailGameAlreadyOver);
    assert_eq!(game.turn(W, Turn::Pass), TurnResult::FailGameAlreadyOver);
    assert_eq!(game.turn(B, Turn::Play(0)), TurnResult::FailGameAlreadyOver);
    assert_eq!(game.turn(W, Turn::Play(0)), TurnResult::FailGameAlreadyOver);
    assert_eq!(game.node_count(), 3);
}

#[test]
fn passes_with_a_stone_between_them_do_not_end_the_game() {
    let mut game = square_game();
    assert_eq!(game.turn(B, Turn::Pass), TurnResult::Success);
    assert_eq!(game.turn(W, Turn::Play(0)), TurnResult::Success);
    assert_eq!(game.turn(B, Turn::Pass), TurnResult::Success);
    assert!(!game.game_over());
}

#[test]
fn a_turn_made_before_leads_to_the_same_node() {
    let mut game = square_game();
    assert_eq!(game.turn(B, Turn::Play(0)), TurnResult::Success);
    assert_eq!(game.node_count(), 2);
    game.mark(1, Symbol::Circle);
    game.undo();
    assert_eq!(game.turn(B, Turn::Play(0)), TurnResult::Success);
    assert_eq!(game.node_count(), 2);
    assert_eq!(game.symbol_at(1), Symbol::Circle);
    game.undo();
    assert_eq!(game.turn(B, Turn::Play(1)), TurnResult::Success);
    assert_eq!(game.node_count(), 3);
    assert_eq!(game.symbol_at(1), Symbol::Blank);
    game.undo();
    assert_eq!(game.turn(B, Turn::Pass), TurnResult::Success);
    assert_eq!(game.turn(W, Turn::Pass), TurnResult::SuccessGameOver);
    game.undo();
    assert_eq!(game.turn(W, Turn::Pass), TurnResult::SuccessGameOver);
    assert_eq!(game.node_count(), 5);
}

#[test]
fn undo_goes_to_the_parent_and_stops_at_the_root() {
    let mut game = square_game();
    game.undo();
    assert_eq!(game.whose_turn(), B);
    assert_eq!(game.turn(B, Turn::Play(0)), TurnResult::Success);
    assert_eq!(game.turn(W, Turn::Play(1)), TurnResult::Success);
    game.undo();
    assert_eq!(colors(&game), vec![B, E, E, E]);
    assert_eq!(game.whose_turn(), W);
    game.undo();
    assert_eq!(colors(&game), vec![E, E, E, E]);
    game.undo();
    assert_eq!(colors(&game), vec![E, E, E, E]);
    assert_eq!(game.node_count(), 3);
}

#[test]
fn reset_goes_to_the_root() {
    let mut game = square_game();
    assert_eq!(game.turn(B, Turn::Play(0)), TurnResult::Success);
    assert_eq!(game.turn(W, Turn::Play(1)), TurnResult::Success);
    game.reset();
    assert_eq!(colors(&game), vec![E, E, E, E]);
    assert_eq!(game.last_turn(), None);
}

#[test]
fn the_root_can_be_set_at_the_cursor() {
    let mut game = square_game();
    assert_eq!(game.turn(B, Turn::Play(0)), TurnResult::Success);
    game.set_root_here();
    assert_eq!(game.last_turn(), None);
    game.undo();
    assert_eq!(colors(&game), vec![B, E, E, E]);
    assert_eq!(game.turn(W, Turn::Play(1)), TurnResult::Success);
    assert_eq!(game.last_turn(), Some(Turn::Play(1)));
    game.reset();
    assert_eq!(colors(&game), vec![B, E, E, E]);
    assert_eq!(game.whose_turn(), W);
}

#[test]
fn symbols_are_kept_by_node() {
    let mut game = square_game();
    game.mark(2, Symbol::Triangle);
    assert_eq!(game.symbol_at(2), Symbol::Triangle);
    assert_eq!(game.symbol_at(1), Symbol::Blank);
    assert_eq!(game.turn(B, Turn::Play(0)), TurnResult::Success);
    assert_eq!(game.symbol_at(2), Symbol::Blank);
    game.mark(2, Symbol::Square);
    game.mark(3, Symbol::Pentagon);
    game.undo();
    assert_eq!(game.symbol_at(2), Symbol::Triangle);
    assert_eq!(game.symbol_at(3), Symbol::Blank);
}

#[test]
fn living_stones_are_known_at_each_node() {
    let mut game = GameTree::new(Board::new(vec![(0, 1), (1, 2), (2, 3), (3, 4)]));
    assert_eq!(game.turn(B, Turn::Play(1)), TurnResult::Success);
    assert_eq!(game.turn(W, Turn::Pass), TurnResult::Success);
    assert_eq!(game.turn(B, Turn::Play(2)), TurnResult::Success);
    assert!(!game.is_immortal(1));
    assert_eq!(game.turn(W, Turn::Pass), TurnResult::Success);
    assert_eq!(game.turn(B, Turn::Play(3)), TurnResult::Success);
    assert!(game.is_immortal(1));
    assert!(game.is_immortal(2));
    assert!(game.is_immortal(3));
    assert!(!game.is_immortal(0));
    assert!(!game.is_immortal(4));
    game.undo();
    assert!(!game.is_immortal(1));
}

#[test]
fn the_game_is_scored_by_stones() {
    let mut game = square_game();
    assert_eq!(game.score_delta_stone(), 0);
    assert_eq!(game.turn(B, Turn::Play(0)), TurnResult::Success);
    assert_eq!(game.score_delta_stone(), 1);
    assert_eq!(game.turn(W, Turn::Play(1)), TurnResult::Success);
    assert_eq!(game.score_delta_stone(), 0);
    assert_eq!(game.turn(B, Turn::Play(2)), TurnResult::Success);
    assert_eq!(game.score_delta_stone(), 2);
}
