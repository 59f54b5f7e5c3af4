use stones::engine::Board;
use stones::engine::Color;
use stones::gametree::GameTree;
use stones::gametree::Turn;
use stones::gametree::TurnResult;
use stones::solve::solve;

fn plain_search(game: &mut GameTree) -> i32 {
    if game.game_over() {
        return game.score_delta_stone();
    }
    let color = game.whose_turn();
    let mut turns = vec![Turn::Pass];
    for p in 0..game.board().point_count() {
        turns.push(Turn::Play(p));
    }
    let mut best: Option<i32> = None;
    for turn in turns {
        let result = game.turn(color, turn);
        if result == TurnResult::Success || result == TurnResult::SuccessGameOver {
            let value = plain_search(game);
            game.undo();
            best = Some(match best {
                None => value,
                Some(b) if color == Color::Black => b.max(value),
                Some(b) => b.min(value),
            });
        }
    }
    best.unwrap()
}

fn two_points() -> GameTree {
    GameTree::new(Board::new(vec![(0, 1)]))
}

fn three_points() -> GameTree {
    GameTree::new(Board::new(vec![(0, 1), (1, 2)]))
}

#[test]
fn a_finished_game_has_its_score() {
    let mut game = three_points();
    assert_eq!(game.turn(Color::Black, Turn::Play(1)), TurnResult::Success);
    assert_eq!(game.turn(Color::White, Turn::Pass), TurnResult::Success);
    assert_eq!(game.turn(Color::Black, Turn::Pass), TurnResult::SuccessGameOver);
    assert_eq!(solve(&mut game, i32::MIN, i32::MAX, 0), Some(1));
    assert_eq!(solve(&mut game, 0, 1, 5), Some(1));
}

#[test]
fn a_search_that_is_cut_short_has_no_value() {
    let mut game = three_points();
    assert_eq!(solve(&mut game, i32::MIN, i32::MAX, 0), None);
    assert_eq!(solve(&mut game, i32::MIN, i32::MAX, 1), None);
    assert_eq!(game.whose_turn(), Color::Black);
    assert_eq!(game.last_turn(), None);
}

#[test]
fn one_pass_from_the_end_the_search_looks_at_each_turn() {
    let mut game = three_points();
    assert_eq!(game.turn(Color::Black, Turn::Play(1)), TurnResult::Success);
    assert_eq!(game.turn(Color::White, Turn::Pass), TurnResult::Success);
    // Black may pass for 1, or play for 2 and leave White a ruinous turn.
    let value = solve(&mut game, i32::MIN, i32::MAX, 64);
    assert_eq!(value, Some(plain_search(&mut game)));
    assert_eq!(game.whose_turn(), Color::Black);
    assert_eq!(game.last_turn(), Some(Turn::Pass));
}

#[test]
fn the_search_gives_the_same_value_each_time() {
    let mut game = two_points();
    let first = solve(&mut game, i32::MIN, i32::MAX, 64);
    assert!(first.is_some());
    let second = solve(&mut game, i32::MIN, i32::MAX, 64);
    assert_eq!(first, second);
    let mut fresh = two_points();
    assert_eq!(solve(&mut fresh, i32::MIN, i32::MAX, 64), first);
}

#[test]
fn cutoffs_do_not_change_the_value() {
    let mut game = two_points();
    let pruned = solve(&mut game, i32::MIN, i32::MAX, 64).unwrap();
    let mut plain = two_points();
    assert_eq!(pruned, plain_search(&mut plain));
    let mut game = three_points();
    let pruned = solve(&mut game, i32::MIN, i32::MAX, 64).unwrap();
    let mut plain = three_points();
    assert_eq!(pruned, plain_search(&mut plain));
    assert!(-3 <= pruned && pruned <= 3);
}

#[test]
fn the_search_leaves_the_cursor_where_it_was() {
    let mut game = three_points();
    assert_eq!(game.turn(Color::Black, Turn::Play(0)), TurnResult::Success);
    let _ = solve(&mut game, i32::MIN, i32::MAX, 64);
    assert_eq!(game.whose_turn(), Color::White);
    assert_eq!(game.last_turn(), Some(Turn::Play(0)));
    assert_eq!(game.color_at(0), Color::Black);
}

#[test]
fn the_loop_of_four_points_is_solved_the_same_each_time() {
    let square = || GameTree::new(Board::new(vec![(0, 1), (1, 2), (2, 3), (3, 0)]));
    let mut game = square();
    let first = solve(&mut game, i32::MIN, i32::MAX, 200);
    assert!(first.is_some());
    assert_eq!(game.whose_turn(), Color::Black);
    assert_eq!(game.last_turn(), None);
    let second = solve(&mut game, i32::MIN, i32::MAX, 200);
    assert_eq!(first, second);
    let mut fresh = square();
    assert_eq!(solve(&mut fresh, i32::MIN, i32::MAX, 200), first);
    let value = first.unwrap();
    assert_eq!(value, 1);
    let mut narrow = square();
    let within = solve(&mut narrow, value - 1, value + 1, 200);
    assert_eq!(within, first);
}
