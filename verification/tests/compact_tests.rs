use stones::compact::CompactGTN;
use stones::engine::Board;
use stones::engine::Color;
use stones::gametree::GameTree;
use stones::gametree::Symbol;
use stones::gametree::Turn;
use stones::gametree::TurnResult;

fn square() -> Board {
    Board::new(vec![(0, 1), (1, 2), (2, 3), (3, 0)])
}

fn node(children: Vec<(Turn, usize)>, symbols: Vec<(usize, Symbol)>) -> CompactGTN {
    CompactGTN { children, symbols }
}

fn sample() -> GameTree {
    let mut game = GameTree::new(square());
    assert_eq!(game.turn(Color::Black, Turn::Play(0)), TurnResult::Success);
    game.mark(2, Symbol::Triangle);
    assert_eq!(game.turn(Color::White, Turn::Play(1)), TurnResult::Success);
    game.undo();
    game.undo();
    assert_eq!(game.turn(Color::Black, Turn::Pass), TurnResult::Success);
    game.mark(0, Symbol::Circle);
    game.mark(3, Symbol::Square);
    game.undo();
    assert_eq!(game.turn(Color::Black, Turn::Play(0)), TurnResult::Success);
    game.set_root_here();
    game
}

#[test]
fn the_compact_form_lists_edges_and_symbols() {
    let (root, nodes) = sample().to_compact();
    assert_eq!(root, 1);
    assert_eq!(nodes.len(), 4);
    assert_eq!(nodes[0].children, vec![(Turn::Play(0), 1), (Turn::Pass, 3)]);
    assert_eq!(nodes[0].symbols, vec![]);
    assert_eq!(nodes[1].children, vec![(Turn::Play(1), 2)]);
    assert_eq!(nodes[1].symbols, vec![(2, Symbol::Triangle)]);
    assert_eq!(nodes[2].children, vec![]);
    assert_eq!(nodes[3].children, vec![]);
    assert_eq!(nodes[3].symbols, vec![(0, Symbol::Circle), (3, Symbol::Square)]);
}

#[test]
fn a_tree_comes_back_from_its_compact_form() {
    let (root, nodes) = sample().to_compact();
    let mut game = GameTree::from_compact(square(), root, nodes).unwrap();
    assert_eq!(game.node_count(), 4);
    assert_eq!(game.whose_turn(), Color::White);
    assert_eq!(game.color_at(0), Color::Black);
    assert_eq!(game.symbol_at(2), Symbol::Triangle);
    assert_eq!(game.last_turn(), None);
    game.undo();
    assert_eq!(game.whose_turn(), Color::White);
    assert_eq!(game.turn(Color::White, Turn::Play(1)), TurnResult::Success);
    assert_eq!(game.node_count(), 4);
    assert_eq!(game.color_at(1), Color::White);
    let (root_again, again) = game.to_compact();
    assert_eq!(root_again, 1);
    assert_eq!(again.len(), 4);
    assert_eq!(again[0].children, vec![(Turn::Play(0), 1), (Turn::Pass, 3)]);
    assert_eq!(again[3].symbols, vec![(0, Symbol::Circle), (3, Symbol::Square)]);
}

#[test]
fn the_replay_makes_the_positions_and_the_living_stones_again() {
    let board = Board::new(vec![(0, 1), (1, 2), (2, 3), (3, 4)]);
    let nodes = vec![
        node(vec![(Turn::Play(1), 1)], vec![]),
        node(vec![(Turn::Pass, 2)], vec![]),
        node(vec![(Turn::Play(2), 3)], vec![]),
        node(vec![(Turn::Pass, 4)], vec![]),
        node(vec![(Turn::Play(3), 5)], vec![]),
        node(vec![], vec![]),
    ];
    let mut game = GameTree::from_compact(board, 0, nodes).unwrap();
    assert_eq!(game.whose_turn(), Color::Black);
    assert_eq!(game.turn(Color::Black, Turn::Play(1)), TurnResult::Success);
    assert_eq!(game.turn(Color::White, Turn::Pass), TurnResult::Success);
    assert_eq!(game.turn(Color::Black, Turn::Play(2)), TurnResult::Success);
    assert_eq!(game.turn(Color::White, Turn::Pass), TurnResult::Success);
    assert_eq!(game.turn(Color::Black, Turn::Play(3)), TurnResult::Success);
    assert_eq!(game.node_count(), 6);
    assert_eq!(game.color_at(2), Color::Black);
    assert!(game.is_immortal(2));
    assert!(!game.is_immortal(0));
}

#[test]
fn a_compact_form_without_nodes_stands_for_no_tree() {
    assert!(GameTree::from_compact(square(), 0, vec![]).is_none());
}

#[test]
fn a_root_that_is_no_node_stands_for_no_tree() {
    assert!(GameTree::from_compact(square(), 1, vec![node(vec![], vec![])]).is_none());
    assert!(GameTree::from_compact(square(), 0, vec![node(vec![], vec![])]).is_some());
}

#[test]
fn a_node_that_no_edge_leads_to_stands_for_no_tree() {
    let nodes = vec![node(vec![], vec![]), node(vec![], vec![])];
    assert!(GameTree::from_compact(square(), 0, nodes).is_none());
}

#[test]
fn an_edge_that_leads_back_stands_for_no_tree() {
    let nodes = vec![node(vec![(Turn::Pass, 1)], vec![]), node(vec![(Turn::Pass, 0)], vec![])];
    assert!(GameTree::from_compact(square(), 0, nodes).is_none());
    let nodes = vec![node(vec![(Turn::Pass, 1), (Turn::Play(0), 7)], vec![]), node(vec![], vec![])];
    assert!(GameTree::from_compact(square(), 0, nodes).is_none());
}

#[test]
fn a_turn_that_fails_stands_for_no_tree() {
    let taken = vec![
        node(vec![(Turn::Play(0), 1)], vec![]),
        node(vec![(Turn::Play(0), 2)], vec![]),
        node(vec![], vec![]),
    ];
    assert!(GameTree::from_compact(square(), 0, taken).is_none());
    let off_board = vec![node(vec![(Turn::Play(4), 1)], vec![]), node(vec![], vec![])];
    assert!(GameTree::from_compact(square(), 0, off_board).is_none());
    let after_the_end = vec![
        node(vec![(Turn::Pass, 1)], vec![]),
        node(vec![(Turn::Pass, 2)], vec![]),
        node(vec![(Turn::Pass, 3)], vec![]),
        node(vec![], vec![]),
    ];
    assert!(GameTree::from_compact(square(), 0, after_the_end).is_none());
}

#[test]
fn one_turn_twice_from_a_node_stands_for_no_tree() {
    let nodes = vec![
        node(vec![(Turn::Play(0), 1), (Turn::Play(0), 2)], vec![]),
        node(vec![], vec![]),
        node(vec![], vec![]),
    ];
    assert!(GameTree::from_compact(square(), 0, nodes).is_none());
}

#[test]
fn a_symbol_off_the_board_stands_for_no_tree() {
    let nodes = vec![node(vec![], vec![(4, Symbol::Circle)])];
    assert!(GameTree::from_compact(square(), 0, nodes).is_none());
    let nodes = vec![node(vec![], vec![(3, Symbol::Circle), (3, Symbol::Pentagon)])];
    let game = GameTree::from_compact(square(), 0, nodes).unwrap();
    assert_eq!(game.symbol_at(3), Symbol::Pentagon);
}
