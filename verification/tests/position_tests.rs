use stones::engine::Board;
use stones::engine::Color;
use stones::engine::Position;

fn square() -> Board {
    Board::new(vec![(0, 1), (1, 2), (2, 3), (3, 0)])
}

fn path(n: usize) -> Board {
    Board::new((0..n - 1).map(|i| (i, i + 1)).collect())
}

fn colors(pos: &Position) -> Vec<Color> {
    (0..pos.len()).map(|i| pos.get(i)).collect()
}

const E: Color = Color::Empty;
const B: Color = Color::Black;
const W: Color = Color::White;

#[test]
fn point_count_is_one_more_than_the_largest_point() {
    let board = Board::new(vec![(0, 1), (1, 4), (2, 3), (3, 4)]);
    assert_eq!(board.point_count(), 5);
}

#[test]
fn duplicate_edges_collapse() {
    let board = Board::new(vec![(0, 1), (1, 0), (0, 1), (1, 2)]);
    assert_eq!(board.get_neighbors(0), vec![1]);
    assert_eq!(board.get_neighbors(1), vec![0, 2]);
    assert_eq!(board.get_neighbors(2), vec![1]);
}

#[test]
fn neighbors_are_symmetric() {
    let board = square();
    for a in 0..4 {
        for b in board.get_neighbors(a) {
            assert!(board.get_neighbors(b).contains(&a));
        }
    }
}

#[test]
fn no_edges_make_no_board() {
    assert!(Board::try_new(vec![]).is_none());
}

#[test]
fn a_self_loop_makes_no_board() {
    assert!(Board::try_new(vec![(0, 1), (1, 1)]).is_none());
}

#[test]
fn an_untouched_point_makes_no_board() {
    assert!(Board::try_new(vec![(0, 1), (3, 4)]).is_none());
    assert!(Board::try_new(vec![(1, 2)]).is_none());
}

#[test]
fn a_valid_edge_list_makes_a_board() {
    let board = Board::try_new(vec![(0, 1), (2, 3)]);
    assert!(board.is_some());
    assert_eq!(board.unwrap().point_count(), 4);
}

#[test]
fn reverse_swaps_black_and_white() {
    assert_eq!(Color::Black.reverse(), Color::White);
    assert_eq!(Color::White.reverse(), Color::Black);
}

#[test]
fn the_empty_position_is_one_bubble() {
    let board = square();
    let pos = board.empty_position();
    assert_eq!(colors(&pos), vec![E, E, E, E]);
    for p in 0..4 {
        assert!(pos.same_group(0, p));
    }
}

#[test]
fn the_empty_position_has_a_bubble_for_each_part_of_the_board() {
    let board = Board::new(vec![(0, 1), (2, 3)]);
    let pos = board.empty_position();
    assert!(pos.same_group(0, 1));
    assert!(pos.same_group(2, 3));
    assert!(!pos.same_group(0, 2));
}

#[test]
fn a_stone_joins_the_chains_around_it() {
    let board = path(5);
    let mut pos = board.empty_position();
    board.play(&mut pos, B, 1);
    board.play(&mut pos, B, 3);
    assert!(!pos.same_group(1, 3));
    board.play(&mut pos, B, 2);
    assert_eq!(colors(&pos), vec![E, B, B, B, E]);
    assert!(pos.same_group(1, 2));
    assert!(pos.same_group(1, 3));
    assert!(!pos.same_group(0, 1));
}

#[test]
fn a_stone_splits_the_bubble_it_is_set_in() {
    let board = path(5);
    let mut pos = board.empty_position();
    assert!(pos.same_group(0, 4));
    board.play(&mut pos, B, 2);
    assert!(pos.same_group(0, 1));
    assert!(pos.same_group(3, 4));
    assert!(!pos.same_group(0, 4));
    assert!(!pos.same_group(1, 2));
}

#[test]
fn groups_are_the_connected_sets_of_one_color() {
    let board = square();
    let mut pos = board.empty_position();
    board.play(&mut pos, B, 0);
    board.play(&mut pos, W, 1);
    for p in 0..4 {
        for q in 0..4 {
            if pos.same_group(p, q) {
                assert_eq!(pos.get(p), pos.get(q));
            }
        }
    }
    assert!(pos.same_group(2, 3));
    assert!(!pos.same_group(0, 1));
    assert!(!pos.same_group(0, 2));
}

#[test]
fn a_chain_without_liberties_is_captured() {
    let board = square();
    let mut pos = board.empty_position();
    board.play(&mut pos, B, 0);
    board.play(&mut pos, W, 1);
    assert_eq!(colors(&pos), vec![B, W, E, E]);
    board.play(&mut pos, W, 3);
    assert_eq!(colors(&pos), vec![E, W, E, W]);
    assert!(pos.same_group(0, 2) == false);
}

#[test]
fn four_cycle_white_between_two_black_stones_is_taken_off() {
    let board = square();
    let mut pos = board.empty_position();
    board.play(&mut pos, B, 0);
    board.play(&mut pos, B, 2);
    assert_eq!(colors(&pos), vec![B, E, B, E]);
    board.play(&mut pos, W, 1);
    assert_eq!(colors(&pos), vec![B, E, B, E]);
    board.play(&mut pos, W, 3);
    assert_eq!(colors(&pos), vec![B, E, B, E]);
}

#[test]
fn a_stone_set_into_a_surrounded_point_is_taken_off_again() {
    let board = path(3);
    let mut pos = board.empty_position();
    board.play(&mut pos, B, 1);
    let before = pos.duplicate();
    board.play(&mut pos, W, 0);
    assert_eq!(pos.get(0), E);
    assert!(pos.same_as(&before));
}

#[test]
fn the_opponent_is_captured_before_the_player() {
    let board = Board::new(vec![(0, 1), (1, 2), (2, 3), (3, 4), (4, 5), (5, 0)]);
    let mut pos = board.empty_position();
    board.play(&mut pos, B, 0);
    board.play(&mut pos, W, 1);
    board.play(&mut pos, B, 4);
    board.play(&mut pos, W, 3);
    assert_eq!(colors(&pos), vec![B, W, E, W, B, E]);
    board.play(&mut pos, B, 2);
    assert_eq!(colors(&pos), vec![B, E, B, E, B, E]);
}

#[test]
fn positions_are_the_same_by_their_colors_alone() {
    let board = path(4);
    let mut one = board.empty_position();
    board.play(&mut one, B, 0);
    board.play(&mut one, B, 1);
    let mut other = board.empty_position();
    board.play(&mut other, B, 1);
    board.play(&mut other, B, 0);
    assert!(one.same_as(&other));
    board.play(&mut other, W, 3);
    assert!(!one.same_as(&other));
}

#[test]
fn a_chain_on_two_feet_lives() {
    let board = path(5);
    let mut pos = board.empty_position();
    board.play(&mut pos, B, 1);
    board.play(&mut pos, B, 2);
    board.play(&mut pos, B, 3);
    board.keep_only_immortal_one_color(&mut pos, B);
    assert_eq!(colors(&pos), vec![E, B, B, B, E]);
}

#[test]
fn a_chain_on_one_foot_does_not_live() {
    let board = path(5);
    let mut pos = board.empty_position();
    board.play(&mut pos, B, 1);
    board.play(&mut pos, B, 2);
    board.keep_only_immortal_one_color(&mut pos, B);
    assert_eq!(colors(&pos), vec![E, E, E, E, E]);
}

#[test]
fn the_other_color_is_cleared_before_feet_are_counted() {
    let board = path(5);
    let mut pos = board.empty_position();
    board.play(&mut pos, B, 1);
    board.play(&mut pos, B, 2);
    board.play(&mut pos, B, 3);
    board.play(&mut pos, W, 4);
    assert_eq!(colors(&pos), vec![E, B, B, B, E]);
    let mut pos = board.empty_position();
    board.play(&mut pos, W, 4);
    board.play(&mut pos, B, 1);
    board.play(&mut pos, B, 2);
    assert_eq!(colors(&pos), vec![E, B, B, E, W]);
    let mut black = pos.duplicate();
    board.keep_only_immortal_one_color(&mut black, B);
    assert_eq!(colors(&black), vec![E, E, E, E, E]);
    let mut white = pos.duplicate();
    board.keep_only_immortal_one_color(&mut white, W);
    assert_eq!(colors(&white), vec![E, E, E, E, E]);
}

#[test]
fn a_chain_that_leans_on_a_weak_chain_falls_with_it() {
    // 0-1-2-3-4-5-6: Black at 1 and at 3, 4, 5. The bubble at 2 touches
    // both chains, so the chain at 1 has one foot and the other has one.
    let board = path(7);
    let mut pos = board.empty_position();
    for p in [1, 3, 4, 5] {
        board.play(&mut pos, B, p);
    }
    board.keep_only_immortal_one_color(&mut pos, B);
    assert_eq!(colors(&pos), vec![E, E, E, E, E, E, E]);
}

#[test]
fn the_stones_that_live_are_kept_for_both_colors() {
    let board = Board::new(vec![(0, 1), (1, 2), (2, 3), (3, 4), (5, 6), (6, 7), (7, 8), (8, 9)]);
    let mut pos = board.empty_position();
    for p in [1, 2, 3] {
        board.play(&mut pos, B, p);
    }
    for p in [6, 7] {
        board.play(&mut pos, W, p);
    }
    board.keep_only_immortal(&mut pos);
    assert_eq!(colors(&pos), vec![E, B, B, B, E, E, E, E, E, E]);
    let mut pos = board.empty_position();
    for p in [1, 2] {
        board.play(&mut pos, B, p);
    }
    for p in [6, 7, 8] {
        board.play(&mut pos, W, p);
    }
    board.keep_only_immortal(&mut pos);
    assert_eq!(colors(&pos), vec![E, E, E, E, E, E, W, W, W, E]);
}

#[test]
fn keeping_the_living_stones_twice_changes_nothing_more() {
    let board = path(7);
    for stones in [vec![1, 2, 3], vec![1, 3, 5], vec![1, 2], vec![2, 4], vec![1, 3, 4, 5]] {
        let mut pos = board.empty_position();
        for p in stones {
            board.play(&mut pos, B, p);
        }
        board.play(&mut pos, W, 6);
        board.keep_only_immortal_one_color(&mut pos, B);
        let once = pos.duplicate();
        board.keep_only_immortal_one_color(&mut pos, B);
        assert!(pos.same_as(&once));
    }
}

#[test]
fn the_score_is_black_stones_less_white_stones() {
    let board = path(7);
    let mut pos = board.empty_position();
    for p in [0, 1, 2] {
        board.play(&mut pos, B, p);
    }
    board.play(&mut pos, W, 5);
    assert_eq!(board.score_delta_stone(&pos), 2);
    board.play(&mut pos, W, 6);
    board.play(&mut pos, W, 4);
    board.play(&mut pos, W, 3);
    assert_eq!(colors(&pos), vec![E, E, E, W, W, W, W]);
    assert_eq!(board.score_delta_stone(&pos), -4);
}

#[test]
fn a_board_is_written_as_the_list_of_its_edges() {
    let board = Board::new(vec![(0, 1), (2, 1)]);
    assert_eq!(board.edges(), vec![(0, 1), (1, 0), (1, 2), (2, 1)]);
    assert_eq!(board.to_string(), Some("[[0,1],[1,0],[1,2],[2,1]]".to_string()));
}

#[test]
fn a_board_is_read_from_the_list_of_its_edges() {
    let board = Board::from_string("[[0,1],[1,2],[2,3],[3,0]]".to_string()).unwrap();
    assert_eq!(board.point_count(), 4);
    assert_eq!(board.get_neighbors(0), vec![1, 3]);
    let again = Board::from_string(board.to_string().unwrap()).unwrap();
    assert_eq!(again.point_count(), 4);
    for p in 0..4 {
        let mut a = board.get_neighbors(p);
        let mut b = again.get_neighbors(p);
        a.sort();
        b.sort();
        assert_eq!(a, b);
    }
}

#[test]
fn text_that_is_no_valid_edge_list_gives_no_board() {
    assert!(Board::from_string("stones".to_string()).is_none());
    assert!(Board::from_string("[[0,0]]".to_string()).is_none());
    assert!(Board::from_string("[]".to_string()).is_none());
    assert!(Board::from_string("[[0,1],[3,4]]".to_string()).is_none());
}

#[test]
fn equal_positions_color_every_point_alike() {
    let board = square();
    let mut one = board.empty_position();
    board.play(&mut one, B, 0);
    let copy = one.clone();
    assert!(one == copy);
    assert!(copy.same_group(1, 2));
    board.play(&mut one, W, 2);
    assert!(one != copy);
    assert_eq!(colors(&copy), vec![B, E, E, E]);
    let mut other = board.empty_position();
    board.play(&mut other, B, 0);
    board.play(&mut other, W, 2);
    assert!(one == other);
}

#[test]
fn points_are_joined_by_the_edges_given() {
    let board = Board::new(vec![(0, 1), (2, 1), (3, 2)]);
    assert!(board.is_connected(0, 1));
    assert!(board.is_connected(1, 0));
    assert!(board.is_connected(1, 2));
    assert!(board.is_connected(2, 3));
    assert!(!board.is_connected(0, 2));
    assert!(!board.is_connected(0, 0));
    assert!(!board.is_connected(3, 7));
    assert_eq!(board.get_neighbors(1), vec![0, 2]);
    assert_eq!(board.get_neighbors(2), vec![1, 3]);
}
