use stones::boards::edges_donut;
use stones::boards::edges_loop;
use stones::boards::edges_rect;
use stones::boards::edges_trihex;
use stones::boards::induced_edges;
use stones::engine::Board;

#[test]
fn a_grid_joins_points_side_by_side() {
    assert_eq!(
        edges_rect(2, 2),
        vec![(0, 1), (0, 2), (1, 0), (1, 3), (2, 0), (2, 3), (3, 1), (3, 2)]
    );
    assert_eq!(edges_rect(3, 1), vec![(0, 1), (1, 0), (1, 2), (2, 1)]);
    assert_eq!(edges_rect(1, 1), vec![]);
    assert_eq!(edges_rect(0, 5), vec![]);
}

#[test]
fn a_grid_of_nineteen_has_the_edges_of_a_go_board() {
    let edges = edges_rect(19, 19);
    assert_eq!(edges.len(), 2 * 2 * 19 * 18);
    let board = Board::new(edges);
    assert_eq!(board.point_count(), 361);
    assert_eq!(board.get_neighbors(0), vec![1, 19]);
    assert_eq!(board.get_neighbors(20), vec![1, 19, 21, 39]);
}

#[test]
fn a_donut_is_a_grid_without_its_middle() {
    // 0 1 2
    // 3 . 4
    // 5 6 7
    assert_eq!(
        edges_donut(3, 3, 1, 1),
        vec![
            (0, 1), (0, 3), (1, 0), (1, 2), (2, 1), (2, 4), (3, 0), (3, 5),
            (4, 2), (4, 7), (5, 3), (5, 6), (6, 5), (6, 7), (7, 4), (7, 6),
        ]
    );
    assert_eq!(edges_donut(2, 2, 0, 0), edges_rect(2, 2));
    assert_eq!(edges_donut(2, 2, 2, 2), vec![]);
}

#[test]
fn a_donut_hole_leans_to_the_right_and_down() {
    // The hole of width 1 in a row of 4 starts at column 2.
    assert_eq!(edges_donut(4, 1, 1, 1), vec![(0, 1), (1, 0)]);
}

#[test]
fn a_loop_joins_each_point_to_the_next() {
    assert_eq!(
        edges_loop(4),
        vec![(0, 1), (0, 3), (1, 0), (1, 2), (2, 1), (2, 3), (3, 0), (3, 2)]
    );
    assert_eq!(edges_loop(3), vec![(0, 1), (0, 2), (1, 0), (1, 2), (2, 0), (2, 1)]);
    assert_eq!(edges_loop(2), vec![(0, 1), (1, 0)]);
    assert_eq!(edges_loop(1), vec![]);
    assert_eq!(edges_loop(0), vec![]);
}

#[test]
fn a_hexagon_of_one_layer_has_a_middle_with_six_neighbors() {
    //  0 1
    // 2 3 4
    //  5 6
    let edges = edges_trihex(1);
    assert_eq!(edges.len(), 24);
    let board = Board::new(edges);
    assert_eq!(board.point_count(), 7);
    assert_eq!(board.get_neighbors(3), vec![0, 1, 2, 4, 5, 6]);
    assert_eq!(board.get_neighbors(0), vec![1, 2, 3]);
    assert_eq!(board.get_neighbors(6), vec![3, 4, 5]);
}

#[test]
fn a_hexagon_without_layers_is_one_point() {
    assert_eq!(edges_trihex(0), vec![]);
    assert_eq!(edges_trihex(2).len(), 2 * 42);
}

#[test]
fn edges_join_the_points_one_step_apart() {
    let points = vec![(0, 0), (1, 0), (3, 0), (1, 1), (2, 1)];
    assert_eq!(induced_edges(&points, false), vec![(0, 1), (1, 0), (1, 3), (3, 1), (3, 4), (4, 3)]);
    assert_eq!(induced_edges(&points, true), vec![(0, 3), (1, 2), (1, 4), (2, 1), (2, 4), (3, 0), (4, 1), (4, 2)]);
}
