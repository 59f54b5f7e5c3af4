//! An exhaustive solver: a full search of the turns from the cursor of a
//! game tree, Black for the highest score and White for the lowest, with
//! alpha-beta cutoffs.

use vstd::prelude::*;
use crate::engine::Board;
use crate::engine::Color;
use crate::gametree::branch;
use crate::gametree::extends;
use crate::gametree::keeps;
use crate::gametree::is_over;
use crate::gametree::lemma_extends_branch;
use crate::gametree::lemma_reaches_order;
use crate::gametree::node_wf;
use crate::gametree::tree_wf;
use crate::gametree::turn_colors;
use crate::gametree::turn_step;
use crate::gametree::GameTree;
use crate::gametree::NodeView;
use crate::gametree::TreeView;
use crate::gametree::Turn;
use crate::gametree::TurnResult;
use crate::region::lemma_fewer_stones;
use crate::region::play_result;
use crate::region::stones;

verus! {

/// A line of play: the positions so far, the number of passes that it ends
/// with (2 for two or more), and the color to play.
pub struct Line {
    pub seen: Seq<Seq<Color>>,
    pub passes: nat,
    pub to_play: Color,
}

/// The passes that the way to node `i` ends with, counted up to 2.
pub open spec fn passes_at(nodes: Seq<NodeView>, i: int) -> nat {
    if nodes[i].last_turn == Some(Turn::Pass) {
        if nodes[i].parent matches Some(p) && nodes[p as int].last_turn == Some(Turn::Pass) {
            2
        } else {
            1
        }
    } else {
        0
    }
}

/// The line of play that leads to node `i`.
pub open spec fn line_of(nodes: Seq<NodeView>, i: int) -> Line {
    Line { seen: branch(nodes, i), passes: passes_at(nodes, i), to_play: nodes[i].to_play }
}

/// Whether `turn` may be played at the end of `line`: a pass always, a stone
/// on an empty point where the result is no position that the line has seen.
pub open spec fn legal(board: &Board, line: Line, turn: Turn) -> bool {
    match turn {
        Turn::Pass => true,
        Turn::Play(point) => {
            &&& point < board.size()
            &&& line.seen.last()[point as int] == Color::Empty
            &&& !line.seen.contains(
                play_result(board, line.seen.last(), line.to_play, point as int),
            )
        },
    }
}

/// The line after `turn`.
pub open spec fn line_after(board: &Board, line: Line, turn: Turn) -> Line {
    Line {
        seen: line.seen.push(turn_colors(board, line.seen.last(), line.to_play, turn)),
        passes: if turn is Pass {
            if line.passes >= 1 {
                2
            } else {
                1
            }
        } else {
            0
        },
        to_play: line.to_play.opponent(),
    }
}

/// The score of a finished game: Black's stones less White's.
pub open spec fn stone_score(colors: Seq<Color>) -> int {
    stones(colors, Color::Black) - stones(colors, Color::White)
}

/// The larger of two numbers.
pub open spec fn larger(a: int, b: int) -> int {
    if a >= b {
        a
    } else {
        b
    }
}

/// The smaller of two numbers.
pub open spec fn smaller(a: int, b: int) -> int {
    if a <= b {
        a
    } else {
        b
    }
}

/// The value that the search gives the end of `line` within the window
/// from `alpha` to `beta`, looking at most `depth` turns ahead; `None` where
/// a game goes on beyond that. A finished game has its score. Otherwise the
/// pass is tried first, then the stones in the order of the points.
pub open spec fn search(board: &Board, line: Line, alpha: int, beta: int, depth: nat) -> Option<
    int,
>
    decreases depth, board.size() + 1,
{
    if line.passes >= 2 {
        Some(stone_score(line.seen.last()))
    } else if depth == 0 {
        None
    } else {
        match search(board, line_after(board, line, Turn::Pass), alpha, beta, (depth - 1) as nat) {
            None => None,
            Some(best) => search_plays(board, line, alpha, beta, depth, 0, best),
        }
    }
}

/// The value after the stones from point `from` on are tried, `best` being
/// the value so far: Black keeps the highest, White the lowest, and the
/// rest is skipped once the value is outside the window on the player's
/// side.
pub open spec fn search_plays(
    board: &Board,
    line: Line,
    alpha: int,
    beta: int,
    depth: nat,
    from: nat,
    best: int,
) -> Option<int>
    decreases depth, board.size() - from,
{
    if depth == 0 || from >= board.size() {
        Some(best)
    } else if line.to_play == Color::Black && best >= beta {
        Some(best)
    } else if line.to_play == Color::White && best <= alpha {
        Some(best)
    } else if !legal(board, line, Turn::Play(from as usize)) {
        search_plays(board, line, alpha, beta, depth, from + 1, best)
    } else if line.to_play == Color::Black {
        match search(
            board,
            line_after(board, line, Turn::Play(from as usize)),
            larger(alpha, best),
            beta,
            (depth - 1) as nat,
        ) {
            None => None,
            Some(v) => search_plays(board, line, alpha, beta, depth, from + 1, larger(best, v)),
        }
    } else {
        match search(
            board,
            line_after(board, line, Turn::Play(from as usize)),
            alpha,
            smaller(beta, best),
            (depth - 1) as nat,
        ) {
            None => None,
            Some(v) => search_plays(board, line, alpha, beta, depth, from + 1, smaller(best, v)),
        }
    }
}

/// The value of the end of `line` by a full search without cutoffs, at most
/// `depth` turns ahead: the score of a finished game; otherwise the highest
/// value that a turn leads to when Black plays, the lowest when White does.
/// `None` where a game goes on beyond `depth` turns.
pub open spec fn value(board: &Board, line: Line, depth: nat) -> Option<int>
    decreases depth, board.size() + 1,
{
    if line.passes >= 2 {
        Some(stone_score(line.seen.last()))
    } else if depth == 0 {
        None
    } else {
        match value(board, line_after(board, line, Turn::Pass), (depth - 1) as nat) {
            None => None,
            Some(best) => value_plays(board, line, depth, 0, best),
        }
    }
}

/// The value after the stones from point `from` on are tried, `best` being
/// the value so far.
pub open spec fn value_plays(board: &Board, line: Line, depth: nat, from: nat, best: int) -> Option<
    int,
>
    decreases depth, board.size() - from,
{
    if depth == 0 || from >= board.size() {
        Some(best)
    } else if !legal(board, line, Turn::Play(from as usize)) {
        value_plays(board, line, depth, from + 1, best)
    } else {
        match value(board, line_after(board, line, Turn::Play(from as usize)), (depth - 1) as nat) {
            None => None,
            Some(v) => value_plays(
                board,
                line,
                depth,
                from + 1,
                if line.to_play == Color::Black {
                    larger(best, v)
                } else {
                    smaller(best, v)
                },
            ),
        }
    }
}

/// What a search within a window says of the value `v` by its result `a`:
/// at or under `alpha` the value is no higher, at or over `beta` it is no
/// lower, and between them it is the value.
pub open spec fn bounds(a: int, v: int, alpha: int, beta: int) -> bool {
    &&& a <= alpha ==> v <= a
    &&& a >= beta ==> v >= a
    &&& alpha < a < beta ==> v == a
}

/// More turns only raise Black's value and only lower White's.
proof fn lemma_value_plays_grows(board: &Board, line: Line, depth: nat, from: nat, best: int)
    requires
        value_plays(board, line, depth, from, best) is Some,
    ensures
        line.to_play == Color::Black ==> value_plays(board, line, depth, from, best).unwrap()
            >= best,
        line.to_play != Color::Black ==> value_plays(board, line, depth, from, best).unwrap()
            <= best,
    decreases board.size() - from,
{
    if depth == 0 || from >= board.size() {
    } else if !legal(board, line, Turn::Play(from as usize)) {
        lemma_value_plays_grows(board, line, depth, from + 1, best);
    } else {
        let v = value(
            board,
            line_after(board, line, Turn::Play(from as usize)),
            (depth - 1) as nat,
        ).unwrap();
        let next = if line.to_play == Color::Black {
            larger(best, v)
        } else {
            smaller(best, v)
        };
        lemma_value_plays_grows(board, line, depth, from + 1, next);
    }
}

/// Where the full search has a value, the search with cutoffs has a result,
/// which bounds that value.
pub proof fn lemma_search_bounds(board: &Board, line: Line, alpha: int, beta: int, depth: nat)
    requires
        alpha < beta,
        line.to_play != Color::Empty,
        value(board, line, depth) is Some,
    ensures
        search(board, line, alpha, beta, depth) is Some,
        bounds(
            search(board, line, alpha, beta, depth).unwrap(),
            value(board, line, depth).unwrap(),
            alpha,
            beta,
        ),
    decreases depth, board.size() + 1,
{
    if line.passes >= 2 {
    } else {
        let passed = line_after(board, line, Turn::Pass);
        lemma_search_bounds(board, passed, alpha, beta, (depth - 1) as nat);
        let a = search(board, passed, alpha, beta, (depth - 1) as nat).unwrap();
        let v = value(board, passed, (depth - 1) as nat).unwrap();
        lemma_plays_bounds(board, line, alpha, beta, depth, 0, a, v);
    }
}

/// The same of the stones from point `from` on, where the result so far
/// bounds the value so far.
pub proof fn lemma_plays_bounds(
    board: &Board,
    line: Line,
    alpha: int,
    beta: int,
    depth: nat,
    from: nat,
    a: int,
    v: int,
)
    requires
        alpha < beta,
        depth > 0,
        line.to_play != Color::Empty,
        bounds(a, v, alpha, beta),
        value_plays(board, line, depth, from, v) is Some,
    ensures
        search_plays(board, line, alpha, beta, depth, from, a) is Some,
        bounds(
            search_plays(board, line, alpha, beta, depth, from, a).unwrap(),
            value_plays(board, line, depth, from, v).unwrap(),
            alpha,
            beta,
        ),
    decreases depth, board.size() - from,
{
    if from >= board.size() {
    } else if line.to_play == Color::Black && a >= beta {
        lemma_value_plays_grows(board, line, depth, from, v);
    } else if line.to_play == Color::White && a <= alpha {
        lemma_value_plays_grows(board, line, depth, from, v);
    } else if !legal(board, line, Turn::Play(from as usize)) {
        lemma_plays_bounds(board, line, alpha, beta, depth, from + 1, a, v);
    } else {
        let played = line_after(board, line, Turn::Play(from as usize));
        let vc = value(board, played, (depth - 1) as nat).unwrap();
        if line.to_play == Color::Black {
            lemma_search_bounds(board, played, larger(alpha, a), beta, (depth - 1) as nat);
            let ac = search(board, played, larger(alpha, a), beta, (depth - 1) as nat).unwrap();
            lemma_plays_bounds(
                board,
                line,
                alpha,
                beta,
                depth,
                from + 1,
                larger(a, ac),
                larger(v, vc),
            );
        } else {
            lemma_search_bounds(board, played, alpha, smaller(beta, a), (depth - 1) as nat);
            let ac = search(board, played, alpha, smaller(beta, a), (depth - 1) as nat).unwrap();
            lemma_plays_bounds(
                board,
                line,
                alpha,
                beta,
                depth,
                from + 1,
                smaller(a, ac),
                smaller(v, vc),
            );
        }
    }
}

/// Cutoffs do not change the value: where the value of the full search
/// lies inside the window, the search with cutoffs gives that value.
pub proof fn lemma_cutoffs_keep_value(
    board: &Board,
    line: Line,
    alpha: int,
    beta: int,
    depth: nat,
)
    requires
        line.to_play != Color::Empty,
        value(board, line, depth) matches Some(v) && alpha < v < beta,
    ensures
        search(board, line, alpha, beta, depth) == value(board, line, depth),
{
    lemma_search_bounds(board, line, alpha, beta, depth);
}

/// Whether the last position of a line covers the board.
pub open spec fn line_fits(board: &Board, line: Line) -> bool {
    line.seen.len() > 0 && line.seen.last().len() == board.size()
}

/// No value is beyond the number of points, for either color.
pub proof fn lemma_value_range(board: &Board, line: Line, depth: nat)
    requires
        line_fits(board, line),
        value(board, line, depth) is Some,
    ensures
        -board.size() <= value(board, line, depth).unwrap() <= board.size(),
    decreases depth, board.size() + 1,
{
    if line.passes >= 2 {
        lemma_fewer_stones(line.seen.last(), line.seen.last(), Color::Black);
        lemma_fewer_stones(line.seen.last(), line.seen.last(), Color::White);
    } else {
        let passed = line_after(board, line, Turn::Pass);
        lemma_value_range(board, passed, (depth - 1) as nat);
        let first = value(board, passed, (depth - 1) as nat).unwrap();
        lemma_value_plays_range(board, line, depth, 0, first);
    }
}

/// The same of the stones from point `from` on.
pub proof fn lemma_value_plays_range(board: &Board, line: Line, depth: nat, from: nat, best: int)
    requires
        line_fits(board, line),
        depth > 0,
        -board.size() <= best <= board.size(),
        value_plays(board, line, depth, from, best) is Some,
    ensures
        -board.size() <= value_plays(board, line, depth, from, best).unwrap() <= board.size(),
    decreases depth, board.size() - from,
{
    if from >= board.size() {
    } else if !legal(board, line, Turn::Play(from as usize)) {
        lemma_value_plays_range(board, line, depth, from + 1, best);
    } else {
        let played = line_after(board, line, Turn::Play(from as usize));
        lemma_value_range(board, played, (depth - 1) as nat);
        let v = value(board, played, (depth - 1) as nat).unwrap();
        let next = if line.to_play == Color::Black {
            larger(best, v)
        } else {
            smaller(best, v)
        };
        lemma_value_plays_range(board, line, depth, from + 1, next);
    }
}

/// With a window that no score reaches, the search with cutoffs gives the
/// value of the full search.
pub proof fn lemma_full_window(board: &Board, line: Line, alpha: int, beta: int, depth: nat)
    requires
        line_fits(board, line),
        line.to_play != Color::Empty,
        alpha < -board.size(),
        beta > board.size(),
        value(board, line, depth) is Some,
    ensures
        search(board, line, alpha, beta, depth) == value(board, line, depth),
{
    lemma_value_range(board, line, depth);
    lemma_cutoffs_keep_value(board, line, alpha, beta, depth);
}

/// A tree keeps its own nodes.
pub proof fn lemma_keeps_same(a: Seq<NodeView>)
    ensures
        keeps(a, a),
{
    assert forall|i: int| 0 <= i < a.len() implies (#[trigger] a[i]).children.take(
        a[i].children.len() as int,
    ) == a[i].children by {
        assert(a[i].children.take(a[i].children.len() as int) =~= a[i].children);
    }
}

/// What is kept is kept on.
pub proof fn lemma_keeps_trans(a: Seq<NodeView>, b: Seq<NodeView>, c: Seq<NodeView>)
    requires
        keeps(a, b),
        keeps(b, c),
    ensures
        keeps(a, c),
{
    assert forall|i: int| 0 <= i < a.len() implies (#[trigger] c[i]).symbols == a[i].symbols
        && c[i].immortal == a[i].immortal && a[i].children.len() <= c[i].children.len()
        && c[i].children.take(a[i].children.len() as int) == a[i].children by {
        assert(b[i].children.take(a[i].children.len() as int) == a[i].children);
        assert(c[i].children.take(b[i].children.len() as int) == b[i].children);
        assert(c[i].children.take(a[i].children.len() as int) =~= c[i].children.take(
            b[i].children.len() as int,
        ).take(a[i].children.len() as int));
    }
}

/// New nodes change nothing in the line of an old one.
pub proof fn lemma_extends_line(before: Seq<NodeView>, after: Seq<NodeView>, i: int)
    requires
        extends(before, after),
        0 <= i < before.len(),
        before[i].parent matches Some(p) ==> p < i,
    ensures
        line_of(after, i) == line_of(before, i),
{
    lemma_extends_branch(before, after, i, 0);
}

/// A turn of the color to play, in a game that is not over, succeeds
/// exactly when it is legal at the end of the cursor's line. Then the
/// cursor is at a child of the node it was at, whose line is the line
/// after the turn. Otherwise the tree is as it was.
pub proof fn lemma_turn_line(board: &Board, t: TreeView, turn: Turn)
    requires
        tree_wf(board, t),
        !is_over(t.nodes, t.cursor),
        turn matches Turn::Play(point) ==> point < board.size(),
    ensures
        ({
            let color = t.nodes[t.cursor].to_play;
            let line = line_of(t.nodes, t.cursor);
            let (result, next) = turn_step(board, t, color, turn);
            &&& keeps(t.nodes, next.nodes)
            &&& next.root == t.root
            &&& (result == TurnResult::Success || result == TurnResult::SuccessGameOver) == legal(
                board,
                line,
                turn,
            )
            &&& legal(board, line, turn) ==> {
                &&& line_of(next.nodes, next.cursor) == line_after(board, line, turn)
                &&& next.nodes[next.cursor].parent == Some(t.cursor as usize)
                &&& t.cursor < next.cursor < next.nodes.len()
            }
            &&& !legal(board, line, turn) ==> next == t
        }),
{
    let color = t.nodes[t.cursor].to_play;
    let cur = t.nodes[t.cursor];
    let line = line_of(t.nodes, t.cursor);
    let (result, next) = turn_step(board, t, color, turn);
    assert(node_wf(board, t.nodes, t.cursor));
    assert(line.seen.last() == cur.colors);
    lemma_keeps_same(t.nodes);
    if crate::gametree::has_child(cur.children, turn) {
        let k = choose|k: int| 0 <= k < cur.children.len() && (#[trigger] cur.children[k]).0 == turn;
        let c = cur.children[k].1 as int;
        assert(node_wf(board, t.nodes, c));
        assert(branch(t.nodes, c) == branch(t.nodes, t.cursor).push(t.nodes[c].colors));
    } else {
        let colors = turn_colors(board, cur.colors, color, turn);
        if legal(board, line, turn) {
            assert(extends(t.nodes, next.nodes));
            assert forall|i: int| 0 <= i < t.nodes.len() implies t.nodes[i].children.len() <= (
            #[trigger] next.nodes[i]).children.len() && next.nodes[i].children.take(
                t.nodes[i].children.len() as int,
            ) == t.nodes[i].children by {
                assert(next.nodes[i].children.take(t.nodes[i].children.len() as int)
                    =~= t.nodes[i].children);
            }
            lemma_extends_branch(t.nodes, next.nodes, t.cursor, t.root);
            assert(branch(next.nodes, next.cursor) == branch(next.nodes, t.cursor).push(colors));
        }
    }
}

/// Searches the turns from the cursor, at most `depth` of them ahead, and
/// leaves the cursor where it was. `None` means that a game went on beyond
/// `depth` turns.
pub fn solve(tree: &mut GameTree, alpha: i32, beta: i32, depth: usize) -> (best: Option<i32>)
    requires
        old(tree).wf(),
        old(tree).spec_board().size() <= i32::MAX,
    ensures
        final(tree).wf(),
        final(tree).spec_board() == old(tree).spec_board(),
        final(tree)@.cursor == old(tree)@.cursor,
        final(tree)@.root == old(tree)@.root,
        keeps(old(tree)@.nodes, final(tree)@.nodes),
        match best {
            Some(v) => search(
                &old(tree).spec_board(),
                line_of(old(tree)@.nodes, old(tree)@.cursor),
                alpha as int,
                beta as int,
                depth as nat,
            ) == Some(v as int),
            None => search(
                &old(tree).spec_board(),
                line_of(old(tree)@.nodes, old(tree)@.cursor),
                alpha as int,
                beta as int,
                depth as nat,
            ) is None,
        },
    decreases depth,
{
    let ghost start = tree@;
    let ghost board = tree.spec_board();
    let ghost line = line_of(start.nodes, start.cursor);
    let color = tree.whose_turn();
    proof {
        assert(node_wf(&board, start.nodes, start.cursor));
        lemma_reaches_order(start.nodes, start.cursor, start.root);
        lemma_keeps_same(start.nodes);
    }
    if tree.game_over() {
        let score = tree.score_delta_stone();
        return Some(score);
    }
    if depth == 0 {
        return None;
    }
    proof {
        lemma_turn_line(&board, start, Turn::Pass);
    }
    let _ = tree.turn(color, Turn::Pass);
    let ghost passed = tree@;
    let sub = solve(tree, alpha, beta, (depth - 1) as usize);
    proof {
        let deep = tree@;
        assert(deep.nodes[deep.cursor].parent == passed.nodes[passed.cursor].parent);
        assert(deep.cursor != deep.root);
        lemma_keeps_trans(start.nodes, passed.nodes, deep.nodes);
    }
    tree.undo();
    proof {
        assert(extends(start.nodes, tree@.nodes));
        lemma_extends_line(start.nodes, tree@.nodes, start.cursor);
    }
    let mut best: i32 = match sub {
        None => {
            return None;
        },
        Some(v) => v,
    };
    let ghost first = best;
    let n = tree.board().point_count();
    let mut play: usize = 0;
    let mut cut = (color == Color::Black && best >= beta) || (color == Color::White && best
        <= alpha);
    while play < n && !cut
        invariant
            tree.wf(),
            tree.spec_board() == board,
            start == old(tree)@,
            board == old(tree).spec_board(),
            line == line_of(start.nodes, start.cursor),
            search(&board, line, alpha as int, beta as int, depth as nat) == search_plays(
                &board,
                line,
                alpha as int,
                beta as int,
                depth as nat,
                0,
                first as int,
            ),
            board.size() <= i32::MAX,
            n == board.size(),
            depth > 0,
            play <= n,
            tree@.cursor == start.cursor,
            tree@.root == start.root,
            start.root <= start.cursor,
            keeps(start.nodes, tree@.nodes),
            line_of(tree@.nodes, tree@.cursor) == line,
            !is_over(tree@.nodes, tree@.cursor),
            color == line.to_play,
            color != Color::Empty,
            cut == ((color == Color::Black && best >= beta) || (color == Color::White && best
                <= alpha)),
            search_plays(&board, line, alpha as int, beta as int, depth as nat, play as nat, best as int)
                == search_plays(&board, line, alpha as int, beta as int, depth as nat, 0, first as int),
        decreases n - play,
    {
        let ghost here = tree@;
        proof {
            lemma_turn_line(&board, here, Turn::Play(play));
        }
        let result = tree.turn(color, Turn::Play(play));
        if result == TurnResult::Success || result == TurnResult::SuccessGameOver {
            let ghost played = tree@;
            let sub = if color == Color::Black {
                let low = if alpha >= best { alpha } else { best };
                solve(tree, low, beta, (depth - 1) as usize)
            } else {
                let high = if beta <= best { beta } else { best };
                solve(tree, alpha, high, (depth - 1) as usize)
            };
            proof {
                let deep = tree@;
                assert(deep.nodes[deep.cursor].parent == played.nodes[played.cursor].parent);
                assert(deep.cursor != deep.root);
                lemma_keeps_trans(here.nodes, played.nodes, deep.nodes);
                lemma_keeps_trans(start.nodes, here.nodes, deep.nodes);
            }
            tree.undo();
            proof {
                assert(extends(here.nodes, tree@.nodes));
                assert(extends(start.nodes, tree@.nodes));
                assert(node_wf(&board, here.nodes, here.cursor));
                lemma_extends_line(here.nodes, tree@.nodes, here.cursor);
            }
            match sub {
                None => {
                    return None;
                },
                Some(v) => {
                    if color == Color::Black {
                        if v > best {
                            best = v;
                        }
                    } else {
                        if v < best {
                            best = v;
                        }
                    }
                },
            }
        }
        play += 1;
        cut = (color == Color::Black && best >= beta) || (color == Color::White && best <= alpha);
    }
    Some(best)
}

} // verus!
