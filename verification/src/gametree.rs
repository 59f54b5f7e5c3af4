//! A game of Go with branching paths: a tree of positions joined by turns,
//! with a cursor that plays, undoes and resets.

use vstd::prelude::*;
use crate::engine::Board;
use crate::engine::Color;
use crate::engine::Position;
use crate::region::immortal_stones;
use crate::region::play_result;
use crate::region::stones;

verus! {

/// What a player does on their turn.
#[derive(Clone, Copy, Debug, PartialEq, Eq, Structural)]
pub enum Turn {
    Pass,
    Play(usize),
}

/// How an attempted turn ended.
#[derive(Clone, Copy, Debug, PartialEq, Eq, Structural)]
pub enum TurnResult {
    FailGameAlreadyOver,
    FailNotYourTurn,
    FailStoneAlreadyThere,
    FailKoRule,
    Success,
    SuccessGameOver,
}

/// A mark that a point may carry in a node.
#[derive(Clone, Copy, Debug, PartialEq, Eq, Structural)]
pub enum Symbol {
    Triangle,
    Square,
    Pentagon,
    Circle,
    Blank,
}

struct GameTreeNode {
    children: Vec<(Turn, usize)>,
    symbols: Vec<Symbol>,
    parent: Option<usize>,
    last_turn: Option<Turn>,
    to_play: Color,
    position: Position,
    only_immortal: Position,
}

/// What a node of the tree holds.
pub struct NodeView {
    pub children: Seq<(Turn, usize)>,
    pub symbols: Seq<Symbol>,
    pub parent: Option<usize>,
    pub last_turn: Option<Turn>,
    pub to_play: Color,
    pub colors: Seq<Color>,
    pub immortal: Seq<Color>,
}

/// What a game tree holds: its nodes, the node the cursor is at, and the
/// node that undo and reset stop at.
pub struct TreeView {
    pub nodes: Seq<NodeView>,
    pub cursor: int,
    pub root: int,
}

impl GameTreeNode {
    spec fn view(&self) -> NodeView {
        NodeView {
            children: self.children@,
            symbols: self.symbols@,
            parent: self.parent,
            last_turn: self.last_turn,
            to_play: self.to_play,
            colors: self.position@,
            immortal: self.only_immortal@,
        }
    }
}

/// The position without stones.
pub open spec fn blank_board(board: &Board) -> Seq<Color> {
    Seq::new(board.size(), |p: int| Color::Empty)
}

/// The tree of a new game: one node, the empty position, Black to play.
pub open spec fn first_tree(board: &Board) -> TreeView {
    TreeView {
        nodes: seq![
            NodeView {
                children: Seq::empty(),
                symbols: Seq::new(board.size(), |i: int| Symbol::Blank),
                parent: None,
                last_turn: None,
                to_play: Color::Black,
                colors: blank_board(board),
                immortal: blank_board(board),
            },
        ],
        cursor: 0,
        root: 0,
    }
}

/// Every node leads up to the first.
pub proof fn lemma_reaches_first(board: &Board, t: TreeView, i: int)
    requires
        tree_wf(board, t),
        0 <= i < t.nodes.len(),
    ensures
        reaches(t.nodes, i, 0),
    decreases i,
{
    assert(node_wf(board, t.nodes, i));
    if i > 0 {
        lemma_reaches_first(board, t, t.nodes[i].parent.unwrap() as int);
    }
}

/// Whether a node has an edge for `turn`.
pub open spec fn has_child(children: Seq<(Turn, usize)>, turn: Turn) -> bool {
    exists|k: int| 0 <= k < children.len() && (#[trigger] children[k]).0 == turn
}

/// The child that the edge for `turn` leads to.
pub open spec fn child_of(children: Seq<(Turn, usize)>, turn: Turn) -> int {
    let k = choose|k: int| 0 <= k < children.len() && (#[trigger] children[k]).0 == turn;
    children[k].1 as int
}

/// Whether the two turns that led to node `i` were both passes.
pub open spec fn is_over(nodes: Seq<NodeView>, i: int) -> bool {
    &&& nodes[i].last_turn == Some(Turn::Pass)
    &&& nodes[i].parent matches Some(p) && nodes[p as int].last_turn == Some(Turn::Pass)
}

/// The positions on the way from the first node of the tree to node `i`.
pub open spec fn branch(nodes: Seq<NodeView>, i: int) -> Seq<Seq<Color>>
    decreases i,
{
    match nodes[i].parent {
        Some(p) if 0 <= p < i => branch(nodes, p as int).push(nodes[i].colors),
        _ => seq![nodes[i].colors],
    }
}

/// Whether the position of node `i` is what its turn makes of its parent's:
/// the same for a pass, and for a stone, set on an empty point, the result
/// of the play, which no node on the way to the parent held.
pub open spec fn follows_parent(board: &Board, nodes: Seq<NodeView>, i: int) -> bool {
    let nd = nodes[i];
    let up = nodes[nd.parent.unwrap() as int];
    match nd.last_turn {
        Some(Turn::Play(point)) => {
            &&& point < board.size()
            &&& up.colors[point as int] == Color::Empty
            &&& nd.colors == play_result(board, up.colors, up.to_play, point as int)
            &&& !branch(nodes, nd.parent.unwrap() as int).contains(nd.colors)
        },
        _ => nd.colors == up.colors,
    }
}

/// Whether going up from node `from` leads to node `to`.
pub open spec fn reaches(nodes: Seq<NodeView>, from: int, to: int) -> bool
    decreases from,
{
    from == to || match nodes[from].parent {
        Some(p) if 0 <= p < from => reaches(nodes, p as int, to),
        _ => false,
    }
}

/// Whether `after` holds the nodes of `before`, each with the parent, the
/// turn, the color to play and the position that it had.
pub open spec fn extends(before: Seq<NodeView>, after: Seq<NodeView>) -> bool {
    &&& before.len() <= after.len()
    &&& forall|i: int|
        0 <= i < before.len() ==> (#[trigger] after[i]).parent == before[i].parent
            && after[i].last_turn == before[i].last_turn && after[i].to_play
            == before[i].to_play && after[i].colors == before[i].colors
}

/// Whether `after` holds the nodes of `before`, each as it was but that it
/// may have more edges after those it had.
pub open spec fn keeps(before: Seq<NodeView>, after: Seq<NodeView>) -> bool {
    &&& extends(before, after)
    &&& forall|i: int|
        0 <= i < before.len() ==> (#[trigger] after[i]).symbols == before[i].symbols
            && after[i].immortal == before[i].immortal && before[i].children.len()
            <= after[i].children.len() && after[i].children.take(before[i].children.len() as int)
            == before[i].children
}

/// New nodes end no game at an old one.
pub proof fn lemma_extends_over(before: Seq<NodeView>, after: Seq<NodeView>, i: int)
    requires
        extends(before, after),
        0 <= i < before.len(),
        before[i].parent matches Some(p) ==> p < i,
    ensures
        is_over(after, i) == is_over(before, i),
{
    if before[i].parent is Some {
        let p = before[i].parent.unwrap() as int;
        assert(after[p].last_turn == before[p].last_turn);
    }
}

/// New nodes change nothing on the way to an old one.
pub proof fn lemma_extends_branch(before: Seq<NodeView>, after: Seq<NodeView>, i: int, to: int)
    requires
        extends(before, after),
        0 <= i < before.len(),
    ensures
        branch(after, i) == branch(before, i),
        reaches(after, i, to) == reaches(before, i, to),
    decreases i,
{
    match before[i].parent {
        Some(p) if 0 <= p < i => {
            lemma_extends_branch(before, after, p as int, to);
        },
        _ => {},
    }
}

/// A node that leads up to another comes no earlier.
pub proof fn lemma_reaches_order(nodes: Seq<NodeView>, from: int, to: int)
    requires
        reaches(nodes, from, to),
    ensures
        to <= from,
    decreases from,
{
    if from != to {
        lemma_reaches_order(nodes, nodes[from].parent.unwrap() as int, to);
    }
}

/// Whether node `i` is sound: it covers the board, it follows its parent,
/// which comes before it, has an edge to it and is no end of a game, with
/// the colors reversed, and each of its edges leads to a later node that
/// this turn made, one edge for a turn, the earlier node first.
pub open spec fn node_wf(board: &Board, nodes: Seq<NodeView>, i: int) -> bool {
    let nd = nodes[i];
    &&& nd.colors.len() == board.size()
    &&& nd.immortal.len() == board.size()
    &&& nd.symbols.len() == board.size()
    &&& nd.to_play != Color::Empty
    &&& i == 0 ==> nd.parent is None && nd.last_turn is None && nd.to_play == Color::Black
        && nd.colors == blank_board(board) && nd.immortal == blank_board(board)
    &&& i > 0 ==> nd.immortal == immortal_stones(board, nd.colors)
    &&& i > 0 ==> (nd.parent matches Some(p) && p < i && nd.last_turn is Some && nd.to_play
        == nodes[p as int].to_play.opponent())
    &&& i > 0 ==> follows_parent(board, nodes, i)
    &&& forall|k: int|
        0 <= k < nd.children.len() ==> {
            let c = (#[trigger] nd.children[k]).1 as int;
            i < c < nodes.len() && nodes[c].parent == Some(i as usize) && nodes[c].last_turn
                == Some(nd.children[k].0)
        }
    &&& forall|k: int, j: int|
        0 <= k < nd.children.len() && 0 <= j < nd.children.len() && k != j ==> (
        #[trigger] nd.children[k]).0 != (#[trigger] nd.children[j]).0
    &&& forall|k: int, j: int|
        0 <= k < j < nd.children.len() ==> (#[trigger] nd.children[k]).1 < (
        #[trigger] nd.children[j]).1
    &&& i > 0
        ==> !is_over(nodes, nd.parent.unwrap() as int) && nodes[nd.parent.unwrap() as int].children.contains(
        (nd.last_turn.unwrap(), i as usize),
    )
}

/// Whether a tree is sound.
pub open spec fn tree_wf(board: &Board, t: TreeView) -> bool {
    &&& board.wf()
    &&& 1 <= t.nodes.len() <= usize::MAX
    &&& 0 <= t.cursor < t.nodes.len()
    &&& 0 <= t.root < t.nodes.len()
    &&& reaches(t.nodes, t.cursor, t.root)
    &&& forall|i: int| 0 <= i < t.nodes.len() ==> node_wf(board, t.nodes, i)
}

/// `Success`, or `SuccessGameOver` where the cursor now follows two passes.
pub open spec fn outcome(t: TreeView) -> TurnResult {
    if is_over(t.nodes, t.cursor) {
        TurnResult::SuccessGameOver
    } else {
        TurnResult::Success
    }
}

/// The tree with a new last node under the cursor, reached by `turn` and
/// holding `colors`, and the cursor at it.
pub open spec fn grown(board: &Board, t: TreeView, turn: Turn, colors: Seq<Color>) -> TreeView {
    let cur = t.nodes[t.cursor];
    let parent = NodeView { children: cur.children.push((turn, t.nodes.len() as usize)), ..cur };
    let child = NodeView {
        children: Seq::empty(),
        symbols: Seq::new(board.size(), |i: int| Symbol::Blank),
        parent: Some(t.cursor as usize),
        last_turn: Some(turn),
        to_play: cur.to_play.opponent(),
        colors: colors,
        immortal: immortal_stones(board, colors),
    };
    TreeView {
        nodes: t.nodes.update(t.cursor, parent).push(child),
        cursor: t.nodes.len() as int,
        root: t.root,
    }
}

/// The position that `turn` leads to from `colors`.
pub open spec fn turn_colors(board: &Board, colors: Seq<Color>, color: Color, turn: Turn) -> Seq<
    Color,
> {
    match turn {
        Turn::Pass => colors,
        Turn::Play(point) => play_result(board, colors, color, point as int),
    }
}

/// What a turn does to a tree, and how it ends. It fails, and leaves the
/// tree as it is, when the game is over, when it is the other color's turn,
/// when the point is taken, and when the stone would bring back a position
/// of this line of play. A turn that was made from this node before leads
/// to the same child again; any other makes a new node.
pub open spec fn turn_step(board: &Board, t: TreeView, color: Color, turn: Turn) -> (
    TurnResult,
    TreeView,
) {
    let cur = t.nodes[t.cursor];
    if is_over(t.nodes, t.cursor) {
        (TurnResult::FailGameAlreadyOver, t)
    } else if cur.to_play != color {
        (TurnResult::FailNotYourTurn, t)
    } else if has_child(cur.children, turn) {
        let moved = TreeView { cursor: child_of(cur.children, turn), ..t };
        (outcome(moved), moved)
    } else if turn matches Turn::Play(point) && cur.colors[point as int] != Color::Empty {
        (TurnResult::FailStoneAlreadyThere, t)
    } else if turn is Play && branch(t.nodes, t.cursor).contains(
        turn_colors(board, cur.colors, color, turn),
    ) {
        (TurnResult::FailKoRule, t)
    } else {
        let next = grown(board, t, turn, turn_colors(board, cur.colors, color, turn));
        (outcome(next), next)
    }
}

/// A turn that succeeded from a node leads, when it is made from that node
/// again, to the same child with the same result, and makes no new node.
pub proof fn lemma_turn_again(board: &Board, t: TreeView, color: Color, turn: Turn)
    requires
        tree_wf(board, t),
        turn_step(board, t, color, turn).0 == TurnResult::Success || turn_step(
            board,
            t,
            color,
            turn,
        ).0 == TurnResult::SuccessGameOver,
    ensures
        ({
            let (result, next) = turn_step(board, t, color, turn);
            let back = TreeView { cursor: t.cursor, ..next };
            turn_step(board, back, color, turn) == (result, next)
        }),
{
    let (result, next) = turn_step(board, t, color, turn);
    let back = TreeView { cursor: t.cursor, ..next };
    let cur = t.nodes[t.cursor];
    assert(node_wf(board, t.nodes, t.cursor));
    if has_child(cur.children, turn) {
        assert(back == t);
    } else {
        let edges = back.nodes[back.cursor].children;
        assert(edges == cur.children.push((turn, t.nodes.len() as usize)));
        assert(edges[cur.children.len() as int].0 == turn);
        assert(has_child(edges, turn));
        let k = choose|k: int| 0 <= k < edges.len() && (#[trigger] edges[k]).0 == turn;
        if k < cur.children.len() {
            assert(cur.children[k].0 == turn);
        }
        assert(child_of(edges, turn) == t.nodes.len());
        assert(next == (TreeView { cursor: t.nodes.len() as int, ..back }));
    }
}

/// After a pass that does not end the game, a pass of the other color
/// ends it, and no turn of either color is taken after that.
pub proof fn lemma_two_passes(board: &Board, t: TreeView, color: Color, later: Color, turn: Turn)
    requires
        tree_wf(board, t),
        turn_step(board, t, color, Turn::Pass).0 == TurnResult::Success,
    ensures
        ({
            let first = turn_step(board, t, color, Turn::Pass).1;
            let (result, second) = turn_step(board, first, color.opponent(), Turn::Pass);
            &&& result == TurnResult::SuccessGameOver
            &&& turn_step(board, second, later, turn) == (TurnResult::FailGameAlreadyOver, second)
        }),
{
    let first = turn_step(board, t, color, Turn::Pass).1;
    let cur = t.nodes[t.cursor];
    assert(node_wf(board, t.nodes, t.cursor));
    if has_child(cur.children, Turn::Pass) {
        let k = choose|k: int|
            0 <= k < cur.children.len() && (#[trigger] cur.children[k]).0 == Turn::Pass;
        let c = cur.children[k].1 as int;
        assert(node_wf(board, t.nodes, c));
        let mid = t.nodes[c];
        if has_child(mid.children, Turn::Pass) {
            let j = choose|j: int|
                0 <= j < mid.children.len() && (#[trigger] mid.children[j]).0 == Turn::Pass;
            assert(node_wf(board, t.nodes, mid.children[j].1 as int));
        }
    }
}

/// A game of Go on a board, possibly with branching paths.
pub struct GameTree {
    board: Board,
    tree: Vec<GameTreeNode>,
    cursor: usize,
    root: usize,
}

impl GameTree {
    /// The nodes of the tree, the cursor and the root.
    pub closed spec fn view(&self) -> TreeView {
        TreeView {
            nodes: Seq::new(self.tree@.len(), |i: int| self.tree@[i]@),
            cursor: self.cursor as int,
            root: self.root as int,
        }
    }

    /// The board that the game is played on.
    pub closed spec fn spec_board(&self) -> Board {
        self.board
    }

    /// Every stored position keeps the partition invariant.
    pub closed spec fn inv(&self) -> bool {
        forall|i: int|
            0 <= i < self.tree@.len() ==> (#[trigger] self.tree@[i]).position.wf(&self.board)
                && self.tree@[i].only_immortal.wf(&self.board)
    }

    /// The tree is sound.
    pub open spec fn wf(&self) -> bool {
        &&& self.inv()
        &&& tree_wf(&self.spec_board(), self@)
    }

    /// A game on `board` with one node, the empty position, Black to play.
    pub fn new(board: Board) -> (game: GameTree)
        requires
            board.wf(),
        ensures
            game.wf(),
            game.spec_board() == board,
            game@ == first_tree(&board),
    {
        let symbols = blank_symbols(board.point_count());
        let node = GameTreeNode {
            children: Vec::new(),
            symbols,
            parent: None,
            last_turn: None,
            to_play: Color::Black,
            position: board.empty_position(),
            only_immortal: board.empty_position(),
        };
        let mut tree: Vec<GameTreeNode> = Vec::new();
        tree.push(node);
        let game = GameTree { board, tree, cursor: 0, root: 0 };
        proof {
            assert(game@.nodes[0] == game.tree@[0]@);
            assert(game@.nodes[0].colors =~= blank_board(&game.board));
            assert(game@.nodes[0].immortal =~= blank_board(&game.board));
            assert(game@.nodes =~= first_tree(&game.board).nodes);
        }
        game
    }

    /// Plays a turn for `color` at the cursor.
    pub fn turn(&mut self, color: Color, turn: Turn) -> (result: TurnResult)
        requires
            old(self).wf(),
            turn matches Turn::Play(point) ==> point < old(self).spec_board().size(),
        ensures
            final(self).wf(),
            final(self).spec_board() == old(self).spec_board(),
            (result, final(self)@) == turn_step(&old(self).spec_board(), old(self)@, color, turn),
    {
        assert(node_wf(&self.board, self@.nodes, self.cursor as int));
        assert(self@.nodes[self.cursor as int] == self.tree@[self.cursor as int]@);
        if self.game_over() {
            return TurnResult::FailGameAlreadyOver;
        }
        if self.tree[self.cursor].to_play != color {
            return TurnResult::FailNotYourTurn;
        }
        match self.find_child(turn) {
            Some(child) => {
                self.cursor = child;
                assert(final(self)@.nodes =~= old(self)@.nodes);
            },
            None => {
                let mut new_pos = self.tree[self.cursor].position.duplicate();
                if let Turn::Play(point) = turn {
                    if self.tree[self.cursor].position.get(point) != Color::Empty {
                        return TurnResult::FailStoneAlreadyThere;
                    }
                    self.board.play(&mut new_pos, color, point);
                    if self.seen_in_this_branch(&new_pos) {
                        return TurnResult::FailKoRule;
                    }
                }
                self.add_child(turn, new_pos);
            },
        }
        if self.game_over() {
            TurnResult::SuccessGameOver
        } else {
            TurnResult::Success
        }
    }

    /// Sets the symbol on a point at the cursor.
    pub fn mark(&mut self, point: usize, symbol: Symbol)
        requires
            old(self).wf(),
            point < old(self).spec_board().size(),
        ensures
            final(self).wf(),
            final(self).spec_board() == old(self).spec_board(),
            final(self)@ == (TreeView {
                nodes: old(self)@.nodes.update(
                    old(self)@.cursor,
                    (NodeView {
                        symbols: old(self)@.nodes[old(self)@.cursor].symbols.update(
                            point as int,
                            symbol,
                        ),
                        ..old(self)@.nodes[old(self)@.cursor]
                    }),
                ),
                ..old(self)@
            }),
    {
        let ghost before = self@;
        let ghost cursor = self.cursor as int;
        assert(node_wf(&self.board, before.nodes, cursor));
        assert(before.nodes[cursor] == self.tree@[cursor]@);
        self.tree[self.cursor].symbols[point] = symbol;
        proof {
            let after = self@;
            let changed = NodeView {
                symbols: before.nodes[cursor].symbols.update(point as int, symbol),
                ..before.nodes[cursor]
            };
            assert(after.nodes[cursor] == self.tree@[cursor]@);
            assert(after.nodes =~= before.nodes.update(cursor, changed));
            assert(extends(before.nodes, after.nodes));
            lemma_extends_branch(before.nodes, after.nodes, cursor, before.root);
            assert forall|i: int| 0 <= i < after.nodes.len() implies node_wf(
                &self.board,
                after.nodes,
                i,
            ) by {
                assert(node_wf(&self.board, before.nodes, i));
                if i > 0 {
                    let up = before.nodes[i].parent.unwrap() as int;
                    lemma_extends_branch(before.nodes, after.nodes, up, 0);
                    assert(node_wf(&self.board, before.nodes, up));
                    lemma_extends_over(before.nodes, after.nodes, up);
                    let edge = (before.nodes[i].last_turn.unwrap(), i as usize);
                    let k = choose|k: int|
                        0 <= k < before.nodes[up].children.len() && before.nodes[up].children[k]
                            == edge;
                    assert(after.nodes[up].children[k] == edge);
                }
            }
        }
    }

    /// The score of the position at the cursor: Black's stones less White's.
    pub fn score_delta_stone(&self) -> (score: i32)
        requires
            self.wf(),
            self.spec_board().size() <= i32::MAX,
        ensures
            score == stones(self@.nodes[self@.cursor].colors, Color::Black) - stones(
                self@.nodes[self@.cursor].colors,
                Color::White,
            ),
    {
        assert(self@.nodes[self.cursor as int] == self.tree@[self.cursor as int]@);
        self.board.score_delta_stone(&self.tree[self.cursor].position)
    }

    /// The child that `turn` leads to from the cursor, if it was made before.
    fn find_child(&self, turn: Turn) -> (found: Option<usize>)
        requires
            self.wf(),
        ensures
            found is Some <==> has_child(self@.nodes[self@.cursor].children, turn),
            found matches Some(c) ==> c == child_of(self@.nodes[self@.cursor].children, turn) && c
                < self@.nodes.len(),
    {
        assert(node_wf(&self.board, self@.nodes, self.cursor as int));
        assert(self@.nodes[self.cursor as int] == self.tree@[self.cursor as int]@);
        let ghost children = self@.nodes[self.cursor as int].children;
        let mut k: usize = 0;
        while k < self.tree[self.cursor].children.len()
            invariant
                self.cursor < self.tree@.len(),
                children == self.tree@[self.cursor as int].children@,
                children == self@.nodes[self.cursor as int].children,
                node_wf(&self.board, self@.nodes, self.cursor as int),
                k <= children.len(),
                forall|j: int| 0 <= j < k ==> (#[trigger] children[j]).0 != turn,
            decreases children.len() - k,
        {
            let edge = self.tree[self.cursor].children[k];
            if edge.0 == turn {
                proof {
                    assert(children[k as int].0 == turn);
                    let first = choose|j: int|
                        0 <= j < children.len() && (#[trigger] children[j]).0 == turn;
                    if first != k {
                        assert(children[first].0 != children[k as int].0);
                    }
                }
                return Some(edge.1);
            }
            k += 1;
        }
        None
    }

    /// Whether a position occurred on the way from the first node to the
    /// cursor.
    fn seen_in_this_branch(&self, position: &Position) -> (seen: bool)
        requires
            self.wf(),
        ensures
            seen == branch(self@.nodes, self@.cursor).contains(position@),
    {
        let ghost nodes = self@.nodes;
        let ghost target = position@;
        let mut walk = self.cursor;
        loop
            invariant
                self.wf(),
                nodes == self@.nodes,
                target == position@,
                walk < nodes.len(),
                branch(nodes, self@.cursor).contains(target) <==> branch(
                    nodes,
                    walk as int,
                ).contains(target),
            decreases walk,
        {
            assert(node_wf(&self.board, nodes, walk as int));
            assert(nodes[walk as int] == self.tree@[walk as int]@);
            let ghost here = branch(nodes, walk as int);
            if self.tree[walk].position.same_as(position) {
                assert(here[here.len() - 1] == target);
                return true;
            }
            if walk == 0 {
                assert(here =~= seq![nodes[0].colors]);
                return false;
            }
            let up = self.tree[walk].parent.unwrap();
            proof {
                let above = branch(nodes, up as int);
                assert(here == above.push(nodes[walk as int].colors));
                if here.contains(target) {
                    let w = choose|w: int| 0 <= w < here.len() && here[w] == target;
                    assert(above[w] == target);
                }
                if above.contains(target) {
                    let w = choose|w: int| 0 <= w < above.len() && above[w] == target;
                    assert(here[w] == target);
                }
            }
            walk = up;
        }
    }

    /// Adds a node for `turn` under the cursor and moves the cursor to it.
    fn add_child(&mut self, turn: Turn, position: Position)
        requires
            old(self).wf(),
            position.wf(&old(self).spec_board()),
            !has_child(old(self)@.nodes[old(self)@.cursor].children, turn),
            !is_over(old(self)@.nodes, old(self)@.cursor),
            position@ == turn_colors(
                &old(self).spec_board(),
                old(self)@.nodes[old(self)@.cursor].colors,
                old(self)@.nodes[old(self)@.cursor].to_play,
                turn,
            ),
            turn matches Turn::Play(point) ==> point < old(self).spec_board().size() && old(
                self,
            )@.nodes[old(self)@.cursor].colors[point as int] == Color::Empty && !branch(
                old(self)@.nodes,
                old(self)@.cursor,
            ).contains(position@),
        ensures
            final(self).wf(),
            final(self).spec_board() == old(self).spec_board(),
            final(self)@ == grown(&old(self).spec_board(), old(self)@, turn, position@),
    {
        let ghost before = self@;
        let ghost cursor = self.cursor as int;
        assert(node_wf(&self.board, before.nodes, cursor));
        assert(before.nodes[cursor] == self.tree@[cursor]@);
        let mut only_immortal = position.duplicate();
        self.board.keep_only_immortal(&mut only_immortal);
        let new_node = GameTreeNode {
            children: Vec::new(),
            symbols: blank_symbols(self.board.point_count()),
            parent: Some(self.cursor),
            last_turn: Some(turn),
            to_play: self.tree[self.cursor].to_play.reverse(),
            position,
            only_immortal,
        };
        let ghost child = new_node@;
        self.tree.push(new_node);
        let new_cursor = self.tree.len() - 1;
        self.tree[self.cursor].children.push((turn, new_cursor));
        self.cursor = new_cursor;
        proof {
            let after = self@;
            let expected = grown(&self.board, before, turn, position@);
            assert(after.nodes.len() == expected.nodes.len());
            assert forall|i: int| 0 <= i < after.nodes.len() implies after.nodes[i]
                == expected.nodes[i] by {
                assert(after.nodes[i] == self.tree@[i]@);
                if i < before.nodes.len() {
                    assert(before.nodes[i] == old(self).tree@[i]@);
                }
                if i == cursor {
                    assert(after.nodes[i].children =~= expected.nodes[i].children);
                }
                if i == new_cursor {
                    assert(child.children =~= Seq::<(Turn, usize)>::empty());
                }
            }
            assert(after.nodes =~= expected.nodes);
            assert(extends(before.nodes, after.nodes));
            lemma_extends_branch(before.nodes, after.nodes, cursor, before.root);
            assert forall|i: int| 0 <= i < after.nodes.len() implies node_wf(
                &self.board,
                after.nodes,
                i,
            ) by {
                if i < before.nodes.len() {
                    assert(node_wf(&self.board, before.nodes, i));
                    if i > 0 {
                        let up = before.nodes[i].parent.unwrap() as int;
                        lemma_extends_branch(before.nodes, after.nodes, up, 0);
                        assert(node_wf(&self.board, before.nodes, up));
                        lemma_extends_over(before.nodes, after.nodes, up);
                        let edge = (before.nodes[i].last_turn.unwrap(), i as usize);
                        let k = choose|k: int|
                            0 <= k < before.nodes[up].children.len()
                                && before.nodes[up].children[k] == edge;
                        assert(after.nodes[up].children[k] == edge);
                    }
                } else {
                    let edges = after.nodes[cursor].children;
                    assert(edges[edges.len() - 1] == (turn, new_cursor));
                    lemma_extends_over(before.nodes, after.nodes, cursor);
                }
            }
        }
    }

    /// Whether the two most recent turns were both passes.
    pub fn game_over(&self) -> (over: bool)
        requires
            self.wf(),
        ensures
            over == is_over(self@.nodes, self@.cursor),
    {
        assert(node_wf(&self.board, self@.nodes, self.cursor as int));
        assert(self@.nodes[self.cursor as int] == self.tree@[self.cursor as int]@);
        match self.tree[self.cursor].last_turn {
            Some(Turn::Pass) => {
                match self.tree[self.cursor].parent {
                    Some(prev) => {
                        assert(self@.nodes[prev as int] == self.tree@[prev as int]@);
                        match self.tree[prev].last_turn {
                            Some(Turn::Pass) => true,
                            _ => false,
                        }
                    },
                    None => false,
                }
            },
            _ => false,
        }
    }

    /// Moves the cursor to the parent; at the root it stays.
    pub fn undo(&mut self)
        requires
            old(self).wf(),
        ensures
            final(self).wf(),
            final(self).spec_board() == old(self).spec_board(),
            final(self)@.nodes == old(self)@.nodes,
            final(self)@.root == old(self)@.root,
            final(self)@.cursor == (if old(self)@.cursor != old(self)@.root {
                match old(self)@.nodes[old(self)@.cursor].parent {
                    Some(p) => p as int,
                    None => old(self)@.cursor,
                }
            } else {
                old(self)@.cursor
            }),
    {
        assert(node_wf(&self.board, self@.nodes, self.cursor as int));
        assert(self@.nodes[self.cursor as int] == self.tree@[self.cursor as int]@);
        if self.cursor != self.root {
            if let Some(parent) = self.tree[self.cursor].parent {
                self.cursor = parent;
            }
        }
        assert(final(self)@.nodes =~= old(self)@.nodes);
    }

    /// Moves the cursor to the root.
    pub fn reset(&mut self)
        requires
            old(self).wf(),
        ensures
            final(self).wf(),
            final(self).spec_board() == old(self).spec_board(),
            final(self)@ == (TreeView { cursor: old(self)@.root, ..old(self)@ }),
    {
        self.cursor = self.root;
        assert(final(self)@.nodes =~= old(self)@.nodes);
    }

    /// Makes the node at the cursor the root.
    pub fn set_root_here(&mut self)
        requires
            old(self).wf(),
        ensures
            final(self).wf(),
            final(self).spec_board() == old(self).spec_board(),
            final(self)@ == (TreeView { root: old(self)@.cursor, ..old(self)@ }),
    {
        self.root = self.cursor;
        assert(final(self)@.nodes =~= old(self)@.nodes);
    }

    /// The turn that led to the cursor; none at the root.
    pub fn last_turn(&self) -> (turn: Option<Turn>)
        requires
            self.wf(),
        ensures
            turn == (if self@.cursor == self@.root {
                None
            } else {
                self@.nodes[self@.cursor].last_turn
            }),
    {
        assert(self@.nodes[self.cursor as int] == self.tree@[self.cursor as int]@);
        if self.cursor == self.root {
            None
        } else {
            self.tree[self.cursor].last_turn
        }
    }

    /// The color of a point at the cursor.
    pub fn color_at(&self, point: usize) -> (color: Color)
        requires
            self.wf(),
            point < self.spec_board().size(),
        ensures
            color == self@.nodes[self@.cursor].colors[point as int],
    {
        assert(node_wf(&self.board, self@.nodes, self.cursor as int));
        assert(self@.nodes[self.cursor as int] == self.tree@[self.cursor as int]@);
        self.tree[self.cursor].position.get(point)
    }

    /// The symbol on a point at the cursor.
    pub fn symbol_at(&self, point: usize) -> (symbol: Symbol)
        requires
            self.wf(),
            point < self.spec_board().size(),
        ensures
            symbol == self@.nodes[self@.cursor].symbols[point as int],
    {
        assert(node_wf(&self.board, self@.nodes, self.cursor as int));
        assert(self@.nodes[self.cursor as int] == self.tree@[self.cursor as int]@);
        self.tree[self.cursor].symbols[point]
    }

    /// Whether the stone on a point at the cursor lives whatever happens.
    pub fn is_immortal(&self, point: usize) -> (safe: bool)
        requires
            self.wf(),
            point < self.spec_board().size(),
        ensures
            safe == (self@.nodes[self@.cursor].immortal[point as int] != Color::Empty),
    {
        assert(node_wf(&self.board, self@.nodes, self.cursor as int));
        assert(self@.nodes[self.cursor as int] == self.tree@[self.cursor as int]@);
        self.tree[self.cursor].only_immortal.get(point) != Color::Empty
    }

    /// Moves the cursor to node `i` of a tree whose root is the first node.
    pub(crate) fn goto(&mut self, i: usize)
        requires
            old(self).wf(),
            old(self)@.root == 0,
            i < old(self)@.nodes.len(),
        ensures
            final(self).wf(),
            final(self).spec_board() == old(self).spec_board(),
            final(self)@ == (TreeView { cursor: i as int, ..old(self)@ }),
    {
        proof {
            lemma_reaches_first(&self.board, self@, i as int);
        }
        self.cursor = i;
        assert(final(self)@.nodes =~= old(self)@.nodes);
    }

    /// The edges of node `i`.
    pub(crate) fn children_at(&self, i: usize) -> (children: &Vec<(Turn, usize)>)
        requires
            i < self@.nodes.len(),
        ensures
            children@ == self@.nodes[i as int].children,
    {
        assert(self@.nodes[i as int] == self.tree@[i as int]@);
        &self.tree[i].children
    }

    /// The symbols of node `i`.
    pub(crate) fn symbols_at(&self, i: usize) -> (symbols: &Vec<Symbol>)
        requires
            i < self@.nodes.len(),
        ensures
            symbols@ == self@.nodes[i as int].symbols,
    {
        assert(self@.nodes[i as int] == self.tree@[i as int]@);
        &self.tree[i].symbols
    }

    /// The node that undo and reset stop at.
    pub(crate) fn root_index(&self) -> (root: usize)
        ensures
            root == self@.root,
    {
        self.root
    }

    /// The number of nodes in the tree.
    pub fn node_count(&self) -> (count: usize)
        ensures
            count == self@.nodes.len(),
    {
        self.tree.len()
    }

    /// The color to play at the cursor.
    pub fn whose_turn(&self) -> (color: Color)
        requires
            self.wf(),
        ensures
            color == self@.nodes[self@.cursor].to_play,
            color != Color::Empty,
    {
        assert(node_wf(&self.board, self@.nodes, self.cursor as int));
        assert(self@.nodes[self.cursor as int] == self.tree@[self.cursor as int]@);
        self.tree[self.cursor].to_play
    }

    /// The board that the game is played on.
    pub fn board(&self) -> (board: &Board)
        ensures
            *board == self.spec_board(),
    {
        &self.board
    }
}

/// `n` blank symbols.
fn blank_symbols(n: usize) -> (symbols: Vec<Symbol>)
    ensures
        symbols@ == Seq::new(n as nat, |i: int| Symbol::Blank),
{
    let mut symbols: Vec<Symbol> = Vec::new();
    while symbols.len() < n
        invariant
            symbols@.len() <= n,
            forall|i: int| 0 <= i < symbols@.len() ==> symbols@[i] == Symbol::Blank,
        decreases n - symbols@.len(),
    {
        symbols.push(Symbol::Blank);
    }
    assert(symbols@ =~= Seq::new(n as nat, |i: int| Symbol::Blank));
    symbols
}

} // verus!
