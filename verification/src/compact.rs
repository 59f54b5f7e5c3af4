//! The compact form of a game tree, for storage: of each node only its
//! edges and the symbols that are not blank. Everything else is made again
//! by playing the turns from the first node.

use vstd::prelude::*;
use crate::engine::Board;
use crate::engine::lemma_board_size;
use crate::gametree::extends;
use crate::gametree::first_tree;
use crate::gametree::grown;
use crate::gametree::has_child;
use crate::gametree::is_over;
use crate::gametree::lemma_extends_branch;
use crate::gametree::node_wf;
use crate::gametree::tree_wf;
use crate::gametree::turn_colors;
use crate::gametree::turn_step;
use crate::gametree::GameTree;
use crate::gametree::NodeView;
use crate::gametree::Symbol;
use crate::gametree::TreeView;
use crate::gametree::Turn;
use crate::gametree::TurnResult;

verus! {

/// A node in compact form: its edges, and its symbols that are not blank,
/// each with its point.
pub struct CompactGTN {
    pub children: Vec<(Turn, usize)>,
    pub symbols: Vec<(usize, Symbol)>,
}

/// What a compact node holds.
pub struct CompactView {
    pub children: Seq<(Turn, usize)>,
    pub symbols: Seq<(usize, Symbol)>,
}

impl CompactGTN {
    /// What the node holds.
    pub open spec fn view(&self) -> CompactView {
        CompactView { children: self.children@, symbols: self.symbols@ }
    }
}

/// What a list of compact nodes holds.
pub open spec fn compact_views(nodes: Seq<CompactGTN>) -> Seq<CompactView> {
    Seq::new(nodes.len(), |i: int| nodes[i]@)
}

/// The symbols of `symbols` that are not blank, each with its point, in
/// the order of the points.
pub open spec fn listed(symbols: Seq<Symbol>) -> Seq<(usize, Symbol)>
    decreases symbols.len(),
{
    if symbols.len() == 0 {
        Seq::empty()
    } else if symbols.last() == Symbol::Blank {
        listed(symbols.drop_last())
    } else {
        listed(symbols.drop_last()).push(((symbols.len() - 1) as usize, symbols.last()))
    }
}

/// The symbols `base` with each symbol of `list` set on its point, in the
/// order of the list.
pub open spec fn marked(base: Seq<Symbol>, list: Seq<(usize, Symbol)>) -> Seq<Symbol>
    decreases list.len(),
{
    if list.len() == 0 {
        base
    } else {
        marked(base, list.drop_last()).update(list.last().0 as int, list.last().1)
    }
}

/// The turn of the first edge from index `from` on that leads to node `c`.
pub open spec fn edge_in(children: Seq<(Turn, usize)>, c: int, from: int) -> Option<Turn>
    decreases children.len() - from,
{
    if from < 0 || from >= children.len() {
        None
    } else if children[from].1 == c {
        Some(children[from].0)
    } else {
        edge_in(children, c, from + 1)
    }
}

/// The first node from `from` on, before node `c`, with an edge to `c`,
/// and the turn of that edge.
pub open spec fn parent_in(input: Seq<CompactView>, c: int, from: int) -> Option<(usize, Turn)>
    decreases c - from,
{
    if from < 0 || from >= c || from >= input.len() {
        None
    } else {
        match edge_in(input[from].children, c, 0) {
            Some(turn) => Some((from as usize, turn)),
            None => parent_in(input, c, from + 1),
        }
    }
}

/// The tree that holds the first `upto` nodes of `input`, each made by
/// playing, from the node that has the first edge to it, the turn of that
/// edge. `None` where a node has no such edge, where the turn fails, or
/// where it was made before.
pub open spec fn replay(board: &Board, input: Seq<CompactView>, upto: nat) -> Option<TreeView>
    decreases upto,
{
    if upto <= 1 {
        Some(first_tree(board))
    } else {
        match replay(board, input, (upto - 1) as nat) {
            None => None,
            Some(t) => match parent_in(input, upto - 1, 0) {
                None => None,
                Some((i, turn)) => {
                    let at = TreeView { cursor: i as int, ..t };
                    let (result, next) = turn_step(board, at, t.nodes[i as int].to_play, turn);
                    if (turn matches Turn::Play(point) ==> point < board.size()) && (result
                        == TurnResult::Success || result == TurnResult::SuccessGameOver)
                        && next.nodes.len() == upto {
                        Some(next)
                    } else {
                        None
                    }
                },
            },
        }
    }
}

/// Whether every symbol of `input` lies on a point of the board.
pub open spec fn symbols_fit(board: &Board, input: Seq<CompactView>) -> bool {
    forall|i: int, j: int|
        0 <= i < input.len() && 0 <= j < input[i].symbols.len() ==> (
        #[trigger] input[i].symbols[j]).0 < board.size()
}

/// The tree that a compact form stands for, with the cursor at the root:
/// the turns are replayed, which must give each node the edges that the
/// compact form lists, and the symbols are set. `None` where there is no
/// node, where the root is none of the nodes, where the replay fails or
/// gives other edges, and where a symbol lies on no point.
pub open spec fn restored(board: &Board, root: usize, input: Seq<CompactView>) -> Option<
    TreeView,
> {
    if input.len() == 0 || root >= input.len() {
        None
    } else {
        match replay(board, input, input.len()) {
            None => None,
            Some(t) => if t.nodes.len() == input.len() && (forall|i: int|
                0 <= i < input.len() ==> (#[trigger] t.nodes[i]).children == input[i].children)
                && symbols_fit(board, input) {
                Some(
                    TreeView {
                        nodes: Seq::new(
                            input.len(),
                            |i: int|
                                NodeView {
                                    symbols: marked(t.nodes[i].symbols, input[i].symbols),
                                    ..t.nodes[i]
                                },
                        ),
                        cursor: root as int,
                        root: root as int,
                    },
                )
            } else {
                None
            },
        }
    }
}

/// The edges of a node that lead to nodes below `c`.
pub open spec fn kids_below(children: Seq<(Turn, usize)>, c: int) -> Seq<(Turn, usize)>
    decreases children.len(),
{
    if children.len() == 0 || children.last().1 < c {
        children
    } else {
        kids_below(children.drop_last(), c)
    }
}

/// The tree as it was when it had `c` nodes: without symbols, the cursor
/// at the last node and the root at the first.
pub open spec fn early(board: &Board, t: TreeView, c: nat) -> TreeView {
    TreeView {
        nodes: Seq::new(
            c,
            |i: int|
                NodeView {
                    children: kids_below(t.nodes[i].children, c as int),
                    symbols: Seq::new(board.size(), |p: int| Symbol::Blank),
                    ..t.nodes[i]
                },
        ),
        cursor: c - 1,
        root: 0,
    }
}

/// Whether the edges lead to later and later nodes.
pub open spec fn rising(children: Seq<(Turn, usize)>) -> bool {
    forall|k: int, j: int|
        0 <= k < j < children.len() ==> (#[trigger] children[k]).1 < (#[trigger] children[j]).1
}

/// Of rising edges, those that lead below `c` are the first so many.
proof fn lemma_kids_below(children: Seq<(Turn, usize)>, c: int)
    requires
        rising(children),
    ensures
        kids_below(children, c).len() <= children.len(),
        kids_below(children, c) == children.take(kids_below(children, c).len() as int),
        forall|k: int|
            0 <= k < children.len() ==> ((#[trigger] children[k]).1 < c <==> k < kids_below(
                children,
                c,
            ).len()),
    decreases children.len(),
{
    if children.len() == 0 || children.last().1 < c {
        assert(children.take(children.len() as int) =~= children);
        assert forall|k: int| 0 <= k < children.len() implies (#[trigger] children[k]).1 < c by {
            if k < children.len() - 1 {
                assert(children[k].1 < children[children.len() - 1].1);
            }
        }
    } else {
        let rest = children.drop_last();
        assert(rising(rest)) by {
            assert forall|k: int, j: int| 0 <= k < j < rest.len() implies (#[trigger] rest[k]).1 < (
            #[trigger] rest[j]).1 by {
                assert(children[k].1 < children[j].1);
            }
        }
        lemma_kids_below(rest, c);
        let m = kids_below(rest, c).len() as int;
        assert(rest.take(m) =~= children.take(m));
        assert forall|k: int| 0 <= k < children.len() implies ((#[trigger] children[k]).1 < c
            <==> k < m) by {
            if k < rest.len() {
                assert(rest[k] == children[k]);
            }
        }
    }
}

/// The first edge to `c` among edges, where one of them leads there.
proof fn lemma_edge_found(children: Seq<(Turn, usize)>, c: int, from: int, k: int)
    requires
        0 <= from <= k < children.len(),
        children[k].1 == c,
        forall|j: int| from <= j < k ==> (#[trigger] children[j]).1 != c,
    ensures
        edge_in(children, c, from) == Some(children[k].0),
    decreases k - from,
{
    if from < k {
        assert(children[from].1 != c);
        lemma_edge_found(children, c, from + 1, k);
    }
}

/// No edge to `c` is found where none leads there.
proof fn lemma_edge_missing(children: Seq<(Turn, usize)>, c: int, from: int)
    requires
        0 <= from,
        forall|j: int| 0 <= j < children.len() ==> (#[trigger] children[j]).1 != c,
    ensures
        edge_in(children, c, from) is None,
    decreases children.len() - from,
{
    if from < children.len() {
        assert(children[from].1 != c);
        lemma_edge_missing(children, c, from + 1);
    }
}

/// In a sound tree the first node with an edge to a node is its parent.
proof fn lemma_parent_found(board: &Board, t: TreeView, input: Seq<CompactView>, c: int, from: int)
    requires
        tree_wf(board, t),
        input.len() == t.nodes.len(),
        forall|i: int| 0 <= i < input.len() ==> (#[trigger] input[i]).children == t.nodes[i].children,
        0 < c < t.nodes.len(),
        0 <= from <= t.nodes[c].parent.unwrap(),
    ensures
        parent_in(input, c, from) == Some((t.nodes[c].parent.unwrap(), t.nodes[c].last_turn.unwrap())),
    decreases t.nodes[c].parent.unwrap() - from,
{
    assert(node_wf(board, t.nodes, c));
    let p = t.nodes[c].parent.unwrap() as int;
    let turn = t.nodes[c].last_turn.unwrap();
    assert(node_wf(board, t.nodes, from));
    let edges = t.nodes[from].children;
    assert(input[from].children == edges);
    if from < p {
        assert forall|j: int| 0 <= j < edges.len() implies (#[trigger] edges[j]).1 != c by {
            if edges[j].1 == c {
                assert(t.nodes[c].parent == Some(from as usize));
            }
        }
        lemma_edge_missing(edges, c, 0);
        lemma_parent_found(board, t, input, c, from + 1);
    } else {
        let k = choose|k: int| 0 <= k < edges.len() && edges[k] == (turn, c as usize);
        assert forall|j: int| 0 <= j < k implies (#[trigger] edges[j]).1 != c by {
            assert(edges[j].1 < edges[k].1);
        }
        lemma_edge_found(edges, c, 0, k);
    }
}

/// Edges that all lead to `c` or beyond have none below `c`.
proof fn lemma_kids_none(children: Seq<(Turn, usize)>, c: int)
    requires
        forall|k: int| 0 <= k < children.len() ==> (#[trigger] children[k]).1 >= c,
    ensures
        kids_below(children, c) == Seq::<(Turn, usize)>::empty(),
    decreases children.len(),
{
    if children.len() > 0 {
        assert(children[children.len() - 1].1 >= c);
        lemma_kids_none(children.drop_last(), c);
    } else {
        assert(children =~= Seq::<(Turn, usize)>::empty());
    }
}

/// Replaying the compact form of a sound tree makes its nodes again, one
/// after the other.
proof fn lemma_replay_early(board: &Board, t: TreeView, input: Seq<CompactView>, c: nat)
    requires
        tree_wf(board, t),
        input.len() == t.nodes.len(),
        forall|i: int| 0 <= i < input.len() ==> (#[trigger] input[i]).children == t.nodes[i].children,
        1 <= c <= t.nodes.len(),
    ensures
        replay(board, input, c) == Some(early(board, t, c)),
    decreases c,
{
    if c == 1 {
        assert(node_wf(board, t.nodes, 0));
        lemma_kids_none(t.nodes[0].children, 1);
        assert(early(board, t, 1).nodes =~= first_tree(board).nodes);
    } else {
        let b = (c - 1) as nat;
        lemma_replay_early(board, t, input, b);
        let e = early(board, t, b);
        let goal = early(board, t, c);
        assert(node_wf(board, t.nodes, b as int));
        let p = t.nodes[b as int].parent.unwrap() as int;
        let turn = t.nodes[b as int].last_turn.unwrap();
        lemma_parent_found(board, t, input, b as int, 0);
        assert(node_wf(board, t.nodes, p));
        let at = TreeView { cursor: p, ..e };
        let color = e.nodes[p].to_play;
        let edges = t.nodes[p].children;
        assert(rising(edges));
        lemma_kids_below(edges, b as int);
        lemma_kids_below(edges, c as int);
        let k0 = choose|k: int| 0 <= k < edges.len() && edges[k] == (turn, b as usize);
        assert(edges[k0].1 == b);
        let m = kids_below(edges, b as int).len() as int;
        assert(m == k0) by {
            if m < k0 {
                assert(edges[m].1 < edges[k0].1);
            }
        }
        assert(kids_below(edges, c as int).len() == k0 + 1) by {
            let m2 = kids_below(edges, c as int).len() as int;
            if m2 > k0 + 1 {
                assert(edges[k0].1 < edges[k0 + 1].1);
                assert(edges[k0 + 1].1 < c);
            }
        }
        assert(kids_below(edges, c as int) =~= kids_below(edges, b as int).push((turn, b as usize)));
        assert(!has_child(e.nodes[p].children, turn)) by {
            if has_child(e.nodes[p].children, turn) {
                let j = choose|j: int|
                    0 <= j < e.nodes[p].children.len() && (#[trigger] e.nodes[p].children[j]).0
                        == turn;
                assert(e.nodes[p].children[j] == edges[j]);
                assert(edges[j].0 != edges[k0].0);
            }
        }
        assert(extends(e.nodes, t.nodes));
        lemma_extends_branch(e.nodes, t.nodes, p, 0);
        assert(!is_over(e.nodes, p)) by {
            if t.nodes[p].parent is Some {
                let g = t.nodes[p].parent.unwrap() as int;
                assert(e.nodes[g].last_turn == t.nodes[g].last_turn);
            }
        }
        let colors = turn_colors(board, e.nodes[p].colors, color, turn);
        assert(colors == t.nodes[b as int].colors);
        let next = grown(board, at, turn, colors);
        assert(next.nodes.len() == c);
        assert forall|i: int| 0 <= i < c implies next.nodes[i] == goal.nodes[i] by {
            assert(node_wf(board, t.nodes, i));
            if i == b {
                assert forall|k: int| 0 <= k < t.nodes[i].children.len() implies (
                #[trigger] t.nodes[i].children[k]).1 >= c by {}
                lemma_kids_none(t.nodes[i].children, c as int);
                assert(next.nodes[i].symbols =~= goal.nodes[i].symbols);
            } else if i == p {
            } else {
                let mine = t.nodes[i].children;
                assert(rising(mine));
                lemma_kids_below(mine, b as int);
                lemma_kids_below(mine, c as int);
                let m1 = kids_below(mine, b as int).len() as int;
                let m2 = kids_below(mine, c as int).len() as int;
                if m1 < m2 {
                    assert(mine[m1].1 < c);
                    assert(!(mine[m1].1 < b));
                    assert(t.nodes[b as int].parent == Some(i as usize));
                }
                if m2 < m1 {
                    assert(mine[m2].1 < b);
                }
            }
        }
        assert(next.nodes =~= goal.nodes);
        assert(next == goal);
        assert(turn_step(board, at, color, turn).1 == next);
    }
}

/// The listed symbols lie on points, and set on a row of symbols they
/// give each point its symbol where that is not blank.
proof fn lemma_listed(base: Seq<Symbol>, symbols: Seq<Symbol>)
    requires
        symbols.len() <= base.len() <= usize::MAX,
    ensures
        forall|j: int|
            0 <= j < listed(symbols).len() ==> (#[trigger] listed(symbols)[j]).0 < symbols.len(),
        marked(base, listed(symbols)).len() == base.len(),
        forall|p: int|
            0 <= p < base.len() ==> #[trigger] marked(base, listed(symbols))[p] == (if p
                < symbols.len() && symbols[p] != Symbol::Blank {
                symbols[p]
            } else {
                base[p]
            }),
    decreases symbols.len(),
{
    if symbols.len() > 0 {
        let rest = symbols.drop_last();
        lemma_listed(base, rest);
        let top = symbols.len() - 1;
        if symbols.last() != Symbol::Blank {
            let entry = (top as usize, symbols.last());
            assert(listed(symbols) == listed(rest).push(entry));
            assert(listed(symbols).drop_last() =~= listed(rest));
            assert(listed(symbols).last() == entry);
            assert(marked(base, listed(symbols)) == marked(base, listed(rest)).update(
                top,
                symbols.last(),
            ));
        } else {
            assert(listed(symbols) == listed(rest));
        }
        assert forall|p: int| 0 <= p < base.len() implies #[trigger] marked(
            base,
            listed(symbols),
        )[p] == (if p < symbols.len() && symbols[p] != Symbol::Blank {
            symbols[p]
        } else {
            base[p]
        }) by {
            if p < top {
                assert(rest[p] == symbols[p]);
            }
        }
    }
}

/// A sound tree comes back from its compact form, with the cursor at the
/// root.
pub proof fn lemma_compact_round_trip(board: &Board, t: TreeView, input: Seq<CompactView>)
    requires
        tree_wf(board, t),
        input.len() == t.nodes.len(),
        forall|i: int|
            0 <= i < input.len() ==> (#[trigger] input[i]).children == t.nodes[i].children
                && input[i].symbols == listed(t.nodes[i].symbols),
    ensures
        restored(board, t.root as usize, input) == Some(TreeView { cursor: t.root, ..t }),
{
    let len = t.nodes.len();
    lemma_board_size(board);
    lemma_replay_early(board, t, input, len);
    let e = early(board, t, len);
    assert forall|i: int| 0 <= i < len implies (#[trigger] e.nodes[i]).children
        == input[i].children by {
        assert(node_wf(board, t.nodes, i));
        let mine = t.nodes[i].children;
        if mine.len() > 0 {
            assert(mine[mine.len() - 1].1 < len);
        }
    }
    assert forall|i: int, j: int|
        0 <= i < input.len() && 0 <= j < input[i].symbols.len() implies (
    #[trigger] input[i].symbols[j]).0 < board.size() by {
        assert(node_wf(board, t.nodes, i));
        lemma_listed(t.nodes[i].symbols, t.nodes[i].symbols);
    }
    let goal = restored(board, t.root as usize, input).unwrap();
    assert forall|i: int| 0 <= i < len implies goal.nodes[i] == t.nodes[i] by {
        assert(node_wf(board, t.nodes, i));
        lemma_listed(e.nodes[i].symbols, t.nodes[i].symbols);
        assert(goal.nodes[i].symbols =~= t.nodes[i].symbols);
    }
    assert(goal.nodes =~= t.nodes);
}

/// A replay that has failed stays failed.
proof fn lemma_replay_none(board: &Board, input: Seq<CompactView>, k: nat, m: nat)
    requires
        k <= m,
        replay(board, input, k) is None,
    ensures
        replay(board, input, m) is None,
    decreases m,
{
    if k < m {
        lemma_replay_none(board, input, k, (m - 1) as nat);
    }
}

fn find_edge(children: &Vec<(Turn, usize)>, c: usize) -> (found: Option<Turn>)
    ensures
        found == edge_in(children@, c as int, 0),
{
    let mut k: usize = 0;
    while k < children.len()
        invariant
            k <= children@.len(),
            edge_in(children@, c as int, 0) == edge_in(children@, c as int, k as int),
        decreases children@.len() - k,
    {
        if children[k].1 == c {
            return Some(children[k].0);
        }
        k += 1;
    }
    None
}

fn find_parent(nodes: &Vec<CompactGTN>, c: usize) -> (found: Option<(usize, Turn)>)
    ensures
        found == parent_in(compact_views(nodes@), c as int, 0),
        found matches Some(e) ==> e.0 < c && e.0 < nodes@.len(),
{
    let ghost input = compact_views(nodes@);
    let mut i: usize = 0;
    while i < c && i < nodes.len()
        invariant
            input == compact_views(nodes@),
            parent_in(input, c as int, 0) == parent_in(input, c as int, i as int),
        decreases c - i,
    {
        assert(input[i as int] == nodes@[i as int]@);
        match find_edge(&nodes[i].children, c) {
            Some(turn) => {
                return Some((i, turn));
            },
            None => {},
        }
        i += 1;
    }
    None
}

fn same_edges(a: &Vec<(Turn, usize)>, b: &Vec<(Turn, usize)>) -> (same: bool)
    ensures
        same == (a@ == b@),
{
    if a.len() != b.len() {
        return false;
    }
    let mut k: usize = 0;
    while k < a.len()
        invariant
            a@.len() == b@.len(),
            k <= a@.len(),
            forall|j: int| 0 <= j < k ==> a@[j] == b@[j],
        decreases a@.len() - k,
    {
        if a[k].0 != b[k].0 || a[k].1 != b[k].1 {
            return false;
        }
        k += 1;
    }
    assert(a@ =~= b@);
    true
}

impl GameTree {
    /// The compact form of the tree: the root, and of each node its edges
    /// and its symbols that are not blank.
    pub fn to_compact(&self) -> (compact: (usize, Vec<CompactGTN>))
        requires
            self.wf(),
        ensures
            compact.0 == self@.root,
            compact.1@.len() == self@.nodes.len(),
            forall|i: int|
                0 <= i < self@.nodes.len() ==> (#[trigger] compact.1@[i])@.children
                    == self@.nodes[i].children && compact.1@[i]@.symbols == listed(
                    self@.nodes[i].symbols,
                ),
    {
        let count = self.node_count();
        let mut out: Vec<CompactGTN> = Vec::new();
        let mut i: usize = 0;
        while i < count
            invariant
                count == self@.nodes.len(),
                i <= count,
                out@.len() == i,
                forall|j: int|
                    0 <= j < i ==> (#[trigger] out@[j])@.children == self@.nodes[j].children
                        && out@[j]@.symbols == listed(self@.nodes[j].symbols),
            decreases count - i,
        {
            let edges = self.children_at(i);
            let mut children: Vec<(Turn, usize)> = Vec::new();
            let mut k: usize = 0;
            while k < edges.len()
                invariant
                    k <= edges@.len(),
                    children@ == edges@.take(k as int),
                decreases edges@.len() - k,
            {
                children.push(edges[k]);
                assert(edges@.take(k + 1) =~= edges@.take(k as int).push(edges@[k as int]));
                k += 1;
            }
            assert(edges@.take(k as int) =~= edges@);
            let all = self.symbols_at(i);
            let mut symbols: Vec<(usize, Symbol)> = Vec::new();
            let mut p: usize = 0;
            while p < all.len()
                invariant
                    p <= all@.len(),
                    symbols@ == listed(all@.take(p as int)),
                decreases all@.len() - p,
            {
                proof {
                    assert(all@.take(p + 1).drop_last() =~= all@.take(p as int));
                    assert(all@.take(p + 1).last() == all@[p as int]);
                }
                if all[p] != Symbol::Blank {
                    symbols.push((p, all[p]));
                }
                p += 1;
            }
            assert(all@.take(p as int) =~= all@);
            out.push(CompactGTN { children, symbols });
            i += 1;
        }
        (self.root_index(), out)
    }

    /// The tree that a compact form stands for, with the cursor at the
    /// root; `None` where the compact form stands for none.
    pub fn from_compact(board: Board, root: usize, nodes: Vec<CompactGTN>) -> (built: Option<
        GameTree,
    >)
        requires
            board.wf(),
        ensures
            match built {
                Some(game) => game.wf() && game.spec_board() == board && restored(
                    &board,
                    root,
                    compact_views(nodes@),
                ) == Some(game@),
                None => restored(&board, root, compact_views(nodes@)) is None,
            },
    {
        let ghost input = compact_views(nodes@);
        let ghost ground = board;
        let len = nodes.len();
        if len == 0 || root >= len {
            return None;
        }
        let n = board.point_count();
        let mut tree = GameTree::new(board);
        let mut c: usize = 1;
        while c < len
            invariant
                ground == board,
                ground.wf(),
                n == ground.size(),
                input == compact_views(nodes@),
                len == nodes@.len(),
                root < len,
                1 <= c <= len,
                tree.wf(),
                tree.spec_board() == ground,
                tree@.root == 0,
                tree@.nodes.len() == c,
                replay(&ground, input, c as nat) == Some(tree@),
            decreases len - c,
        {
            let (i, turn) = match find_parent(&nodes, c) {
                None => {
                    proof {
                        lemma_replay_none(&ground, input, (c + 1) as nat, len as nat);
                    }
                    return None;
                },
                Some(e) => e,
            };
            let fits = match turn {
                Turn::Play(point) => point < n,
                Turn::Pass => true,
            };
            if !fits {
                proof {
                    lemma_replay_none(&ground, input, (c + 1) as nat, len as nat);
                }
                return None;
            }
            tree.goto(i);
            let color = tree.whose_turn();
            let result = tree.turn(color, turn);
            if !(result == TurnResult::Success || result == TurnResult::SuccessGameOver)
                || tree.node_count() != c + 1 {
                proof {
                    lemma_replay_none(&ground, input, (c + 1) as nat, len as nat);
                }
                return None;
            }
            c += 1;
        }
        let ghost t = tree@;
        let mut i: usize = 0;
        while i < len
            invariant
                ground == board,
                root < len,
                replay(&ground, input, len as nat) == Some(t),
                input == compact_views(nodes@),
                len == nodes@.len(),
                n == ground.size(),
                i <= len,
                tree@ == t,
                t.nodes.len() == len,
                forall|j: int| 0 <= j < i ==> (#[trigger] t.nodes[j]).children == input[j].children,
                forall|j: int, k: int|
                    0 <= j < i && 0 <= k < input[j].symbols.len() ==> (
                    #[trigger] input[j].symbols[k]).0 < n,
            decreases len - i,
        {
            assert(input[i as int] == nodes@[i as int]@);
            if !same_edges(tree.children_at(i), &nodes[i].children) {
                return None;
            }
            let mut k: usize = 0;
            while k < nodes[i].symbols.len()
                invariant
                    ground == board,
                    root < len,
                    replay(&ground, input, len as nat) == Some(t),
                    n == ground.size(),
                    i < len,
                    len == nodes@.len(),
                    input == compact_views(nodes@),
                    k <= input[i as int].symbols.len(),
                    forall|j: int| 0 <= j < k ==> (#[trigger] input[i as int].symbols[j]).0 < n,
                decreases input[i as int].symbols.len() - k,
            {
                assert(input[i as int] == nodes@[i as int]@);
                if nodes[i].symbols[k].0 >= n {
                    assert(!(input[i as int].symbols[k as int].0 < ground.size()));
                    assert(!symbols_fit(&ground, input));
                    return None;
                }
                k += 1;
            }
            i += 1;
        }
        let mut i: usize = 0;
        while i < len
            invariant
                ground == board,
                replay(&ground, input, len as nat) == Some(t),
                forall|j: int| 0 <= j < len ==> (#[trigger] t.nodes[j]).children == input[j].children,
                input == compact_views(nodes@),
                len == nodes@.len(),
                n == ground.size(),
                root < len,
                i <= len,
                tree.wf(),
                tree.spec_board() == ground,
                tree@.root == 0,
                t.nodes.len() == len,
                tree@.nodes.len() == len,
                symbols_fit(&ground, input),
                forall|j: int|
                    0 <= j < i ==> #[trigger] tree@.nodes[j] == (NodeView {
                        symbols: marked(t.nodes[j].symbols, input[j].symbols),
                        ..t.nodes[j]
                    }),
                forall|j: int| i <= j < len ==> #[trigger] tree@.nodes[j] == t.nodes[j],
            decreases len - i,
        {
            assert(input[i as int] == nodes@[i as int]@);
            tree.goto(i);
            let ghost list = input[i as int].symbols;
            let mut k: usize = 0;
            while k < nodes[i].symbols.len()
                invariant
                    ground == board,
                    replay(&ground, input, len as nat) == Some(t),
                    input == compact_views(nodes@),
                    len == nodes@.len(),
                    n == ground.size(),
                    i < len,
                    list == input[i as int].symbols,
                    list == nodes@[i as int].symbols@,
                    k <= list.len(),
                    tree.wf(),
                    tree.spec_board() == ground,
                    tree@.root == 0,
                    tree@.cursor == i,
                    t.nodes.len() == len,
                    tree@.nodes.len() == len,
                    symbols_fit(&ground, input),
                    forall|j: int|
                        0 <= j < i ==> #[trigger] tree@.nodes[j] == (NodeView {
                            symbols: marked(t.nodes[j].symbols, input[j].symbols),
                            ..t.nodes[j]
                        }),
                    forall|j: int| i < j < len ==> #[trigger] tree@.nodes[j] == t.nodes[j],
                    tree@.nodes[i as int] == (NodeView {
                        symbols: marked(t.nodes[i as int].symbols, list.take(k as int)),
                        ..t.nodes[i as int]
                    }),
                decreases list.len() - k,
            {
                let entry = nodes[i].symbols[k];
                proof {
                    assert(list[k as int].0 < ground.size());
                    assert(list.take(k + 1).drop_last() =~= list.take(k as int));
                    assert(list.take(k + 1).last() == list[k as int]);
                }
                tree.mark(entry.0, entry.1);
                k += 1;
            }
            assert(list.take(k as int) =~= list);
            i += 1;
        }
        tree.goto(root);
        tree.set_root_here();
        proof {
            let goal = restored(&ground, root, input).unwrap();
            assert(tree@.nodes =~= goal.nodes);
        }
        Some(tree)
    }
}

} // verus!
