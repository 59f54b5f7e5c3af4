//! Colors, boards (undirected graphs) and positions.

use vstd::prelude::*;
use crate::region::connected;
use crate::region::closed_under_steps;
use crate::region::lemma_closed_set;
use crate::region::lemma_connected_refl;
use crate::region::lemma_connected_same_color;
use crate::region::lemma_connected_step;
use crate::region::lemma_connected_sym;
use crate::region::lemma_connected_trans;
use crate::region::lemma_connected_transfer;
use crate::region::lemma_distinct_bounded;
use crate::region::lemma_seed_restores;
use crate::region::lemma_clear_outside;
use crate::region::lemma_place_outside;
use crate::region::lemma_split_done;
use crate::region::lemma_dead_together;
use crate::region::exact_except;
use crate::region::cleared;
use crate::region::has_liberty;
use crate::region::is_dead;
use crate::region::without_dead;
use crate::region::play_result;
use crate::region::emptied;
use crate::region::marks_groups;
use crate::region::without_color;
use crate::region::foot_of;
use crate::region::leans_on;
use crate::region::standing;
use crate::region::is_weak;
use crate::region::without_weak;
use crate::region::settle;
use crate::region::immortal_subset;
use crate::region::immortal_stones;
use crate::region::replayed;
use crate::region::stones;
use crate::region::lemma_fewer_stones;
use crate::region::lemma_standing_together;
use crate::json::edges_from_json;
use crate::json::edges_of_json;
use crate::json::edges_to_json;
use crate::json::json_of_edges;

verus! {

/// An ordered list of undirected edges between points.
pub type Edges = Vec<(usize, usize)>;

/// The state of a point, and also the identity of a player.
#[derive(Clone, Copy, Debug, PartialEq, Eq, Structural)]
pub enum Color {
    Empty,
    Black,
    White,
}

impl Color {
    /// The opposing player; `Empty` has none and stands for itself.
    pub open spec fn opponent(self) -> Color {
        match self {
            Color::Black => Color::White,
            Color::White => Color::Black,
            Color::Empty => Color::Empty,
        }
    }

    /// The other player's color. Only a player has an opponent.
    pub fn reverse(&self) -> (r: Color)
        requires
            *self != Color::Empty,
        ensures
            r == self.opponent(),
            r != Color::Empty,
            r != *self,
    {
        match self {
            Color::Black => Color::White,
            _ => Color::Black,
        }
    }
}

/// One more than the largest point that `edges` names; 0 for no edges.
pub open spec fn edge_span(edges: Seq<(usize, usize)>) -> nat
    decreases edges.len(),
{
    if edges.len() == 0 {
        0
    } else {
        let rest = edge_span(edges.drop_last());
        let e = edges.last();
        let m = if e.0 >= e.1 { e.0 as nat + 1 } else { e.1 as nat + 1 };
        if m >= rest { m } else { rest }
    }
}

/// Whether some edge of `edges` touches point `p`.
pub open spec fn touches(edges: Seq<(usize, usize)>, p: int) -> bool {
    exists|i: int| 0 <= i < edges.len() && (#[trigger] edges[i].0 == p || edges[i].1 == p)
}

/// Whether some edge of `edges` joins `a` and `b`, in either direction.
pub open spec fn joins(edges: Seq<(usize, usize)>, a: int, b: int) -> bool {
    exists|i: int| 0 <= i < edges.len() && #[trigger] joined_by(edges[i], a, b)
}

/// Whether the edge `e` joins `a` and `b`, in either direction.
pub open spec fn joined_by(e: (usize, usize), a: int, b: int) -> bool {
    (e.0 == a && e.1 == b) || (e.0 == b && e.1 == a)
}

/// The neighbors that `edges` gives the point `a`, each once, in the order
/// in which the edges first name them.
pub open spec fn neighbors_of(edges: Seq<(usize, usize)>, a: int) -> Seq<usize>
    decreases edges.len(),
{
    if edges.len() == 0 {
        Seq::empty()
    } else {
        let prev = neighbors_of(edges.drop_last(), a);
        let e = edges.last();
        if e.0 == a && !holds(prev, e.1 as int) {
            prev.push(e.1)
        } else if e.1 == a && e.0 != a && !holds(prev, e.0 as int) {
            prev.push(e.0)
        } else {
            prev
        }
    }
}

/// The edge lists from which a board can be built: at least one edge, no
/// edge from a point to itself, a point count that fits the machine, and
/// every point below the count touched by an edge.
pub open spec fn valid_edges(edges: Seq<(usize, usize)>) -> bool {
    &&& edges.len() > 0
    &&& edge_span(edges) <= usize::MAX
    &&& forall|i: int| 0 <= i < edges.len() ==> (#[trigger] edges[i]).0 != edges[i].1
    &&& forall|p: int| 0 <= p < edge_span(edges) ==> touches(edges, p)
}

/// Every point that an edge names lies below the span of the edges.
pub proof fn lemma_edge_span_bounds(edges: Seq<(usize, usize)>, i: int)
    requires
        0 <= i < edges.len(),
    ensures
        edges[i].0 < edge_span(edges),
        edges[i].1 < edge_span(edges),
    decreases edges.len(),
{
    if i < edges.len() - 1 {
        lemma_edge_span_bounds(edges.drop_last(), i);
    }
}

/// Whether the point `b` occurs in `list`.
pub open spec fn holds(list: Seq<usize>, b: int) -> bool {
    exists|k: int| 0 <= k < list.len() && #[trigger] list[k] == b
}

/// An undirected graph over points `0 .. point_count`, fixed once built.
pub struct Board {
    point_count: usize,
    neighbor_lists: Vec<Vec<usize>>,
}

impl Board {
    /// The neighbor list of each point.
    pub closed spec fn view(&self) -> Seq<Seq<usize>> {
        Seq::new(self.neighbor_lists@.len(), |i: int| self.neighbor_lists@[i]@)
    }

    /// The number of points.
    pub open spec fn size(&self) -> nat {
        self@.len()
    }

    /// Whether `b` is a neighbor of `a`.
    pub open spec fn adjacent(&self, a: int, b: int) -> bool {
        0 <= a < self@.len() && holds(self@[a], b)
    }

    /// Every point has a neighbor; neighbors are points of the board, never
    /// the point itself, listed once, and adjacency is symmetric.
    pub open spec fn wf(&self) -> bool {
        &&& self.inv()
        &&& self@.len() >= 1
        &&& forall|a: int| 0 <= a < self@.len() ==> (#[trigger] self@[a]).len() >= 1
        &&& forall|a: int, k: int|
            0 <= a < self@.len() && 0 <= k < self@[a].len() ==> (#[trigger] self@[a][k])
                < self@.len() && self@[a][k] != a
        &&& forall|a: int| 0 <= a < self@.len() ==> (#[trigger] self@[a]).no_duplicates()
        &&& forall|a: int, b: int| self.adjacent(a, b) ==> self.adjacent(b, a)
    }

    /// The stored point count is the number of neighbor lists.
    pub closed spec fn inv(&self) -> bool {
        self.point_count == self.neighbor_lists@.len()
    }

    /// Builds the board of an edge list that `valid_edges` accepts.
    pub fn new(connections: Vec<(usize, usize)>) -> (board: Board)
        requires
            valid_edges(connections@),
        ensures
            board.wf(),
            board.size() == edge_span(connections@),
            forall|a: int, b: int| board.adjacent(a, b) <==> joins(connections@, a, b),
            forall|a: int|
                0 <= a < board.size() ==> #[trigger] board@[a] == neighbors_of(connections@, a),
    {
        let built = Board::try_new(connections);
        built.unwrap()
    }

    /// Builds the board of an edge list, or `None` where the list is not
    /// valid. The point count is one more than the largest point named;
    /// duplicate edges collapse.
    pub fn try_new(connections: Vec<(usize, usize)>) -> (built: Option<Board>)
        ensures
            built.is_some() <==> valid_edges(connections@),
            built matches Some(board) ==> {
                &&& board.wf()
                &&& board.size() == edge_span(connections@)
                &&& forall|a: int, b: int| board.adjacent(a, b) <==> joins(connections@, a, b)
                &&& forall|a: int|
                    0 <= a < board.size() ==> #[trigger] board@[a] == neighbors_of(
                        connections@,
                        a,
                    )
            },
    {
        let ghost edges = connections@;
        let len = connections.len();
        if len == 0 {
            return None;
        }
        let mut top: usize = 0;
        let mut i: usize = 0;
        while i < len
            invariant
                i <= len,
                len == edges.len(),
                edges == connections@,
                i > 0 ==> top + 1 == edge_span(edges.take(i as int)),
            decreases len - i,
        {
            let e = connections[i];
            let m = if e.0 >= e.1 { e.0 } else { e.1 };
            if i == 0 || m > top {
                top = m;
            }
            proof {
                assert(edges.take(i + 1).drop_last() =~= edges.take(i as int));
                assert(edges.take(i + 1).last() == e);
                assert(edges.take(0).len() == 0);
                assert(edge_span(edges.take(0)) == 0);
            }
            i += 1;
        }
        proof {
            assert(edges.take(len as int) =~= edges);
        }
        if top == usize::MAX {
            return None;
        }
        let n = top + 1;
        assert(n == edge_span(edges));
        let mut i: usize = 0;
        while i < len
            invariant
                i <= len,
                len == edges.len(),
                edges == connections@,
                forall|j: int| 0 <= j < i ==> (#[trigger] edges[j]).0 != edges[j].1,
            decreases len - i,
        {
            if connections[i].0 == connections[i].1 {
                return None;
            }
            i += 1;
        }
        let mut p: usize = 0;
        while p < n
            invariant
                p <= n,
                n == edge_span(edges),
                len == edges.len(),
                edges == connections@,
                forall|q: int| 0 <= q < p ==> touches(edges, q),
            decreases n - p,
        {
            let mut found = false;
            let mut j: usize = 0;
            while j < len && !found
                invariant
                    j <= len,
                    len == edges.len(),
                    edges == connections@,
                    found ==> touches(edges, p as int),
                    !found ==> forall|k: int|
                        0 <= k < j ==> !((#[trigger] edges[k]).0 == p || edges[k].1 == p),
                decreases len - j,
            {
                if connections[j].0 == p || connections[j].1 == p {
                    found = true;
                }
                j += 1;
            }
            if !found {
                proof {
                    if touches(edges, p as int) {
                        let w = choose|w: int|
                            0 <= w < edges.len() && (#[trigger] edges[w].0 == p || edges[w].1 == p);
                        assert(false);
                    }
                }
                return None;
            }
            p += 1;
        }
        let mut lists: Vec<Vec<usize>> = Vec::new();
        while lists.len() < n
            invariant
                lists@.len() <= n,
                forall|a: int| 0 <= a < lists@.len() ==> (#[trigger] lists@[a])@.len() == 0,
            decreases n - lists@.len(),
        {
            lists.push(Vec::new());
        }
        proof {
            assert forall|a: int| 0 <= a < n implies (#[trigger] lists@[a])@ == neighbors_of(
                edges.take(0),
                a,
            ) by {
                assert(lists@[a]@ =~= Seq::<usize>::empty());
            }
        }
        let mut i: usize = 0;
        while i < len
            invariant
                i <= len,
                len == edges.len(),
                edges == connections@,
                n == edge_span(edges),
                lists@.len() == n,
                forall|j: int| 0 <= j < len ==> (#[trigger] edges[j]).0 != edges[j].1,
                forall|a: int, k: int|
                    0 <= a < n && 0 <= k < lists@[a]@.len() ==> (#[trigger] lists@[a]@[k]) < n
                        && lists@[a]@[k] != a,
                forall|a: int| 0 <= a < n ==> (#[trigger] lists@[a])@.no_duplicates(),
                forall|a: int|
                    0 <= a < n ==> (#[trigger] lists@[a])@ == neighbors_of(edges.take(i as int), a),
                forall|a: int, b: int|
                    0 <= a < n ==> (holds(lists@[a]@, b) <==> #[trigger] joins(
                        edges.take(i as int),
                        a,
                        b,
                    )),
            decreases len - i,
        {
            let e = connections[i];
            let a = e.0;
            let b = e.1;
            proof {
                lemma_edge_span_bounds(edges, i as int);
            }
            let ghost before = lists@;
            let ghost prior = edges.take(i as int);
            let ghost next = edges.take(i + 1);
            let seen = list_contains(&lists[a], b);
            proof {
                if seen {
                    let k = choose|k: int| 0 <= k < before[a as int]@.len() && before[a as int]@[k] == b;
                    assert(holds(before[a as int]@, b as int));
                } else {
                    if holds(before[a as int]@, b as int) {
                        let k = choose|k: int|
                            0 <= k < before[a as int]@.len()
                                && #[trigger] before[a as int]@[k] == b as int;
                        assert(before[a as int]@.contains(b));
                    }
                    assert(!joins(prior, a as int, b as int));
                    if joins(prior, b as int, a as int) {
                        let w = choose|w: int|
                            0 <= w < prior.len()
                                && #[trigger] joined_by(prior[w], b as int, a as int);
                        assert(joined_by(prior[w], a as int, b as int));
                    }
                    assert(!holds(before[b as int]@, a as int));
                }
            }
            if !seen {
                lists[a].push(b);
                lists[b].push(a);
            }
            proof {
                assert(next.drop_last() =~= prior);
                assert forall|x: int, y: int| 0 <= x < n implies (holds(lists@[x]@, y)
                    <==> #[trigger] joins(next, x, y)) by {
                    if joins(next, x, y) {
                        let w = choose|w: int| 0 <= w < next.len() && #[trigger] joined_by(next[w], x, y);
                        if w < i {
                            assert(joined_by(prior[w], x, y));
                            assert(joins(prior, x, y));
                            assert(holds(before[x]@, y));
                            let k = choose|k: int| 0 <= k < before[x]@.len() && #[trigger] before[x]@[k] == y;
                            assert(lists@[x]@[k] == y);
                        } else {
                            assert(next[w] == e);
                            if seen {
                                assert(joins(prior, a as int, b as int));
                                let v = choose|v: int|
                                    0 <= v < prior.len()
                                        && #[trigger] joined_by(prior[v], a as int, b as int);
                                assert(joined_by(prior[v], x, y));
                                assert(joins(prior, x, y));
                            } else {
                                if x == a {
                                    assert(lists@[x]@[lists@[x]@.len() - 1] == b);
                                } else {
                                    assert(lists@[x]@[lists@[x]@.len() - 1] == a);
                                }
                            }
                        }
                    }
                    if holds(lists@[x]@, y) {
                        let k = choose|k: int| 0 <= k < lists@[x]@.len() && #[trigger] lists@[x]@[k] == y;
                        if k < before[x]@.len() {
                            assert(before[x]@[k] == y);
                            assert(holds(before[x]@, y));
                            assert(joins(prior, x, y));
                            let w = choose|w: int|
                                0 <= w < prior.len() && #[trigger] joined_by(prior[w], x, y);
                            assert(next[w] == prior[w]);
                            assert(joined_by(next[w], x, y));
                        } else {
                            assert(next[i as int] == e);
                            assert(joined_by(next[i as int], x, y));
                        }
                    }
                }
                assert forall|x: int| 0 <= x < n implies (#[trigger] lists@[x])@.no_duplicates() by {
                    assert(before[x]@.no_duplicates());
                }
                assert(next.last() == e);
                assert forall|x: int| 0 <= x < n implies (#[trigger] lists@[x])@ == neighbors_of(
                    next,
                    x,
                ) by {
                    assert(before[x]@ == neighbors_of(prior, x));
                    assert(holds(before[a as int]@, b as int) <==> joins(prior, a as int, b as int));
                    assert(holds(before[b as int]@, a as int) <==> joins(prior, b as int, a as int));
                    if joins(prior, b as int, a as int) {
                        let w = choose|w: int|
                            0 <= w < prior.len() && #[trigger] joined_by(prior[w], b as int, a as int);
                        assert(joined_by(prior[w], a as int, b as int));
                    }
                    if joins(prior, a as int, b as int) {
                        let w = choose|w: int|
                            0 <= w < prior.len() && #[trigger] joined_by(prior[w], a as int, b as int);
                        assert(joined_by(prior[w], b as int, a as int));
                    }
                    assert(holds(before[a as int]@, b as int) == seen);
                    assert(holds(before[b as int]@, a as int) == seen);
                    assert(neighbors_of(next.drop_last(), x) == before[x]@);
                    if x == a && !seen {
                        assert(lists@[x]@ =~= before[x]@.push(b));
                    } else if x == b && !seen {
                        assert(lists@[x]@ =~= before[x]@.push(a));
                    } else {
                        assert(lists@[x]@ =~= before[x]@);
                    }
                }
            }
            i += 1;
        }
        proof {
            assert(edges.take(len as int) =~= edges);
        }
        let board = Board { point_count: n, neighbor_lists: lists };
        proof {
            assert(board@.len() == n);
            assert forall|a: int, b: int| board.adjacent(a, b) <==> joins(edges, a, b) by {
                if joins(edges, a, b) {
                    let w = choose|w: int| 0 <= w < edges.len() && #[trigger] joined_by(edges[w], a, b);
                    lemma_edge_span_bounds(edges, w);
                }
                if 0 <= a < n {
                    assert(board@[a] == lists@[a]@);
                }
            }
            assert forall|a: int, b: int| board.adjacent(a, b) implies board.adjacent(b, a) by {
                let w = choose|w: int| 0 <= w < edges.len() && #[trigger] joined_by(edges[w], a, b);
                assert(joined_by(edges[w], b, a));
                assert(joins(edges, b, a));
            }
            assert forall|a: int| 0 <= a < board@.len() implies (#[trigger] board@[a]).len() >= 1 by {
                assert(touches(edges, a));
                let w = choose|w: int|
                    0 <= w < edges.len() && (#[trigger] edges[w].0 == a || edges[w].1 == a);
                let other: int = if edges[w].0 == a { edges[w].1 as int } else { edges[w].0 as int };
                assert(joined_by(edges[w], a, other));
                assert(joins(edges, a, other));
                assert(board.adjacent(a, other));
            }
        }
        Some(board)
    }

    /// The number of points.
    pub fn point_count(&self) -> (n: usize)
        requires
            self.wf(),
        ensures
            n == self.size(),
    {
        self.point_count
    }

    /// Whether two points are joined by an edge.
    pub fn is_connected(&self, point_a: usize, point_b: usize) -> (joined: bool)
        requires
            self.wf(),
            point_a < self.size(),
        ensures
            joined == self.adjacent(point_a as int, point_b as int),
    {
        let joined = list_contains(&self.neighbor_lists[point_a], point_b);
        proof {
            let list = self@[point_a as int];
            if joined {
                let k = choose|k: int| 0 <= k < list.len() && list[k] == point_b;
                assert(list[k] == point_b as int);
            }
            if holds(list, point_b as int) {
                let k = choose|k: int| 0 <= k < list.len() && #[trigger] list[k] == point_b as int;
                assert(list.contains(point_b));
            }
        }
        joined
    }

    /// The neighbors of a point.
    pub fn get_neighbors(&self, point_a: usize) -> (list: Vec<usize>)
        requires
            self.wf(),
            point_a < self.size(),
        ensures
            list@ == self@[point_a as int],
    {
        self.neighbor_lists[point_a].clone()
    }
}

/// The edges out of the first `upto` points of a graph, each with its
/// neighbors in the order of their list.
pub open spec fn edge_rows(graph: Seq<Seq<usize>>, upto: nat) -> Seq<(usize, usize)>
    decreases upto,
{
    if upto == 0 {
        Seq::empty()
    } else {
        edge_rows(graph, (upto - 1) as nat) + Seq::new(
            graph[upto - 1].len(),
            |k: int| ((upto - 1) as usize, graph[upto - 1][k]),
        )
    }
}

impl Board {
    /// Every edge of the board, in both directions, by its first point.
    pub open spec fn edge_list(&self) -> Seq<(usize, usize)> {
        edge_rows(self@, self@.len())
    }

    /// The edges of the board, in both directions.
    pub fn edges(&self) -> (edges: Vec<(usize, usize)>)
        requires
            self.wf(),
        ensures
            edges@ == self.edge_list(),
    {
        let mut edges: Vec<(usize, usize)> = Vec::new();
        let mut i: usize = 0;
        while i < self.point_count
            invariant
                self.wf(),
                i <= self@.len(),
                edges@ == edge_rows(self@, i as nat),
            decreases self@.len() - i,
        {
            let ghost done = edges@;
            let mut k: usize = 0;
            while k < self.neighbor_lists[i].len()
                invariant
                    self.wf(),
                    i < self@.len(),
                    k <= self@[i as int].len(),
                    edges@ == done + Seq::new(k as nat, |j: int| (i, self@[i as int][j])),
                decreases self@[i as int].len() - k,
            {
                edges.push((i, self.neighbor_lists[i][k]));
                assert(edges@ =~= done + Seq::new((k + 1) as nat, |j: int| (i, self@[i as int][j])));
                k += 1;
            }
            i += 1;
        }
        edges
    }

    /// The board as JSON text: the list of its edges.
    pub fn to_string(&self) -> (text: Option<String>)
        requires
            self.wf(),
        ensures
            match text {
                Some(s) => json_of_edges(self.edge_list()) == Some(s@),
                None => json_of_edges(self.edge_list()) is None,
            },
    {
        let edges = self.edges();
        edges_to_json(&edges)
    }

    /// The board of a JSON text, where the text is a list of edges and the
    /// list is valid.
    pub fn from_string(s: String) -> (built: Option<Board>)
        ensures
            built is Some <==> (edges_of_json(s@) matches Some(edges) && valid_edges(edges)),
            built matches Some(board) ==> {
                let edges = edges_of_json(s@).unwrap();
                &&& board.wf()
                &&& board.size() == edge_span(edges)
                &&& forall|a: int, b: int| board.adjacent(a, b) <==> joins(edges, a, b)
                &&& forall|a: int|
                    0 <= a < board.size() ==> #[trigger] board@[a] == neighbors_of(edges, a)
            },
    {
        match edges_from_json(s.as_str()) {
            Some(edges) => Board::try_new(edges),
            None => None,
        }
    }
}

/// The edges out of the first `upto` points are those from a point below
/// `upto` to one of its neighbors.
pub proof fn lemma_edge_rows(graph: Seq<Seq<usize>>, upto: nat, a: int, b: int)
    requires
        upto <= graph.len(),
        upto <= usize::MAX,
    ensures
        joins_from(edge_rows(graph, upto), a, b) <==> (0 <= a < upto && holds(graph[a], b)),
    decreases upto,
{
    if upto > 0 {
        let before = edge_rows(graph, (upto - 1) as nat);
        let row = Seq::new(
            graph[upto - 1].len(),
            |k: int| ((upto - 1) as usize, graph[upto - 1][k]),
        );
        let all = edge_rows(graph, upto);
        lemma_edge_rows(graph, (upto - 1) as nat, a, b);
        if joins_from(all, a, b) {
            let i = choose|i: int|
                0 <= i < all.len() && #[trigger] all[i] == (a as usize, b as usize) && a == all[i].0
                    && b == all[i].1;
            if i < before.len() {
                assert(before[i] == all[i]);
                assert(joins_from(before, a, b));
            } else {
                assert(all[i] == row[i - before.len()]);
                assert(graph[a][i - before.len()] == b);
            }
        }
        if 0 <= a < upto && holds(graph[a], b) {
            if a < upto - 1 {
                assert(joins_from(before, a, b));
                let i = choose|i: int|
                    0 <= i < before.len() && #[trigger] before[i] == (a as usize, b as usize)
                        && a == before[i].0 && b == before[i].1;
                assert(all[i] == before[i]);
            } else {
                let k = choose|k: int| 0 <= k < graph[a].len() && #[trigger] graph[a][k] == b;
                assert(all[before.len() + k] == row[k]);
            }
        }
    }
}

/// Whether `edges` holds the edge from `a` to `b`, in this direction.
pub open spec fn joins_from(edges: Seq<(usize, usize)>, a: int, b: int) -> bool {
    exists|i: int|
        0 <= i < edges.len() && #[trigger] edges[i] == (a as usize, b as usize) && a
            == edges[i].0 && b == edges[i].1
}

/// The span of edges between points below `n` is at most `n`.
pub proof fn lemma_edge_span_within(edges: Seq<(usize, usize)>, n: nat)
    requires
        forall|i: int| 0 <= i < edges.len() ==> (#[trigger] edges[i]).0 < n && edges[i].1 < n,
    ensures
        edge_span(edges) <= n,
    decreases edges.len(),
{
    if edges.len() > 0 {
        lemma_edge_span_within(edges.drop_last(), n);
    }
}

/// The points of a board can be counted by the machine.
pub proof fn lemma_board_size(board: &Board)
    requires
        board.wf(),
    ensures
        board.size() <= usize::MAX,
{
    assert(board.inv());
}

/// A board comes back from the list of its edges: the list is valid, and
/// it joins the same points, as many as the board has.
pub proof fn lemma_edge_list_round_trip(board: &Board)
    requires
        board.wf(),
    ensures
        valid_edges(board.edge_list()),
        edge_span(board.edge_list()) == board.size(),
        forall|a: int, b: int| joins(board.edge_list(), a, b) <==> board.adjacent(a, b),
{
    let graph = board@;
    let n = graph.len();
    let edges = board.edge_list();
    assert(board.inv());
    assert forall|i: int| 0 <= i < edges.len() implies (#[trigger] edges[i]).0 < n && edges[i].1
        < n && edges[i].0 != edges[i].1 by {
        let a = edges[i].0 as int;
        let b = edges[i].1 as int;
        assert(joins_from(edges, a, b));
        lemma_edge_rows(graph, n, a, b);
        let k = choose|k: int| 0 <= k < graph[a].len() && #[trigger] graph[a][k] == b;
    }
    lemma_edge_span_within(edges, n);
    assert forall|a: int, b: int| joins(edges, a, b) <==> board.adjacent(a, b) by {
        lemma_edge_rows(graph, n, a, b);
        lemma_edge_rows(graph, n, b, a);
        if joins(edges, a, b) {
            let i = choose|i: int| 0 <= i < edges.len() && #[trigger] joined_by(edges[i], a, b);
            if edges[i].0 == a {
                assert(joins_from(edges, a, b));
            } else {
                assert(joins_from(edges, b, a));
                assert(board.adjacent(b, a));
            }
        }
        if board.adjacent(a, b) {
            assert(joins_from(edges, a, b));
            let i = choose|i: int|
                0 <= i < edges.len() && #[trigger] edges[i] == (a as usize, b as usize) && a
                    == edges[i].0 && b == edges[i].1;
            assert(joined_by(edges[i], a, b));
        }
    }
    assert forall|p: int| 0 <= p < n implies touches(edges, p) by {
        let b = graph[p][0] as int;
        assert(holds(graph[p], b));
        lemma_edge_rows(graph, n, p, b);
        let i = choose|i: int|
            0 <= i < edges.len() && #[trigger] edges[i] == (p as usize, b as usize) && p
                == edges[i].0 && b == edges[i].1;
        assert(edges[i].0 == p);
    }
    assert(touches(edges, n - 1));
    let w = choose|w: int| 0 <= w < edges.len() && (#[trigger] edges[w].0 == n - 1 || edges[w].1 == n - 1);
    lemma_edge_span_bounds(edges, w);
}

/// A board state: the color of every point, and the partition of the points
/// into chains (groups of stones) and bubbles (groups of empty points).
pub struct Position {
    board_state: Vec<Color>,
    chain_id_backref: Vec<usize>,
}

impl Position {
    /// The color of every point. Two positions are the same position when
    /// these agree.
    pub closed spec fn view(&self) -> Seq<Color> {
        self.board_state@
    }

    /// The group identifier of every point.
    pub closed spec fn groups(&self) -> Seq<usize> {
        self.chain_id_backref@
    }

    /// The position covers the board and its identifiers are in range.
    pub open spec fn shaped(&self, board: &Board) -> bool {
        &&& self@.len() == board.size()
        &&& self.groups().len() == board.size()
        &&& forall|p: int| 0 <= p < board.size() ==> #[trigger] self.groups()[p] <= board.size()
    }

    /// The partition invariant: two points carry one identifier exactly when
    /// a same-colored walk joins them. So no group spans two colors, no
    /// point lies in two groups, and every group is a whole chain or bubble.
    pub open spec fn wf(&self, board: &Board) -> bool {
        &&& self.shaped(board)
        &&& forall|p: int, q: int|
            0 <= p < board.size() && 0 <= q < board.size() ==> (self.groups()[p]
                == self.groups()[q] <==> #[trigger] connected(board, self@, p, q))
    }

    /// The color of a point.
    pub fn get(&self, point: usize) -> (color: Color)
        requires
            point < self@.len(),
        ensures
            color == self@[point as int],
    {
        self.board_state[point]
    }

    /// The number of points.
    pub fn len(&self) -> (n: usize)
        ensures
            n == self@.len(),
    {
        self.board_state.len()
    }

    /// Whether two points lie in one chain or bubble.
    pub fn same_group(&self, p: usize, q: usize) -> (same: bool)
        requires
            p < self.groups().len(),
            q < self.groups().len(),
        ensures
            same == (self.groups()[p as int] == self.groups()[q as int]),
    {
        self.chain_id_backref[p] == self.chain_id_backref[q]
    }

    /// Whether two positions color every point alike.
    pub fn same_as(&self, other: &Position) -> (same: bool)
        ensures
            same == (self@ == other@),
    {
        if self.board_state.len() != other.board_state.len() {
            return false;
        }
        let mut i: usize = 0;
        while i < self.board_state.len()
            invariant
                i <= self@.len(),
                self@.len() == other@.len(),
                forall|j: int| 0 <= j < i ==> self@[j] == other@[j],
            decreases self@.len() - i,
        {
            if self.board_state[i] != other.board_state[i] {
                return false;
            }
            i += 1;
        }
        assert(self@ =~= other@);
        true
    }

    /// A copy with the same colors and the same groups.
    pub fn duplicate(&self) -> (copy: Position)
        ensures
            copy@ == self@,
            copy.groups() == self.groups(),
    {
        let mut board_state: Vec<Color> = Vec::new();
        let mut i: usize = 0;
        while i < self.board_state.len()
            invariant
                i <= self@.len(),
                board_state@ == self@.take(i as int),
            decreases self@.len() - i,
        {
            board_state.push(self.board_state[i]);
            assert(self@.take(i + 1) =~= self@.take(i as int).push(self@[i as int]));
            i += 1;
        }
        assert(self@.take(i as int) =~= self@);
        let mut chain_id_backref: Vec<usize> = Vec::new();
        let mut i: usize = 0;
        while i < self.chain_id_backref.len()
            invariant
                i <= self.groups().len(),
                chain_id_backref@ == self.groups().take(i as int),
            decreases self.groups().len() - i,
        {
            chain_id_backref.push(self.chain_id_backref[i]);
            assert(self.groups().take(i + 1) =~= self.groups().take(i as int).push(
                self.groups()[i as int],
            ));
            i += 1;
        }
        assert(self.groups().take(i as int) =~= self.groups());
        Position { board_state, chain_id_backref }
    }

    fn id_in_use(&self, id: usize) -> (used: bool)
        ensures
            used == holds(self.groups(), id as int),
    {
        let mut q: usize = 0;
        while q < self.chain_id_backref.len()
            invariant
                q <= self.groups().len(),
                forall|j: int| 0 <= j < q ==> self.groups()[j] != id,
            decreases self.groups().len() - q,
        {
            if self.chain_id_backref[q] == id {
                return true;
            }
            q += 1;
        }
        false
    }
}

impl Clone for Position {
    /// A copy with the same colors and the same groups.
    fn clone(&self) -> (copy: Position)
        ensures
            copy@ == self@,
            copy.groups() == self.groups(),
    {
        self.duplicate()
    }
}

impl PartialEq for Position {
    /// Two positions are equal when they color every point alike; the
    /// groups take no part.
    fn eq(&self, other: &Position) -> (same: bool) {
        self.same_as(other)
    }
}

impl Eq for Position {

}

impl vstd::std_specs::cmp::PartialEqSpecImpl for Position {
    open spec fn obeys_eq_spec() -> bool {
        true
    }

    open spec fn eq_spec(&self, other: &Position) -> bool {
        self@ == other@
    }
}

/// In a position that keeps the partition invariant, the points of a group
/// have one color, and neighbors of one color lie in one group.
pub proof fn lemma_partition(board: &Board, pos: &Position, p: int, q: int)
    requires
        board.wf(),
        pos.wf(board),
        0 <= p < board.size(),
        0 <= q < board.size(),
    ensures
        pos.groups()[p] == pos.groups()[q] ==> pos@[p] == pos@[q],
        board.adjacent(p, q) && pos@[p] == pos@[q] ==> pos.groups()[p] == pos.groups()[q],
{
    if pos.groups()[p] == pos.groups()[q] {
        assert(connected(board, pos@, p, q));
        lemma_connected_same_color(board, pos@, p, q);
    }
    if board.adjacent(p, q) && pos@[p] == pos@[q] {
        lemma_connected_refl(board, pos@, p);
        lemma_connected_step(board, pos@, p, p, q);
    }
}

/// Among `n + 1` identifiers, `n` points leave one unused.
proof fn lemma_spare_id(ids: Seq<usize>, n: nat)
    requires
        ids.len() == n,
        forall|c: int| 0 <= c < n ==> holds(ids, c),
    ensures
        !holds(ids, n as int),
{
    if holds(ids, n as int) {
        let w = Seq::new(
            n + 1,
            |c: int| (choose|k: int| 0 <= k < ids.len() && #[trigger] ids[k] == c) as usize,
        );
        assert forall|c: int| 0 <= c < n + 1 implies 0 <= #[trigger] w[c] < n && ids[w[c] as int]
            == c by {
            assert(holds(ids, c));
        }
        assert(w.no_duplicates());
        lemma_distinct_bounded(w, n);
    }
}

impl Board {
    /// The lowest group identifier that no point carries.
    fn fresh_chain_id(&self, pos: &Position) -> (id: usize)
        requires
            self.wf(),
            pos.shaped(self),
        ensures
            id <= self.size(),
            !holds(pos.groups(), id as int),
    {
        let n = self.point_count;
        let mut id: usize = 0;
        while id < n
            invariant
                id <= n,
                n == self.size(),
                forall|c: int| 0 <= c < id ==> holds(pos.groups(), c),
            decreases n - id,
        {
            if !pos.id_in_use(id) {
                return id;
            }
            id += 1;
        }
        proof {
            lemma_spare_id(pos.groups(), n as nat);
        }
        id
    }

    /// Re-seeds the group at `point`: a breadth-first fill over same-colored
    /// neighbors gives the whole chain or bubble of `point` one identifier
    /// that no point carried, and leaves every other point as it was.
    fn seed_chain(&self, pos: &mut Position, point: usize) -> (id: usize)
        requires
            self.wf(),
            old(pos).shaped(self),
            point < self.size(),
        ensures
            final(pos).shaped(self),
            final(pos)@ == old(pos)@,
            id <= self.size(),
            !holds(old(pos).groups(), id as int),
            forall|q: int|
                0 <= q < self.size() ==> #[trigger] final(pos).groups()[q] == (if connected(
                    self,
                    old(pos)@,
                    point as int,
                    q,
                ) {
                    id
                } else {
                    old(pos).groups()[q]
                }),
    {
        let id = self.fresh_chain_id(pos);
        let n = self.point_count;
        let color = pos.board_state[point];
        let ghost colors = pos@;
        let ghost before = pos.groups();
        pos.chain_id_backref[point] = id;
        let mut queue: Vec<usize> = Vec::new();
        queue.push(point);
        proof {
            lemma_connected_refl(self, colors, point as int);
            assert(queue@[0] == point);
            assert forall|q: int| 0 <= q < n implies before[q] != id by {
                if before[q] == id {
                    assert(holds(before, id as int));
                }
            }
        }
        let mut next: usize = 0;
        while next < queue.len()
            invariant
                self.wf(),
                pos.shaped(self),
                pos@ == colors,
                n == self.size(),
                before.len() == n,
                point < n,
                id <= n,
                color == colors[point as int],
                next <= queue@.len() <= n,
                queue@.len() >= 1,
                queue@[0] == point,
                queue@.no_duplicates(),
                forall|i: int|
                    0 <= i < queue@.len() ==> (#[trigger] queue@[i]) < n && pos.groups()[queue@[i] as int]
                        == id && connected(self, colors, point as int, queue@[i] as int),
                forall|q: int| 0 <= q < n && #[trigger] pos.groups()[q] == id ==> holds(queue@, q),
                forall|q: int| 0 <= q < n && #[trigger] pos.groups()[q] != id ==>
                    pos.groups()[q] == before[q],
                forall|q: int| 0 <= q < n ==> #[trigger] before[q] != id,
                forall|i: int, k: int|
                    0 <= i < next && 0 <= k < self@[queue@[i] as int].len() && colors[(
                    #[trigger] self@[queue@[i] as int][k]) as int] == color
                        ==> pos.groups()[self@[queue@[i] as int][k] as int]
                        == id,
            decreases n - next,
        {
            let cur = queue[next];
            let mut k: usize = 0;
            while k < self.neighbor_lists[cur].len()
                invariant
                    self.wf(),
                    pos.shaped(self),
                    pos@ == colors,
                    n == self.size(),
                    before.len() == n,
                    point < n,
                    id <= n,
                    cur < n,
                    color == colors[point as int],
                    next < queue@.len() <= n,
                    queue@[0] == point,
                    cur == queue@[next as int],
                    k <= self@[cur as int].len(),
                    queue@.no_duplicates(),
                    forall|i: int|
                        0 <= i < queue@.len() ==> (#[trigger] queue@[i]) < n && pos.groups()[queue@[i] as int]
                            == id && connected(self, colors, point as int, queue@[i] as int),
                    forall|q: int| 0 <= q < n && #[trigger] pos.groups()[q] == id ==> holds(queue@, q),
                    forall|q: int| 0 <= q < n && #[trigger] pos.groups()[q] != id ==>
                        pos.groups()[q] == before[q],
                    forall|q: int| 0 <= q < n ==> #[trigger] before[q] != id,
                    forall|i: int, k: int|
                        0 <= i < next && 0 <= k < self@[queue@[i] as int].len() && colors[(
                        #[trigger] self@[queue@[i] as int][k]) as int] == color
                            ==> pos.groups()[self@[queue@[i] as int][k] as int]
                            == id,
                    forall|j: int|
                        0 <= j < k && colors[(#[trigger] self@[cur as int][j]) as int] == color
                            ==> pos.groups()[self@[cur as int][j] as int] == id,
                decreases self@[cur as int].len() - k,
            {
                let nb = self.neighbor_lists[cur][k];
                assert(nb == self@[cur as int][k as int]);
                assert(nb < n);
                if pos.board_state[nb] == color && pos.chain_id_backref[nb] != id {
                    let ghost old_queue = queue@;
                    let ghost old_groups = pos.groups();
                    proof {
                        assert(holds(self@[cur as int], nb as int));
                        assert(self.adjacent(cur as int, nb as int));
                        lemma_connected_same_color(self, colors, point as int, cur as int);
                        lemma_connected_step(self, colors, point as int, cur as int, nb as int);
                        assert(old_queue.push(nb).no_duplicates());
                        lemma_distinct_bounded(old_queue.push(nb), n as nat);
                    }
                    pos.chain_id_backref[nb] = id;
                    queue.push(nb);
                    proof {
                        assert forall|q: int| 0 <= q < n && #[trigger] pos.groups()[q] == id implies holds(
                            queue@,
                            q,
                        ) by {
                            if q == nb {
                                assert(queue@[queue@.len() - 1] == q);
                            } else {
                                assert(old_groups[q] == id);
                                assert(holds(old_queue, q));
                                let w = choose|w: int|
                                    0 <= w < old_queue.len() && #[trigger] old_queue[w] == q;
                                assert(queue@[w] == q);
                            }
                        }
                    }
                }
                k += 1;
            }
            next += 1;
        }
        proof {
            let ids = pos.groups();
            let s = |q: int| 0 <= q < n && ids[q] == id;
            assert(closed_under_steps(self, colors, s)) by {
                assert forall|x: int, y: int|
                    s(x) && self.adjacent(x, y) && 0 <= x < colors.len() && 0 <= y < colors.len()
                        && colors[x] == colors[y] implies s(y) by {
                    assert(holds(queue@, x));
                    let i = choose|i: int| 0 <= i < queue@.len() && #[trigger] queue@[i] == x;
                    let k = choose|k: int| 0 <= k < self@[x].len() && #[trigger] self@[x][k] == y;
                    lemma_connected_same_color(self, colors, point as int, x);
                    assert(self@[queue@[i] as int][k] == y);
                }
            }
            assert forall|q: int| 0 <= q < n implies #[trigger] ids[q] == (if connected(
                self,
                colors,
                point as int,
                q,
            ) {
                id
            } else {
                before[q]
            }) by {
                if connected(self, colors, point as int, q) {
                    assert(queue@[0] == point);
                    assert(ids[queue@[0] as int] == id);
                    lemma_closed_set(self, colors, s, point as int, q);
                } else {
                    if ids[q] == id {
                        assert(holds(queue@, q));
                        let i = choose|i: int| 0 <= i < queue@.len() && #[trigger] queue@[i] == q;
                        assert(connected(self, colors, point as int, queue@[i] as int));
                    }
                }
            }
        }
        id
    }
}

impl Board {
    /// The position with no stones on it, its bubbles found by filling.
    pub fn empty_position(&self) -> (pos: Position)
        requires
            self.wf(),
        ensures
            pos.wf(self),
            forall|p: int| 0 <= p < self.size() ==> pos@[p] == Color::Empty,
    {
        let n = self.point_count;
        let mut board_state: Vec<Color> = Vec::new();
        let mut chain_id_backref: Vec<usize> = Vec::new();
        while board_state.len() < n
            invariant
                board_state@.len() == chain_id_backref@.len(),
                board_state@.len() <= n,
                forall|p: int| 0 <= p < board_state@.len() ==> board_state@[p] == Color::Empty,
                forall|p: int| 0 <= p < board_state@.len() ==> chain_id_backref@[p] == 0,
            decreases n - board_state@.len(),
        {
            board_state.push(Color::Empty);
            chain_id_backref.push(0);
        }
        let mut pos = Position { board_state, chain_id_backref };
        let ghost colors = pos@;
        let mut p: usize = 0;
        while p < n
            invariant
                self.wf(),
                n == self.size(),
                p <= n,
                pos.shaped(self),
                pos@ == colors,
                forall|x: int| 0 <= x < n ==> colors[x] == Color::Empty,
                forall|x: int| 0 <= x < p ==> pos.groups()[x] != 0,
                forall|x: int, y: int|
                    0 <= x < n && 0 <= y < n && pos.groups()[x] != 0 ==> (pos.groups()[x]
                        == pos.groups()[y] <==> #[trigger] connected(self, colors, x, y)),
            decreases n - p,
        {
            if pos.chain_id_backref[p] == 0 {
                let ghost before = pos.groups();
                assert(holds(before, 0));
                let id = self.seed_chain(&mut pos, p);
                proof {
                    let after = pos.groups();
                    lemma_connected_refl(self, colors, p as int);
                    assert forall|x: int, y: int|
                        0 <= x < n && 0 <= y < n && after[x] != 0 implies (after[x] == after[y]
                        <==> #[trigger] connected(self, colors, x, y)) by {
                        if before[y] == id {
                            assert(holds(before, id as int));
                        }
                        if before[x] == id {
                            assert(holds(before, id as int));
                        }
                        if connected(self, colors, p as int, x) {
                            lemma_connected_sym(self, colors, p as int, x);
                            if connected(self, colors, p as int, y) {
                                lemma_connected_trans(self, colors, x, p as int, y);
                            }
                            if connected(self, colors, x, y) {
                                lemma_connected_trans(self, colors, p as int, x, y);
                            }
                        } else {
                            assert(before[x] != 0);
                            if connected(self, colors, p as int, y) {
                                if connected(self, colors, x, y) {
                                    lemma_connected_sym(self, colors, x, y);
                                    lemma_connected_trans(self, colors, p as int, y, x);
                                }
                            }
                        }
                    }
                }
            }
            p += 1;
        }
        pos
    }

    /// Whether the group of `point` is next to an empty point.
    fn group_has_liberty(&self, pos: &Position, point: usize) -> (free: bool)
        requires
            self.wf(),
            pos.wf(self),
            point < self.size(),
        ensures
            free == has_liberty(self, pos@, point as int),
    {
        let n = self.point_count;
        let id = pos.chain_id_backref[point];
        let mut q: usize = 0;
        while q < n
            invariant
                self.wf(),
                pos.wf(self),
                n == self.size(),
                q <= n,
                point < n,
                id == pos.groups()[point as int],
                forall|x: int, k: int|
                    0 <= x < q && 0 <= k < self@[x].len() && pos.groups()[x] == id ==> pos@[(
                    #[trigger] self@[x][k]) as int] != Color::Empty,
            decreases n - q,
        {
            if pos.chain_id_backref[q] == id {
                let mut k: usize = 0;
                while k < self.neighbor_lists[q].len()
                    invariant
                        self.wf(),
                        pos.wf(self),
                        n == self.size(),
                        q < n,
                        point < n,
                        id == pos.groups()[point as int],
                        pos.groups()[q as int] == id,
                        k <= self@[q as int].len(),
                        forall|j: int|
                            0 <= j < k ==> pos@[(#[trigger] self@[q as int][j]) as int]
                                != Color::Empty,
                    decreases self@[q as int].len() - k,
                {
                    let r = self.neighbor_lists[q][k];
                    assert(r == self@[q as int][k as int]);
                    if pos.board_state[r] == Color::Empty {
                        proof {
                            assert(connected(self, pos@, point as int, q as int));
                            assert(holds(self@[q as int], r as int));
                            assert(self.adjacent(q as int, r as int));
                        }
                        return true;
                    }
                    k += 1;
                }
            }
            q += 1;
        }
        proof {
            if has_liberty(self, pos@, point as int) {
                let (x, r) = choose|x: int, r: int|
                    #![trigger connected(self, pos@, point as int, x), self.adjacent(x, r)]
                    connected(self, pos@, point as int, x) && self.adjacent(x, r) && 0 <= r
                        < pos@.len() && pos@[r] == Color::Empty;
                lemma_connected_same_color(self, pos@, point as int, x);
                let k = choose|k: int| 0 <= k < self@[x].len() && #[trigger] self@[x][k] == r;
                assert(pos@[self@[x][k] as int] != Color::Empty);
            }
        }
        false
    }

    /// Takes the whole group of `point` off the board and re-seeds the
    /// bubble that its points then lie in.
    fn remove_chain(&self, pos: &mut Position, point: usize)
        requires
            self.wf(),
            old(pos).wf(self),
            point < self.size(),
        ensures
            final(pos).wf(self),
            final(pos)@ == cleared(self, old(pos)@, point as int),
    {
        let n = self.point_count;
        let id = pos.chain_id_backref[point];
        let ghost colors = pos@;
        let ghost ids = pos.groups();
        let mut q: usize = 0;
        while q < n
            invariant
                self.wf(),
                n == self.size(),
                q <= n,
                pos.shaped(self),
                pos.groups() == ids,
                colors.len() == n,
                forall|x: int| 0 <= x < q ==>
                    pos@[x] == (if ids[x] == id { Color::Empty } else { colors[x] }),
                forall|x: int| q <= x < n ==> pos@[x] == colors[x],
            decreases n - q,
        {
            if pos.chain_id_backref[q] == id {
                pos.board_state[q] = Color::Empty;
            }
            q += 1;
        }
        proof {
            assert(pos@ =~= cleared(self, colors, point as int));
            lemma_clear_outside(self, colors, ids, point as int);
        }
        let fresh = self.seed_chain(pos, point);
        proof {
            assert forall|x: int| 0 <= x < n implies ids[x] != fresh by {
                if ids[x] == fresh {
                    assert(holds(ids, fresh as int));
                }
            }
            lemma_seed_restores(self, pos@, ids, pos.groups(), point as int, fresh, -1);
        }
    }

    /// Takes off the board every group that `flags` marks.
    fn remove_flagged(&self, pos: &mut Position, flags: &Vec<bool>)
        requires
            self.wf(),
            old(pos).wf(self),
            flags@.len() == self.size(),
            marks_groups(self, old(pos)@, flags@),
        ensures
            final(pos).wf(self),
            final(pos)@ == emptied(old(pos)@, flags@),
    {
        let n = self.point_count;
        let ghost colors = pos@;
        let mut p: usize = 0;
        while p < n
            invariant
                self.wf(),
                pos.wf(self),
                n == self.size(),
                colors.len() == n,
                p <= n,
                flags@.len() == n,
                marks_groups(self, colors, flags@),
                forall|x: int|
                    0 <= x < n ==> pos@[x] == colors[x] || (flags@[x] && pos@[x] == Color::Empty),
                forall|x: int| 0 <= x < p && flags@[x] ==> pos@[x] == Color::Empty,
            decreases n - p,
        {
            if flags[p] && pos.board_state[p] != Color::Empty {
                let ghost now = pos@;
                proof {
                    assert forall|x: int| connected(self, now, p as int, x) implies flags@[x] by {
                        assert forall|y: int| #[trigger] connected(self, now, p as int, y) implies colors[y]
                            == colors[p as int] by {
                            lemma_connected_same_color(self, now, p as int, y);
                        }
                        lemma_connected_transfer(self, now, colors, p as int, x);
                        lemma_connected_same_color(self, now, p as int, x);
                    }
                    lemma_connected_refl(self, now, p as int);
                }
                self.remove_chain(pos, p);
            }
            p += 1;
        }
        assert(pos@ =~= emptied(colors, flags@));
    }

    /// Takes every chain of `color` without liberties off the board.
    fn capture(&self, pos: &mut Position, color: Color)
        requires
            self.wf(),
            old(pos).wf(self),
            color != Color::Empty,
        ensures
            final(pos).wf(self),
            final(pos)@ == without_dead(self, old(pos)@, color),
    {
        let n = self.point_count;
        let ghost colors = pos@;
        let mut dead: Vec<bool> = Vec::new();
        let mut p: usize = 0;
        while p < n
            invariant
                self.wf(),
                pos.wf(self),
                pos@ == colors,
                n == self.size(),
                p <= n,
                dead@.len() == p,
                forall|x: int| 0 <= x < p ==> dead@[x] == is_dead(self, colors, color, x),
            decreases n - p,
        {
            let gone = pos.board_state[p] == color && !self.group_has_liberty(pos, p);
            dead.push(gone);
            p += 1;
        }
        proof {
            assert forall|x: int, y: int|
                0 <= x < colors.len() && dead@[x] && #[trigger] connected(
                    self,
                    colors,
                    x,
                    y,
                ) implies dead@[y] by {
                lemma_dead_together(self, colors, color, x, y);
                lemma_connected_same_color(self, colors, x, y);
            }
        }
        self.remove_flagged(pos, &dead);
        assert(pos@ =~= without_dead(self, colors, color));
    }

    /// Takes every stone of `color` off the board.
    fn clear_color(&self, pos: &mut Position, color: Color)
        requires
            self.wf(),
            old(pos).wf(self),
        ensures
            final(pos).wf(self),
            final(pos)@ == without_color(old(pos)@, color),
    {
        let n = self.point_count;
        let ghost colors = pos@;
        let mut flags: Vec<bool> = Vec::new();
        let mut p: usize = 0;
        while p < n
            invariant
                pos.wf(self),
                pos@ == colors,
                n == self.size(),
                p <= n,
                flags@.len() == p,
                forall|x: int| 0 <= x < p ==> flags@[x] == (colors[x] == color),
            decreases n - p,
        {
            flags.push(pos.board_state[p] == color);
            p += 1;
        }
        proof {
            assert forall|x: int, y: int|
                0 <= x < colors.len() && flags@[x] && #[trigger] connected(
                    self,
                    colors,
                    x,
                    y,
                ) implies flags@[y] by {
                lemma_connected_same_color(self, colors, x, y);
            }
        }
        self.remove_flagged(pos, &flags);
        assert(pos@ =~= without_color(colors, color));
    }

    /// Whether the bubble of `bubble` is a foot of the chain of `chain`.
    fn check_if_foot(&self, pos: &Position, chain: usize, bubble: usize) -> (foot: bool)
        requires
            self.wf(),
            pos.wf(self),
            chain < self.size(),
            bubble < self.size(),
        ensures
            foot == foot_of(self, pos@, chain as int, bubble as int),
    {
        let n = self.point_count;
        if pos.board_state[bubble] != Color::Empty {
            return false;
        }
        let bubble_id = pos.chain_id_backref[bubble];
        let chain_id = pos.chain_id_backref[chain];
        let mut x: usize = 0;
        while x < n
            invariant
                self.wf(),
                pos.wf(self),
                n == self.size(),
                x <= n,
                chain < n,
                bubble < n,
                bubble_id == pos.groups()[bubble as int],
                chain_id == pos.groups()[chain as int],
                forall|w: int|
                    0 <= w < x && pos.groups()[w] == bubble_id ==> #[trigger] leans_on(
                        self,
                        pos@,
                        chain as int,
                        w,
                    ),
            decreases n - x,
        {
            if pos.chain_id_backref[x] == bubble_id {
                let mut touching = false;
                let ghost mut at: int = 0;
                let mut k: usize = 0;
                while k < self.neighbor_lists[x].len()
                    invariant
                        self.wf(),
                        pos.wf(self),
                        n == self.size(),
                        x < n,
                        chain < n,
                        bubble < n,
                        bubble_id == pos.groups()[bubble as int],
                        chain_id == pos.groups()[chain as int],
                        pos.groups()[x as int] == bubble_id,
                        k <= self@[x as int].len(),
                        touching ==> self.adjacent(x as int, at) && connected(
                            self,
                            pos@,
                            chain as int,
                            at,
                        ),
                        forall|j: int|
                            0 <= j < k ==> {
                                let y = (#[trigger] self@[x as int][j]) as int;
                                (pos@[y] != Color::Empty ==> pos.groups()[y] == chain_id) && (
                                pos.groups()[y] == chain_id ==> touching)
                            },
                    decreases self@[x as int].len() - k,
                {
                    let y = self.neighbor_lists[x][k];
                    assert(y == self@[x as int][k as int]);
                    assert(holds(self@[x as int], y as int));
                    assert(self.adjacent(x as int, y as int));
                    if pos.chain_id_backref[y] == chain_id {
                        touching = true;
                        proof {
                            at = y as int;
                            assert(connected(self, pos@, chain as int, y as int));
                        }
                    } else if pos.board_state[y] != Color::Empty {
                        proof {
                            assert(connected(self, pos@, bubble as int, x as int));
                            assert(!connected(self, pos@, chain as int, y as int));
                            assert(!leans_on(self, pos@, chain as int, x as int));
                        }
                        return false;
                    }
                    k += 1;
                }
                if !touching {
                    proof {
                        assert(connected(self, pos@, bubble as int, x as int));
                        if leans_on(self, pos@, chain as int, x as int) {
                            let y = choose|y: int| #[trigger]
                                self.adjacent(x as int, y) && connected(
                                    self,
                                    pos@,
                                    chain as int,
                                    y,
                                );
                            lemma_connected_same_color(self, pos@, chain as int, y);
                            let j = choose|j: int|
                                0 <= j < self@[x as int].len() && #[trigger] self@[x as int][j]
                                    == y;
                            assert(pos.groups()[self@[x as int][j] as int] == chain_id);
                        }
                    }
                    return false;
                }
                proof {
                    assert forall|y: int|
                        #[trigger] self.adjacent(x as int, y) && 0 <= y < pos@.len() && pos@[y]
                            != Color::Empty implies connected(self, pos@, chain as int, y) by {
                        let j = choose|j: int|
                            0 <= j < self@[x as int].len() && #[trigger] self@[x as int][j] == y;
                        assert(pos.groups()[self@[x as int][j] as int] == chain_id);
                    }
                    assert(leans_on(self, pos@, chain as int, x as int));
                }
            }
            x += 1;
        }
        proof {
            assert forall|w: int| #[trigger] connected(self, pos@, bubble as int, w) implies leans_on(
                self,
                pos@,
                chain as int,
                w,
            ) by {
                lemma_connected_same_color(self, pos@, bubble as int, w);
            }
        }
        true
    }

    /// Whether the chain of `chain` stands on two feet.
    fn check_if_standing(&self, pos: &Position, chain: usize) -> (safe: bool)
        requires
            self.wf(),
            pos.wf(self),
            chain < self.size(),
        ensures
            safe == standing(self, pos@, chain as int),
    {
        let n = self.point_count;
        let mut first: Option<usize> = None;
        let mut b: usize = 0;
        while b < n
            invariant
                self.wf(),
                pos.wf(self),
                n == self.size(),
                chain < n,
                b <= n,
                first matches Some(f) ==> f < n && foot_of(self, pos@, chain as int, f as int),
                forall|c: int|
                    0 <= c < b && #[trigger] foot_of(self, pos@, chain as int, c) ==> (
                    first matches Some(f) && pos.groups()[c] == pos.groups()[f as int]),
            decreases n - b,
        {
            let fresh = match first {
                None => true,
                Some(f) => pos.chain_id_backref[b] != pos.chain_id_backref[f],
            };
            if fresh && self.check_if_foot(pos, chain, b) {
                match first {
                    None => {
                        first = Some(b);
                    },
                    Some(f) => {
                        assert(!connected(self, pos@, f as int, b as int));
                        return true;
                    },
                }
            }
            b += 1;
        }
        proof {
            if standing(self, pos@, chain as int) {
                let (b1, b2) = choose|b1: int, b2: int|
                    #![trigger foot_of(self, pos@, chain as int, b1), foot_of(self, pos@, chain as int, b2)]
                    foot_of(self, pos@, chain as int, b1) && foot_of(self, pos@, chain as int, b2)
                        && !connected(self, pos@, b1, b2);
                assert(pos.groups()[b1] == pos.groups()[b2]);
            }
        }
        false
    }

    /// Keeps of the stones of `color` those that live whatever happens, and
    /// takes every other stone off the board.
    pub fn keep_only_immortal_one_color(&self, pos: &mut Position, color: Color)
        requires
            self.wf(),
            old(pos).wf(self),
            color != Color::Empty,
        ensures
            final(pos).wf(self),
            final(pos)@ == immortal_subset(self, old(pos)@, color),
            without_weak(self, final(pos)@, color) == final(pos)@,
    {
        let n = self.point_count;
        self.clear_color(pos, color.reverse());
        let ghost cleared = pos@;
        let ghost mut fuel: nat = n as nat;
        proof {
            lemma_fewer_stones(cleared, cleared, color);
        }
        loop
            invariant_except_break
                settle(self, cleared, color, n as nat) == settle(self, pos@, color, fuel),
                fuel >= stones(pos@, color),
            invariant
                self.wf(),
                pos.wf(self),
                n == self.size(),
                color != Color::Empty,
            ensures
                pos@ == settle(self, cleared, color, n as nat),
                without_weak(self, pos@, color) == pos@,
            decreases stones(pos@, color),
        {
            let ghost now = pos@;
            let mut flags: Vec<bool> = Vec::new();
            let mut any = false;
            let ghost mut marked: int = 0;
            let mut p: usize = 0;
            while p < n
                invariant
                    self.wf(),
                    pos.wf(self),
                    pos@ == now,
                    n == self.size(),
                    p <= n,
                    flags@.len() == p,
                    forall|x: int| 0 <= x < p ==> flags@[x] == is_weak(self, now, color, x),
                    any ==> 0 <= marked < p && flags@[marked],
                    !any ==> forall|x: int| 0 <= x < p ==> !#[trigger] flags@[x],
                decreases n - p,
            {
                let weak = pos.board_state[p] == color && !self.check_if_standing(pos, p);
                flags.push(weak);
                if weak {
                    any = true;
                    proof {
                        marked = p as int;
                    }
                }
                p += 1;
            }
            if !any {
                proof {
                    assert forall|x: int| 0 <= x < n implies without_weak(self, now, color)[x]
                        == now[x] by {
                        assert(!flags@[x]);
                    }
                    assert(without_weak(self, now, color) =~= now);
                }
                break;
            }
            proof {
                assert forall|x: int, y: int|
                    0 <= x < now.len() && flags@[x] && #[trigger] connected(
                        self,
                        now,
                        x,
                        y,
                    ) implies flags@[y] by {
                    lemma_connected_same_color(self, now, x, y);
                    if standing(self, now, y) {
                        lemma_connected_sym(self, now, x, y);
                        lemma_standing_together(self, now, y, x);
                    }
                }
            }
            self.remove_flagged(pos, &flags);
            proof {
                assert(pos@ =~= without_weak(self, now, color));
                assert(pos@[marked] != now[marked]);
                lemma_fewer_stones(now, pos@, color);
                fuel = (fuel - 1) as nat;
            }
        }
    }

    /// The score of a position by stones: Black's stones less White's.
    pub fn score_delta_stone(&self, pos: &Position) -> (score: i32)
        requires
            self.wf(),
            pos.shaped(self),
            self.size() <= i32::MAX,
        ensures
            score == stones(pos@, Color::Black) - stones(pos@, Color::White),
    {
        let n = self.point_count;
        let mut black: usize = 0;
        let mut white: usize = 0;
        let mut p: usize = 0;
        while p < n
            invariant
                n == self.size(),
                pos@.len() == n,
                p <= n,
                black == stones(pos@.take(p as int), Color::Black),
                white == stones(pos@.take(p as int), Color::White),
                black <= p,
                white <= p,
            decreases n - p,
        {
            proof {
                assert(pos@.take(p + 1).drop_last() =~= pos@.take(p as int));
                assert(pos@.take(p + 1).last() == pos@[p as int]);
            }
            let here = pos.board_state[p];
            if here == Color::Black {
                black += 1;
            } else if here == Color::White {
                white += 1;
            }
            p += 1;
        }
        assert(pos@.take(n as int) =~= pos@);
        black as i32 - white as i32
    }

    /// Keeps the stones that live whatever happens, of both colors: Black's
    /// are kept in place, and White's are played back onto the board.
    pub fn keep_only_immortal(&self, pos: &mut Position)
        requires
            self.wf(),
            old(pos).wf(self),
        ensures
            final(pos).wf(self),
            final(pos)@ == immortal_stones(self, old(pos)@),
    {
        let n = self.point_count;
        let mut immortal_white = pos.duplicate();
        self.keep_only_immortal_one_color(&mut immortal_white, Color::White);
        self.keep_only_immortal_one_color(pos, Color::Black);
        let ghost base = pos@;
        let mut i: usize = 0;
        while i < n
            invariant
                self.wf(),
                pos.wf(self),
                immortal_white.wf(self),
                n == self.size(),
                i <= n,
                pos@ == replayed(self, base, immortal_white@, i as nat),
            decreases n - i,
        {
            if immortal_white.board_state[i] == Color::White && pos.board_state[i] == Color::Empty {
                self.play(pos, Color::White, i);
            }
            i += 1;
        }
    }

    /// Plays a stone of `color` on the empty point `point`: the stone joins
    /// the chains of its color around it, the bubble it was set in is split
    /// where needed, and chains without liberties are taken off, the
    /// opponent's first.
    pub fn play(&self, pos: &mut Position, color: Color, point: usize)
        requires
            self.wf(),
            old(pos).wf(self),
            color != Color::Empty,
            point < self.size(),
            old(pos)@[point as int] == Color::Empty,
        ensures
            final(pos).wf(self),
            final(pos)@ == play_result(self, old(pos)@, color, point as int),
    {
        let n = self.point_count;
        let ghost colors = pos@;
        let ghost ids = pos.groups();
        let bubble_id = pos.chain_id_backref[point];
        pos.board_state[point] = color;
        let ghost placed = pos@;
        proof {
            assert(placed =~= colors.update(point as int, color));
            lemma_place_outside(self, colors, ids, point as int, color);
            assert(holds(ids, bubble_id as int));
        }
        let first = self.seed_chain(pos, point);
        proof {
            assert forall|x: int| 0 <= x < n implies ids[x] != first by {
                if ids[x] == first {
                    assert(holds(ids, first as int));
                }
            }
            lemma_seed_restores(self, placed, ids, pos.groups(), point as int, first, bubble_id as int);
            lemma_connected_refl(self, placed, point as int);
        }
        let mut k: usize = 0;
        while k < self.neighbor_lists[point].len()
            invariant
                self.wf(),
                n == self.size(),
                point < n,
                pos.shaped(self),
                pos@ == placed,
                ids.len() == n,
                k <= self@[point as int].len(),
                exact_except(self, placed, pos.groups(), bubble_id as int),
                pos.groups()[point as int] != bubble_id,
                forall|x: int| 0 <= x < n && pos.groups()[x] == bubble_id ==> ids[x] == bubble_id,
                forall|j: int|
                    0 <= j < k ==> pos.groups()[(#[trigger] self@[point as int][j]) as int]
                        != bubble_id,
            decreases self@[point as int].len() - k,
        {
            let neighbor = self.neighbor_lists[point][k];
            assert(neighbor == self@[point as int][k as int]);
            if pos.chain_id_backref[neighbor] == bubble_id {
                let ghost before = pos.groups();
                let fresh = self.seed_chain(pos, neighbor);
                proof {
                    assert(holds(before, bubble_id as int));
                    assert forall|x: int| 0 <= x < n implies before[x] != fresh by {
                        if before[x] == fresh {
                            assert(holds(before, fresh as int));
                        }
                    }
                    lemma_seed_restores(
                        self,
                        placed,
                        before,
                        pos.groups(),
                        neighbor as int,
                        fresh,
                        bubble_id as int,
                    );
                    lemma_connected_refl(self, placed, neighbor as int);
                }
            }
            k += 1;
        }
        proof {
            let after = pos.groups();
            assert forall|nb: int| #[trigger] self.adjacent(point as int, nb) implies after[nb]
                != bubble_id by {
                let j = choose|j: int|
                    0 <= j < self@[point as int].len() && #[trigger] self@[point as int][j]
                        == nb;
                assert(after[self@[point as int][j] as int] != bubble_id);
            }
            assert forall|x: int| 0 <= x < n implies after[x] != bubble_id by {
                lemma_split_done(self, colors, ids, placed, after, point as int, x);
            }
            assert(pos.wf(self));
        }
        self.capture(pos, color.reverse());
        self.capture(pos, color);
    }
}

/// Whether `x` occurs in `list`.
pub fn list_contains(list: &Vec<usize>, x: usize) -> (found: bool)
    ensures
        found == list@.contains(x),
{
    let mut k: usize = 0;
    while k < list.len()
        invariant
            k <= list@.len(),
            forall|j: int| 0 <= j < k ==> list@[j] != x,
        decreases list@.len() - k,
    {
        if list[k] == x {
            return true;
        }
        k += 1;
    }
    false
}

} // verus!
