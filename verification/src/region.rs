//! Same-colored connectivity on a board: the mathematics behind chains and
//! bubbles.

use vstd::prelude::*;
use crate::engine::Board;
use crate::engine::Color;

verus! {

/// A walk over points of one color, each step along an edge of the board.
pub open spec fn is_path(board: &Board, colors: Seq<Color>, path: Seq<int>) -> bool {
    &&& path.len() > 0
    &&& forall|i: int|
        0 <= i < path.len() ==> 0 <= #[trigger] path[i] < colors.len() && colors[path[i]]
            == colors[path[0]]
    &&& forall|i: int| 0 <= i < path.len() - 1 ==> board.adjacent(#[trigger] path[i], path[i + 1])
}

/// Whether `a` and `b` lie in one group: a same-colored walk leads from `a`
/// to `b`.
pub open spec fn connected(board: &Board, colors: Seq<Color>, a: int, b: int) -> bool {
    exists|path: Seq<int>| #[trigger]
        is_path(board, colors, path) && path[0] == a && path.last() == b
}

/// Whether the set `s` is closed under same-colored steps.
pub open spec fn closed_under_steps(
    board: &Board,
    colors: Seq<Color>,
    s: spec_fn(int) -> bool,
) -> bool {
    forall|x: int, y: int|
        #![trigger s(x), board.adjacent(x, y)]
        s(x) && board.adjacent(x, y) && 0 <= x < colors.len() && 0 <= y < colors.len()
            && colors[x] == colors[y] ==> s(y)
}

proof fn lemma_closed_path(
    board: &Board,
    colors: Seq<Color>,
    s: spec_fn(int) -> bool,
    path: Seq<int>,
)
    requires
        is_path(board, colors, path),
        s(path[0]),
        closed_under_steps(board, colors, s),
    ensures
        s(path.last()),
    decreases path.len(),
{
    if path.len() > 1 {
        let prefix = path.drop_last();
        assert(is_path(board, colors, prefix)) by {
            assert forall|i: int| 0 <= i < prefix.len() - 1 implies board.adjacent(
                #[trigger] prefix[i],
                prefix[i + 1],
            ) by {
                assert(board.adjacent(path[i], path[i + 1]));
            }
            assert(prefix[0] == path[0]);
        }
        lemma_closed_path(board, colors, s, prefix);
        let x = path[path.len() - 2];
        let y = path.last();
        assert(prefix.last() == x);
        assert(board.adjacent(x, y));
        assert(colors[x] == colors[path[0]]);
        assert(colors[y] == colors[path[0]]);
    }
}

/// A set that holds `a` and is closed under same-colored steps holds every
/// point connected to `a`.
pub proof fn lemma_closed_set(
    board: &Board,
    colors: Seq<Color>,
    s: spec_fn(int) -> bool,
    a: int,
    b: int,
)
    requires
        connected(board, colors, a, b),
        s(a),
        closed_under_steps(board, colors, s),
    ensures
        s(b),
{
    let path = choose|path: Seq<int>| #[trigger]
        is_path(board, colors, path) && path[0] == a && path.last() == b;
    lemma_closed_path(board, colors, s, path);
}

/// Every point is connected to itself.
pub proof fn lemma_connected_refl(board: &Board, colors: Seq<Color>, a: int)
    requires
        0 <= a < colors.len(),
    ensures
        connected(board, colors, a, a),
{
    let path = seq![a];
    assert(is_path(board, colors, path));
    assert(path[0] == a && path.last() == a);
}

/// Connected points are points of the board and share a color.
pub proof fn lemma_connected_same_color(board: &Board, colors: Seq<Color>, a: int, b: int)
    requires
        connected(board, colors, a, b),
    ensures
        0 <= a < colors.len(),
        0 <= b < colors.len(),
        colors[a] == colors[b],
{
    let path = choose|path: Seq<int>| #[trigger]
        is_path(board, colors, path) && path[0] == a && path.last() == b;
    assert(path[path.len() - 1] == b);
}

/// A walk goes on by one same-colored step.
pub proof fn lemma_connected_step(board: &Board, colors: Seq<Color>, a: int, b: int, c: int)
    requires
        connected(board, colors, a, b),
        board.adjacent(b, c),
        0 <= c < colors.len(),
        0 <= b < colors.len(),
        colors[b] == colors[c],
    ensures
        connected(board, colors, a, c),
{
    let path = choose|path: Seq<int>| #[trigger]
        is_path(board, colors, path) && path[0] == a && path.last() == b;
    lemma_connected_same_color(board, colors, a, b);
    let longer = path.push(c);
    assert(is_path(board, colors, longer)) by {
        assert(longer[0] == path[0]);
        assert forall|i: int| 0 <= i < longer.len() implies 0 <= #[trigger] longer[i]
            < colors.len() && colors[longer[i]] == colors[longer[0]] by {
            if i < path.len() {
                assert(longer[i] == path[i]);
            }
        }
        assert forall|i: int| 0 <= i < longer.len() - 1 implies board.adjacent(
            #[trigger] longer[i],
            longer[i + 1],
        ) by {
            if i < path.len() - 1 {
                assert(board.adjacent(path[i], path[i + 1]));
            }
        }
    }
    assert(longer[0] == a && longer.last() == c);
}

/// Connectivity is transitive.
pub proof fn lemma_connected_trans(board: &Board, colors: Seq<Color>, a: int, b: int, c: int)
    requires
        connected(board, colors, a, b),
        connected(board, colors, b, c),
    ensures
        connected(board, colors, a, c),
{
    let s = |q: int| connected(board, colors, a, q);
    assert(closed_under_steps(board, colors, s)) by {
        assert forall|x: int, y: int|
            s(x) && board.adjacent(x, y) && 0 <= x < colors.len() && 0 <= y < colors.len()
                && colors[x] == colors[y] implies s(y) by {
            lemma_connected_step(board, colors, a, x, y);
        }
    }
    lemma_closed_set(board, colors, s, b, c);
}

/// Connectivity is symmetric on a board whose adjacency is.
pub proof fn lemma_connected_sym(board: &Board, colors: Seq<Color>, a: int, b: int)
    requires
        board.wf(),
        connected(board, colors, a, b),
    ensures
        connected(board, colors, b, a),
{
    lemma_connected_same_color(board, colors, a, b);
    let s = |q: int| connected(board, colors, q, a);
    lemma_connected_refl(board, colors, a);
    assert(closed_under_steps(board, colors, s)) by {
        assert forall|x: int, y: int|
            s(x) && board.adjacent(x, y) && 0 <= x < colors.len() && 0 <= y < colors.len()
                && colors[x] == colors[y] implies s(y) by {
            lemma_connected_refl(board, colors, y);
            assert(board.adjacent(y, x));
            lemma_connected_step(board, colors, y, y, x);
            lemma_connected_trans(board, colors, y, x, a);
        }
    }
    lemma_closed_set(board, colors, s, a, b);
}

/// A walk stays a walk under a second coloring that gives one color to
/// everything connected to its start.
pub proof fn lemma_connected_transfer(
    board: &Board,
    colors: Seq<Color>,
    other: Seq<Color>,
    a: int,
    b: int,
)
    requires
        connected(board, colors, a, b),
        colors.len() == other.len(),
        forall|q: int| #[trigger] connected(board, colors, a, q) ==> other[q] == other[a],
    ensures
        connected(board, other, a, b),
{
    lemma_connected_same_color(board, colors, a, b);
    lemma_connected_refl(board, colors, a);
    lemma_connected_refl(board, other, a);
    let s = |q: int| connected(board, colors, a, q) && connected(board, other, a, q);
    assert(closed_under_steps(board, colors, s)) by {
        assert forall|x: int, y: int|
            s(x) && board.adjacent(x, y) && 0 <= x < colors.len() && 0 <= y < colors.len()
                && colors[x] == colors[y] implies s(y) by {
            lemma_connected_step(board, colors, a, x, y);
            lemma_connected_step(board, other, a, x, y);
        }
    }
    lemma_closed_set(board, colors, s, a, b);
}

/// Whether some neighbor of `p` that is empty under `colors` is connected to
/// `q`; `p` itself counts when `q` is `p`.
pub open spec fn reached_around(board: &Board, colors: Seq<Color>, p: int, q: int) -> bool {
    q == p || exists|nb: int| #[trigger] board.adjacent(p, nb) && connected(board, colors, nb, q)
}

/// After the color of `p` alone has changed, whatever was connected to `p`
/// is still connected to one of its neighbors.
pub proof fn lemma_detour(
    board: &Board,
    colors: Seq<Color>,
    other: Seq<Color>,
    p: int,
    q: int,
)
    requires
        board.wf(),
        colors.len() == other.len(),
        forall|x: int| 0 <= x < colors.len() && x != p ==> colors[x] == other[x],
        connected(board, colors, p, q),
    ensures
        reached_around(board, other, p, q),
{
    let s = |x: int| reached_around(board, other, p, x);
    assert(closed_under_steps(board, colors, s)) by {
        assert forall|x: int, y: int|
            s(x) && board.adjacent(x, y) && 0 <= x < colors.len() && 0 <= y < colors.len()
                && colors[x] == colors[y] implies s(y) by {
            if y == p {
            } else if x == p {
                lemma_connected_refl(board, other, y);
            } else {
                let nb = choose|nb: int| #[trigger]
                    board.adjacent(p, nb) && connected(board, other, nb, x);
                lemma_connected_step(board, other, nb, x, y);
            }
        }
    }
    lemma_closed_set(board, colors, s, p, q);
}

/// Whether identifiers and groups agree everywhere, but that points which
/// carry `except` need not be connected.
pub open spec fn exact_except(
    board: &Board,
    colors: Seq<Color>,
    ids: Seq<usize>,
    except: int,
) -> bool {
    forall|p: int, q: int|
        0 <= p < colors.len() && 0 <= q < colors.len() ==> (#[trigger] connected(
            board,
            colors,
            p,
            q,
        ) ==> ids[p] == ids[q]) && (ids[p] == ids[q] && ids[p] != except ==> connected(
            board,
            colors,
            p,
            q,
        ))
}

/// The same, asked only of points that are not connected to `s`.
pub open spec fn exact_outside(
    board: &Board,
    colors: Seq<Color>,
    ids: Seq<usize>,
    s: int,
    except: int,
) -> bool {
    forall|p: int, q: int|
        0 <= p < colors.len() && 0 <= q < colors.len() && !connected(board, colors, s, p)
            && !connected(board, colors, s, q) ==> (#[trigger] connected(board, colors, p, q)
            ==> ids[p] == ids[q]) && (ids[p] == ids[q] && ids[p] != except ==> connected(
            board,
            colors,
            p,
            q,
        ))
}

/// Giving the group of `s` an unused identifier makes identifiers and
/// groups agree where they agreed outside that group.
pub proof fn lemma_seed_restores(
    board: &Board,
    colors: Seq<Color>,
    before: Seq<usize>,
    after: Seq<usize>,
    s: int,
    id: usize,
    except: int,
)
    requires
        board.wf(),
        0 <= s < colors.len(),
        before.len() == colors.len(),
        after.len() == colors.len(),
        exact_outside(board, colors, before, s, except),
        forall|q: int| 0 <= q < colors.len() ==> before[q] != id,
        forall|q: int|
            0 <= q < colors.len() ==> after[q] == (if connected(board, colors, s, q) {
                id
            } else {
                before[q]
            }),
    ensures
        exact_except(board, colors, after, except),
{
    assert forall|p: int, q: int| 0 <= p < colors.len() && 0 <= q < colors.len() implies (
    #[trigger] connected(board, colors, p, q) ==> after[p] == after[q]) && (after[p] == after[q]
        && after[p] != except ==> connected(board, colors, p, q)) by {
        if connected(board, colors, p, q) {
            lemma_connected_sym(board, colors, p, q);
            if connected(board, colors, s, p) {
                lemma_connected_trans(board, colors, s, p, q);
            }
            if connected(board, colors, s, q) {
                lemma_connected_trans(board, colors, s, q, p);
            }
        }
        if after[p] == after[q] && after[p] != except {
            if connected(board, colors, s, p) {
                assert(connected(board, colors, s, q));
                lemma_connected_sym(board, colors, s, p);
                lemma_connected_trans(board, colors, p, s, q);
            } else {
                assert(!connected(board, colors, s, q));
            }
        }
    }
}

/// The coloring with the whole group of `point` emptied.
pub open spec fn cleared(board: &Board, colors: Seq<Color>, point: int) -> Seq<Color> {
    Seq::new(
        colors.len(),
        |q: int| if connected(board, colors, point, q) { Color::Empty } else { colors[q] },
    )
}

/// Emptying the group of `point` disturbs the agreement of identifiers and
/// groups only inside the group that `point` then lies in.
pub proof fn lemma_clear_outside(board: &Board, colors: Seq<Color>, ids: Seq<usize>, point: int)
    requires
        board.wf(),
        0 <= point < colors.len(),
        ids.len() == colors.len(),
        exact_except(board, colors, ids, -1),
    ensures
        exact_outside(board, cleared(board, colors, point), ids, point, -1),
{
    let after = cleared(board, colors, point);
    lemma_connected_refl(board, colors, point);
    assert forall|x: int| connected(board, colors, point, x) implies connected(
        board,
        after,
        point,
        x,
    ) by {
        assert forall|y: int| #[trigger] connected(board, colors, point, y) implies after[y]
            == after[point] by {
            lemma_connected_same_color(board, colors, point, y);
        }
        lemma_connected_transfer(board, colors, after, point, x);
    }
    assert forall|p: int, q: int|
        0 <= p < after.len() && 0 <= q < after.len() && !connected(board, after, point, p)
            && !connected(board, after, point, q) implies (#[trigger] connected(
        board,
        after,
        p,
        q,
    ) ==> ids[p] == ids[q]) && (ids[p] == ids[q] && ids[p] != -1 ==> connected(
        board,
        after,
        p,
        q,
    )) by {
        if connected(board, after, p, q) {
            assert forall|x: int| #[trigger] connected(board, after, p, x) implies colors[x]
                == colors[p] by {
                lemma_connected_same_color(board, after, p, x);
                if connected(board, colors, point, x) {
                    lemma_connected_sym(board, after, p, x);
                    lemma_connected_trans(board, after, point, x, p);
                }
            }
            lemma_connected_transfer(board, after, colors, p, q);
        }
        if ids[p] == ids[q] {
            assert(connected(board, colors, p, q));
            assert forall|x: int| #[trigger] connected(board, colors, p, x) implies after[x]
                == after[p] by {
                lemma_connected_same_color(board, colors, p, x);
                if connected(board, colors, point, x) {
                    lemma_connected_sym(board, colors, p, x);
                    lemma_connected_trans(board, colors, point, x, p);
                }
            }
            lemma_connected_transfer(board, colors, after, p, q);
        }
    }
}

/// Coloring the point `point` disturbs the agreement of identifiers and
/// groups only in the group that `point` joins and in the one it leaves.
pub proof fn lemma_place_outside(
    board: &Board,
    colors: Seq<Color>,
    ids: Seq<usize>,
    point: int,
    color: Color,
)
    requires
        board.wf(),
        0 <= point < colors.len(),
        ids.len() == colors.len(),
        exact_except(board, colors, ids, -1),
    ensures
        exact_outside(board, colors.update(point, color), ids, point, ids[point] as int),
{
    let after = colors.update(point, color);
    lemma_connected_refl(board, after, point);
    assert forall|p: int, q: int|
        0 <= p < after.len() && 0 <= q < after.len() && !connected(board, after, point, p)
            && !connected(board, after, point, q) implies (#[trigger] connected(
        board,
        after,
        p,
        q,
    ) ==> ids[p] == ids[q]) && (ids[p] == ids[q] && ids[p] != ids[point] as int ==> connected(
        board,
        after,
        p,
        q,
    )) by {
        if connected(board, after, p, q) {
            assert forall|x: int| #[trigger] connected(board, after, p, x) implies colors[x]
                == colors[p] by {
                lemma_connected_same_color(board, after, p, x);
                if x == point {
                    lemma_connected_sym(board, after, p, x);
                }
            }
            lemma_connected_transfer(board, after, colors, p, q);
        }
        if ids[p] == ids[q] && ids[p] != ids[point] {
            assert(connected(board, colors, p, q));
            assert forall|x: int| #[trigger] connected(board, colors, p, x) implies after[x]
                == after[p] by {
                lemma_connected_same_color(board, colors, p, x);
            }
            lemma_connected_transfer(board, colors, after, p, q);
        }
    }
}

/// Once every neighbor of a newly colored point has left the bubble that
/// the point lay in, no point carries that bubble's identifier.
pub proof fn lemma_split_done(
    board: &Board,
    colors: Seq<Color>,
    ids: Seq<usize>,
    after: Seq<Color>,
    ids_after: Seq<usize>,
    point: int,
    q: int,
)
    requires
        board.wf(),
        0 <= point < colors.len(),
        colors.len() == board.size(),
        ids.len() == colors.len(),
        after.len() == colors.len(),
        ids_after.len() == colors.len(),
        0 <= q < colors.len(),
        exact_except(board, colors, ids, -1),
        forall|x: int| 0 <= x < colors.len() && x != point ==> colors[x] == after[x],
        exact_except(board, after, ids_after, ids[point] as int),
        ids_after[point] != ids[point],
        forall|x: int|
            0 <= x < colors.len() && ids_after[x] == ids[point] ==> ids[x] == ids[point],
        forall|nb: int| #[trigger] board.adjacent(point, nb) ==> ids_after[nb] != ids[point],
    ensures
        ids_after[q] != ids[point],
{
    if ids_after[q] == ids[point] {
        assert(connected(board, colors, point, q));
        lemma_detour(board, colors, after, point, q);
        let nb = choose|nb: int| #[trigger]
            board.adjacent(point, nb) && connected(board, after, nb, q);
        lemma_connected_same_color(board, after, nb, q);
        assert(ids_after[nb] == ids_after[q]);
    }
}

/// Whether the group of `p` has a liberty: an empty point next to one of
/// its points.
pub open spec fn has_liberty(board: &Board, colors: Seq<Color>, p: int) -> bool {
    exists|q: int, r: int|
        #![trigger connected(board, colors, p, q), board.adjacent(q, r)]
        connected(board, colors, p, q) && board.adjacent(q, r) && 0 <= r < colors.len()
            && colors[r] == Color::Empty
}

/// Whether `p` is a stone of `color` in a chain without liberties.
pub open spec fn is_dead(board: &Board, colors: Seq<Color>, color: Color, p: int) -> bool {
    colors[p] == color && !has_liberty(board, colors, p)
}

/// The coloring after every chain of `color` without liberties is taken off.
pub open spec fn without_dead(board: &Board, colors: Seq<Color>, color: Color) -> Seq<Color> {
    Seq::new(
        colors.len(),
        |p: int| if is_dead(board, colors, color, p) { Color::Empty } else { colors[p] },
    )
}

/// The coloring after `color` plays at `point`: the stone is set, then the
/// opponent's chains without liberties leave the board, then the player's.
pub open spec fn play_result(
    board: &Board,
    colors: Seq<Color>,
    color: Color,
    point: int,
) -> Seq<Color> {
    without_dead(
        board,
        without_dead(board, colors.update(point, color), color.opponent()),
        color,
    )
}

/// A play changes a point in one of two ways only: the point played on
/// takes the color, and stones are taken off. No stone changes its color.
pub proof fn lemma_play_changes(
    board: &Board,
    colors: Seq<Color>,
    color: Color,
    point: int,
    p: int,
)
    requires
        0 <= point < colors.len(),
        0 <= p < colors.len(),
    ensures
        play_result(board, colors, color, point).len() == colors.len(),
        p != point ==> play_result(board, colors, color, point)[p] == colors[p] || play_result(
            board,
            colors,
            color,
            point,
        )[p] == Color::Empty,
        play_result(board, colors, color, point)[point] == color || play_result(
            board,
            colors,
            color,
            point,
        )[point] == Color::Empty,
{
}

/// A stone set on a point whose neighbors are all stones of the opponent
/// is taken off again, unless the opponent loses a chain by it.
pub proof fn lemma_suicide(board: &Board, colors: Seq<Color>, color: Color, point: int)
    requires
        board.wf(),
        colors.len() == board.size(),
        0 <= point < colors.len(),
        color != Color::Empty,
        forall|nb: int| #[trigger] board.adjacent(point, nb) ==> colors[nb] == color.opponent(),
        without_dead(board, colors.update(point, color), color.opponent()) == colors.update(
            point,
            color,
        ),
    ensures
        play_result(board, colors, color, point)[point] == Color::Empty,
{
    let placed = colors.update(point, color);
    let alone = |q: int| q == point;
    assert(closed_under_steps(board, placed, alone));
    if has_liberty(board, placed, point) {
        let (q, r) = choose|q: int, r: int|
            #![trigger connected(board, placed, point, q), board.adjacent(q, r)]
            connected(board, placed, point, q) && board.adjacent(q, r) && 0 <= r < placed.len()
                && placed[r] == Color::Empty;
        lemma_closed_set(board, placed, alone, point, q);
    }
    assert(is_dead(board, placed, color, point));
}

/// A chain is dead as a whole.
pub proof fn lemma_dead_together(
    board: &Board,
    colors: Seq<Color>,
    color: Color,
    p: int,
    q: int,
)
    requires
        board.wf(),
        connected(board, colors, p, q),
        is_dead(board, colors, color, p),
    ensures
        is_dead(board, colors, color, q),
{
    lemma_connected_same_color(board, colors, p, q);
    if has_liberty(board, colors, q) {
        let (x, r) = choose|x: int, r: int|
            #![trigger connected(board, colors, q, x), board.adjacent(x, r)]
            connected(board, colors, q, x) && board.adjacent(x, r) && 0 <= r < colors.len()
                && colors[r] == Color::Empty;
        lemma_connected_trans(board, colors, p, q, x);
    }
}

/// The coloring with every point that `flags` marks emptied.
pub open spec fn emptied(colors: Seq<Color>, flags: Seq<bool>) -> Seq<Color> {
    Seq::new(colors.len(), |p: int| if flags[p] { Color::Empty } else { colors[p] })
}

/// Whether `flags` marks whole groups only.
pub open spec fn marks_groups(board: &Board, colors: Seq<Color>, flags: Seq<bool>) -> bool {
    forall|p: int, q: int|
        0 <= p < colors.len() && flags[p] && #[trigger] connected(board, colors, p, q)
            ==> flags[q]
}

/// The coloring with every stone of `color` taken off.
pub open spec fn without_color(colors: Seq<Color>, color: Color) -> Seq<Color> {
    Seq::new(colors.len(), |p: int| if colors[p] == color { Color::Empty } else { colors[p] })
}

/// Whether the empty point `x` leans on the chain of `p`: it has a
/// neighbor in the chain, and every stone next to it is of the chain.
pub open spec fn leans_on(board: &Board, colors: Seq<Color>, p: int, x: int) -> bool {
    &&& exists|y: int| #[trigger] board.adjacent(x, y) && connected(board, colors, p, y)
    &&& forall|y: int|
        #[trigger] board.adjacent(x, y) && 0 <= y < colors.len() && colors[y] != Color::Empty
            ==> connected(board, colors, p, y)
}

/// Whether the bubble of `b` is a foot of the chain of `p`: every point of
/// the bubble lies next to the chain, and next to no stone of another.
pub open spec fn foot_of(board: &Board, colors: Seq<Color>, p: int, b: int) -> bool {
    &&& 0 <= b < colors.len()
    &&& colors[b] == Color::Empty
    &&& forall|x: int| #[trigger] connected(board, colors, b, x) ==> leans_on(board, colors, p, x)
}

/// Whether the chain of `p` is protected: it stands on two feet, that is on
/// two different bubbles that are each a foot of it.
pub open spec fn standing(board: &Board, colors: Seq<Color>, p: int) -> bool {
    exists|b1: int, b2: int|
        #![trigger foot_of(board, colors, p, b1), foot_of(board, colors, p, b2)]
        foot_of(board, colors, p, b1) && foot_of(board, colors, p, b2) && !connected(
            board,
            colors,
            b1,
            b2,
        )
}

/// Whether `p` is a stone of `color` in a chain that is not protected.
pub open spec fn is_weak(board: &Board, colors: Seq<Color>, color: Color, p: int) -> bool {
    colors[p] == color && !standing(board, colors, p)
}

/// The coloring after every chain of `color` that is not protected is taken
/// off.
pub open spec fn without_weak(board: &Board, colors: Seq<Color>, color: Color) -> Seq<Color> {
    Seq::new(
        colors.len(),
        |p: int| if is_weak(board, colors, color, p) { Color::Empty } else { colors[p] },
    )
}

/// Taking off the chains that are not protected, for at most `rounds`
/// rounds or until a round takes nothing off.
pub open spec fn settle(board: &Board, colors: Seq<Color>, color: Color, rounds: nat) -> Seq<
    Color,
>
    decreases rounds,
{
    if rounds == 0 || without_weak(board, colors, color) == colors {
        colors
    } else {
        settle(board, without_weak(board, colors, color), color, (rounds - 1) as nat)
    }
}

/// The stones of `color` that live whatever happens: the opponent's stones
/// are taken off, then chains that are not protected, round after round.
pub open spec fn immortal_subset(board: &Board, colors: Seq<Color>, color: Color) -> Seq<Color> {
    settle(board, without_color(colors, color.opponent()), color, colors.len())
}

/// The number of points of `color`.
pub open spec fn stones(colors: Seq<Color>, color: Color) -> nat
    decreases colors.len(),
{
    if colors.len() == 0 {
        0
    } else {
        stones(colors.drop_last(), color) + (if colors.last() == color { 1nat } else { 0nat })
    }
}

/// Whether `after` is `before` with some stones of `color` taken off.
pub open spec fn thinned(before: Seq<Color>, after: Seq<Color>, color: Color) -> bool {
    &&& before.len() == after.len()
    &&& forall|p: int|
        0 <= p < before.len() ==> after[p] == before[p] || (before[p] == color && after[p]
            == Color::Empty)
}

/// Taking stones off leaves fewer of them.
pub proof fn lemma_fewer_stones(before: Seq<Color>, after: Seq<Color>, color: Color)
    requires
        color != Color::Empty,
        thinned(before, after, color),
    ensures
        stones(after, color) <= stones(before, color) <= before.len(),
        after != before ==> stones(after, color) < stones(before, color),
    decreases before.len(),
{
    if before.len() > 0 {
        lemma_fewer_stones(before.drop_last(), after.drop_last(), color);
        if after.drop_last() == before.drop_last() && after.last() == before.last() {
            assert forall|i: int| 0 <= i < before.len() implies after[i] == before[i] by {
                if i < before.len() - 1 {
                    assert(after[i] == after.drop_last()[i]);
                    assert(before[i] == before.drop_last()[i]);
                }
            }
            assert(after =~= before);
        }
    } else {
        assert(after =~= before);
    }
}

/// Settling only takes stones of the color off, and with as many rounds as
/// there are stones it ends where a round takes nothing off.
pub proof fn lemma_settle(board: &Board, colors: Seq<Color>, color: Color, rounds: nat)
    requires
        color != Color::Empty,
    ensures
        thinned(colors, settle(board, colors, color, rounds), color),
        rounds >= stones(colors, color) ==> without_weak(
            board,
            settle(board, colors, color, rounds),
            color,
        ) == settle(board, colors, color, rounds),
    decreases rounds,
{
    let next = without_weak(board, colors, color);
    lemma_fewer_stones(colors, next, color);
    if rounds > 0 && next != colors {
        lemma_settle(board, next, color, (rounds - 1) as nat);
    }
}

/// The stones that live whatever happens are all of themselves: to keep
/// the living stones of what was kept changes nothing.
pub proof fn lemma_immortal_subset_idempotent(board: &Board, colors: Seq<Color>, color: Color)
    requires
        color != Color::Empty,
    ensures
        immortal_subset(board, immortal_subset(board, colors, color), color) == immortal_subset(
            board,
            colors,
            color,
        ),
{
    let bare = without_color(colors, color.opponent());
    let kept = immortal_subset(board, colors, color);
    lemma_settle(board, bare, color, colors.len());
    lemma_fewer_stones(bare, bare, color);
    assert(without_color(kept, color.opponent()) =~= kept);
}

/// Connected points are protected together.
pub proof fn lemma_standing_together(board: &Board, colors: Seq<Color>, p: int, q: int)
    requires
        board.wf(),
        connected(board, colors, p, q),
        standing(board, colors, p),
    ensures
        standing(board, colors, q),
{
    let (b1, b2) = choose|b1: int, b2: int|
        #![trigger foot_of(board, colors, p, b1), foot_of(board, colors, p, b2)]
        foot_of(board, colors, p, b1) && foot_of(board, colors, p, b2) && !connected(
            board,
            colors,
            b1,
            b2,
        );
    lemma_foot_together(board, colors, p, q, b1);
    lemma_foot_together(board, colors, p, q, b2);
}

/// A foot of a chain is a foot of it from whichever stone it is named.
pub proof fn lemma_foot_together(board: &Board, colors: Seq<Color>, p: int, q: int, b: int)
    requires
        board.wf(),
        connected(board, colors, p, q),
        foot_of(board, colors, p, b),
    ensures
        foot_of(board, colors, q, b),
{
    lemma_connected_sym(board, colors, p, q);
    assert forall|x: int| #[trigger] connected(board, colors, b, x) implies leans_on(
        board,
        colors,
        q,
        x,
    ) by {
        assert(leans_on(board, colors, p, x));
        let y = choose|y: int| #[trigger] board.adjacent(x, y) && connected(board, colors, p, y);
        lemma_connected_trans(board, colors, q, p, y);
        assert forall|y: int|
            #[trigger] board.adjacent(x, y) && 0 <= y < colors.len() && colors[y]
                != Color::Empty implies connected(board, colors, q, y) by {
            lemma_connected_trans(board, colors, q, p, y);
        }
    }
}

/// The coloring `base` after White has played, in the order of the points,
/// on each of the first `upto` points that is White in `white` and still
/// empty.
pub open spec fn replayed(board: &Board, base: Seq<Color>, white: Seq<Color>, upto: nat) -> Seq<
    Color,
>
    decreases upto,
{
    if upto == 0 {
        base
    } else {
        let prev = replayed(board, base, white, (upto - 1) as nat);
        let i = upto - 1;
        if white[i] == Color::White && prev[i] == Color::Empty {
            play_result(board, prev, Color::White, i)
        } else {
            prev
        }
    }
}

/// The stones of both colors that live whatever happens: Black's, with
/// White's played onto them.
pub open spec fn immortal_stones(board: &Board, colors: Seq<Color>) -> Seq<Color> {
    replayed(
        board,
        immortal_subset(board, colors, Color::Black),
        immortal_subset(board, colors, Color::White),
        colors.len(),
    )
}

/// A sequence of distinct points below `n` has at most `n` entries.
pub proof fn lemma_distinct_bounded(s: Seq<usize>, n: nat)
    requires
        s.no_duplicates(),
        forall|i: int| 0 <= i < s.len() ==> s[i] < n,
    ensures
        s.len() <= n,
    decreases n,
{
    if n == 0 {
        if s.len() > 0 {
            assert(s[0] < n);
        }
    } else {
        let top = (n - 1) as usize;
        if exists|k: int| 0 <= k < s.len() && s[k] == top {
            let k = choose|k: int| 0 <= k < s.len() && s[k] == top;
            let rest = s.remove(k);
            assert(rest.no_duplicates()) by {
                assert forall|i: int, j: int|
                    0 <= i < rest.len() && 0 <= j < rest.len() && i != j implies rest[i]
                    != rest[j] by {
                    let ii = if i < k { i } else { i + 1 };
                    let jj = if j < k { j } else { j + 1 };
                    assert(rest[i] == s[ii]);
                    assert(rest[j] == s[jj]);
                }
            }
            assert forall|i: int| 0 <= i < rest.len() implies rest[i] < (n - 1) as nat by {
                let ii = if i < k { i } else { i + 1 };
                assert(rest[i] == s[ii]);
                assert(s[ii] != s[k]);
            }
            lemma_distinct_bounded(rest, (n - 1) as nat);
        } else {
            assert forall|i: int| 0 <= i < s.len() implies s[i] < (n - 1) as nat by {
                assert(s[i] != top);
            }
            lemma_distinct_bounded(s, (n - 1) as nat);
        }
    }
}

} // verus!
