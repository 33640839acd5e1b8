//! What the corners of a contour say about the loop of edges that they
//! were made of: the sides of the polygon are the edges of the loop.

use vstd::prelude::*;
use crate::sprite::contour_of;
use crate::sprite::corners;
use crate::sprite::lemma_boundary_determines_pixels;
use crate::sprite::lemma_turn_at_bound;
use crate::sprite::on_loops;
use crate::sprite::rotated;
use crate::sprite::turn_at;
use crate::sprite::Bitmap;
use crate::sprite::Direction;
use crate::sprite::Edge;

verus! {

/// How far `t` steps in the direction `d` lead to the right.
pub open spec fn along_x(d: Direction, t: int) -> int {
    match d {
        Direction::Right => t,
        Direction::Left => -t,
        _ => 0,
    }
}

/// How far `t` steps in the direction `d` lead down.
pub open spec fn along_y(d: Direction, t: int) -> int {
    match d {
        Direction::Down => t,
        Direction::Up => -t,
        _ => 0,
    }
}

/// `b` starts where `a` ends.
pub open spec fn joins(a: Edge, b: Edge) -> bool {
    b.x == a.x + along_x(a.direction, 1) && b.y == a.y + along_y(a.direction, 1)
}

/// The edge behind edge `j` of a loop: the next one, and behind the last
/// the first.
pub open spec fn after(edges: Seq<Edge>, j: int) -> Edge {
    if j + 1 < edges.len() {
        edges[j + 1]
    } else {
        edges[0]
    }
}

/// The edges are a closed chain: each starts where the one before it ends,
/// the first where the last ends.
pub open spec fn is_chain(edges: Seq<Edge>) -> bool {
    forall|j: int| 0 <= j < edges.len() ==> #[trigger] joins(edges[j], after(edges, j))
}

/// `e` is the edge `t` steps behind `first` on a straight way.
pub open spec fn at_step(first: Edge, t: int, e: Edge) -> bool {
    e.direction == first.direction && e.x == first.x + along_x(first.direction, t) && e.y
        == first.y + along_y(first.direction, t)
}

/// `e` lies on the side of a polygon that leads from the corner `p` to the
/// corner `q`: it runs in the direction of the side and starts at `p` or
/// between `p` and `q`.
pub open spec fn on_side(p: (usize, usize), q: (usize, usize), e: Edge) -> bool {
    match e.direction {
        Direction::Right => p.1 == q.1 && e.y == p.1 && p.0 <= e.x < q.0,
        Direction::Left => p.1 == q.1 && e.y == p.1 && q.0 < e.x <= p.0,
        Direction::Down => p.0 == q.0 && e.x == p.0 && p.1 <= e.y < q.1,
        Direction::Up => p.0 == q.0 && e.x == p.0 && q.1 < e.y <= p.1,
    }
}

/// `e` lies on side `k` of the polygon with these corners; the last side
/// leads back to the first corner.
pub open spec fn on_side_at(points: Seq<(usize, usize)>, k: int, e: Edge) -> bool {
    on_side(
        points[k],
        if k + 1 < points.len() {
            points[k + 1]
        } else {
            points[0]
        },
        e,
    )
}

/// `e` lies on a side of the polygon with these corners.
pub open spec fn on_polygon(points: Seq<(usize, usize)>, e: Edge) -> bool {
    exists|k: int| 0 <= k < points.len() && #[trigger] on_side_at(points, k, e)
}

/// `e` lies on one of the first `count` sides of the polygon, none of them
/// the side that leads back to the first corner.
pub open spec fn on_sides(points: Seq<(usize, usize)>, count: int, e: Edge) -> bool {
    exists|k: int| 0 <= k < count && k + 1 < points.len() && #[trigger] on_side_at(points, k, e)
}

/// `e` is one of the edges from `from` up to `to`.
pub open spec fn among(edges: Seq<Edge>, from: int, to: int, e: Edge) -> bool {
    exists|j: int| from <= j < to && #[trigger] edges[j] == e
}

/// Where the straight run begins that the last of the first `m` edges
/// belongs to.
pub open spec fn run_start(edges: Seq<Edge>, m: int) -> int
    decreases m,
{
    if m <= 1 {
        0
    } else if edges[m - 1].direction != edges[m - 2].direction {
        m - 1
    } else {
        run_start(edges, m - 1)
    }
}

/// What the corners of the first `m` edges of a chain say: the last corner
/// is where the straight run begins that the last edge belongs to, the
/// edges of that run follow each other step by step, and the edges before
/// it are the edges on the sides between the corners.
pub open spec fn corners_match(edges: Seq<Edge>, m: int) -> bool {
    let points = corners(edges, m as nat);
    let start = run_start(edges, m);
    &&& 0 <= start < m
    &&& points.len() >= 1
    &&& points[0] == (edges[0].x, edges[0].y)
    &&& points.last() == (edges[start].x, edges[start].y)
    &&& forall|j: int| start <= j < m ==> #[trigger] at_step(edges[start], j - start, edges[j])
    &&& forall|e: Edge|
        #[trigger] among(edges, 0, start, e) <==> on_sides(points, points.len() - 1, e)
}

/// The edges of a straight run are the edges on the side between the start
/// of the run and the end of its last edge.
proof fn lemma_run_is_side(edges: Seq<Edge>, start: int, m: int, q: (usize, usize), e: Edge)
    requires
        0 <= start < m <= edges.len(),
        forall|j: int| start <= j < m ==> #[trigger] at_step(edges[start], j - start, edges[j]),
        q.0 == edges[start].x + along_x(edges[start].direction, m - start),
        q.1 == edges[start].y + along_y(edges[start].direction, m - start),
    ensures
        among(edges, start, m, e) <==> on_side((edges[start].x, edges[start].y), q, e),
{
    let first = edges[start];
    let p = (first.x, first.y);
    if among(edges, start, m, e) {
        let j = choose|j: int| start <= j < m && #[trigger] edges[j] == e;
        assert(at_step(first, j - start, edges[j]));
    }
    if on_side(p, q, e) {
        let t = match e.direction {
            Direction::Right => e.x - p.0,
            Direction::Left => p.0 - e.x,
            Direction::Down => e.y - p.1,
            Direction::Up => p.1 - e.y,
        };
        assert(e.direction == first.direction);
        assert(0 <= t < m - start);
        assert(at_step(first, (start + t) - start, edges[start + t]));
        assert(edges[start + t] == e);
    }
}

/// The corners of the first edges of a closed chain match them, however
/// many edges are taken.
proof fn lemma_corners_match(edges: Seq<Edge>, m: int)
    requires
        is_chain(edges),
        1 <= m <= edges.len(),
    ensures
        corners_match(edges, m),
    decreases m,
{
    let points = corners(edges, m as nat);
    if m == 1 {
        assert(corners(edges, 0) == Seq::<(usize, usize)>::empty());
        assert(points == Seq::<(usize, usize)>::empty().push((edges[0].x, edges[0].y)));
        assert forall|e: Edge| #[trigger]
            among(edges, 0, 0, e) <==> on_sides(points, points.len() - 1, e) by {}
    } else {
        lemma_corners_match(edges, m - 1);
        let fewer = corners(edges, (m - 1) as nat);
        let before = run_start(edges, m - 1);
        let first = edges[before];
        assert(joins(edges[m - 2], after(edges, m - 2)));
        assert(at_step(first, (m - 2) - before, edges[m - 2]));
        if edges[m - 1].direction == edges[m - 2].direction {
            assert(points == fewer);
            assert forall|j: int| before <= j < m implies #[trigger] at_step(
                first,
                j - before,
                edges[j],
            ) by {
                if j < m - 1 {
                    assert(at_step(first, j - before, edges[j]));
                }
            }
            assert forall|e: Edge| #[trigger]
                among(edges, 0, before, e) <==> on_sides(points, points.len() - 1, e) by {
                assert(among(edges, 0, before, e) <==> on_sides(fewer, fewer.len() - 1, e));
            }
        } else {
            let corner = (edges[m - 1].x, edges[m - 1].y);
            assert(points == fewer.push(corner));
            assert(run_start(edges, m) == m - 1);
            assert(at_step(edges[m - 1], 0, edges[m - 1]));
            assert forall|e: Edge| #[trigger]
                among(edges, 0, m - 1, e) <==> on_sides(points, points.len() - 1, e) by {
                lemma_run_is_side(edges, before, m - 1, corner, e);
                let last = fewer.len() - 1;
                assert(on_side_at(points, last, e) == on_side((first.x, first.y), corner, e));
                assert(among(edges, 0, before, e) <==> on_sides(fewer, last, e));
                if among(edges, 0, m - 1, e) {
                    let j = choose|j: int| 0 <= j < m - 1 && #[trigger] edges[j] == e;
                    if j < before {
                        assert(among(edges, 0, before, e));
                        let k = choose|k: int|
                            0 <= k < last && k + 1 < fewer.len() && #[trigger] on_side_at(
                                fewer,
                                k,
                                e,
                            );
                        assert(on_side_at(points, k, e));
                    } else {
                        assert(among(edges, before, m - 1, e));
                        assert(on_side_at(points, last, e));
                    }
                }
                if on_sides(points, points.len() - 1, e) {
                    let k = choose|k: int|
                        0 <= k < points.len() - 1 && k + 1 < points.len() && #[trigger] on_side_at(
                            points,
                            k,
                            e,
                        );
                    if k < last {
                        assert(on_side_at(fewer, k, e));
                        assert(on_sides(fewer, last, e));
                        let j = choose|j: int| 0 <= j < before && #[trigger] edges[j] == e;
                        assert(edges[j] == e);
                    } else {
                        assert(among(edges, before, m - 1, e));
                        let j = choose|j: int| before <= j < m - 1 && #[trigger] edges[j] == e;
                        assert(edges[j] == e);
                    }
                }
            }
        }
    }
}

/// The corners of a closed chain of edges that starts behind a turn are
/// the corners of a polygon whose sides are the edges of the chain.
pub proof fn lemma_chain_is_polygon(edges: Seq<Edge>, e: Edge)
    requires
        is_chain(edges),
        edges.len() >= 1,
    ensures
        edges.contains(e) <==> on_polygon(corners(edges, edges.len()), e),
{
    let n = edges.len() as int;
    let points = corners(edges, n as nat);
    lemma_corners_match(edges, n);
    let start = run_start(edges, n);
    let first = edges[start];
    let last = points.len() - 1;
    // the last run leads back to the first corner
    assert(joins(edges[n - 1], after(edges, n - 1)));
    assert(at_step(first, (n - 1) - start, edges[n - 1]));
    lemma_run_is_side(edges, start, n, points[0], e);
    assert(on_side_at(points, last, e) == on_side((first.x, first.y), points[0], e));
    assert(among(edges, 0, start, e) <==> on_sides(points, last, e));
    if edges.contains(e) {
        let j = choose|j: int| 0 <= j < n && edges[j] == e;
        if j < start {
            assert(among(edges, 0, start, e));
            let k = choose|k: int|
                0 <= k < last && k + 1 < points.len() && #[trigger] on_side_at(points, k, e);
            assert(on_side_at(points, k, e));
        } else {
            assert(among(edges, start, n, e));
            assert(on_side_at(points, last, e));
        }
    }
    if on_polygon(points, e) {
        let k = choose|k: int| 0 <= k < points.len() && #[trigger] on_side_at(points, k, e);
        if k < last {
            assert(on_sides(points, last, e));
            let j = choose|j: int| 0 <= j < start && #[trigger] edges[j] == e;
            assert(edges[j] == e);
        } else {
            assert(among(edges, start, n, e));
            let j = choose|j: int| start <= j < n && #[trigger] edges[j] == e;
            assert(edges[j] == e);
        }
    }
}

/// A closed chain stays a closed chain of the same edges when it is turned
/// to start with another of its edges.
pub proof fn lemma_rotated_chain(edges: Seq<Edge>)
    requires
        is_chain(edges),
        edges.len() >= 1,
    ensures
        is_chain(rotated(edges)),
        rotated(edges).len() == edges.len(),
        forall|e: Edge| rotated(edges).contains(e) <==> edges.contains(e),
{
    let n = edges.len() as int;
    let offset = turn_at(edges, edges.last().direction, 0) as int;
    lemma_turn_at_bound(edges, edges.last().direction, 0);
    let turned = rotated(edges);
    assert(turned.len() == n);
    assert forall|k: int| 0 <= k < n implies #[trigger] turned[k] == edges[if k < n - offset {
        k + offset
    } else {
        k - (n - offset)
    }] by {}
    assert forall|j: int| 0 <= j < n implies #[trigger] joins(turned[j], after(turned, j)) by {
        let i = if j < n - offset {
            j + offset
        } else {
            j - (n - offset)
        };
        assert(turned[j] == edges[i]);
        assert(joins(edges[i], after(edges, i)));
        if j + 1 < n {
            assert(turned[j + 1] == edges[if j + 1 < n - offset {
                j + 1 + offset
            } else {
                j + 1 - (n - offset)
            }]);
        } else {
            assert(turned[0] == edges[if 0 < n - offset {
                offset
            } else {
                0
            }]);
        }
    }
    assert forall|e: Edge| turned.contains(e) <==> edges.contains(e) by {
        if turned.contains(e) {
            let k = choose|k: int| 0 <= k < n && turned[k] == e;
            assert(turned[k] == edges[if k < n - offset {
                k + offset
            } else {
                k - (n - offset)
            }]);
        }
        if edges.contains(e) {
            let i = choose|i: int| 0 <= i < n && edges[i] == e;
            let k = if i >= offset {
                i - offset
            } else {
                i + (n - offset)
            };
            assert(turned[k] == edges[i]);
        }
    }
}

impl Bitmap {
    /// Every loop of the boundary is a closed chain: each edge starts
    /// where the one before it ends.
    pub proof fn lemma_loops_are_chains(&self, i: int)
        requires
            self.partition_boundary(self.loops()),
            0 <= i < self.loops().len(),
        ensures
            is_chain(self.loops()[i]),
    {
        let edges = self.loops()[i];
        let n = edges.len() as int;
        assert forall|j: int| 0 <= j < n implies #[trigger] joins(edges[j], after(edges, j)) by {
            assert(self.chained(self.loops(), i, j));
            assert(on_loops(self.loops(), self.loops()[i][j]));
            self.lemma_boundary_in_grid(edges[j]);
            if j + 1 < n {
                vstd::arithmetic::div_mod::lemma_small_mod((j + 1) as nat, n as nat);
            } else {
                vstd::arithmetic::div_mod::lemma_mod_self_0(n);
            }
        }
    }

    /// The corners of a contour are the corners of a polygon whose sides
    /// are the edges of the loop that the contour was made of.
    pub proof fn lemma_contour_is_loop(&self, i: int, e: Edge)
        requires
            self.partition_boundary(self.loops()),
            0 <= i < self.loops().len(),
            self.loops()[i].len() >= 1,
        ensures
            self.loops()[i].contains(e) <==> on_polygon(self.contours()[i], e),
    {
        let edges = self.loops()[i];
        self.lemma_loops_are_chains(i);
        lemma_rotated_chain(edges);
        lemma_chain_is_polygon(rotated(edges), e);
        assert(self.contours()[i] == contour_of(edges));
    }
}

/// `e` lies on a side of one of these polygons.
pub open spec fn on_polygons(contours: Seq<Seq<(usize, usize)>>, e: Edge) -> bool {
    exists|i: int| 0 <= i < contours.len() && on_polygon(#[trigger] contours[i], e)
}

/// The contours of a sprite are its boundary: an edge is a boundary edge
/// where it lies on a side of one of the contours, and nowhere else.
pub proof fn lemma_contours_are_boundary(sprite: Bitmap, e: Edge)
    requires
        sprite.partition_boundary(sprite.loops()),
        forall|i: int| 0 <= i < sprite.loops().len() ==> (#[trigger] sprite.loops()[i]).len() > 0,
    ensures
        sprite.is_boundary(e) <==> on_polygons(sprite.contours(), e),
{
    let loops = sprite.loops();
    let contours = sprite.contours();
    assert(sprite.is_boundary(e) <==> on_loops(loops, e));
    if on_loops(loops, e) {
        let (i, j) = choose|i: int, j: int|
            0 <= i < loops.len() && 0 <= j < loops[i].len() && loops[i][j] == e;
        assert(loops[i].contains(e));
        sprite.lemma_contour_is_loop(i, e);
        assert(on_polygon(contours[i], e));
    }
    if on_polygons(contours, e) {
        let i = choose|i: int| 0 <= i < contours.len() && on_polygon(#[trigger] contours[i], e);
        sprite.lemma_contour_is_loop(i, e);
        let j = choose|j: int| 0 <= j < loops[i].len() && loops[i][j] == e;
        assert(loops[i][j] == e);
    }
}

/// The contours say which pixels are filled: two sprites of the same size
/// with the same contours have the same filled pixels. What is filled is
/// what the contours enclose, filled pixels on the right of every side.
pub proof fn lemma_contours_determine_pixels(a: Bitmap, b: Bitmap)
    requires
        a.width == b.width,
        a.height == b.height,
        a.partition_boundary(a.loops()),
        b.partition_boundary(b.loops()),
        forall|i: int| 0 <= i < a.loops().len() ==> (#[trigger] a.loops()[i]).len() > 0,
        forall|i: int| 0 <= i < b.loops().len() ==> (#[trigger] b.loops()[i]).len() > 0,
        a.contours() == b.contours(),
    ensures
        forall|x: int, y: int| a.pixel(x, y) == b.pixel(x, y),
{
    assert forall|e: Edge| a.is_boundary(e) == b.is_boundary(e) by {
        lemma_contours_are_boundary(a, e);
        lemma_contours_are_boundary(b, e);
    }
    lemma_boundary_determines_pixels(a, b);
}

} // verus!
