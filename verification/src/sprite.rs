//! Monochrome bitmaps, and the closed boundary loops of their filled pixels.

use vstd::prelude::*;

verus! {

/// A packed monochrome bitmap: one bit per pixel, rows one after the other
/// without padding. Pixel (0, 0) is the bottom left one; the bits of the
/// bitmap start with the top left pixel.
pub struct Sprite {
    pub data: Vec<u8>,
    pub width: usize,
    pub height: usize,
}

/// What a sprite holds, as plain values: the bits and the size.
pub ghost struct Bitmap {
    pub data: Seq<u8>,
    pub width: usize,
    pub height: usize,
}

impl View for Sprite {
    type V = Bitmap;

    open spec fn view(&self) -> Bitmap {
        Bitmap { data: self.data@, width: self.width, height: self.height }
    }
}

/// The four directions an edge can run in. `Up` runs towards smaller `y`.
#[derive(Debug, Clone, Copy, PartialEq, Eq, Structural)]
pub enum Direction {
    Up,
    Right,
    Down,
    Left,
}

/// One side of a pixel cell, run through so that the pixel is on its right.
///
/// - origin at top left
/// - square is on the right of the edge
///    ^->
///    |#|
///    <-v
/// - edge coordinates are from top left of pixel
/// eg, `Edge { x: 2, y: 3, direction: Direction::Right }`
/// is the edge above the pixel at (2, 3), which is pointing right.
#[derive(Debug, Clone, Copy, PartialEq, Eq, Structural)]
pub struct Edge {
    pub x: usize,
    pub y: usize,
    pub direction: Direction,
}

/// Bit `offset` of `byte` is set.
pub open spec fn bit_set(byte: u8, offset: usize) -> bool {
    byte & (1u8 << offset) != 0
}

impl Direction {
    /// The number of the direction: clockwise from `Up`, which is 0.
    pub open spec fn spec_index(self) -> int {
        match self {
            Direction::Up => 0,
            Direction::Right => 1,
            Direction::Down => 2,
            Direction::Left => 3,
        }
    }

    /// The direction with the number `num`.
    pub open spec fn spec_from(num: int) -> Direction {
        if num == 0 {
            Direction::Up
        } else if num == 1 {
            Direction::Right
        } else if num == 2 {
            Direction::Down
        } else {
            Direction::Left
        }
    }

    /// This direction, turned clockwise by as many quarter turns as `by` is
    /// away from `Up`.
    pub open spec fn spec_turn(self, by: Direction) -> Direction {
        Self::spec_from((self.spec_index() + by.spec_index()) % 4)
    }

    /// The number of the direction: clockwise from `Up`, which is 0.
    pub fn index(self) -> (r: u8)
        ensures
            r == self.spec_index(),
    {
        match self {
            Direction::Up => 0,
            Direction::Right => 1,
            Direction::Down => 2,
            Direction::Left => 3,
        }
    }

    /// The direction with the number `num`.
    pub fn from(num: u8) -> (r: Self)
        requires
            num < 4,
        ensures
            r == Self::spec_from(num as int),
    {
        match num {
            0 => Direction::Up,
            1 => Direction::Right,
            2 => Direction::Down,
            _ => Direction::Left,
        }
    }

    /// This direction, turned clockwise by as many quarter turns as `by` is
    /// away from `Up`.
    pub fn turn(self, by: Direction) -> (r: Direction)
        ensures
            r == self.spec_turn(by),
    {
        let dir = self.index();
        let by = by.index();
        let dir = (dir + by) % 4;
        Direction::from(dir)
    }
}

impl Edge {
    /// The corner the edge leads to.
    pub open spec fn spec_dest(self) -> (int, int) {
        match self.direction {
            Direction::Up => (self.x as int, self.y - 1),
            Direction::Right => (self.x + 1, self.y as int),
            Direction::Down => (self.x as int, self.y + 1),
            Direction::Left => (self.x - 1, self.y as int),
        }
    }

    /// The pixel on the right of the edge: the one it is a side of.
    pub open spec fn right_pixel(self) -> (int, int) {
        match self.direction {
            Direction::Up => (self.x as int, self.y - 1),
            Direction::Right => (self.x as int, self.y as int),
            Direction::Down => (self.x - 1, self.y as int),
            Direction::Left => (self.x - 1, self.y - 1),
        }
    }

    /// The pixel on the left of the edge, across from the one it is a side
    /// of.
    pub open spec fn left_pixel(self) -> (int, int) {
        match self.direction {
            Direction::Up => (self.x - 1, self.y - 1),
            Direction::Right => (self.x as int, self.y - 1),
            Direction::Down => (self.x as int, self.y as int),
            Direction::Left => (self.x - 1, self.y as int),
        }
    }

    /// The edge has somewhere to lead to: its end has no negative
    /// coordinate and none beyond `usize`.
    pub open spec fn has_dest(self) -> bool {
        0 <= self.spec_dest().0 <= usize::MAX && 0 <= self.spec_dest().1 <= usize::MAX
    }

    /// The same segment run through the other way: the side of the pixel
    /// across.
    pub open spec fn spec_complement(self) -> Edge {
        Edge {
            x: self.spec_dest().0 as usize,
            y: self.spec_dest().1 as usize,
            direction: self.direction.spec_turn(Direction::Down),
        }
    }

    /// The four sides of the pixel at (`x`, `y`), clockwise: left, top,
    /// right, bottom.
    pub open spec fn spec_surrounding(x: usize, y: usize) -> Seq<Edge> {
        seq![
            Edge { x, y: (y + 1) as usize, direction: Direction::Up },
            Edge { x, y, direction: Direction::Right },
            Edge { x: (x + 1) as usize, y, direction: Direction::Down },
            Edge { x: (x + 1) as usize, y: (y + 1) as usize, direction: Direction::Left },
        ]
    }

    /// The corner the edge leads to.
    pub fn dest(&self) -> (r: (usize, usize))
        requires
            self.has_dest(),
        ensures
            r.0 == self.spec_dest().0,
            r.1 == self.spec_dest().1,
    {
        match self.direction {
            Direction::Up => (self.x, self.y - 1),
            Direction::Right => (self.x + 1, self.y),
            Direction::Down => (self.x, self.y + 1),
            Direction::Left => (self.x - 1, self.y),
        }
    }

    /// Return an array of the Edges surrounding the pixel at (`x`, `y`).
    pub fn surrounding(x: usize, y: usize) -> (r: [Edge; 4])
        requires
            x < usize::MAX,
            y < usize::MAX,
        ensures
            r@ == Self::spec_surrounding(x, y),
    {
        [
            Edge { x, y: y + 1, direction: Direction::Up },
            Edge { x, y, direction: Direction::Right },
            Edge { x: x + 1, y, direction: Direction::Down },
            Edge { x: x + 1, y: y + 1, direction: Direction::Left },
        ]
    }

    /// The same segment run through the other way.
    pub fn complement(&self) -> (r: Edge)
        requires
            self.has_dest(),
        ensures
            r == self.spec_complement(),
    {
        let (x, y) = self.dest();
        let direction = self.direction.turn(Direction::Down);
        Edge { x, y, direction }
    }
}

impl Bitmap {
    /// The bitmap holds a bit for every pixel, and the number of pixels
    /// fits `usize`.
    pub open spec fn wf(&self) -> bool {
        &&& self.width * self.height <= 8 * self.data.len()
        &&& self.width * self.height <= usize::MAX
    }

    /// A table with an entry for every side of every pixel can be indexed:
    /// the number of such sides fits `usize`.
    pub open spec fn edges_fit(&self) -> bool {
        4 * (self.width + 1) * (self.height + 1) <= usize::MAX
    }

    /// The place of pixel (`x`, `y`) among the bits of the bitmap.
    pub open spec fn bit_index(&self, x: int, y: int) -> int {
        (self.height - y - 1) * self.width + (self.width - x - 1)
    }

    /// The pixel at (`x`, `y`) is filled. No pixel outside the bitmap is.
    pub open spec fn pixel(&self, x: int, y: int) -> bool {
        &&& 0 <= x < self.width
        &&& 0 <= y < self.height
        &&& bit_set(
            self.data[self.bit_index(x, y) / 8],
            (self.bit_index(x, y) % 8) as usize,
        )
    }

    /// The edge is part of the boundary: the pixel on its right is filled,
    /// the one on its left is not.
    #[verifier::opaque]
    pub open spec fn is_boundary(&self, e: Edge) -> bool {
        self.pixel(e.right_pixel().0, e.right_pixel().1) && !self.pixel(
            e.left_pixel().0,
            e.left_pixel().1,
        )
    }
}

/// The place of a grid edge in a table of all edges of a grid that is
/// `width` pixels wide: corner after corner, row by row, four directions
/// for each.
pub open spec fn slot_of(width: usize, e: Edge) -> int {
    (e.y * (width + 1) + e.x) * 4 + e.direction.spec_index()
}

/// Neither side of the grid is longer than the table of its edges.
pub proof fn lemma_grid_sizes(width: usize, height: usize)
    ensures
        width + 1 <= 4 * (width + 1) * (height + 1),
        height + 1 <= 4 * (width + 1) * (height + 1),
        4 * (width + 1) <= 4 * (width + 1) * (height + 1),
        (width + 1) * (height + 1) <= 4 * (width + 1) * (height + 1),
{
    let w = width as int + 1;
    let h = height as int + 1;
    assert(w <= 4 * w * h && h <= 4 * w * h && 4 * w <= 4 * w * h && w * h <= 4 * w * h)
        by (nonlinear_arith)
        requires
            w >= 1,
            h >= 1,
    ;
}

/// The places of a table of all edges are inside the table.
pub proof fn lemma_slot_bounds(width: usize, height: usize, e: Edge)
    requires
        e.x <= width,
        e.y <= height,
    ensures
        0 <= slot_of(width, e) < 4 * (width + 1) * (height + 1),
{
    let w = width as int + 1;
    let y = e.y as int;
    let h = height as int;
    assert(y * w <= h * w) by (nonlinear_arith)
        requires
            0 <= y <= h,
            w > 0,
    ;
    assert(y * w >= 0) by (nonlinear_arith)
        requires
            0 <= y,
            w > 0,
    ;
    assert(4 * w * (h + 1) == 4 * (h * w + w)) by (nonlinear_arith);
}

/// No two edges of the grid share a place in the table.
pub proof fn lemma_slot_injective(width: usize, a: Edge, b: Edge)
    requires
        a.x <= width,
        b.x <= width,
        slot_of(width, a) == slot_of(width, b),
    ensures
        a == b,
{
    let w = width as int + 1;
    let ya = a.y as int;
    let yb = b.y as int;
    assert(a.direction.spec_index() == b.direction.spec_index());
    assert(ya * w + a.x == yb * w + b.x);
    if ya < yb {
        assert(yb * w >= ya * w + w) by (nonlinear_arith)
            requires
                ya < yb,
                w > 0,
        ;
    } else if yb < ya {
        assert(ya * w >= yb * w + w) by (nonlinear_arith)
            requires
                yb < ya,
                w > 0,
        ;
    }
}

/// A set of edges of a pixel grid, with room for every side of every pixel.
pub struct EdgeSet {
    width: usize,
    height: usize,
    present: Vec<bool>,
}

impl EdgeSet {
    /// The width of the grid, in pixels.
    pub closed spec fn width(&self) -> usize {
        self.width
    }

    /// The height of the grid, in pixels.
    pub closed spec fn height(&self) -> usize {
        self.height
    }

    /// The edge starts at a corner of the grid.
    pub open spec fn in_grid(&self, e: Edge) -> bool {
        e.x <= self.width() && e.y <= self.height()
    }

    /// The set has a place for every edge of the grid.
    pub closed spec fn wf(&self) -> bool {
        self.present@.len() == 4 * (self.width + 1) * (self.height + 1)
    }

    /// The edge is in the set.
    pub closed spec fn contains(&self, e: Edge) -> bool {
        e.x <= self.width && e.y <= self.height && self.present@[slot_of(self.width, e)]
    }

    /// The places of the table that hold no edge.
    pub closed spec fn absent(&self) -> Set<int> {
        Set::new(|i: int| 0 <= i < self.present@.len() && !self.present@[i])
    }

    /// How many edges of the grid are not in the set.
    pub open spec fn absent_count(&self) -> nat {
        self.absent().len()
    }

    /// The empty set of edges of a grid of `width` by `height` pixels.
    pub fn new(width: usize, height: usize) -> (r: Self)
        requires
            4 * (width + 1) * (height + 1) <= usize::MAX,
        ensures
            r.wf(),
            r.width() == width,
            r.height() == height,
            forall|e: Edge| !r.contains(e),
            r.absent_count() == 4 * (width + 1) * (height + 1),
    {
        proof {
            lemma_grid_sizes(width, height);
        }
        let count = 4 * (width + 1) * (height + 1);
        let mut present: Vec<bool> = Vec::new();
        let mut i: usize = 0;
        while i < count
            invariant
                i <= count,
                present@.len() == i,
                forall|j: int| 0 <= j < i ==> !(#[trigger] present@[j]),
            decreases count - i,
        {
            present.push(false);
            i = i + 1;
        }
        let r = EdgeSet { width, height, present };
        proof {
            assert(r.absent() =~= vstd::set_lib::set_int_range(0, count as int));
            vstd::set_lib::lemma_int_range(0, count as int);
            assert forall|e: Edge| !r.contains(e) by {
                if e.x <= width && e.y <= height {
                    lemma_slot_bounds(width, height, e);
                }
            }
        }
        r
    }

    /// The place of `e` in the table.
    fn slot(&self, e: &Edge) -> (r: usize)
        requires
            self.wf(),
            self.in_grid(*e),
        ensures
            r == slot_of(self.width, *e),
            r < self.present@.len(),
    {
        proof {
            lemma_slot_bounds(self.width, self.height, *e);
            let w = self.width as int + 1;
            let y = e.y as int;
            assert(0 <= y * w) by (nonlinear_arith)
                requires
                    0 <= y,
                    w > 0,
            ;
        }
        let total = self.present.len();
        proof {
            lemma_grid_sizes(self.width, self.height);
        }
        (e.y * (self.width + 1) + e.x) * 4 + e.direction.index() as usize
    }

    /// Whether `e` is in the set.
    pub fn has(&self, e: &Edge) -> (r: bool)
        requires
            self.wf(),
        ensures
            r == self.contains(*e),
    {
        if e.x <= self.width && e.y <= self.height {
            let slot = self.slot(e);
            self.present[slot]
        } else {
            false
        }
    }

    /// Puts `e` into the set. Returns whether it was new.
    pub fn insert(&mut self, e: Edge) -> (r: bool)
        requires
            old(self).wf(),
            old(self).in_grid(e),
        ensures
            final(self).wf(),
            final(self).width() == old(self).width(),
            final(self).height() == old(self).height(),
            r == !old(self).contains(e),
            forall|other: Edge|
                #[trigger] final(self).contains(other) == (other == e || old(self).contains(other)),
            final(self).absent_count() == if r {
                old(self).absent_count() - 1
            } else {
                old(self).absent_count() as int
            },
            r ==> old(self).absent_count() > 0,
    {
        let slot = self.slot(&e);
        let was = self.present[slot];
        self.present[slot] = true;
        proof {
            assert forall|other: Edge| #[trigger]
                self.contains(other) == (other == e || old(self).contains(other)) by {
                if other.x <= self.width && other.y <= self.height && other != e {
                    lemma_slot_bounds(self.width, self.height, other);
                    if slot_of(self.width, other) == slot_of(self.width, e) {
                        lemma_slot_injective(self.width, other, e);
                    }
                }
            }
            old(self).lemma_absent_finite();
            if !was {
                assert(self.absent() =~= old(self).absent().remove(slot as int));
                assert(old(self).absent().contains(slot as int));
            } else {
                assert(self.absent() =~= old(self).absent());
            }
        }
        !was
    }

    /// Takes `e` out of the set. Returns whether it was there.
    pub fn remove(&mut self, e: &Edge) -> (r: bool)
        requires
            old(self).wf(),
        ensures
            final(self).wf(),
            final(self).width() == old(self).width(),
            final(self).height() == old(self).height(),
            r == old(self).contains(*e),
            forall|other: Edge|
                #[trigger] final(self).contains(other) == (other != *e && old(self).contains(other)),
            final(self).absent_count() == if r {
                old(self).absent_count() + 1
            } else {
                old(self).absent_count()
            },
    {
        if e.x <= self.width && e.y <= self.height {
            let slot = self.slot(e);
            let was = self.present[slot];
            self.present[slot] = false;
            proof {
                assert forall|other: Edge| #[trigger]
                    self.contains(other) == (other != *e && old(self).contains(other)) by {
                    if other.x <= self.width && other.y <= self.height && other != *e {
                        lemma_slot_bounds(self.width, self.height, other);
                        if slot_of(self.width, other) == slot_of(self.width, *e) {
                            lemma_slot_injective(self.width, other, *e);
                        }
                    }
                }
                self.lemma_absent_finite();
                if was {
                    assert(old(self).absent() =~= self.absent().remove(slot as int));
                    assert(self.absent().contains(slot as int));
                } else {
                    assert(self.absent() =~= old(self).absent());
                }
            }
            was
        } else {
            false
        }
    }

    /// No more edges are missing from the set than the grid has.
    pub proof fn lemma_absent_count_bound(&self)
        requires
            self.wf(),
        ensures
            self.absent_count() <= 4 * (self.width() + 1) * (self.height() + 1),
    {
        let all = vstd::set_lib::set_int_range(0, self.present@.len() as int);
        vstd::set_lib::lemma_int_range(0, self.present@.len() as int);
        assert(self.absent().subset_of(all));
        vstd::set_lib::lemma_len_subset(self.absent(), all);
    }

    /// Only finitely many places hold no edge.
    proof fn lemma_absent_finite(&self)
        ensures
            self.absent().finite(),
    {
        let all = vstd::set_lib::set_int_range(0, self.present@.len() as int);
        vstd::set_lib::lemma_int_range(0, self.present@.len() as int);
        assert(self.absent().subset_of(all));
        vstd::set_lib::lemma_len_subset(self.absent(), all);
    }
}

impl Bitmap {
    /// The scan over the pixels, column by column and in each column from
    /// `y` 0 on, has dealt with side number `slot` of the pixel `pixel` by
    /// the time it comes to side `k` of the pixel (`x`, `y`): the pixel is
    /// filled, and the scan has passed that side of it.
    pub open spec fn generated(&self, pixel: (int, int), slot: int, x: int, y: int, k: int) -> bool {
        self.pixel(pixel.0, pixel.1) && (pixel.0 < x || (pixel.0 == x && (pixel.1 < y || (pixel.1
            == y && slot < k))))
    }

    /// What is left of the edges when every side of a filled pixel is put
    /// in unless the same segment is there the other way round, which is
    /// then taken out: the edge was put in, and the pixel across has not
    /// come with the same segment yet.
    pub open spec fn survives(&self, e: Edge, x: int, y: int, k: int) -> bool {
        self.generated(e.right_pixel(), e.direction.spec_index(), x, y, k) && !self.generated(
            e.left_pixel(),
            (e.direction.spec_index() + 2) % 4,
            x,
            y,
            k,
        )
    }
}

impl Bitmap {
    /// The edge that starts where `e` ends and runs on in the direction
    /// `turn` away from that of `e`.
    pub open spec fn turned(e: Edge, turn: Direction) -> Edge {
        Edge {
            x: e.spec_dest().0 as usize,
            y: e.spec_dest().1 as usize,
            direction: e.direction.spec_turn(turn),
        }
    }

    /// The boundary edge that follows `e` on its loop: of the edges that
    /// start where `e` ends, the one that turns right if it is part of the
    /// boundary, else the one straight on, else the one that turns left.
    pub open spec fn next_edge(&self, e: Edge) -> Edge {
        if self.is_boundary(Self::turned(e, Direction::Right)) {
            Self::turned(e, Direction::Right)
        } else if self.is_boundary(Self::turned(e, Direction::Up)) {
            Self::turned(e, Direction::Up)
        } else {
            Self::turned(e, Direction::Left)
        }
    }

    /// A boundary edge lies inside the grid of the sprite, and so does its
    /// end.
    pub proof fn lemma_boundary_in_grid(&self, e: Edge)
        requires
            self.is_boundary(e),
        ensures
            e.x <= self.width,
            e.y <= self.height,
            0 <= e.spec_dest().0 <= self.width,
            0 <= e.spec_dest().1 <= self.height,
    {
        reveal(Bitmap::is_boundary);
    }

    /// The boundary goes on behind every boundary edge: the edge that
    /// follows is part of the boundary too.
    pub proof fn lemma_next_is_boundary(&self, e: Edge)
        requires
            self.is_boundary(e),
        ensures
            self.is_boundary(self.next_edge(e)),
    {
        reveal(Bitmap::is_boundary);
        let right = Self::turned(e, Direction::Right);
        let ahead = Self::turned(e, Direction::Up);
        let left = Self::turned(e, Direction::Left);
        if !self.is_boundary(right) && !self.is_boundary(ahead) {
            match e.direction {
                Direction::Up => {
                    assert(self.is_boundary(left));
                },
                Direction::Right => {
                    assert(self.is_boundary(left));
                },
                Direction::Down => {
                    assert(self.is_boundary(left));
                },
                Direction::Left => {
                    assert(self.is_boundary(left));
                },
            }
        }
    }

    /// No two boundary edges are followed by the same edge.
    pub proof fn lemma_next_injective(&self, a: Edge, b: Edge)
        requires
            self.is_boundary(a),
            self.is_boundary(b),
            self.next_edge(a) == self.next_edge(b),
        ensures
            a == b,
    {
        reveal(Bitmap::is_boundary);
        let next = self.next_edge(a);
        self.lemma_next_is_boundary(a);
        assert(a.spec_dest() == b.spec_dest());
        if a.direction != b.direction {
            match next.direction {
                Direction::Up => {
                    assert(false);
                },
                Direction::Right => {
                    assert(false);
                },
                Direction::Down => {
                    assert(false);
                },
                Direction::Left => {
                    assert(false);
                },
            }
        }
    }
}

impl Bitmap {
    /// The number of edges that the grid of the sprite has.
    pub open spec fn edge_count(&self) -> nat {
        (4 * (self.width + 1) * (self.height + 1)) as nat
    }

    /// The edge reached from `e` after `n` steps along the boundary.
    pub open spec fn walk(&self, e: Edge, n: nat) -> Edge
        decreases n,
    {
        if n == 0 {
            e
        } else {
            self.next_edge(self.walk(e, (n - 1) as nat))
        }
    }

    /// The edges that follow `from` on the boundary, up to and with `start`,
    /// or `fuel + 1` of them where `start` does not come.
    pub open spec fn trace(&self, start: Edge, from: Edge, fuel: nat) -> Seq<Edge>
        decreases fuel,
    {
        let next = self.next_edge(from);
        if next == start || fuel == 0 {
            seq![next]
        } else {
            seq![next] + self.trace(start, next, (fuel - 1) as nat)
        }
    }

    /// The loop through `start`: the edges that follow it on the boundary,
    /// in their order, ending with `start` itself.
    pub open spec fn orbit(&self, start: Edge) -> Seq<Edge> {
        self.trace(start, start, self.edge_count())
    }

    /// With `e`, `seen` holds the edge that follows it, and without it, not.
    pub open spec fn keeps_step(&self, seen: EdgeSet, e: Edge) -> bool {
        seen.contains(e) == seen.contains(self.next_edge(e))
    }

    /// `seen` holds whole loops of the boundary only: it holds boundary
    /// edges, and with each the one that follows it.
    pub open spec fn holds_whole_loops(&self, seen: EdgeSet) -> bool {
        &&& forall|e: Edge| #[trigger] seen.contains(e) ==> self.is_boundary(e)
        &&& forall|e: Edge| self.is_boundary(e) ==> #[trigger] self.keeps_step(seen, e)
    }

    /// The edge `i` steps behind `start` is a boundary edge that `seen`
    /// holds and `before` does not.
    pub open spec fn on_path(&self, before: EdgeSet, seen: EdgeSet, start: Edge, i: nat) -> bool {
        &&& self.is_boundary(self.walk(start, i))
        &&& seen.contains(self.walk(start, i))
        &&& !before.contains(self.walk(start, i))
    }

    /// Different edges come after `i` and after `j` steps behind `start`.
    pub open spec fn apart(&self, start: Edge, i: nat, j: nat) -> bool {
        self.walk(start, i) != self.walk(start, j)
    }

    /// `e` was in the set before, or it came on the way from `start`, after
    /// the number of steps that `step` has for it, between `low` and `high`.
    pub open spec fn accounted(
        &self,
        before: EdgeSet,
        step: Map<Edge, nat>,
        start: Edge,
        low: nat,
        high: nat,
        e: Edge,
    ) -> bool {
        before.contains(e) || (step.dom().contains(e) && low <= step[e] <= high && self.walk(
            start,
            step[e],
        ) == e)
    }

    /// The state of following the loop through `start` after `m` steps:
    /// `seen` holds what `before` held, a set of whole loops that `start`
    /// is not on, and the first `m` edges after `start` and `start` itself,
    /// which are boundary edges, all different; `step` says for each of
    /// them after how many steps it came.
    pub open spec fn tracing(
        &self,
        before: EdgeSet,
        seen: EdgeSet,
        start: Edge,
        m: nat,
        step: Map<Edge, nat>,
    ) -> bool {
        &&& self.holds_whole_loops(before)
        &&& self.walk(start, 0) == start
        &&& forall|i: nat| i <= m ==> #[trigger] self.on_path(before, seen, start, i)
        &&& forall|i: nat, j: nat| i < j <= m ==> #[trigger] self.apart(start, i, j)
        &&& forall|e: Edge|
            seen.contains(e) ==> #[trigger] self.accounted(before, step, start, 0, m, e)
        &&& forall|e: Edge| before.contains(e) ==> #[trigger] seen.contains(e)
    }

    /// Following a loop starts with its first edge put into the set.
    proof fn lemma_trace_start(&self, before: EdgeSet, seen: EdgeSet, start: Edge)
        requires
            self.holds_whole_loops(before),
            self.is_boundary(start),
            !before.contains(start),
            forall|e: Edge| #[trigger] seen.contains(e) == (e == start || before.contains(e)),
        ensures
            self.tracing(before, seen, start, 0, Map::<Edge, nat>::empty().insert(start, 0nat)),
    {
        assert(self.walk(start, 0) == start);
    }

    /// One step further on the loop: the next edge is `start`, or it is an
    /// edge not seen before, and then following goes on with it.
    proof fn lemma_trace_next(
        &self,
        before: EdgeSet,
        seen: EdgeSet,
        after: EdgeSet,
        start: Edge,
        m: nat,
        step: Map<Edge, nat>,
    )
        requires
            self.tracing(before, seen, start, m, step),
            forall|e: Edge|
                #[trigger] after.contains(e) == (e == self.walk(start, m + 1) || seen.contains(e)),
        ensures
            self.is_boundary(self.walk(start, m + 1)),
            self.walk(start, m + 1) == self.next_edge(self.walk(start, m)),
            self.walk(start, m + 1) != start ==> !seen.contains(self.walk(start, m + 1))
                && self.tracing(
                before,
                after,
                start,
                m + 1,
                step.insert(self.walk(start, m + 1), m + 1),
            ),
    {
        let edge = self.walk(start, m);
        let next = self.walk(start, m + 1);
        assert(next == self.next_edge(edge));
        assert(self.on_path(before, seen, start, m));
        self.lemma_next_is_boundary(edge);
        if next != start {
            if seen.contains(next) {
                // an edge seen before cannot come again before `start` does
                assert(self.accounted(before, step, start, 0, m, next));
                if before.contains(next) {
                    assert(self.keeps_step(before, edge));
                    assert(false);
                } else {
                    let i = step[next];
                    assert(self.walk(start, i) == next);
                    assert(i != 0);
                    let prev = self.walk(start, (i - 1) as nat);
                    assert(self.on_path(before, seen, start, (i - 1) as nat));
                    assert(self.next_edge(prev) == next);
                    self.lemma_next_injective(prev, edge);
                    if i - 1 < m {
                        assert(self.apart(start, (i - 1) as nat, m));
                    }
                    assert(false);
                }
            }
            let grown = step.insert(next, m + 1);
            assert(!before.contains(next));
            assert forall|i: nat, j: nat| i < j <= m + 1 implies #[trigger] self.apart(
                start,
                i,
                j,
            ) by {
                if j == m + 1 {
                    assert(self.on_path(before, seen, start, i));
                } else {
                    assert(self.apart(start, i, j));
                }
            }
            assert forall|e: Edge| after.contains(e) implies #[trigger] self.accounted(
                before,
                grown,
                start,
                0,
                m + 1,
                e,
            ) by {
                if e != next {
                    assert(self.accounted(before, step, start, 0, m, e));
                }
            }
            assert forall|i: nat| i <= m + 1 implies #[trigger] self.on_path(
                before,
                after,
                start,
                i,
            ) by {
                if i <= m {
                    assert(self.on_path(before, seen, start, i));
                }
            }
        }
    }

    /// The loop is closed: after `m + 1` steps `start` has come again. The
    /// set then holds whole loops again, one more than before.
    proof fn lemma_trace_closed(
        &self,
        before: EdgeSet,
        seen: EdgeSet,
        start: Edge,
        m: nat,
        step: Map<Edge, nat>,
    )
        requires
            self.tracing(before, seen, start, m, step),
            self.walk(start, m + 1) == start,
        ensures
            self.holds_whole_loops(seen),
            forall|i: nat| 1 <= i <= m + 1 ==> #[trigger] self.on_path(before, seen, start, i),
            forall|i: nat, j: nat| 1 <= i < j <= m + 1 ==> #[trigger] self.apart(start, i, j),
            forall|e: Edge|
                seen.contains(e) ==> #[trigger] self.accounted(
                    before,
                    step.insert(start, m + 1),
                    start,
                    1,
                    m + 1,
                    e,
                ),
            forall|e: Edge| before.contains(e) ==> #[trigger] seen.contains(e),
    {
        let closed = step.insert(start, m + 1);
        assert(self.on_path(before, seen, start, 0));
        assert forall|i: nat| 1 <= i <= m + 1 implies #[trigger] self.on_path(
            before,
            seen,
            start,
            i,
        ) by {
            if i <= m {
                assert(self.on_path(before, seen, start, i));
            }
        }
        assert forall|i: nat, j: nat| 1 <= i < j <= m + 1 implies #[trigger] self.apart(
            start,
            i,
            j,
        ) by {
            if j == m + 1 {
                assert(self.apart(start, 0, i));
            } else {
                assert(self.apart(start, i, j));
            }
        }
        assert forall|e: Edge| seen.contains(e) implies #[trigger] self.accounted(
            before,
            closed,
            start,
            1,
            m + 1,
            e,
        ) by {
            assert(self.accounted(before, step, start, 0, m, e));
        }
        assert forall|e: Edge| #[trigger] seen.contains(e) implies self.is_boundary(e) by {
            assert(self.accounted(before, step, start, 0, m, e));
            if !before.contains(e) {
                assert(self.on_path(before, seen, start, step[e]));
            }
        }
        assert forall|e: Edge| self.is_boundary(e) implies #[trigger] self.keeps_step(seen, e) by {
            let after = self.next_edge(e);
            self.lemma_next_is_boundary(e);
            assert(self.keeps_step(before, e));
            if seen.contains(e) && !before.contains(e) {
                assert(self.accounted(before, step, start, 0, m, e));
                let i = step[e];
                assert(self.walk(start, i + 1) == after);
                if i < m {
                    assert(self.on_path(before, seen, start, i + 1));
                }
            }
            if seen.contains(after) && !before.contains(after) {
                assert(self.accounted(before, closed, start, 1, m + 1, after));
                let i = closed[after];
                let prev = self.walk(start, (i - 1) as nat);
                assert(self.on_path(before, seen, start, (i - 1) as nat));
                assert(self.next_edge(prev) == after);
                self.lemma_next_injective(prev, e);
            }
        }
    }

    /// Sets that hold the same edges are in the same state of following a
    /// loop.
    proof fn lemma_tracing_same(
        &self,
        before: EdgeSet,
        seen: EdgeSet,
        same: EdgeSet,
        start: Edge,
        m: nat,
        step: Map<Edge, nat>,
    )
        requires
            self.tracing(before, seen, start, m, step),
            forall|e: Edge| #[trigger] same.contains(e) == seen.contains(e),
        ensures
            self.tracing(before, same, start, m, step),
    {
        assert forall|i: nat| i <= m implies #[trigger] self.on_path(before, same, start, i) by {
            assert(self.on_path(before, seen, start, i));
        }
        assert forall|e: Edge| same.contains(e) implies #[trigger] self.accounted(
            before,
            step,
            start,
            0,
            m,
            e,
        ) by {
            assert(seen.contains(e));
            assert(self.accounted(before, step, start, 0, m, e));
        }
        assert forall|e: Edge| before.contains(e) implies #[trigger] same.contains(e) by {
            assert(seen.contains(e));
        }
    }
}

/// The sequences that the vectors of `v` hold.
pub open spec fn views<T>(v: Seq<Vec<T>>) -> Seq<Seq<T>> {
    Seq::new(v.len(), |i: int| v[i]@)
}

/// `e` is one of the edges of `loops`.
pub open spec fn on_loops(loops: Seq<Seq<Edge>>, e: Edge) -> bool {
    exists|i: int, j: int| 0 <= i < loops.len() && 0 <= j < loops[i].len() && loops[i][j] == e
}

/// Edge `j` of loop `i` and edge `l` of loop `k` are not the same edge.
pub open spec fn differ(loops: Seq<Seq<Edge>>, i: int, j: int, k: int, l: int) -> bool {
    loops[i][j] != loops[k][l]
}

/// The index of the first of `edges`, from `from` on, that does not run in
/// the direction `d`; the number of edges where there is none.
pub open spec fn turn_at(edges: Seq<Edge>, d: Direction, from: nat) -> nat
    decreases edges.len() - from,
{
    if from >= edges.len() {
        edges.len()
    } else if edges[from as int].direction != d {
        from
    } else {
        turn_at(edges, d, from + 1)
    }
}

/// The loop, turned so that it starts with the first edge that does not
/// run in the direction of its last edge: no straight run of edges then
/// goes on from the end of the sequence to its start.
pub open spec fn rotated(edges: Seq<Edge>) -> Seq<Edge> {
    let offset = turn_at(edges, edges.last().direction, 0);
    edges.skip(offset as int) + edges.take(offset as int)
}

/// Where the first `n` of `edges` turn: the start of the first edge, and of
/// every edge that runs in another direction than the one before it.
pub open spec fn corners(edges: Seq<Edge>, n: nat) -> Seq<(usize, usize)>
    decreases n,
{
    if n == 0 {
        Seq::empty()
    } else if n == 1 || edges[n - 1].direction != edges[n - 2].direction {
        corners(edges, (n - 1) as nat).push((edges[n - 1].x, edges[n - 1].y))
    } else {
        corners(edges, (n - 1) as nat)
    }
}

/// The contour of a loop of edges: its corners, starting behind a turn.
pub open spec fn contour_of(edges: Seq<Edge>) -> Seq<(usize, usize)> {
    corners(rotated(edges), edges.len())
}

/// The corners of a loop of edges: the loop is turned to start behind a
/// change of direction, and of every straight run of edges only the start
/// stays.
pub fn contour_points(edges: &Vec<Edge>) -> (points: Vec<(usize, usize)>)
    requires
        edges@.len() > 0,
    ensures
        points@ == contour_of(edges@),
{
    let len = edges.len();
    let last = edges[len - 1].direction;

    // Align loop with change in direction.
    // This ensures we combine as many edges as possible, that we aren't
    // accidentally straddling a single edge across the Vec-loop boundary.
    let mut offset: usize = 0;
    while offset < len && edges[offset].direction == last
        invariant
            offset <= len,
            len == edges@.len(),
            turn_at(edges@, last, offset as nat) == turn_at(edges@, last, 0),
        decreases len - offset,
    {
        offset = offset + 1;
    }
    let mut turned: Vec<Edge> = Vec::new();
    let mut i: usize = offset;
    while i < len
        invariant
            offset <= i <= len,
            len == edges@.len(),
            turned@ == edges@.subrange(offset as int, i as int),
        decreases len - i,
    {
        turned.push(edges[i]);
        i = i + 1;
        assert(turned@ =~= edges@.subrange(offset as int, i as int));
    }
    let mut i: usize = 0;
    while i < offset
        invariant
            i <= offset <= len,
            len == edges@.len(),
            turned@ == edges@.skip(offset as int) + edges@.take(i as int),
        decreases offset - i,
    {
        turned.push(edges[i]);
        i = i + 1;
        assert(turned@ =~= edges@.skip(offset as int) + edges@.take(i as int));
    }
    assert(turned@ == rotated(edges@));

    // Dedup colinear edges and convert to list of points
    let mut points: Vec<(usize, usize)> = Vec::new();
    let mut k: usize = 0;
    while k < len
        invariant
            k <= len,
            len == turned@.len(),
            points@ == corners(turned@, k as nat),
        decreases len - k,
    {
        if k == 0 || turned[k].direction != turned[k - 1].direction {
            points.push((turned[k].x, turned[k].y));
        }
        k = k + 1;
    }
    points
}

impl Bitmap {
    /// The edge that has the place `index` in the table of all edges.
    pub open spec fn edge_at(&self, index: int) -> Edge {
        Edge {
            x: ((index / 4) % (self.width + 1)) as usize,
            y: ((index / 4) / (self.width + 1)) as usize,
            direction: Direction::spec_from(index % 4),
        }
    }

    /// Every place of the table is the place of the edge found there, an
    /// edge of the grid.
    pub proof fn lemma_edge_at(&self, index: int)
        requires
            0 <= index < self.edge_count(),
        ensures
            self.edge_at(index).x <= self.width,
            self.edge_at(index).y <= self.height,
            slot_of(self.width, self.edge_at(index)) == index,
    {
        let w = self.width as int + 1;
        let h = self.height as int + 1;
        let q = index / 4;
        assert(q < w * h) by (nonlinear_arith)
            requires
                q * 4 <= index,
                index < 4 * w * h,
        ;
        vstd::arithmetic::div_mod::lemma_fundamental_div_mod(q, w);
        vstd::arithmetic::div_mod::lemma_mod_pos_bound(q, w);
        let y = q / w;
        let x = q % w;
        assert(0 <= y < h) by (nonlinear_arith)
            requires
                q == w * y + x,
                0 <= x < w,
                0 <= q < w * h,
                w > 0,
        ;
        assert(y * w == w * y) by (nonlinear_arith);
    }

    /// Every edge of the grid is found at its place in the table.
    pub proof fn lemma_edge_at_slot(&self, e: Edge)
        requires
            e.x <= self.width,
            e.y <= self.height,
        ensures
            0 <= slot_of(self.width, e) < self.edge_count(),
            self.edge_at(slot_of(self.width, e)) == e,
    {
        lemma_slot_bounds(self.width, self.height, e);
        let w = self.width as int + 1;
        let q = e.y * w + e.x;
        assert((q * 4 + e.direction.spec_index()) / 4 == q);
        assert(e.y * w >= 0) by (nonlinear_arith)
            requires
                e.y >= 0,
                w > 0,
        ;
        vstd::arithmetic::div_mod::lemma_fundamental_div_mod_converse(
            q,
            w,
            e.y as int,
            e.x as int,
        );
    }

    /// `e` lies on a loop that starts at one of the first `n` places of the
    /// table: on one that was found among the places before, or on the one
    /// that the edge at the last of these places starts, a boundary edge on
    /// none of the loops before.
    pub open spec fn covered(&self, n: nat, e: Edge) -> bool
        decreases n,
    {
        n > 0 && ({
            let start = self.edge_at(n - 1);
            self.covered((n - 1) as nat, e) || (self.is_boundary(start) && !self.covered(
                (n - 1) as nat,
                start,
            ) && self.orbit(start).contains(e))
        })
    }

    /// The loops that start at one of the first `n` places of the table,
    /// in the order of their starts: each boundary edge that lies on no
    /// loop found before starts one.
    pub open spec fn loops_upto(&self, n: nat) -> Seq<Seq<Edge>>
        decreases n,
    {
        if n == 0 {
            Seq::empty()
        } else {
            let start = self.edge_at(n - 1);
            if self.is_boundary(start) && !self.covered((n - 1) as nat, start) {
                self.loops_upto((n - 1) as nat).push(self.orbit(start))
            } else {
                self.loops_upto((n - 1) as nat)
            }
        }
    }

    /// The loops of the boundary, in the order of the places of their
    /// starts in the table of all edges.
    pub open spec fn loops(&self) -> Seq<Seq<Edge>> {
        self.loops_upto(self.edge_count())
    }

    /// On loop `i` of `loops`, edge `j` is followed by the boundary edge
    /// that starts where it ends; the last edge is followed by the first.
    pub open spec fn chained(&self, loops: Seq<Seq<Edge>>, i: int, j: int) -> bool {
        self.next_edge(loops[i][j]) == loops[i][(j + 1) % (loops[i].len() as int)]
    }

    /// `loops` are closed loops that share no edge: no edge comes twice,
    /// and every edge is followed by the boundary edge that starts where
    /// it ends.
    pub open spec fn closed_loops(&self, loops: Seq<Seq<Edge>>) -> bool {
        &&& forall|i: int, j: int, k: int, l: int|
            0 <= i < loops.len() && 0 <= j < loops[i].len() && 0 <= k < loops.len() && 0 <= l
                < loops[k].len() && (i != k || j != l) ==> #[trigger] differ(loops, i, j, k, l)
        &&& forall|i: int, j: int|
            0 <= i < loops.len() && 0 <= j < loops[i].len() ==> #[trigger] self.chained(
                loops,
                i,
                j,
            )
    }

    /// `loops` are the boundary in closed loops: their edges are the
    /// boundary edges, each once, and on every loop each edge is followed
    /// by the boundary edge that starts where it ends, the last by the
    /// first.
    pub open spec fn partition_boundary(&self, loops: Seq<Seq<Edge>>) -> bool {
        &&& forall|e: Edge| #[trigger] self.is_boundary(e) <==> on_loops(loops, e)
        &&& self.closed_loops(loops)
    }

    /// One more loop: what holds of the loops found before, and of the set
    /// of their edges, holds with the loop that was followed last.
    proof fn lemma_add_loop(
        &self,
        found: Seq<Seq<Edge>>,
        before: EdgeSet,
        seen: EdgeSet,
        start: Edge,
        out: Seq<Edge>,
    )
        requires
            self.closed_loops(found),
            forall|e: Edge| #[trigger] before.contains(e) == on_loops(found, e),
            out.len() >= 1,
            out.last() == start,
            forall|j: int| 0 <= j < out.len() ==> #[trigger] out[j] == self.walk(start, (j + 1) as nat),
            forall|i: int, j: int| 0 <= i < j < out.len() ==> out[i] != out[j],
            forall|j: int| 0 <= j < out.len() ==> !before.contains(#[trigger] out[j]),
            forall|e: Edge| #[trigger] seen.contains(e) == (before.contains(e) || out.contains(e)),
        ensures
            self.closed_loops(found.push(out)),
            forall|e: Edge| #[trigger] seen.contains(e) == on_loops(found.push(out), e),
    {
        let grown = found.push(out);
        assert forall|e: Edge| #[trigger] seen.contains(e) == on_loops(grown, e) by {
            if on_loops(grown, e) {
                let (i, j) = choose|i: int, j: int|
                    0 <= i < grown.len() && 0 <= j < grown[i].len() && grown[i][j] == e;
                if i < found.len() {
                    assert(found[i][j] == e);
                    assert(on_loops(found, e));
                } else {
                    assert(out[j] == e);
                }
            }
            if seen.contains(e) {
                if before.contains(e) {
                    assert(on_loops(found, e));
                    let (i, j) = choose|i: int, j: int|
                        0 <= i < found.len() && 0 <= j < found[i].len() && found[i][j] == e;
                    assert(grown[i][j] == e);
                } else {
                    let j = choose|j: int| 0 <= j < out.len() && out[j] == e;
                    assert(grown[found.len() as int][j] == e);
                }
            }
        }
        assert forall|i: int, j: int|
            0 <= i < grown.len() && 0 <= j < grown[i].len() implies #[trigger] self.chained(
            grown,
            i,
            j,
        ) by {
            if i < found.len() {
                assert(self.chained(found, i, j));
            } else {
                let len = out.len() as int;
                assert(out[j] == self.walk(start, (j + 1) as nat));
                if j + 1 < len {
                    assert(out[j + 1] == self.walk(start, (j + 2) as nat));
                    vstd::arithmetic::div_mod::lemma_small_mod((j + 1) as nat, len as nat);
                } else {
                    assert(out[0] == self.walk(start, 1));
                    assert(self.walk(start, 0) == start);
                    vstd::arithmetic::div_mod::lemma_mod_self_0(len);
                }
            }
        }
        assert forall|i: int, j: int, k: int, l: int|
            0 <= i < grown.len() && 0 <= j < grown[i].len() && 0 <= k < grown.len() && 0 <= l
                < grown[k].len() && (i != k || j != l) implies #[trigger] differ(
            grown,
            i,
            j,
            k,
            l,
        ) by {
            if i < found.len() && k < found.len() {
                assert(differ(found, i, j, k, l));
            } else if i < found.len() {
                assert(on_loops(found, found[i][j]));
                assert(!before.contains(out[l]));
            } else if k < found.len() {
                assert(on_loops(found, found[k][l]));
                assert(!before.contains(out[j]));
            }
        }
    }

    /// The contours of the sprite: for each loop of its boundary, in the
    /// order of `loops`, the corners of the loop.
    pub open spec fn contours(&self) -> Seq<Seq<(usize, usize)>> {
        Seq::new(self.loops().len(), |i: int| contour_of(self.loops()[i]))
    }
}

/// Where two sprites of the same size have the same boundary, their rows
/// hold the same pixels up to any column: the boundary tells where a row
/// goes from empty to filled and back.
pub proof fn lemma_row_from_boundary(a: Bitmap, b: Bitmap, x: int, y: int)
    requires
        a.width == b.width,
        a.height == b.height,
        forall|e: Edge| a.is_boundary(e) == b.is_boundary(e),
        0 <= y < a.height,
        x < a.width,
    ensures
        a.pixel(x, y) == b.pixel(x, y),
    decreases x + 1,
{
    reveal(Bitmap::is_boundary);
    if x >= 0 {
        lemma_row_from_boundary(a, b, x - 1, y);
        let enter = Edge { x: x as usize, y: (y + 1) as usize, direction: Direction::Up };
        let leave = Edge { x: x as usize, y: y as usize, direction: Direction::Down };
        assert(a.is_boundary(enter) == b.is_boundary(enter));
        assert(a.is_boundary(leave) == b.is_boundary(leave));
    }
}

/// The boundary says which pixels are filled: two sprites of the same size
/// with the same boundary edges have the same filled pixels.
pub proof fn lemma_boundary_determines_pixels(a: Bitmap, b: Bitmap)
    requires
        a.width == b.width,
        a.height == b.height,
        forall|e: Edge| a.is_boundary(e) == b.is_boundary(e),
    ensures
        forall|x: int, y: int| a.pixel(x, y) == b.pixel(x, y),
{
    assert forall|x: int, y: int| a.pixel(x, y) == b.pixel(x, y) by {
        if 0 <= y < a.height && 0 <= x < a.width {
            lemma_row_from_boundary(a, b, x, y);
        }
    }
}

/// The corners of the first `n` edges are starts of edges: where every
/// edge starts inside a grid, every corner lies inside it.
pub proof fn lemma_corners_in_grid(edges: Seq<Edge>, n: nat, width: usize, height: usize)
    requires
        n <= edges.len(),
        forall|k: int| 0 <= k < edges.len() ==> (#[trigger] edges[k]).x <= width && edges[k].y <= height,
    ensures
        forall|k: int|
            0 <= k < corners(edges, n).len() ==> (#[trigger] corners(edges, n)[k]).0 <= width
                && corners(edges, n)[k].1 <= height,
        n >= 1 ==> corners(edges, n).len() >= 1,
    decreases n,
{
    if n > 0 {
        lemma_corners_in_grid(edges, (n - 1) as nat, width, height);
        assert(edges[n - 1].x <= width);
        let fewer = corners(edges, (n - 1) as nat);
        assert forall|k: int| 0 <= k < corners(edges, n).len() implies (#[trigger] corners(
            edges,
            n,
        )[k]).0 <= width && corners(edges, n)[k].1 <= height by {
            if k < fewer.len() {
                assert(corners(edges, n)[k] == fewer[k]);
            }
        }
    }
}

/// The first turn is found among the edges, or there is none.
pub proof fn lemma_turn_at_bound(edges: Seq<Edge>, d: Direction, from: nat)
    requires
        from <= edges.len(),
    ensures
        from <= turn_at(edges, d, from) <= edges.len(),
    decreases edges.len() - from,
{
    if from < edges.len() && edges[from as int].direction == d {
        lemma_turn_at_bound(edges, d, from + 1);
    }
}

impl Bitmap {
    /// The sprite can be compiled into a glyph: the bitmap holds a bit for
    /// every pixel, the table of all edges can be indexed, and the bounds
    /// fit the 16-bit fields of a glyph.
    pub open spec fn valid(&self) -> bool {
        &&& self.wf()
        &&& self.edges_fit()
        &&& self.width <= 0x7fff
        &&& self.height <= 0x7fff
    }

    /// What keeps the sprite from being compiled, if anything: a size
    /// beyond its limits, then a bitmap with too few bits.
    pub open spec fn defect(&self) -> Option<crate::error::FontError> {
        if self.width > 0x7fff || self.height > 0x7fff || !self.edges_fit() {
            Some(crate::error::FontError::TooLarge)
        } else if self.width * self.height > 8 * self.data.len() {
            Some(crate::error::FontError::BitmapTooShort)
        } else {
            None
        }
    }

    /// Every corner of every contour lies inside the grid of the sprite,
    /// and no contour is empty.
    pub proof fn lemma_contours_in_grid(&self)
        requires
            self.partition_boundary(self.loops()),
            forall|i: int| 0 <= i < self.loops().len() ==> (#[trigger] self.loops()[i]).len() > 0,
        ensures
            forall|i: int, j: int|
                0 <= i < self.contours().len() && 0 <= j < self.contours()[i].len() ==> (
                #[trigger] self.contours()[i][j]).0 <= self.width && self.contours()[i][j].1
                    <= self.height,
            forall|i: int|
                0 <= i < self.contours().len() ==> (#[trigger] self.contours()[i]).len() >= 1,
    {
        let loops = self.loops();
        assert forall|i: int| 0 <= i < self.contours().len() implies (forall|j: int|
            0 <= j < self.contours()[i].len() ==> (#[trigger] self.contours()[i][j]).0 <= self.width
                && self.contours()[i][j].1 <= self.height) && (#[trigger] self.contours()[i]).len()
            >= 1 by {
            let edges = loops[i];
            let turned = rotated(edges);
            assert forall|k: int| 0 <= k < edges.len() implies (#[trigger] edges[k]).x <= self.width
                && edges[k].y <= self.height by {
                assert(on_loops(loops, loops[i][k]));
                self.lemma_boundary_in_grid(edges[k]);
            }
            lemma_turn_at_bound(edges, edges.last().direction, 0);
            assert(turned.len() == edges.len());
            let offset = turn_at(edges, edges.last().direction, 0) as int;
            assert forall|k: int| 0 <= k < turned.len() implies (#[trigger] turned[k]).x
                <= self.width && turned[k].y <= self.height by {
                if k < edges.len() - offset {
                    assert(turned[k] == edges[k + offset]);
                } else {
                    assert(turned[k] == edges[k - (edges.len() - offset)]);
                }
            }
            lemma_corners_in_grid(turned, edges.len(), self.width, self.height);
        }
    }
}

impl Sprite {

    pub fn width(&self) -> (r: usize)
        ensures
            r == self.width,
    {
        self.width
    }

    pub fn height(&self) -> (r: usize)
        ensures
            r == self.height,
    {
        self.height
    }

    /// Whether the pixel at (`x`, `y`) is filled.
    pub fn index(&self, point: (usize, usize)) -> (r: bool)
        requires
            self@.wf(),
            point.0 < self.width,
            point.1 < self.height,
        ensures
            r == self@.pixel(point.0 as int, point.1 as int),
    {
        let (x, y) = point;
        // flip both x and y:
        // - x because we express the bits big endian (descending), but
        //   we're reading them ascending.
        // - y because we express the bits top to bottom (descending), but
        //   the font format expects them ascending from a baseline.
        let x = self.width - x - 1;
        let y = self.height - y - 1;
        assert(0 <= y * self.width && y * self.width + x < self.width * self.height)
            by (nonlinear_arith)
            requires
                0 <= x < self.width,
                0 <= y < self.height,
        ;

        let idx = y * self.width + x;
        let byte = idx / 8;
        let offset = idx % 8;
        let bit = 1u8 << offset;
        self.data[byte] & bit != 0
    }

    /// The boundary of the filled pixels: every side of a filled pixel goes
    /// into the set, unless the pixel across has put the same segment in,
    /// which then leaves. What stays are the sides between a filled pixel
    /// and one that is not.
    pub fn boundary_edges(&self) -> (edges: EdgeSet)
        requires
            self@.wf(),
            self@.edges_fit(),
        ensures
            edges.wf(),
            edges.width() == self.width,
            edges.height() == self.height,
            forall|e: Edge| #[trigger] edges.contains(e) == self@.is_boundary(e),
    {
        let mut edges = EdgeSet::new(self.width, self.height);
        proof {
            lemma_grid_sizes(self.width, self.height);
        }
        let mut x: usize = 0;
        while x < self.width
            invariant
                x <= self.width,
                self@.wf(),
                self@.edges_fit(),
                self.width < usize::MAX,
                self.height < usize::MAX,
                edges.wf(),
                edges.width() == self.width,
                edges.height() == self.height,
                forall|e: Edge| #[trigger] edges.contains(e) == self@.survives(e, x as int, 0, 0),
            decreases self.width - x,
        {
            let mut y: usize = 0;
            while y < self.height
                invariant
                    x < self.width,
                    y <= self.height,
                    self@.wf(),
                    self@.edges_fit(),
                    self.width < usize::MAX,
                    self.height < usize::MAX,
                    edges.wf(),
                    edges.width() == self.width,
                    edges.height() == self.height,
                    forall|e: Edge| #[trigger]
                        edges.contains(e) == self@.survives(e, x as int, y as int, 0),
                decreases self.height - y,
            {
                if self.index((x, y)) {
                    let around = Edge::surrounding(x, y);
                    let mut k: usize = 0;
                    while k < 4
                        invariant
                            x < self.width,
                            y < self.height,
                            k <= 4,
                            self@.pixel(x as int, y as int),
                            around@ == Edge::spec_surrounding(x, y),
                            self.width < usize::MAX,
                            self.height < usize::MAX,
                            edges.wf(),
                            edges.width() == self.width,
                            edges.height() == self.height,
                            forall|e: Edge| #[trigger]
                                edges.contains(e) == self@.survives(e, x as int, y as int, k as int),
                        decreases 4 - k,
                    {
                        let edge = around[k];
                        let ghost before = edges;
                        let across = edge.complement();
                        if !edges.remove(&across) {
                            edges.insert(edge);
                        }
                        proof {
                            assert(edge.right_pixel() == (x as int, y as int));
                            assert(edge.direction.spec_index() == k);
                            assert(across.left_pixel() == (x as int, y as int));
                            assert((across.direction.spec_index() + 2) % 4 == k);
                            assert forall|e: Edge| #[trigger]
                                edges.contains(e) == self@.survives(
                                    e,
                                    x as int,
                                    y as int,
                                    k + 1,
                                ) by {
                                assert(before.contains(e) == self@.survives(
                                    e,
                                    x as int,
                                    y as int,
                                    k as int,
                                ));
                                if e.right_pixel() == (x as int, y as int)
                                    && e.direction.spec_index() == k {
                                    assert(e == edge);
                                }
                                if e.left_pixel() == (x as int, y as int) && (
                                e.direction.spec_index() + 2) % 4 == k {
                                    assert(e == across);
                                }
                            }
                        }
                        k = k + 1;
                    }
                }
                y = y + 1;
            }
            x = x + 1;
        }
        proof {
            reveal(Bitmap::is_boundary);
        }
        edges
    }

    /// Follows the boundary from `start` until it comes back to `start`,
    /// and puts every edge on the way into `seen`.
    fn trace_loop(&self, edges: &EdgeSet, seen: &mut EdgeSet, start: Edge) -> (out: Vec<Edge>)
        requires
            edges.wf(),
            edges.width() == self.width,
            edges.height() == self.height,
            forall|e: Edge| #[trigger] edges.contains(e) == self@.is_boundary(e),
            old(seen).wf(),
            old(seen).width() == self.width,
            old(seen).height() == self.height,
            self@.holds_whole_loops(*old(seen)),
            self@.is_boundary(start),
            !old(seen).contains(start),
        ensures
            final(seen).wf(),
            final(seen).width() == self.width,
            final(seen).height() == self.height,
            self@.holds_whole_loops(*final(seen)),
            out@ == self@.orbit(start),
            out@.len() >= 1,
            out@.last() == start,
            forall|j: int|
                0 <= j < out@.len() ==> #[trigger] out@[j] == self@.walk(start, (j + 1) as nat),
            forall|j: int| 0 <= j < out@.len() ==> self@.is_boundary(#[trigger] out@[j]),
            forall|i: int, j: int| 0 <= i < j < out@.len() ==> out@[i] != out@[j],
            forall|j: int| 0 <= j < out@.len() ==> !old(seen).contains(#[trigger] out@[j]),
            forall|e: Edge|
                #[trigger] final(seen).contains(e) == (old(seen).contains(e) || out@.contains(e)),
    {
        let ghost count = self@.edge_count();
        proof {
            old(seen).lemma_absent_count_bound();
            self@.lemma_boundary_in_grid(start);
        }
        seen.insert(start);
        let ghost budget = seen.absent_count();
        let ghost mut step: Map<Edge, nat> = Map::empty().insert(start, 0nat);
        proof {
            self@.lemma_trace_start(*old(seen), *seen, start);
        }
        let mut edge = start;
        let mut out: Vec<Edge> = Vec::new();
        loop
            invariant_except_break
                out@.len() + seen.absent_count() == budget,
                self@.is_boundary(edge),
                edge == self@.walk(start, out@.len()),
                self@.tracing(*old(seen), *seen, start, out@.len(), step),
                self@.orbit(start) == out@ + self@.trace(start, edge, (count - out@.len()) as nat),
            invariant
                edges.wf(),
                edges.width() == self.width,
                edges.height() == self.height,
                forall|e: Edge| #[trigger] edges.contains(e) == self@.is_boundary(e),
                seen.wf(),
                seen.width() == self.width,
                seen.height() == self.height,
                count == self@.edge_count(),
                budget < count,
                forall|j: int|
                    0 <= j < out@.len() ==> #[trigger] out@[j] == self@.walk(start, (j + 1) as nat),
            ensures
                out@.len() >= 1,
                out@ == self@.orbit(start),
                self@.walk(start, out@.len()) == start,
                self@.tracing(*old(seen), *seen, start, (out@.len() - 1) as nat, step),
            decreases seen.absent_count(),
        {
            proof {
                self@.lemma_boundary_in_grid(edge);
                self@.lemma_next_is_boundary(edge);
                self@.lemma_boundary_in_grid(self@.next_edge(edge));
            }
            let (x, y) = edge.dest();
            let right = Edge { x, y, direction: edge.direction.turn(Direction::Right) };
            let ahead = Edge { x, y, direction: edge.direction.turn(Direction::Up) };
            let left = Edge { x, y, direction: edge.direction.turn(Direction::Left) };
            let next = if edges.has(&right) {
                right
            } else if edges.has(&ahead) {
                ahead
            } else {
                left
            };
            assert(next == self@.next_edge(edge));
            let ghost earlier = *seen;
            let ghost m = out@.len();
            seen.insert(next);
            out.push(next);
            proof {
                assert(next == self@.walk(start, m + 1));
                self@.lemma_trace_next(*old(seen), earlier, *seen, start, m, step);
                assert(self@.trace(start, edge, (count - m) as nat) == if next == start {
                    seq![next]
                } else {
                    seq![next] + self@.trace(start, next, (count - m - 1) as nat)
                });
            }
            edge = next;
            if edge == start {
                proof {
                    assert(out@ =~= self@.orbit(start));
                    assert(self@.on_path(*old(seen), earlier, start, 0));
                    self@.lemma_tracing_same(*old(seen), earlier, *seen, start, m, step);
                }
                break ;
            }
            proof {
                step = step.insert(next, m + 1);
                assert(self@.orbit(start) =~= out@ + self@.trace(
                    start,
                    edge,
                    (count - out@.len()) as nat,
                ));
            }
        }
        proof {
            let n = out@.len();
            let m = (n - 1) as nat;
            let closed = step.insert(start, m + 1);
            self@.lemma_trace_closed(*old(seen), *seen, start, m, step);
            assert forall|j: int| 0 <= j < n implies self@.is_boundary(#[trigger] out@[j])
                && !old(seen).contains(out@[j]) && seen.contains(out@[j]) by {
                assert(self@.on_path(*old(seen), *seen, start, (j + 1) as nat));
            }
            assert forall|e: Edge| #[trigger]
                seen.contains(e) == (old(seen).contains(e) || out@.contains(e)) by {
                if seen.contains(e) && !old(seen).contains(e) {
                    assert(self@.accounted(*old(seen), closed, start, 1, m + 1, e));
                    assert(out@[closed[e] - 1] == e);
                }
                if out@.contains(e) {
                    let j = choose|j: int| 0 <= j < n && out@[j] == e;
                    assert(seen.contains(out@[j]));
                }
            }
            assert forall|i: int, j: int| 0 <= i < j < n implies out@[i] != out@[j] by {
                assert(self@.apart(start, (i + 1) as nat, (j + 1) as nat));
            }
        }
        out
    }

    /// Splits the boundary of the filled pixels into closed loops. A loop
    /// starts at each boundary edge that is on no loop found before, and
    /// follows the boundary, filled pixels on the right, until it is back.
    pub fn trace_loops(&self) -> (loops: Vec<Vec<Edge>>)
        requires
            self@.wf(),
            self@.edges_fit(),
        ensures
            views(loops@) == self@.loops(),
            self@.partition_boundary(self@.loops()),
            forall|i: int| 0 <= i < loops@.len() ==> (#[trigger] loops@[i])@.len() > 0,
    {
        let edges = self.boundary_edges();
        let mut seen = EdgeSet::new(self.width, self.height);
        let mut loops: Vec<Vec<Edge>> = Vec::new();
        proof {
            lemma_grid_sizes(self.width, self.height);
        }
        let count = 4 * (self.width + 1) * (self.height + 1);
        let mut n: usize = 0;
        assert(views(loops@) =~= self@.loops_upto(0));
        while n < count
            invariant
                n <= count,
                count == self@.edge_count(),
                self.width < usize::MAX,
                edges.wf(),
                edges.width() == self.width,
                edges.height() == self.height,
                forall|e: Edge| #[trigger] edges.contains(e) == self@.is_boundary(e),
                seen.wf(),
                seen.width() == self.width,
                seen.height() == self.height,
                self@.holds_whole_loops(seen),
                forall|e: Edge| #[trigger] seen.contains(e) == self@.covered(n as nat, e),
                forall|e: Edge| #[trigger] seen.contains(e) == on_loops(views(loops@), e),
                forall|k: int|
                    0 <= k < n ==> (self@.is_boundary(#[trigger] self@.edge_at(k)) ==> seen.contains(
                        self@.edge_at(k),
                    )),
                views(loops@) == self@.loops_upto(n as nat),
                forall|i: int| 0 <= i < loops@.len() ==> (#[trigger] loops@[i])@.len() > 0,
                self@.closed_loops(views(loops@)),
            decreases count - n,
        {
            let direction = Direction::from((n % 4) as u8);
            let corner = n / 4;
            let start = Edge {
                x: corner % (self.width + 1),
                y: corner / (self.width + 1),
                direction,
            };
            proof {
                self@.lemma_edge_at(n as int);
                assert(start == self@.edge_at(n as int));
            }
            let ghost before = seen;
            let ghost found = views(loops@);
            if edges.has(&start) && !seen.has(&start) {
                let out = self.trace_loop(&edges, &mut seen, start);
                proof {
                    self@.lemma_add_loop(found, before, seen, start, out@);
                }
                loops.push(out);
                assert(views(loops@) =~= found.push(out@));
            }
            n = n + 1;
        }
        proof {
            assert forall|e: Edge| #[trigger] self@.is_boundary(e) <==> on_loops(views(loops@), e) by {
                if self@.is_boundary(e) {
                    self@.lemma_boundary_in_grid(e);
                    self@.lemma_edge_at_slot(e);
                    assert(seen.contains(self@.edge_at(slot_of(self.width, e))));
                }
                if on_loops(views(loops@), e) {
                    assert(seen.contains(e));
                }
            }
        }
        loops
    }

    /// Find the list of contours which define this sprite.
    ///
    /// A contour in this context is the ordered, cyclical list of
    /// points which describe a line loop. Each line has black pixels
    /// to its right, and not-black pixels to its left.
    pub fn find_contours(&self) -> (contours: Vec<Vec<(usize, usize)>>)
        requires
            self@.wf(),
            self@.edges_fit(),
        ensures
            views(contours@) == self@.contours(),
            self@.partition_boundary(self@.loops()),
            forall|i: int| 0 <= i < self@.loops().len() ==> (#[trigger] self@.loops()[i]).len() > 0,
    {
        let loops = self.trace_loops();
        assert forall|i: int| 0 <= i < self@.loops().len() implies (#[trigger] self@.loops()[i]).len()
            > 0 by {
            assert(views(loops@)[i] == loops@[i]@);
        }
        let mut contours: Vec<Vec<(usize, usize)>> = Vec::new();
        let mut i: usize = 0;
        while i < loops.len()
            invariant
                i <= loops.len(),
                views(loops@) == self@.loops(),
                forall|k: int| 0 <= k < loops@.len() ==> (#[trigger] loops@[k])@.len() > 0,
                contours@.len() == i,
                forall|k: int| 0 <= k < i ==> (#[trigger] contours@[k])@ == self@.contours()[k],
            decreases loops.len() - i,
        {
            assert(loops@[i as int]@.len() > 0);
            let points = contour_points(&loops[i]);
            assert(views(loops@)[i as int] == loops@[i as int]@);
            contours.push(points);
            i = i + 1;
        }
        assert(views(contours@) =~= self@.contours());
        contours
    }

    /// Checks that the sprite can be compiled into a glyph.
    pub fn check(&self) -> (r: Result<(), crate::error::FontError>)
        ensures
            match r {
                Ok(()) => self@.valid() && self@.defect() is None,
                Err(e) => !self@.valid() && self@.defect() == Some(e),
            },
    {
        if self.width > 0x7fff || self.height > 0x7fff {
            return Err(crate::error::FontError::TooLarge);
        }
        let w = self.width as u64;
        let h = self.height as u64;
        assert(4 * (w + 1) * (h + 1) <= 0x1_0000_0000 && w * h <= 0x4000_0000) by (nonlinear_arith)
            requires
                w <= 0x7fff,
                h <= 0x7fff,
        ;
        assert(4 * (w + 1) * (h + 1) == 4 * ((w + 1) * (h + 1))) by (nonlinear_arith);
        if 4 * ((w + 1) * (h + 1)) > usize::MAX as u64 {
            return Err(crate::error::FontError::TooLarge);
        }
        let bits = w * h;
        let needed = (bits + 7) / 8;
        if needed > self.data.len() as u64 {
            return Err(crate::error::FontError::BitmapTooShort);
        }
        Ok(())
    }
}

} // verus!
