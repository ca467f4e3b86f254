//! The frame: one generation of a cellular automaton, stored densely, with
//! the neighbourhood view handed to transition rules and the step that builds
//! the next generation.

use vstd::prelude::*;
use crate::neighborhood::{
    center, lemma_center, lemma_neighbor_offsets_radius_one, lemma_scan_offset, neighbor_offsets,
    side,
};
use crate::torus::{add_modulo, lemma_wrap_step, wrap};

verus! {

/// The mathematical content of a frame: its extent and one value per
/// coordinate `(x, y)` with `0 <= x < width` and `0 <= y < height`.
pub struct Grid<T> {
    pub width: nat,
    pub height: nat,
    pub cells: Map<(int, int), T>,
}

impl<T> Grid<T> {
    /// Whether `(x, y)` names a cell of the grid.
    pub open spec fn contains(self, x: int, y: int) -> bool {
        0 <= x < self.width && 0 <= y < self.height
    }

    /// The value at `(x, y)`.
    pub open spec fn at(self, x: int, y: int) -> T {
        self.cells[(x, y)]
    }

    /// The cells are exactly the coordinates inside the extent.
    pub open spec fn wf(self) -> bool {
        forall|x: int, y: int| #[trigger] self.cells.dom().contains((x, y)) <==> self.contains(x, y)
    }

    /// The grid with the value at `(x, y)` replaced by `value`.
    pub open spec fn put(self, x: int, y: int, value: T) -> Grid<T> {
        Grid { width: self.width, height: self.height, cells: self.cells.insert((x, y), value) }
    }
}

/// Reading back what was put: after `put(x, y, value)` the cell `(x, y)`
/// holds `value`, every other cell holds what it held, and the extent is the
/// same.
pub proof fn lemma_put_then_at<T>(grid: Grid<T>, x: int, y: int, value: T)
    requires
        grid.wf(),
        grid.contains(x, y),
    ensures
        grid.put(x, y, value).wf(),
        grid.put(x, y, value).width == grid.width,
        grid.put(x, y, value).height == grid.height,
        grid.put(x, y, value).at(x, y) == value,
        forall|i: int, j: int|
            (i, j) != (x, y) ==> #[trigger] grid.put(x, y, value).at(i, j) == grid.at(i, j),
{
    assert forall|i: int, j: int| #[trigger]
        grid.put(x, y, value).cells.dom().contains((i, j)) <==> grid.put(x, y, value).contains(
            i,
            j,
        ) by {
        assert(grid.cells.dom().contains((i, j)) <==> grid.contains(i, j));
    }
}

/// Offset of the cell `(x, y)` in row-major storage of rows `width` long.
pub open spec fn offset(width: int, x: int, y: int) -> int {
    y * width + x
}

/// Inside a `width` by `height` extent, the offset of a cell is below
/// `width * height`, and the cell is found again from its offset.
pub proof fn lemma_offset(width: int, height: int, x: int, y: int)
    requires
        0 <= x < width,
        0 <= y < height,
    ensures
        0 <= y * width <= offset(width, x, y) < width * height,
        offset(width, x, y) % width == x,
        offset(width, x, y) / width == y,
{
    assert(0 <= y * width <= y * width + x < width * height) by (nonlinear_arith)
        requires
            0 <= x < width,
            0 <= y < height,
    ;
    vstd::arithmetic::div_mod::lemma_fundamental_div_mod_converse(y * width + x, width, y, x);
}

/// Row-major storage lists every cell once: each offset below
/// `width * height` is the offset of one cell, `(k % width, k / width)`.
pub proof fn lemma_offset_inverse(width: int, height: int, k: int)
    requires
        0 <= width,
        0 <= height,
        0 <= k < width * height,
    ensures
        0 <= k % width < width,
        0 <= k / width < height,
        offset(width, k % width, k / width) == k,
{
    assert(width > 0 && height > 0) by (nonlinear_arith)
        requires
            0 <= width,
            0 <= height,
            0 <= k < width * height,
    ;
    vstd::arithmetic::div_mod::lemma_fundamental_div_mod(k, width);
    assert(0 <= k % width < width && 0 <= k / width < height && (k / width) * width == width * (k
        / width)) by (nonlinear_arith)
        requires
            width > 0,
            0 <= k < width * height,
            k == width * (k / width) + k % width,
    ;
}

/// Represents a frame of a simulation.
#[derive(Debug, PartialEq)]
pub struct Frame<T> {
    data: Vec<T>,
    width: usize,
    height: usize,
}

impl<T> View for Frame<T> {
    type V = Grid<T>;

    closed spec fn view(&self) -> Grid<T> {
        grid_of(self.data@, self.width as nat, self.height as nat)
    }
}

/// The grid that row-major storage `data` of rows `width` long stands for.
spec fn grid_of<T>(data: Seq<T>, width: nat, height: nat) -> Grid<T> {
    Grid {
        width: width,
        height: height,
        cells: Map::new(
            |p: (int, int)| 0 <= p.0 < width && 0 <= p.1 < height,
            |p: (int, int)| data[offset(width as int, p.0, p.1)],
        ),
    }
}

/// Writing `value` at the offset of `(x, y)` changes that cell of the grid
/// and no other.
proof fn lemma_grid_of_update<T>(data: Seq<T>, width: nat, height: nat, x: int, y: int, value: T)
    requires
        data.len() == width * height,
        0 <= x < width,
        0 <= y < height,
    ensures
        grid_of(data.update(offset(width as int, x, y), value), width, height) == grid_of(
            data,
            width,
            height,
        ).put(x, y, value),
{
    let after = grid_of(data.update(offset(width as int, x, y), value), width, height);
    let expected = grid_of(data, width, height).put(x, y, value);
    lemma_offset(width as int, height as int, x, y);
    assert forall|p: (int, int)| #[trigger] after.cells.dom().contains(p) implies after.cells[p]
        == expected.cells[p] by {
        lemma_offset(width as int, height as int, p.0, p.1);
    }
    assert(after.cells =~= expected.cells);
}

impl<T> Frame<T> {
    /// The storage holds exactly one value per cell.
    pub closed spec fn wf(&self) -> bool {
        &&& self.width * self.height <= usize::MAX
        &&& self.data@.len() == self.width * self.height
    }

    /// The view of a frame has a cell for each coordinate of its extent, and
    /// the extent fits the machine.
    pub proof fn lemma_view_wf(&self)
        requires
            self.wf(),
        ensures
            self@.wf(),
            self@.width <= usize::MAX,
            self@.height <= usize::MAX,
            self@.width * self@.height <= usize::MAX,
    {
    }
}

impl<T> Frame<T> where T: Default + Clone {
    /// Whether every cell of `grid` is a copy of one default value of `T`.
    pub open spec fn all_default(grid: Grid<T>) -> bool {
        exists|d: T|
            call_ensures(T::default, (), d) && forall|x: int, y: int|
                grid.contains(x, y) ==> cloned(d, #[trigger] grid.at(x, y))
    }

    /// Creates a frame `x` cells wide and `y` cells high in which every cell
    /// holds the default value.
    pub fn new(x: usize, y: usize) -> (frame: Frame<T>)
        requires
            x * y <= usize::MAX,
        ensures
            frame.wf(),
            frame@.width == x,
            frame@.height == y,
            Self::all_default(frame@),
    {
        let d = T::default();
        let ghost d0 = d;
        let data = vec![d; x * y];
        let frame = Frame::<T> { data: data, width: x, height: y };
        proof {
            assert forall|i: int, j: int| frame@.contains(i, j) implies cloned(
                d0,
                #[trigger] frame@.at(i, j),
            ) by {
                lemma_offset(x as int, y as int, i, j);
            }
        }
        frame
    }
}

impl<T> Frame<T> {
    /// The width of the frame.
    pub fn width(&self) -> (w: usize)
        ensures
            w == self@.width,
    {
        self.width
    }

    /// The height of the frame.
    pub fn height(&self) -> (h: usize)
        ensures
            h == self@.height,
    {
        self.height
    }

    /// The data at `(x, y)`.
    pub fn get(&self, x: usize, y: usize) -> (value: &T)
        requires
            self.wf(),
            self@.contains(x as int, y as int),
        ensures
            *value == self@.at(x as int, y as int),
    {
        proof {
            lemma_offset(self.width as int, self.height as int, x as int, y as int);
        }
        &self.data[y * self.width + x]
    }

    /// Get a mutable reference to the data at `(x, y)`: what is written
    /// through it becomes the value of that cell, and every other cell keeps
    /// its value.
    pub fn get_mut(&mut self, x: usize, y: usize) -> (cell: &mut T)
        requires
            old(self).wf(),
            old(self)@.contains(x as int, y as int),
        ensures
            *cell == old(self)@.at(x as int, y as int),
            final(self).wf(),
            final(self)@ == old(self)@.put(x as int, y as int, *final(cell)),
    {
        proof {
            lemma_offset(self.width as int, self.height as int, x as int, y as int);
            assert forall|value: T|
                #[trigger] grid_of(
                    self.data@.update(offset(self.width as int, x as int, y as int), value),
                    self.width as nat,
                    self.height as nat,
                ) == self@.put(x as int, y as int, value) by {
                lemma_grid_of_update(
                    self.data@,
                    self.width as nat,
                    self.height as nat,
                    x as int,
                    y as int,
                    value,
                );
            }
        }
        let i: usize = y * self.width + x;
        &mut self.data[i]
    }

    /// Replaces the data at `(x, y)` by `value`; every other cell keeps its
    /// value.
    pub fn set(&mut self, x: usize, y: usize, value: T)
        requires
            old(self).wf(),
            old(self)@.contains(x as int, y as int),
        ensures
            final(self).wf(),
            final(self)@ == old(self)@.put(x as int, y as int, value),
    {
        proof {
            lemma_offset(self.width as int, self.height as int, x as int, y as int);
        }
        proof {
            lemma_grid_of_update(
                self.data@,
                self.width as nat,
                self.height as nat,
                x as int,
                y as int,
                value,
            );
        }
        let i: usize = y * self.width + x;
        self.data.set(i, value);
    }
}

/// Represents a single square in the frame: a read-only view of the frame
/// from one of its cells.
#[derive(Debug, PartialEq)]
pub struct Square<'a, T> where T: 'a {
    frame: &'a Frame<T>,
    point: (usize, usize),
}

impl<'a, T> Square<'a, T> where T: 'a {
    /// The square of `frame` at `(x, y)`.
    pub closed spec fn anchored(frame: &'a Frame<T>, x: usize, y: usize) -> Square<'a, T> {
        Square { frame: frame, point: (x, y) }
    }

    /// The content of the frame that the square looks at.
    pub closed spec fn grid(&self) -> Grid<T> {
        self.frame@
    }

    /// The cell that the square stands on.
    pub closed spec fn anchor(&self) -> (usize, usize) {
        self.point
    }

    /// The frame is well formed and the anchor is one of its cells.
    pub closed spec fn wf(&self) -> bool {
        &&& self.frame.wf()
        &&& self.frame@.contains(self.point.0 as int, self.point.1 as int)
    }

    /// The value `(dx, dy)` away from the anchor, each axis wrapping round
    /// at its extent.
    pub open spec fn neighbor(&self, dx: int, dy: int) -> T {
        self.grid().at(
            wrap(self.anchor().0 as int, dx, self.grid().width as int),
            wrap(self.anchor().1 as int, dy, self.grid().height as int),
        )
    }

    /// What `anchored` builds: a well-formed square on `(x, y)` that shows
    /// the content of `frame`.
    pub proof fn lemma_anchored(frame: &'a Frame<T>, x: usize, y: usize)
        requires
            frame.wf(),
            frame@.contains(x as int, y as int),
        ensures
            Self::anchored(frame, x, y).wf(),
            Self::anchored(frame, x, y).grid() == frame@,
            Self::anchored(frame, x, y).anchor() == (x, y),
    {
    }

    /// A well-formed square shows a well-formed grid and stands on one of
    /// its cells.
    pub proof fn lemma_wf(&self)
        requires
            self.wf(),
        ensures
            self.grid().wf(),
            self.grid().contains(self.anchor().0 as int, self.anchor().1 as int),
    {
        self.frame.lemma_view_wf();
    }

    /// Return a point relative to the square.
    ///
    /// Each offset must be shorter than the extent of its axis.
    pub fn get(&self, i: isize, j: isize) -> (value: &T)
        requires
            self.wf(),
            -self.grid().width < i < self.grid().width,
            -self.grid().height < j < self.grid().height,
        ensures
            *value == self.neighbor(i as int, j as int),
    {
        let (x, y) = self.point;
        let width = self.frame.width();
        let height = self.frame.height();
        let (x, y) = (add_modulo(x, i, width), add_modulo(y, j, height));
        self.frame.get(x, y)
    }

    /// The coordinate of the square.
    pub fn coordinate(&self) -> (point: (usize, usize))
        ensures
            point == self.anchor(),
    {
        self.point
    }
}

/// The grid has no edge: one step left of column 0 is the last column, one
/// step right of the last column is column 0, and likewise for the rows.
pub proof fn lemma_edges_wrap<T>(square: Square<T>)
    requires
        square.wf(),
    ensures
        square.anchor().0 == 0 ==> square.neighbor(-1, 0) == square.grid().at(
            square.grid().width - 1,
            square.anchor().1 as int,
        ),
        square.anchor().0 == square.grid().width - 1 ==> square.neighbor(1, 0)
            == square.grid().at(0, square.anchor().1 as int),
        square.anchor().1 == 0 ==> square.neighbor(0, -1) == square.grid().at(
            square.anchor().0 as int,
            square.grid().height - 1,
        ),
        square.anchor().1 == square.grid().height - 1 ==> square.neighbor(0, 1)
            == square.grid().at(square.anchor().0 as int, 0),
        square.neighbor(0, 0) == square.grid().at(
            square.anchor().0 as int,
            square.anchor().1 as int,
        ),
{
    square.lemma_wf();
    let w = square.grid().width as int;
    let h = square.grid().height as int;
    let x = square.anchor().0 as int;
    let y = square.anchor().1 as int;
    lemma_wrap_step(x, w);
    lemma_wrap_step(y, h);
}

impl<'a, T> Square<'a, T> where T: 'a + Clone {
    /// Whether `nodes` lists copies of the neighbours within radius `r` in
    /// scan order.
    pub open spec fn lists_neighbors(&self, r: int, nodes: Seq<T>) -> bool {
        &&& nodes.len() == neighbor_offsets(r).len()
        &&& forall|k: int|
            0 <= k < nodes.len() ==> cloned(
                self.neighbor(neighbor_offsets(r)[k].0, neighbor_offsets(r)[k].1),
                #[trigger] nodes[k],
            )
    }

    /// Within radius 1 there are exactly eight neighbours, listed from
    /// `(-1, -1)` to `(1, 1)` with `dx` moving slowest.
    pub proof fn lemma_neighbors_radius_one(&self, nodes: Seq<T>)
        requires
            self.lists_neighbors(1, nodes),
        ensures
            nodes.len() == 8,
            cloned(self.neighbor(-1, -1), nodes[0]),
            cloned(self.neighbor(-1, 0), nodes[1]),
            cloned(self.neighbor(-1, 1), nodes[2]),
            cloned(self.neighbor(0, -1), nodes[3]),
            cloned(self.neighbor(0, 1), nodes[4]),
            cloned(self.neighbor(1, -1), nodes[5]),
            cloned(self.neighbor(1, 0), nodes[6]),
            cloned(self.neighbor(1, 1), nodes[7]),
    {
        lemma_neighbor_offsets_radius_one();
        let offsets = neighbor_offsets(1);
        assert(offsets[0] == (-1int, -1int));
        assert(offsets[1] == (-1int, 0int));
        assert(offsets[2] == (-1int, 1int));
        assert(offsets[3] == (0int, -1int));
        assert(offsets[4] == (0int, 1int));
        assert(offsets[5] == (1int, -1int));
        assert(offsets[6] == (1int, 0int));
        assert(offsets[7] == (1int, 1int));
    }

    /// Return copies of the values within the box of radius `r` around the
    /// square, the square's own value left out, scanned row by row. For
    /// `r <= 0` there are none.
    ///
    /// The radius must be shorter than both extents, and the number of
    /// neighbours must fit the machine.
    pub fn within_ortholinear(&self, r: isize) -> (nodes: Vec<T>)
        requires
            self.wf(),
            r >= 1 ==> r < self.grid().width && r < self.grid().height,
            neighbor_offsets(r as int).len() <= usize::MAX,
        ensures
            self.lists_neighbors(r as int, nodes@),
    {
        let mut nodes: Vec<T> = Vec::new();
        if r <= 0 {
            return nodes;
        }
        let ghost n = side(r as int);
        let ghost c = center(r as int);
        proof {
            assert(n * n >= 3 * n) by (nonlinear_arith)
                requires
                    n >= 3,
            ;
            assert(0 * n == 0) by (nonlinear_arith);
            assert(c + 1 < n * n) by (nonlinear_arith)
                requires
                    c == r * n + r,
                    n == 2 * r + 1,
                    r >= 1,
            ;
        }
        let mut i: isize = -r;
        let ghost mut row: int = 0;
        while i <= r
            invariant
                self.wf(),
                1 <= r < self.grid().width,
                r < self.grid().height,
                r < isize::MAX,
                n == side(r as int),
                c == center(r as int),
                c + 1 < n * n,
                neighbor_offsets(r as int).len() == n * n - 1,
                -r <= i <= r + 1,
                row == (i + r) * n,
                nodes@.len() == row - (if row > c { 1int } else { 0int }),
                nodes@.len() <= n * n - 1,
                forall|k: int|
                    0 <= k < nodes@.len() ==> cloned(
                        self.neighbor(
                            neighbor_offsets(r as int)[k].0,
                            neighbor_offsets(r as int)[k].1,
                        ),
                        #[trigger] nodes@[k],
                    ),
            decreases r - i + 1,
        {
            let mut j: isize = -r;
            while j <= r
                invariant
                    self.wf(),
                    1 <= r < self.grid().width,
                    r < self.grid().height,
                    r < isize::MAX,
                    n == side(r as int),
                    c == center(r as int),
                    c + 1 < n * n,
                    neighbor_offsets(r as int).len() == n * n - 1,
                    -r <= i <= r,
                    -r <= j <= r + 1,
                    row == (i + r) * n,
                    nodes@.len() == row + (j + r) - (if row + (j + r) > c { 1int } else { 0int }),
                    nodes@.len() <= n * n - 1,
                    forall|k: int|
                        0 <= k < nodes@.len() ==> cloned(
                            self.neighbor(
                                neighbor_offsets(r as int)[k].0,
                                neighbor_offsets(r as int)[k].1,
                            ),
                            #[trigger] nodes@[k],
                        ),
                decreases r - j + 1,
            {
                proof {
                    lemma_center(r as int, i as int, j as int);
                    lemma_scan_offset(r as int, i as int, j as int);
                    assert(row + (j + r) < n * n) by (nonlinear_arith)
                        requires
                            row == (i + r) * n,
                            0 <= i + r < n,
                            0 <= j + r < n,
                    ;
                }
                if i != 0 || j != 0 {
                    let value = self.get(i, j).clone();
                    let ghost place = nodes@.len() as int;
                    nodes.push(value);
                    assert(neighbor_offsets(r as int)[place] == (i as int, j as int));
                }
                j += 1;
            }
            i += 1;
            proof {
                assert((i + r) * n == row + n) by (nonlinear_arith)
                    requires
                        row == (i - 1 + r) * n,
                ;
                row = row + n;
            }
        }
        nodes
    }
}

/// A cursor over the cells of a frame, row by row.
#[derive(Debug, PartialEq)]
pub struct FrameIterator<'a, T> where T: 'a {
    frame: &'a Frame<T>,
    next_index: (usize, usize),
}

impl<'a, T> Clone for FrameIterator<'a, T> where T: 'a {
    /// A second cursor on the same frame at the same place.
    fn clone(&self) -> (copy: Self)
        ensures
            copy == *self,
    {
        FrameIterator { frame: self.frame, next_index: self.next_index }
    }
}

impl<'a, T> FrameIterator<'a, T> where T: 'a {
    /// The content of the frame that the cursor walks.
    pub closed spec fn grid(&self) -> Grid<T> {
        self.frame@
    }

    /// The coordinate that the cursor stands on.
    pub closed spec fn position(&self) -> (usize, usize) {
        self.next_index
    }

    /// How many cells the cursor has handed out.
    pub closed spec fn yielded(&self) -> int {
        offset(self.frame.width as int, self.next_index.0 as int, self.next_index.1 as int)
    }

    /// The frame is well formed and the cursor stands on a cell or at a
    /// row's start.
    pub closed spec fn wf(&self) -> bool {
        let (x, y) = self.next_index;
        &&& self.frame.wf()
        &&& (x < self.frame.width && y < self.frame.height) || (x == 0 && (y == 0 || y
            == self.frame.height))
    }

    /// A well-formed cursor has handed out no more cells than the grid has.
    pub proof fn lemma_yielded_bound(&self)
        requires
            self.wf(),
        ensures
            0 <= self.yielded() <= self.grid().width * self.grid().height,
            self.yielded() < self.grid().width * self.grid().height <==> self.grid().contains(
                self.position().0 as int,
                self.position().1 as int,
            ),
    {
        let (x, y) = self.next_index;
        let w = self.frame.width as int;
        let h = self.frame.height as int;
        if x < w && y < h {
            lemma_offset(w, h, x as int, y as int);
        } else {
            assert(y * w + x == w * h) by (nonlinear_arith)
                requires
                    x == 0,
                    y == 0 || y == h,
                    0 <= w,
                    0 <= h,
                    !(0 < w && y < h),
            ;
        }
    }

    /// Hands out the next cell with its coordinate, or `None` once every cell
    /// has been handed out.
    ///
    /// The cells come in row-major order: the one handed out after `k` others
    /// is `(k % width, k / width)`.
    pub fn next(&mut self) -> (item: Option<(usize, usize, &'a T)>)
        requires
            old(self).wf(),
        ensures
            final(self).wf(),
            final(self).grid() == old(self).grid(),
            item.is_some() <==> old(self).yielded() < old(self).grid().width * old(
                self,
            ).grid().height,
            match item {
                Some((x, y, value)) => {
                    &&& old(self).grid().contains(x as int, y as int)
                    &&& x == old(self).yielded() % (old(self).grid().width as int)
                    &&& y == old(self).yielded() / (old(self).grid().width as int)
                    &&& *value == old(self).grid().at(x as int, y as int)
                    &&& final(self).yielded() == old(self).yielded() + 1
                },
                None => *final(self) == *old(self),
            },
    {
        let (x, y) = self.next_index;
        proof {
            self.lemma_yielded_bound();
        }
        if y < self.frame.height() && x < self.frame.width() {
            let val = self.frame.get(x, y);
            proof {
                let w = self.frame.width as int;
                let h = self.frame.height as int;
                lemma_offset(w, h, x as int, y as int);
                assert((y + 1) * w + 0 == y * w + w) by (nonlinear_arith);
            }
            self.next_index = if x + 1 < self.frame.width() {
                (x + 1, y)
            } else {
                (0, y + 1)
            };
            Some((x, y, val))
        } else {
            None
        }
    }
}

impl<T> Frame<T> {
    /// Returns a cursor over tuples of coordinate and the element at that
    /// coordinate, standing before the first cell.
    pub fn enumerate_squares(&self) -> (cursor: FrameIterator<'_, T>)
        requires
            self.wf(),
        ensures
            cursor.wf(),
            cursor.grid() == self@,
            cursor.yielded() == 0,
    {
        FrameIterator { frame: self, next_index: (0, 0) }
    }
}

/// Whether `next` is a generation that follows `current` under `step`:
/// same extent, and each cell a result of `step` on the square of
/// `current` at that cell.
pub open spec fn steps_to<T, F>(current: &Frame<T>, step: F, next: Frame<T>) -> bool where
    F: Fn(Square<T>) -> T,
 {
    &&& next.wf()
    &&& next@.width == current@.width
    &&& next@.height == current@.height
    &&& forall|x: usize, y: usize|
        current@.contains(x as int, y as int) ==> call_ensures(
            step,
            (Square::anchored(current, x, y),),
            #[trigger] next@.at(x as int, y as int),
        )
}

/// Whether `step` has at most one result on each square.
pub open spec fn single_valued<T, F>(step: F) -> bool where F: Fn(Square<T>) -> T {
    forall|square: Square<T>, a: T, b: T|
        call_ensures(step, (square,), a) && call_ensures(step, (square,), b) ==> a == b
}

impl<T> Frame<T> where T: Clone {
    /// Return the next frame of the simulation, advancing the simulation
    /// using a step function that computes the value for any cell given a
    /// certain board.
    ///
    /// Every square handed to `step` looks at `self`, which is not changed:
    /// no cell of the result depends on another cell of the result.
    pub fn next_frame<F>(&self, step: F) -> (next: Frame<T>) where F: Fn(Square<T>) -> T
        requires
            self.wf(),
            forall|x: usize, y: usize|
                self@.contains(x as int, y as int) ==> call_requires(
                    step,
                    (#[trigger] Square::anchored(self, x, y),),
                ),
        ensures
            steps_to(self, step, next),
    {
        let mut data = self.data.clone();
        let mut cursor = self.enumerate_squares();
        let ghost w = self.width as int;
        let ghost h = self.height as int;
        loop
            invariant
                self.wf(),
                w == self.width,
                h == self.height,
                cursor.wf(),
                cursor.grid() == self@,
                0 <= cursor.yielded() <= w * h,
                data@.len() == w * h,
                forall|x: usize, y: usize|
                    self@.contains(x as int, y as int) ==> call_requires(
                        step,
                        (#[trigger] Square::anchored(self, x, y),),
                    ),
                forall|k: int|
                    0 <= k < cursor.yielded() ==> call_ensures(
                        step,
                        (Square::anchored(self, (k % w) as usize, (k / w) as usize),),
                        #[trigger] data@[k],
                    ),
            ensures
                cursor.yielded() == w * h,
            decreases w * h - cursor.yielded(),
        {
            let ghost k0 = cursor.yielded();
            match cursor.next() {
                Some((x, y, _)) => {
                    proof {
                        lemma_offset(w, h, x as int, y as int);
                        cursor.lemma_yielded_bound();
                        vstd::arithmetic::div_mod::lemma_fundamental_div_mod(k0, w);
                        assert(w * (k0 / w) == (k0 / w) * w) by (nonlinear_arith);
                        assert(offset(w, x as int, y as int) == k0);
                    }
                    let square = Square { frame: self, point: (x, y) };
                    assert(square == Square::anchored(self, x, y));
                    let value = step(square);
                    data.set(y * self.width + x, value);
                    assert(data@[k0] == value);
                },
                None => {
                    proof {
                        cursor.lemma_yielded_bound();
                    }
                    break ;
                },
            }
        }
        let next = Frame { data: data, width: self.width(), height: self.height() };
        proof {
            assert forall|x: usize, y: usize| self@.contains(x as int, y as int) implies call_ensures(
                step,
                (Square::anchored(self, x, y),),
                #[trigger] next@.at(x as int, y as int),
            ) by {
                lemma_offset(w, h, x as int, y as int);
            }
        }
        next
    }
}

/// A rule with one result per square leaves one possible next generation:
/// any two frames that follow `current` under `step` have the same content.
pub proof fn lemma_next_frame_deterministic<T, F>(
    current: &Frame<T>,
    step: F,
    first: Frame<T>,
    second: Frame<T>,
) where F: Fn(Square<T>) -> T
    requires
        current.wf(),
        single_valued(step),
        steps_to(current, step, first),
        steps_to(current, step, second),
    ensures
        first@ == second@,
{
    first.lemma_view_wf();
    second.lemma_view_wf();
    current.lemma_view_wf();
    assert forall|p: (int, int)| #[trigger] first@.cells.dom().contains(p) implies first@.cells[p]
        == second@.cells[p] by {
        let x = p.0 as usize;
        let y = p.1 as usize;
        assert(first@.contains(p.0, p.1));
        assert(call_ensures(step, (Square::anchored(current, x, y),), first@.at(x as int, y as int)));
        assert(call_ensures(step, (Square::anchored(current, x, y),), second@.at(x as int, y as int)));
    }
    assert forall|p: (int, int)| first@.cells.dom().contains(p) <==> second@.cells.dom().contains(
        p,
    ) by {
        assert(first@.cells.dom().contains((p.0, p.1)) <==> first@.contains(p.0, p.1));
        assert(second@.cells.dom().contains((p.0, p.1)) <==> second@.contains(p.0, p.1));
    }
    assert(first@.cells =~= second@.cells);
}

} // verus!
