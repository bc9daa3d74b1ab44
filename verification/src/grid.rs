//! A rectangular grid of cells stored in row-major order.
use crate::geometry::{size_contains, Coord, Size};
use vstd::prelude::*;

verus! {

/// A rectangular grid holding one value per cell, in row-major order.
pub struct Grid<T> {
    size: Size,
    cells: Vec<T>,
}

/// The position of `c` in the row-major order of a grid of size `s`.
pub open spec fn index_of(s: Size, c: Coord) -> int {
    c.y * s.width + c.x
}

/// The coordinate at position `i` of the row-major order of a grid of width `w`.
pub open spec fn coord_at_index(w: int, i: int) -> Coord {
    Coord { x: (i % w) as i32, y: (i / w) as i32 }
}

/// The number of cells of a size.
pub open spec fn size_count(s: Size) -> int {
    s.width * s.height
}

pub proof fn lemma_index_bounds(s: Size, c: Coord)
    requires
        size_contains(s, c),
    ensures
        0 <= index_of(s, c) < size_count(s),
        index_of(s, c) % (s.width as int) == c.x,
        index_of(s, c) / (s.width as int) == c.y,
{
    let w = s.width as int;
    let h = s.height as int;
    let x = c.x as int;
    let y = c.y as int;
    assert(0 <= y * w + x < w * h) by (nonlinear_arith)
        requires
            0 <= x < w,
            0 <= y < h,
    ;
    assert((y * w + x) % w == x && (y * w + x) / w == y) by (nonlinear_arith)
        requires
            0 <= x < w,
            0 <= y,
    ;
}

pub proof fn lemma_index_injective(s: Size, a: Coord, b: Coord)
    requires
        size_contains(s, a),
        size_contains(s, b),
        index_of(s, a) == index_of(s, b),
    ensures
        a == b,
{
    lemma_index_bounds(s, a);
    lemma_index_bounds(s, b);
}

pub proof fn lemma_coord_at_index(s: Size, i: int)
    requires
        0 <= i < size_count(s),
        s.width <= i32::MAX,
        s.height <= i32::MAX,
    ensures
        size_contains(s, coord_at_index(s.width as int, i)),
        index_of(s, coord_at_index(s.width as int, i)) == i,
{
    let w = s.width as int;
    let h = s.height as int;
    assert(w > 0) by (nonlinear_arith)
        requires
            0 <= i < w * h,
            h >= 0,
    ;
    assert(0 <= i % w < w && 0 <= i / w < h && (i / w) * w + i % w == i) by (nonlinear_arith)
        requires
            0 <= i < w * h,
            w > 0,
    ;
}

/// The number of `true` values in a sequence.
pub open spec fn count_true(s: Seq<bool>) -> nat
    decreases s.len(),
{
    if s.len() == 0 {
        0
    } else {
        count_true(s.drop_last()) + if s.last() {
            1nat
        } else {
            0nat
        }
    }
}

pub proof fn lemma_count_true_bound(s: Seq<bool>)
    ensures
        count_true(s) <= s.len(),
    decreases s.len(),
{
    if s.len() > 0 {
        lemma_count_true_bound(s.drop_last());
    }
}

/// Setting a `false` value to `true` adds one to the count.
pub proof fn lemma_count_true_update(s: Seq<bool>, i: int)
    requires
        0 <= i < s.len(),
        !s[i],
    ensures
        count_true(s.update(i, true)) == count_true(s) + 1,
    decreases s.len(),
{
    let t = s.update(i, true);
    if i == s.len() - 1 {
        assert(t.drop_last() =~= s.drop_last());
    } else {
        lemma_count_true_update(s.drop_last(), i);
        assert(t.drop_last() =~= s.drop_last().update(i, true));
    }
}

impl<T> Grid<T> {
    /// The size of the grid.
    pub closed spec fn spec_size(&self) -> Size {
        self.size
    }

    /// The cells of the grid in row-major order.
    pub closed spec fn spec_cells(&self) -> Seq<T> {
        self.cells@
    }

    /// The grid holds exactly one cell per coordinate and each dimension fits in an `i32`.
    pub open spec fn wf(&self) -> bool {
        &&& self.spec_cells().len() == size_count(self.spec_size())
        &&& self.spec_size().width <= i32::MAX
        &&& self.spec_size().height <= i32::MAX
    }

    /// `c` is a cell of this grid.
    pub open spec fn contains(&self, c: Coord) -> bool {
        size_contains(self.spec_size(), c)
    }

    /// The value of the cell at `c`.
    pub open spec fn at(&self, c: Coord) -> T {
        self.spec_cells()[index_of(self.spec_size(), c)]
    }

    /// Two well-formed grids of the same size with the same cells are the same grid.
    pub proof fn lemma_ext_equal(a: &Grid<T>, b: &Grid<T>)
        requires
            a.wf(),
            b.wf(),
            a.spec_size() == b.spec_size(),
            forall|c: Coord| a.contains(c) ==> a.at(c) == b.at(c),
        ensures
            a.spec_cells() == b.spec_cells(),
    {
        let s = a.spec_size();
        assert forall|i: int| 0 <= i < a.spec_cells().len() implies a.spec_cells()[i]
            == b.spec_cells()[i] by {
            lemma_coord_at_index(s, i);
            let c = coord_at_index(s.width as int, i);
            assert(a.at(c) == b.at(c));
        }
        assert(a.spec_cells() =~= b.spec_cells());
    }

    /// The size of the grid.
    pub fn size(&self) -> (s: Size)
        ensures
            s == self.spec_size(),
    {
        self.size
    }

    pub fn width(&self) -> (w: u32)
        ensures
            w == self.spec_size().width,
    {
        self.size.width
    }

    pub fn height(&self) -> (h: u32)
        ensures
            h == self.spec_size().height,
    {
        self.size.height
    }

    /// True iff `c` is a cell of this grid.
    pub fn is_valid(&self, c: Coord) -> (b: bool)
        requires
            self.wf(),
        ensures
            b == self.contains(c),
    {
        c.x >= 0 && c.y >= 0 && (c.x as u32) < self.size.width && (c.y as u32) < self.size.height
    }

    fn index(&self, c: Coord) -> (i: usize)
        requires
            self.wf(),
            self.contains(c),
        ensures
            i == index_of(self.spec_size(), c),
            i < self.spec_cells().len(),
    {
        proof {
            lemma_index_bounds(self.size, c);
        }
        let n = self.cells.len();
        let w = self.size.width as usize;
        let y = c.y as usize;
        let x = c.x as usize;
        assert(y as int * w as int + x as int == index_of(self.size, c));
        assert(y * w + x < n);
        y * w + x
    }

    /// The cell at `c`, or `None` when `c` is outside the grid.
    pub fn get(&self, c: Coord) -> (r: Option<&T>)
        requires
            self.wf(),
        ensures
            r == (if self.contains(c) {
                Some(&self.at(c))
            } else {
                None::<&T>
            }),
    {
        if self.is_valid(c) {
            let i = self.index(c);
            Some(&self.cells[i])
        } else {
            None
        }
    }

    /// The cell at `c`, which must be inside the grid.
    pub fn get_checked(&self, c: Coord) -> (r: &T)
        requires
            self.wf(),
            self.contains(c),
        ensures
            *r == self.at(c),
    {
        let i = self.index(c);
        &self.cells[i]
    }

    /// Replaces the cell at `c`, which must be inside the grid.
    pub fn set(&mut self, c: Coord, value: T)
        requires
            old(self).wf(),
            old(self).contains(c),
        ensures
            final(self).wf(),
            final(self).spec_size() == old(self).spec_size(),
            final(self).spec_cells() == old(self).spec_cells().update(
                index_of(old(self).spec_size(), c),
                value,
            ),
            final(self).at(c) == value,
            forall|d: Coord|
                #![trigger final(self).at(d)]
                final(self).contains(d) && d != c ==> final(self).at(d) == old(self).at(d),
    {
        let i = self.index(c);
        self.cells.set(i, value);
        proof {
            assert forall|d: Coord|
                #![trigger self.at(d)]
                self.contains(d) && d != c implies self.at(d) == old(self).at(d) by {
                lemma_index_bounds(self.size, d);
                if index_of(self.size, d) == index_of(self.size, c) {
                    lemma_index_injective(self.size, c, d);
                }
            }
        }
    }

    /// The coordinate of the `i`-th cell in row-major order.
    pub fn coord_of_index(&self, i: usize) -> (c: Coord)
        requires
            self.wf(),
            i < self.spec_cells().len(),
        ensures
            c == coord_at_index(self.spec_size().width as int, i as int),
            self.contains(c),
            index_of(self.spec_size(), c) == i,
    {
        proof {
            lemma_coord_at_index(self.size, i as int);
        }
        let w = self.size.width as usize;
        Coord { x: (i % w) as i32, y: (i / w) as i32 }
    }

    /// A grid of the same size whose cells are the images of this grid's cells under `f`.
    pub fn map_ref<U, F: Fn(&T) -> U>(&self, f: F) -> (g: Grid<U>)
        requires
            self.wf(),
            forall|c: Coord| self.contains(c) ==> f.requires((&self.at(c),)),
        ensures
            g.wf(),
            g.spec_size() == self.spec_size(),
            forall|c: Coord| #[trigger] g.contains(c) ==> f.ensures((&self.at(c),), g.at(c)),
    {
        let mut cells: Vec<U> = Vec::new();
        let n = self.cells.len();
        let mut i: usize = 0;
        while i < n
            invariant
                self.wf(),
                n == self.cells@.len(),
                i <= n,
                cells@.len() == i,
                forall|c: Coord| self.contains(c) ==> f.requires((&self.at(c),)),
                forall|j: int|
                    0 <= j < i ==> f.ensures((&self.cells@[j],), #[trigger] cells@[j]),
            decreases n - i,
        {
            proof {
                lemma_coord_at_index(self.size, i as int);
            }
            let ghost c = coord_at_index(self.size.width as int, i as int);
            assert(self.at(c) == self.cells@[i as int]);
            assert(self.contains(c));
            assert(f.requires((&self.at(c),)));
            let u = f(&self.cells[i]);
            cells.push(u);
            i = i + 1;
        }
        let g = Grid { size: self.size, cells };
        proof {
            assert forall|c: Coord| #[trigger] g.contains(c) implies f.ensures(
                (&self.at(c),),
                g.at(c),
            ) by {
                lemma_index_bounds(self.size, c);
            }
        }
        g
    }

    /// The number of cells.
    pub fn count(&self) -> (n: usize)
        requires
            self.wf(),
        ensures
            n == size_count(self.spec_size()),
    {
        self.cells.len()
    }
}

impl<T: Copy> Grid<T> {
    /// A grid of the given size in which every cell holds `value`.
    pub fn new_copy(size: Size, value: T) -> (g: Grid<T>)
        requires
            size.width <= i32::MAX,
            size.height <= i32::MAX,
            size_count(size) <= usize::MAX,
        ensures
            g.wf(),
            g.spec_size() == size,
            forall|c: Coord| #[trigger] g.contains(c) ==> g.at(c) == value,
    {
        let n = size.width as usize * size.height as usize;
        let mut cells: Vec<T> = Vec::new();
        let mut i: usize = 0;
        while i < n
            invariant
                n == size_count(size),
                i <= n,
                cells@.len() == i,
                forall|j: int| 0 <= j < i ==> cells@[j] == value,
            decreases n - i,
        {
            cells.push(value);
            i = i + 1;
        }
        let g = Grid { size, cells };
        proof {
            assert forall|c: Coord| #[trigger] g.contains(c) implies g.at(c) == value by {
                lemma_index_bounds(size, c);
            }
        }
        g
    }

    /// A copy of this grid.
    pub fn copy(&self) -> (g: Grid<T>)
        requires
            self.wf(),
        ensures
            g.wf(),
            g.spec_size() == self.spec_size(),
            g.spec_cells() == self.spec_cells(),
            forall|c: Coord| #[trigger] g.at(c) == self.at(c),
    {
        let mut cells: Vec<T> = Vec::new();
        let mut i: usize = 0;
        let n = self.cells.len();
        while i < n
            invariant
                n == self.cells@.len(),
                i <= n,
                cells@ == self.cells@.subrange(0, i as int),
            decreases n - i,
        {
            cells.push(self.cells[i]);
            i = i + 1;
            assert(cells@ =~= self.cells@.subrange(0, i as int));
        }
        assert(cells@ =~= self.cells@);
        Grid { size: self.size, cells }
    }
}

} // verus!
