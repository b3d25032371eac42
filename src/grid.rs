use vstd::prelude::*;
use vstd::set_lib::{lemma_int_range, set_int_range};

verus! {

/// Whether `c` lies in the rectangle `[0, w) x [0, h)`.
pub open spec fn in_bounds(w: int, h: int, c: (int, int)) -> bool {
    0 <= c.0 < w && 0 <= c.1 < h
}

/// Every cell of the rectangle `[0, w) x [0, h)`.
pub open spec fn rect(w: int, h: int) -> Set<(int, int)> {
    Set::new(|c: (int, int)| in_bounds(w, h, c))
}

/// Row-major position of cell `c` in a grid of width `w`.
pub open spec fn cell_index(w: int, c: (int, int)) -> int {
    c.1 * w + c.0
}

pub proof fn lemma_rect_finite(w: int, h: int)
    requires
        0 <= w,
        0 <= h,
    ensures
        rect(w, h).finite(),
    decreases h,
{
    if h == 0 {
        assert(rect(w, h) =~= Set::empty());
    } else {
        lemma_rect_finite(w, h - 1);
        let row = set_int_range(0, w).map(|x: int| (x, h - 1));
        lemma_int_range(0, w);
        set_int_range(0, w).lemma_map_finite(|x: int| (x, h - 1));
        assert forall|c: (int, int)| rect(w, h).contains(c) implies #[trigger] rect(w, h - 1).union(
            row,
        ).contains(c) by {
            if c.1 == h - 1 {
                assert(set_int_range(0, w).contains(c.0));
                assert(row.contains((c.0, h - 1)));
            }
        }
        assert(rect(w, h) =~= rect(w, h - 1).union(row));
    }
}

/// A finite set of cells inside `rect(w, h)` is finite.
pub proof fn lemma_bounded_finite(s: Set<(int, int)>, w: int, h: int)
    requires
        0 <= w,
        0 <= h,
        forall|c: (int, int)| s.contains(c) ==> in_bounds(w, h, c),
    ensures
        s.finite(),
{
    lemma_rect_finite(w, h);
    assert(s.subset_of(rect(w, h)));
    vstd::set_lib::lemma_set_subset_finite(rect(w, h), s);
}

proof fn lemma_index_bounds(w: int, h: int, c: (int, int))
    requires
        in_bounds(w, h, c),
    ensures
        0 <= c.1 * w <= cell_index(w, c) < w * h,
{
    assert(0 <= c.1 * w) by (nonlinear_arith)
        requires
            0 <= c.1,
            0 <= c.0 < w,
    ;
    assert(c.1 * w + c.0 < w * h) by (nonlinear_arith)
        requires
            0 <= c.0 < w,
            0 <= c.1 < h,
    ;
}

proof fn lemma_index_injective(w: int, h: int, a: (int, int), b: (int, int))
    requires
        in_bounds(w, h, a),
        in_bounds(w, h, b),
        cell_index(w, a) == cell_index(w, b),
    ensures
        a == b,
{
    if a.1 < b.1 {
        assert(a.1 * w + a.0 < b.1 * w + b.0) by (nonlinear_arith)
            requires
                0 <= a.0 < w,
                0 <= b.0,
                a.1 < b.1,
        ;
    } else if b.1 < a.1 {
        assert(b.1 * w + b.0 < a.1 * w + a.0) by (nonlinear_arith)
            requires
                0 <= b.0 < w,
                0 <= a.0,
                b.1 < a.1,
        ;
    }
}

/// A set of cells of a `width` x `height` grid, held as one flag per cell in
/// row-major order.
pub struct CellSet {
    width: usize,
    height: usize,
    cells: Vec<bool>,
}

impl View for CellSet {
    type V = Set<(int, int)>;

    closed spec fn view(&self) -> Set<(int, int)> {
        Set::new(
            |c: (int, int)|
                in_bounds(self.width as int, self.height as int, c) && self.cells@[cell_index(
                    self.width as int,
                    c,
                )],
        )
    }
}

impl CellSet {
    pub closed spec fn w(&self) -> nat {
        self.width as nat
    }

    pub closed spec fn h(&self) -> nat {
        self.height as nat
    }

    pub closed spec fn wf(&self) -> bool {
        &&& self.cells@.len() == self.width * self.height
        &&& self.width * self.height <= usize::MAX
    }

    /// A well-formed set lies inside its rectangle, and so is finite.
    pub proof fn lemma_wf(&self)
        requires
            self.wf(),
        ensures
            self@.finite(),
            forall|c: (int, int)| #[trigger] self@.contains(c) ==> in_bounds(self.w() as int, self.h() as int, c),
            self.w() * self.h() <= usize::MAX,
    {
        lemma_bounded_finite(self@, self.w() as int, self.h() as int);
    }

    /// The empty set of cells of a `width` x `height` grid.
    pub fn new(width: usize, height: usize) -> (s: CellSet)
        requires
            width * height <= usize::MAX,
        ensures
            s.wf(),
            s.w() == width,
            s.h() == height,
            s@ == Set::<(int, int)>::empty(),
    {
        let n: usize = width * height;
        let mut cells: Vec<bool> = Vec::new();
        let mut i: usize = 0;
        while i < n
            invariant
                i <= n,
                cells@.len() == i,
                forall|j: int| 0 <= j < i ==> !cells@[j],
            decreases n - i,
        {
            cells.push(false);
            i = i + 1;
        }
        let s = CellSet { width, height, cells };
        assert forall|c: (int, int)| !#[trigger] s@.contains(c) by {
            if in_bounds(width as int, height as int, c) {
                lemma_index_bounds(width as int, height as int, c);
            }
        }
        assert(s@ =~= Set::<(int, int)>::empty());
        s
    }

    pub fn width(&self) -> (r: usize)
        ensures
            r == self.w(),
    {
        self.width
    }

    pub fn height(&self) -> (r: usize)
        ensures
            r == self.h(),
    {
        self.height
    }

    /// Whether `(x, y)` is in the set; `false` for a cell outside the grid.
    pub fn contains(&self, x: usize, y: usize) -> (r: bool)
        requires
            self.wf(),
        ensures
            r == self@.contains((x as int, y as int)),
    {
        if x < self.width && y < self.height {
            proof {
                lemma_index_bounds(self.w() as int, self.h() as int, (x as int, y as int));
            }
            self.cells[y * self.width + x]
        } else {
            false
        }
    }

    proof fn lemma_set_cell(&self, other: &CellSet, c: (int, int), b: bool)
        requires
            self.wf(),
            in_bounds(self.w() as int, self.h() as int, c),
            other.width == self.width,
            other.height == self.height,
            other.cells@ == self.cells@.update(cell_index(self.w() as int, c), b),
        ensures
            other.wf(),
            b ==> other@ == self@.insert(c),
            !b ==> other@ == self@.remove(c),
    {
        let w = self.w() as int;
        let h = self.h() as int;
        lemma_index_bounds(w, h, c);
        assert forall|d: (int, int)| in_bounds(w, h, d) && d != c implies other.cells@[cell_index(w, d)]
            == self.cells@[cell_index(w, d)] by {
            lemma_index_bounds(w, h, d);
            if cell_index(w, d) == cell_index(w, c) {
                lemma_index_injective(w, h, d, c);
            }
        }
        if b {
            assert(other@ =~= self@.insert(c));
        } else {
            assert(other@ =~= self@.remove(c));
        }
    }

    /// Adds the in-grid cell `(x, y)`.
    pub fn insert(&mut self, x: usize, y: usize)
        requires
            old(self).wf(),
            x < old(self).w(),
            y < old(self).h(),
        ensures
            final(self).wf(),
            final(self).w() == old(self).w(),
            final(self).h() == old(self).h(),
            final(self)@ == old(self)@.insert((x as int, y as int)),
    {
        proof {
            lemma_index_bounds(self.w() as int, self.h() as int, (x as int, y as int));
        }
        let ghost before = *self;
        let i = y * self.width + x;
        self.cells.set(i, true);
        proof {
            before.lemma_set_cell(self, (x as int, y as int), true);
        }
    }

    /// Takes the in-grid cell `(x, y)` out.
    pub fn remove(&mut self, x: usize, y: usize)
        requires
            old(self).wf(),
            x < old(self).w(),
            y < old(self).h(),
        ensures
            final(self).wf(),
            final(self).w() == old(self).w(),
            final(self).h() == old(self).h(),
            final(self)@ == old(self)@.remove((x as int, y as int)),
    {
        proof {
            lemma_index_bounds(self.w() as int, self.h() as int, (x as int, y as int));
        }
        let ghost before = *self;
        let i = y * self.width + x;
        self.cells.set(i, false);
        proof {
            before.lemma_set_cell(self, (x as int, y as int), false);
        }
    }
}

/// One of the four moves on a grid; `Up` lowers the row number.
#[derive(Clone, Copy, Debug, PartialEq, Eq, Structural)]
pub enum Direction {
    Up,
    Down,
    Left,
    Right,
}

/// The unit offset of a move.
pub open spec fn delta(d: Direction) -> (int, int) {
    match d {
        Direction::Up => (0, -1),
        Direction::Down => (0, 1),
        Direction::Left => (-1, 0),
        Direction::Right => (1, 0),
    }
}

/// The cell next to `c` in direction `d`.
pub open spec fn shift(c: (int, int), d: Direction) -> (int, int) {
    (c.0 + delta(d).0, c.1 + delta(d).1)
}

} // verus!
