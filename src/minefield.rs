use vstd::prelude::*;
use vstd::arithmetic::div_mod::lemma_fundamental_div_mod;
use crate::grid::{in_bounds, lemma_rect_finite, rect, CellSet};
use crate::rng::sample_indices;

verus! {

/// The offset of the `k`-th of the eight surrounding cells.
pub open spec fn offset(k: int) -> (int, int) {
    if k == 0 {
        (-1, -1)
    } else if k == 1 {
        (-1, 0)
    } else if k == 2 {
        (-1, 1)
    } else if k == 3 {
        (0, -1)
    } else if k == 4 {
        (0, 1)
    } else if k == 5 {
        (1, -1)
    } else if k == 6 {
        (1, 0)
    } else {
        (1, 1)
    }
}

/// The eight cells around `c` (the Moore neighbourhood), some of which may
/// lie off the grid.
pub open spec fn neighbors(c: (int, int)) -> Seq<(int, int)> {
    Seq::new(8, |k: int| (c.0 + offset(k).0, c.1 + offset(k).1))
}

/// `b` is one of the eight cells around `a`.
pub open spec fn is_neighbor(a: (int, int), b: (int, int)) -> bool {
    &&& a != b
    &&& -1 <= b.0 - a.0 <= 1
    &&& -1 <= b.1 - a.1 <= 1
}

/// How many entries of `q` are in `s`.
pub open spec fn count_in(s: Set<(int, int)>, q: Seq<(int, int)>) -> nat
    decreases q.len(),
{
    if q.len() == 0 {
        0
    } else {
        count_in(s, q.drop_last()) + if s.contains(q.last()) {
            1nat
        } else {
            0nat
        }
    }
}

/// The number of mines around `c`.
pub open spec fn mines_around(mines: Set<(int, int)>, c: (int, int)) -> nat {
    count_in(mines, neighbors(c))
}

/// A revealed safe cell opens its safe neighbours when no mine is around it,
/// or when as many flags as mines are around it.
pub open spec fn propagates(mines: Set<(int, int)>, flagged: Set<(int, int)>, c: (int, int)) -> bool {
    &&& !mines.contains(c)
    &&& (mines_around(mines, c) == 0 || count_in(flagged, neighbors(c)) == mines_around(mines, c))
}

/// Revealing `a` goes on to reveal `b`.
pub open spec fn spreads(
    mines: Set<(int, int)>,
    flagged: Set<(int, int)>,
    w: int,
    h: int,
    a: (int, int),
    b: (int, int),
) -> bool {
    &&& propagates(mines, flagged, a)
    &&& is_neighbor(a, b)
    &&& in_bounds(w, h, b)
    &&& !mines.contains(b)
}

/// A cell that revealing may open: on the grid, hidden and not flagged.
pub open spec fn eligible(
    revealed: Set<(int, int)>,
    flagged: Set<(int, int)>,
    w: int,
    h: int,
    c: (int, int),
) -> bool {
    in_bounds(w, h, c) && !revealed.contains(c) && !flagged.contains(c)
}

/// A chain of reveals: each cell eligible, each one spreading to the next.
pub open spec fn is_cascade(
    mines: Set<(int, int)>,
    revealed: Set<(int, int)>,
    flagged: Set<(int, int)>,
    w: int,
    h: int,
    p: Seq<(int, int)>,
) -> bool {
    &&& p.len() > 0
    &&& forall|i: int| 0 <= i < p.len() ==> eligible(revealed, flagged, w, h, #[trigger] p[i])
    &&& forall|i: int| 0 <= i < p.len() - 1 ==> spreads(mines, flagged, w, h, #[trigger] p[i], p[i + 1])
}

/// The cells that revealing `start` opens.
pub open spec fn cascade(
    mines: Set<(int, int)>,
    revealed: Set<(int, int)>,
    flagged: Set<(int, int)>,
    w: int,
    h: int,
    start: (int, int),
) -> Set<(int, int)> {
    Set::new(
        |c: (int, int)|
            exists|p: Seq<(int, int)>| #[trigger]
                is_cascade(mines, revealed, flagged, w, h, p) && p[0] == start && p.last() == c,
    )
}

/// The revealed cells after revealing `start`.
pub open spec fn revealed_after(
    mines: Set<(int, int)>,
    revealed: Set<(int, int)>,
    flagged: Set<(int, int)>,
    w: int,
    h: int,
    start: (int, int),
) -> Set<(int, int)> {
    revealed.union(cascade(mines, revealed, flagged, w, h, start))
}

/// Every cell that is not a mine is revealed.
pub open spec fn all_safe_revealed(
    mines: Set<(int, int)>,
    revealed: Set<(int, int)>,
    w: int,
    h: int,
) -> bool {
    forall|c: (int, int)| in_bounds(w, h, c) && !mines.contains(c) ==> #[trigger] revealed.contains(c)
}

proof fn lemma_neighbors_are_neighbors(c: (int, int))
    ensures
        forall|k: int| 0 <= k < 8 ==> is_neighbor(c, #[trigger] neighbors(c)[k]),
        forall|b: (int, int)| #[trigger] is_neighbor(c, b) ==> exists|k: int| 0 <= k < 8 && neighbors(c)[k] == b,
        forall|k: int, j: int| 0 <= k < 8 && 0 <= j < 8 && k != j ==> neighbors(c)[k] != neighbors(c)[j],
{
    assert forall|b: (int, int)| #[trigger] is_neighbor(c, b) implies exists|k: int|
        0 <= k < 8 && neighbors(c)[k] == b by {
        let dx = b.0 - c.0;
        let dy = b.1 - c.1;
        let k = if dx == -1 {
            dy + 1
        } else if dx == 0 {
            if dy == -1 {
                3
            } else {
                4
            }
        } else {
            dy + 6
        };
        assert(neighbors(c)[k] == b);
    }
}

/// Every cell that `c` spreads to and that was open to revealing is revealed.
spec fn closed_at(
    mines: Set<(int, int)>,
    revealed0: Set<(int, int)>,
    flagged: Set<(int, int)>,
    w: int,
    h: int,
    revealed: Set<(int, int)>,
    c: (int, int),
) -> bool {
    forall|b: (int, int)|
        #[trigger] spreads(mines, flagged, w, h, c, b) && eligible(revealed0, flagged, w, h, b)
            ==> revealed.contains(b)
}

proof fn lemma_cascade_extend(
    mines: Set<(int, int)>,
    revealed: Set<(int, int)>,
    flagged: Set<(int, int)>,
    w: int,
    h: int,
    start: (int, int),
    a: (int, int),
    b: (int, int),
)
    requires
        cascade(mines, revealed, flagged, w, h, start).contains(a),
        spreads(mines, flagged, w, h, a, b),
        eligible(revealed, flagged, w, h, b),
    ensures
        cascade(mines, revealed, flagged, w, h, start).contains(b),
{
    let p = choose|p: Seq<(int, int)>| #[trigger]
        is_cascade(mines, revealed, flagged, w, h, p) && p[0] == start && p.last() == a;
    let q = p.push(b);
    assert(q[q.len() - 2] == a);
    assert(is_cascade(mines, revealed, flagged, w, h, q));
}

proof fn lemma_cascade_start(
    mines: Set<(int, int)>,
    revealed: Set<(int, int)>,
    flagged: Set<(int, int)>,
    w: int,
    h: int,
    start: (int, int),
)
    ensures
        eligible(revealed, flagged, w, h, start) ==> cascade(mines, revealed, flagged, w, h, start).contains(start),
        !eligible(revealed, flagged, w, h, start) ==> cascade(mines, revealed, flagged, w, h, start) == Set::<
            (int, int),
        >::empty(),
{
    let c = cascade(mines, revealed, flagged, w, h, start);
    if eligible(revealed, flagged, w, h, start) {
        let p = seq![start];
        assert(is_cascade(mines, revealed, flagged, w, h, p));
    } else {
        assert forall|e: (int, int)| !c.contains(e) by {
            if c.contains(e) {
                let p = choose|p: Seq<(int, int)>| #[trigger]
                    is_cascade(mines, revealed, flagged, w, h, p) && p[0] == start && p.last() == e;
                assert(eligible(revealed, flagged, w, h, p[0]));
            }
        }
        assert(c =~= Set::empty());
    }
}

/// Revealing an eligible cell reveals it; revealing any other changes
/// nothing. Every newly revealed cell was eligible.
pub proof fn lemma_revealed_after_basics(
    mines: Set<(int, int)>,
    revealed: Set<(int, int)>,
    flagged: Set<(int, int)>,
    w: int,
    h: int,
    start: (int, int),
)
    ensures
        eligible(revealed, flagged, w, h, start) ==> revealed_after(mines, revealed, flagged, w, h, start).contains(start),
        !eligible(revealed, flagged, w, h, start) ==> revealed_after(mines, revealed, flagged, w, h, start) == revealed,
        forall|c: (int, int)| #[trigger] revealed_after(mines, revealed, flagged, w, h, start).contains(c)
            && !revealed.contains(c) ==> eligible(revealed, flagged, w, h, c),
{
    lemma_cascade_start(mines, revealed, flagged, w, h, start);
    if !eligible(revealed, flagged, w, h, start) {
        assert(revealed_after(mines, revealed, flagged, w, h, start) =~= revealed);
    }
    assert forall|c: (int, int)| #[trigger] revealed_after(mines, revealed, flagged, w, h, start).contains(c)
        && !revealed.contains(c) implies eligible(revealed, flagged, w, h, c) by {
        let p = choose|p: Seq<(int, int)>| #[trigger]
            is_cascade(mines, revealed, flagged, w, h, p) && p[0] == start && p.last() == c;
        assert(eligible(revealed, flagged, w, h, p[p.len() - 1]));
    }
}

proof fn lemma_walk_covered(
    mines: Set<(int, int)>,
    revealed0: Set<(int, int)>,
    flagged: Set<(int, int)>,
    w: int,
    h: int,
    revealed: Set<(int, int)>,
    p: Seq<(int, int)>,
    i: int,
)
    requires
        is_cascade(mines, revealed0, flagged, w, h, p),
        revealed.contains(p[0]),
        forall|c: (int, int)| #[trigger] revealed.contains(c) && !revealed0.contains(c) ==> closed_at(
            mines,
            revealed0,
            flagged,
            w,
            h,
            revealed,
            c,
        ),
        0 <= i < p.len(),
    ensures
        revealed.contains(p[i]),
    decreases i,
{
    if i > 0 {
        lemma_walk_covered(mines, revealed0, flagged, w, h, revealed, p, i - 1);
        assert(eligible(revealed0, flagged, w, h, p[i - 1]));
        assert(spreads(mines, flagged, w, h, p[i - 1], p[i]));
        assert(eligible(revealed0, flagged, w, h, p[i]));
        assert(closed_at(mines, revealed0, flagged, w, h, revealed, p[i - 1]));
    }
}

/// A set that holds the start, and every cell that a newly revealed cell of it
/// spreads to, holds the whole cascade.
proof fn lemma_cascade_covered(
    mines: Set<(int, int)>,
    revealed0: Set<(int, int)>,
    flagged: Set<(int, int)>,
    w: int,
    h: int,
    start: (int, int),
    revealed: Set<(int, int)>,
)
    requires
        eligible(revealed0, flagged, w, h, start) ==> revealed.contains(start),
        forall|c: (int, int)| #[trigger] revealed.contains(c) && !revealed0.contains(c) ==> closed_at(
            mines,
            revealed0,
            flagged,
            w,
            h,
            revealed,
            c,
        ),
    ensures
        cascade(mines, revealed0, flagged, w, h, start).subset_of(revealed),
{
    assert forall|e: (int, int)| #[trigger] cascade(mines, revealed0, flagged, w, h, start).contains(
        e,
    ) implies revealed.contains(e) by {
        let p = choose|p: Seq<(int, int)>| #[trigger]
            is_cascade(mines, revealed0, flagged, w, h, p) && p[0] == start && p.last() == e;
        assert(eligible(revealed0, flagged, w, h, p[0]));
        lemma_walk_covered(mines, revealed0, flagged, w, h, revealed, p, p.len() - 1);
    }
}

/// A field of mines on a `width` x `height` grid.
pub struct Minefield {
    grid: CellSet,
}

impl View for Minefield {
    type V = Set<(int, int)>;

    closed spec fn view(&self) -> Set<(int, int)> {
        self.grid@
    }
}

/// Why a minefield cannot be made.
#[derive(Clone, Copy, Debug, PartialEq, Eq, Structural)]
pub enum MinefieldError {
    /// More mines than cells were asked for.
    TooManyMines,
    /// A mine was placed off the grid.
    OutOfBounds,
    /// The grid has more cells than a `usize` counts.
    TooLarge,
}

impl Minefield {
    pub closed spec fn w(&self) -> nat {
        self.grid.w()
    }

    pub closed spec fn h(&self) -> nat {
        self.grid.h()
    }

    pub closed spec fn wf(&self) -> bool {
        self.grid.wf()
    }

    /// The mines lie on the grid, so there are finitely many.
    pub proof fn lemma_wf(&self)
        requires
            self.wf(),
        ensures
            self@.finite(),
            forall|c: (int, int)| #[trigger] self@.contains(c) ==> in_bounds(self.w() as int, self.h() as int, c),
            self.w() * self.h() <= usize::MAX,
    {
        self.grid.lemma_wf();
    }

    pub fn width(&self) -> (r: usize)
        ensures
            r == self.w(),
    {
        self.grid.width()
    }

    pub fn height(&self) -> (r: usize)
        ensures
            r == self.h(),
    {
        self.grid.height()
    }

    /// Whether `(x, y)` holds a mine; `false` off the grid.
    pub fn is_mine(&self, x: usize, y: usize) -> (r: bool)
        requires
            self.wf(),
        ensures
            r == self@.contains((x as int, y as int)),
    {
        self.grid.contains(x, y)
    }

    /// A field with mines exactly at the given cells.
    pub fn from_mines(width: usize, height: usize, mines: &Vec<(usize, usize)>) -> (r: Result<
        Minefield,
        MinefieldError,
    >)
        ensures
            width * height > usize::MAX ==> r == Err::<Minefield, MinefieldError>(
                MinefieldError::TooLarge,
            ),
            width * height <= usize::MAX && (exists|i: int|
                0 <= i < mines@.len() && !in_bounds(
                    width as int,
                    height as int,
                    (#[trigger] mines@[i].0 as int, mines@[i].1 as int),
                )) ==> r == Err::<Minefield, MinefieldError>(MinefieldError::OutOfBounds),
            r matches Ok(m) ==> {
                &&& m.wf()
                &&& m.w() == width
                &&& m.h() == height
                &&& forall|c: (int, int)| #[trigger] m@.contains(c) <==> exists|i: int|
                    0 <= i < mines@.len() && (mines@[i].0 as int, mines@[i].1 as int) == c
            },
            width * height <= usize::MAX && (forall|i: int|
                0 <= i < mines@.len() ==> in_bounds(
                    width as int,
                    height as int,
                    (#[trigger] mines@[i].0 as int, mines@[i].1 as int),
                )) ==> r is Ok,
    {
        if width.checked_mul(height).is_none() {
            return Err(MinefieldError::TooLarge);
        }
        let mut grid = CellSet::new(width, height);
        let mut i: usize = 0;
        while i < mines.len()
            invariant
                grid.wf(),
                grid.w() == width,
                grid.h() == height,
                width * height <= usize::MAX,
                i <= mines@.len(),
                forall|j: int| 0 <= j < i ==> in_bounds(
                    width as int,
                    height as int,
                    (#[trigger] mines@[j].0 as int, mines@[j].1 as int),
                ),
                forall|c: (int, int)| #[trigger] grid@.contains(c) <==> exists|j: int|
                    0 <= j < i && (mines@[j].0 as int, mines@[j].1 as int) == c,
            decreases mines@.len() - i,
        {
            let (x, y) = mines[i];
            if x >= width || y >= height {
                return Err(MinefieldError::OutOfBounds);
            }
            let ghost g0 = grid@;
            grid.insert(x, y);
            proof {
                assert forall|c: (int, int)| #[trigger] grid@.contains(c) <==> exists|j: int|
                    0 <= j < i + 1 && (mines@[j].0 as int, mines@[j].1 as int) == c by {
                    if grid@.contains(c) && c != (x as int, y as int) {
                        assert(g0.contains(c));
                    }
                    if c == (x as int, y as int) {
                        assert((mines@[i as int].0 as int, mines@[i as int].1 as int) == c);
                    }
                }
            }
            i = i + 1;
        }
        Ok(Minefield { grid })
    }
}

/// The `k`-th cell around the in-grid cell `(x, y)`, when it lies on the grid.
fn neighbor(w: usize, h: usize, x: usize, y: usize, k: usize) -> (r: Option<(usize, usize)>)
    requires
        k < 8,
        x < w,
        y < h,
    ensures
        r matches Some(n) ==> (n.0 as int, n.1 as int) == neighbors((x as int, y as int))[k as int]
            && n.0 < w && n.1 < h,
        r is None ==> !in_bounds(w as int, h as int, neighbors((x as int, y as int))[k as int]),
{
    let dx: i8 = if k < 3 {
        -1
    } else if k < 5 {
        0
    } else {
        1
    };
    let dy: i8 = if k == 0 || k == 3 || k == 5 {
        -1
    } else if k == 1 || k == 6 {
        0
    } else {
        1
    };
    let nx = if dx < 0 {
        if x == 0 {
            return None;
        }
        x - 1
    } else if dx > 0 {
        if x + 1 >= w {
            return None;
        }
        x + 1
    } else {
        x
    };
    let ny = if dy < 0 {
        if y == 0 {
            return None;
        }
        y - 1
    } else if dy > 0 {
        if y + 1 >= h {
            return None;
        }
        y + 1
    } else {
        y
    };
    Some((nx, ny))
}

/// How many of the eight cells around the in-grid cell `(x, y)` are in `s`.
fn count_around(s: &CellSet, x: usize, y: usize) -> (r: u8)
    requires
        s.wf(),
        x < s.w(),
        y < s.h(),
    ensures
        r == count_in(s@, neighbors((x as int, y as int))),
        r <= 8,
{
    proof {
        s.lemma_wf();
    }
    let ghost q = neighbors((x as int, y as int));
    let mut count: u8 = 0;
    let mut k: usize = 0;
    while k < 8
        invariant
            s.wf(),
            x < s.w(),
            y < s.h(),
            k <= 8,
            q == neighbors((x as int, y as int)),
            count == count_in(s@, q.take(k as int)),
            count <= k,
            forall|c: (int, int)| #[trigger] s@.contains(c) ==> in_bounds(s.w() as int, s.h() as int, c),
        decreases 8 - k,
    {
        assert(q.take(k + 1).drop_last() =~= q.take(k as int));
        match neighbor(s.width(), s.height(), x, y, k) {
            Some((nx, ny)) => {
                if s.contains(nx, ny) {
                    count = count + 1;
                }
            },
            None => {},
        }
        k = k + 1;
    }
    assert(q.take(8) =~= q);
    count
}

/// The number of mines around `(cell_x, cell_y)`; 0 for a cell off the grid.
pub fn count_adjacent_mines(minefield: &Minefield, cell_x: usize, cell_y: usize) -> (r: u8)
    requires
        minefield.wf(),
    ensures
        in_bounds(minefield.w() as int, minefield.h() as int, (cell_x as int, cell_y as int)) ==> r
            == mines_around(minefield@, (cell_x as int, cell_y as int)),
        !in_bounds(minefield.w() as int, minefield.h() as int, (cell_x as int, cell_y as int)) ==> r
            == 0,
        r <= 8,
{
    if cell_x < minefield.grid.width() && cell_y < minefield.grid.height() {
        count_around(&minefield.grid, cell_x, cell_y)
    } else {
        0
    }
}

spec fn on_stack(st: Seq<(usize, usize)>, c: (int, int)) -> bool {
    exists|i: int| 0 <= i < st.len() && (#[trigger] st[i].0 as int, st[i].1 as int) == c
}

/// Reveals `(x, y)` and the cells it cascades to: from a revealed safe cell
/// with no mine around it, or with as many flags as mines around it, the
/// reveal goes on to every safe neighbour on the grid. Flagged and already
/// revealed cells stop it; a mine is revealed like any cell but goes no
/// further. Nothing happens for a cell off the grid, revealed or flagged.
pub fn reveal_adjacent_zeros(
    minefield: &Minefield,
    revealed: &mut CellSet,
    flagged: &CellSet,
    x: usize,
    y: usize,
)
    requires
        minefield.wf(),
        old(revealed).wf(),
        flagged.wf(),
        old(revealed).w() == minefield.w(),
        old(revealed).h() == minefield.h(),
        flagged.w() == minefield.w(),
        flagged.h() == minefield.h(),
    ensures
        final(revealed).wf(),
        final(revealed).w() == old(revealed).w(),
        final(revealed).h() == old(revealed).h(),
        final(revealed)@ == revealed_after(
            minefield@,
            old(revealed)@,
            flagged@,
            minefield.w() as int,
            minefield.h() as int,
            (x as int, y as int),
        ),
{
    let ghost mines = minefield@;
    let ghost r0 = revealed@;
    let ghost fl = flagged@;
    let ghost wi = minefield.w() as int;
    let ghost hi = minefield.h() as int;
    let ghost start = (x as int, y as int);
    let ghost casc = cascade(mines, r0, fl, wi, hi, start);
    proof {
        lemma_cascade_start(mines, r0, fl, wi, hi, start);
        minefield.lemma_wf();
        lemma_rect_finite(wi, hi);
    }
    let w = minefield.width();
    let h = minefield.height();
    if x >= w || y >= h || revealed.contains(x, y) || flagged.contains(x, y) {
        assert(revealed@ =~= revealed_after(mines, r0, fl, wi, hi, start));
        return;
    }
    revealed.insert(x, y);
    let mut stack: Vec<(usize, usize)> = vec![(x, y)];
    while stack.len() > 0
        invariant
            revealed.wf(),
            revealed.w() == wi,
            revealed.h() == hi,
            minefield.wf(),
            flagged.wf(),
            mines == minefield@,
            fl == flagged@,
            w == wi,
            h == hi,
            minefield.w() == wi,
            minefield.h() == hi,
            flagged.w() == wi,
            flagged.h() == hi,
            rect(wi, hi).finite(),
            casc == cascade(mines, r0, fl, wi, hi, start),
            r0.subset_of(revealed@),
            revealed@.contains(start),
            forall|c: (int, int)| #[trigger] revealed@.contains(c) && !r0.contains(c) ==> casc.contains(c),
            forall|i: int| 0 <= i < stack@.len() ==> {
                let e = (#[trigger] stack@[i].0 as int, stack@[i].1 as int);
                &&& revealed@.contains(e)
                &&& !r0.contains(e)
                &&& in_bounds(wi, hi, e)
            },
            forall|c: (int, int)| #[trigger] revealed@.contains(c) && !r0.contains(c) && !on_stack(stack@, c)
                ==> closed_at(mines, r0, fl, wi, hi, revealed@, c),
        decreases rect(wi, hi).difference(revealed@).len(), stack@.len(),
    {
        let ghost st0 = stack@;
        let ghost rv0 = revealed@;
        let (cx, cy) = stack.pop().unwrap();
        let ghost c = (cx as int, cy as int);
        assert((st0[st0.len() - 1].0 as int, st0[st0.len() - 1].1 as int) == c);
        assert(stack@ =~= st0.drop_last());
        let safe = !minefield.grid.contains(cx, cy);
        let around = count_around(&minefield.grid, cx, cy);
        let flags = count_around(flagged, cx, cy);
        let spreading = safe && (around == 0 || flags == around);
        assert(spreading == propagates(mines, fl, c));
        if spreading {
            let mut k: usize = 0;
            while k < 8
                invariant
                    revealed.wf(),
                    revealed.w() == wi,
                    revealed.h() == hi,
                    minefield.wf(),
                    flagged.wf(),
                    mines == minefield@,
                    fl == flagged@,
                    w == wi,
                    h == hi,
                    minefield.w() == wi,
                    minefield.h() == hi,
                    flagged.w() == wi,
                    flagged.h() == hi,
                    rect(wi, hi).finite(),
                    casc == cascade(mines, r0, fl, wi, hi, start),
                    k <= 8,
                    cx < w,
                    cy < h,
                    c == (cx as int, cy as int),
                    propagates(mines, fl, c),
                    casc.contains(c),
                    rv0.subset_of(revealed@),
                    rv0.contains(c),
                    r0.subset_of(revealed@),
                    revealed@.contains(start),
                    stack@.len() >= st0.len() - 1,
                    forall|i: int| 0 <= i < st0.len() - 1 ==> stack@[i] == st0[i],
                    forall|i: int| st0.len() - 1 <= i < stack@.len() ==> !rv0.contains(
                        (#[trigger] stack@[i].0 as int, stack@[i].1 as int),
                    ),
                    rect(wi, hi).difference(revealed@).len() + (stack@.len() - (st0.len() - 1)) <= rect(
                        wi,
                        hi,
                    ).difference(rv0).len(),
                    forall|c2: (int, int)| #[trigger] revealed@.contains(c2) && !r0.contains(c2) ==> casc.contains(c2),
                    forall|i: int| 0 <= i < stack@.len() ==> {
                        let e = (#[trigger] stack@[i].0 as int, stack@[i].1 as int);
                        &&& revealed@.contains(e)
                        &&& !r0.contains(e)
                        &&& in_bounds(wi, hi, e)
                    },
                    forall|j: int|
                        0 <= j < k ==> {
                            let b = #[trigger] neighbors(c)[j];
                            spreads(mines, fl, wi, hi, c, b) && eligible(r0, fl, wi, hi, b) ==> revealed@.contains(b)
                        },
                    forall|c2: (int, int)| #[trigger] rv0.contains(c2) && !r0.contains(c2) && !on_stack(st0, c2)
                        ==> closed_at(mines, r0, fl, wi, hi, revealed@, c2),
                    forall|c2: (int, int)| #[trigger] revealed@.contains(c2) && !rv0.contains(c2) ==> on_stack(
                        stack@,
                        c2,
                    ),
                decreases 8 - k,
            {
                let ghost rv1 = revealed@;
                let ghost stk1 = stack@;
                match neighbor(w, h, cx, cy, k) {
                    Some((nx, ny)) => {
                        if !minefield.grid.contains(nx, ny) && !revealed.contains(nx, ny)
                            && !flagged.contains(nx, ny) {
                            let ghost b = (nx as int, ny as int);
                            proof {
                                lemma_neighbors_are_neighbors(c);
                                assert(spreads(mines, fl, wi, hi, c, b));
                                lemma_cascade_extend(mines, r0, fl, wi, hi, start, c, b);
                            }
                            revealed.insert(nx, ny);
                            stack.push((nx, ny));
                            proof {
                                assert(rect(wi, hi).difference(revealed@) =~= rect(wi, hi).difference(
                                    rv1,
                                ).remove(b));
                                assert forall|c2: (int, int)| #[trigger] rv0.contains(c2) && !r0.contains(c2)
                                    && !on_stack(st0, c2) implies closed_at(
                                    mines,
                                    r0,
                                    fl,
                                    wi,
                                    hi,
                                    revealed@,
                                    c2,
                                ) by {
                                    assert(closed_at(mines, r0, fl, wi, hi, rv1, c2));
                                }
                                assert forall|c2: (int, int)| #[trigger] revealed@.contains(c2) && !rv0.contains(
                                    c2,
                                ) implies on_stack(stack@, c2) by {
                                    if c2 == b {
                                        assert((stack@[stack@.len() - 1].0 as int, stack@[stack@.len()
                                            - 1].1 as int) == b);
                                    } else {
                                        assert(on_stack(stk1, c2));
                                        let i = choose|i: int|
                                            0 <= i < stk1.len() && (#[trigger] stk1[i].0 as int, stk1[i].1 as int)
                                                == c2;
                                        assert(stack@[i] == stk1[i]);
                                    }
                                }
                            }
                        }
                    },
                    None => {},
                }
                k = k + 1;
            }
            proof {
                lemma_neighbors_are_neighbors(c);
                assert forall|b: (int, int)| #[trigger] spreads(mines, fl, wi, hi, c, b) && eligible(
                    r0,
                    fl,
                    wi,
                    hi,
                    b,
                ) implies revealed@.contains(b) by {
                    let j = choose|j: int| 0 <= j < 8 && neighbors(c)[j] == b;
                    assert(neighbors(c)[j] == b);
                }
            }
        }
        proof {
            assert forall|c2: (int, int)| #[trigger] revealed@.contains(c2) && !r0.contains(c2) && !on_stack(
                stack@,
                c2,
            ) implies closed_at(mines, r0, fl, wi, hi, revealed@, c2) by {
                if c2 != c && on_stack(st0, c2) {
                    let i = choose|i: int| 0 <= i < st0.len() && (#[trigger] st0[i].0 as int, st0[i].1 as int) == c2;
                    assert(i < st0.len() - 1);
                    assert((stack@[i].0 as int, stack@[i].1 as int) == c2);
                }
                if c2 == c && !spreading {
                    assert forall|b: (int, int)| #[trigger] spreads(mines, fl, wi, hi, c, b) && eligible(
                        r0,
                        fl,
                        wi,
                        hi,
                        b,
                    ) implies revealed@.contains(b) by {}
                }
            }
        }
    }
    proof {
        lemma_cascade_covered(mines, r0, fl, wi, hi, start, revealed@);
        assert(revealed@ =~= revealed_after(mines, r0, fl, wi, hi, start));
    }
}

/// Flags the in-grid hidden cell `(x, y)`, or takes its flag away; a revealed
/// cell or one off the grid is left as it is.
pub fn toggle_flag(flagged: &mut CellSet, revealed: &CellSet, x: usize, y: usize)
    requires
        old(flagged).wf(),
        revealed.wf(),
        revealed.w() == old(flagged).w(),
        revealed.h() == old(flagged).h(),
    ensures
        final(flagged).wf(),
        final(flagged).w() == old(flagged).w(),
        final(flagged).h() == old(flagged).h(),
        !in_bounds(old(flagged).w() as int, old(flagged).h() as int, (x as int, y as int))
            || revealed@.contains((x as int, y as int)) ==> final(flagged)@ == old(flagged)@,
        in_bounds(old(flagged).w() as int, old(flagged).h() as int, (x as int, y as int))
            && !revealed@.contains((x as int, y as int)) ==> {
            if old(flagged)@.contains((x as int, y as int)) {
                final(flagged)@ == old(flagged)@.remove((x as int, y as int))
            } else {
                final(flagged)@ == old(flagged)@.insert((x as int, y as int))
            }
        },
{
    if x >= flagged.width() || y >= flagged.height() || revealed.contains(x, y) {
        return;
    }
    if flagged.contains(x, y) {
        flagged.remove(x, y);
    } else {
        flagged.insert(x, y);
    }
}

/// The cell at row-major position `i` of a grid of width `w`.
pub open spec fn cell_at(w: int, i: int) -> (int, int) {
    (i % w, i / w)
}

proof fn lemma_cell_at(w: int, h: int, i: int)
    requires
        0 < w,
        0 <= i < w * h,
    ensures
        in_bounds(w, h, cell_at(w, i)),
        cell_at(w, i).1 * w + cell_at(w, i).0 == i,
{
    lemma_fundamental_div_mod(i, w);
    assert(0 <= i % w < w) by {
        vstd::arithmetic::div_mod::lemma_mod_bound(i, w);
    }
    assert(0 <= i / w) by {
        vstd::arithmetic::div_mod::lemma_div_pos_is_pos(i, w);
    }
    let q = i / w;
    assert(q < h) by (nonlinear_arith)
        requires
            i == w * q + i % w,
            0 <= i % w,
            i < w * h,
            0 < w,
    ;
    assert(w * (i / w) == (i / w) * w) by (nonlinear_arith);
}

/// A field with a mine at the cell of each row-major position in `picks`.
/// With distinct positions there are as many mines as positions.
pub fn place_mines(width: usize, height: usize, picks: &Vec<usize>) -> (r: Result<
    Minefield,
    MinefieldError,
>)
    ensures
        width * height > usize::MAX ==> r == Err::<Minefield, MinefieldError>(
            MinefieldError::TooLarge,
        ),
        width * height <= usize::MAX && (exists|j: int|
            0 <= j < picks@.len() && #[trigger] picks@[j] >= width * height) ==> r == Err::<
            Minefield,
            MinefieldError,
        >(MinefieldError::OutOfBounds),
        width * height <= usize::MAX && (forall|j: int|
            0 <= j < picks@.len() ==> #[trigger] picks@[j] < width * height) ==> r is Ok,
        r matches Ok(m) ==> {
            &&& m.wf()
            &&& m.w() == width
            &&& m.h() == height
            &&& forall|c: (int, int)| #[trigger] m@.contains(c) <==> exists|j: int|
                0 <= j < picks@.len() && cell_at(width as int, picks@[j] as int) == c
            &&& picks@.no_duplicates() ==> m@.len() == picks@.len()
        },
{
    let n = match width.checked_mul(height) {
        None => {
            return Err(MinefieldError::TooLarge);
        },
        Some(n) => n,
    };
    let mut grid = CellSet::new(width, height);
    let mut distinct = true;
    let mut i: usize = 0;
    while i < picks.len()
        invariant
            grid.wf(),
            grid.w() == width,
            grid.h() == height,
            n == width * height,
            i <= picks@.len(),
            forall|j: int| 0 <= j < i ==> #[trigger] picks@[j] < n,
            grid@.finite(),
            distinct ==> picks@.subrange(0, i as int).no_duplicates(),
            distinct ==> grid@.len() == i,
            !distinct ==> !picks@.no_duplicates(),
            forall|c: (int, int)| #[trigger] grid@.contains(c) <==> exists|j: int|
                0 <= j < i && cell_at(width as int, picks@[j] as int) == c,
        decreases picks@.len() - i,
    {
        let k = picks[i];
        if k >= n {
            return Err(MinefieldError::OutOfBounds);
        }
        let x = k % width;
        let y = k / width;
        let ghost c = (x as int, y as int);
        let ghost g0 = grid@;
        proof {
            lemma_cell_at(width as int, height as int, k as int);
        }
        let fresh = !grid.contains(x, y);
        proof {
            if !fresh {
                let j = choose|j: int| 0 <= j < i && cell_at(width as int, picks@[j] as int) == c;
                lemma_cell_at(width as int, height as int, picks@[j] as int);
                assert(picks@[j] == picks@[i as int]);
            }
        }
        grid.insert(x, y);
        proof {
            assert forall|e: (int, int)| #[trigger] grid@.contains(e) <==> exists|j: int|
                0 <= j < i + 1 && cell_at(width as int, picks@[j] as int) == e by {
                if e == c {
                    assert(cell_at(width as int, picks@[i as int] as int) == e);
                } else if grid@.contains(e) {
                    assert(g0.contains(e));
                } else if exists|j: int| 0 <= j < i + 1 && cell_at(width as int, picks@[j] as int) == e {
                    let j = choose|j: int| 0 <= j < i + 1 && cell_at(width as int, picks@[j] as int) == e;
                    assert(j < i);
                    assert(g0.contains(e));
                }
            }
        }
        if distinct && !fresh {
            distinct = false;
        }
        proof {
            if distinct {
                let sub = picks@.subrange(0, i + 1);
                let pre = picks@.subrange(0, i as int);
                assert forall|j: int, l: int|
                    0 <= j < sub.len() && 0 <= l < sub.len() && j != l implies #[trigger] sub[j]
                    != #[trigger] sub[l] by {
                    if j < i && l < i {
                        assert(pre[j] == sub[j] && pre[l] == sub[l]);
                    } else if j < i {
                        assert(g0.contains(cell_at(width as int, picks@[j] as int)));
                    } else {
                        assert(g0.contains(cell_at(width as int, picks@[l] as int)));
                    }
                }
            }
        }
        i = i + 1;
    }
    proof {
        assert(picks@.subrange(0, picks@.len() as int) =~= picks@);
    }
    Ok(Minefield { grid })
}

/// Lays `mines` mines on a `width` x `height` grid, on distinct cells drawn
/// from `rng`, each layout as likely as any other.
pub fn generate_minefield(width: usize, height: usize, mines: usize, rng: &mut rand::rngs::StdRng) -> (r:
    Result<Minefield, MinefieldError>)
    ensures
        width * height > usize::MAX ==> r == Err::<Minefield, MinefieldError>(
            MinefieldError::TooLarge,
        ),
        width * height <= usize::MAX && mines > width * height ==> r == Err::<
            Minefield,
            MinefieldError,
        >(MinefieldError::TooManyMines),
        width * height <= usize::MAX && mines <= width * height ==> r is Ok,
        r matches Ok(m) ==> {
            &&& m.wf()
            &&& m.w() == width
            &&& m.h() == height
            &&& m@.finite()
            &&& m@.len() == mines
        },
{
    let n = match width.checked_mul(height) {
        None => {
            return Err(MinefieldError::TooLarge);
        },
        Some(n) => n,
    };
    if mines > n {
        return Err(MinefieldError::TooManyMines);
    }
    let picks = sample_indices(rng, n, mines);
    proof {
        assert(picks@.no_duplicates());
    }
    let r = place_mines(width, height, &picks);
    proof {
        if r is Ok {
            r->Ok_0.lemma_wf();
        }
    }
    r
}

proof fn lemma_count_remove(s: Set<(int, int)>, q: Seq<(int, int)>, b: (int, int))
    requires
        q.no_duplicates(),
    ensures
        count_in(s, q) == count_in(s.remove(b), q) + if s.contains(b) && q.contains(b) {
            1nat
        } else {
            0nat
        },
    decreases q.len(),
{
    if q.len() > 0 {
        let p = q.drop_last();
        assert(p.no_duplicates());
        lemma_count_remove(s, p, b);
        if q.last() == b {
            assert(!p.contains(b));
        } else {
            if q.contains(b) {
                let i = choose|i: int| 0 <= i < q.len() && q[i] == b;
                assert(p[i] == b);
            }
            if p.contains(b) {
                let i = choose|i: int| 0 <= i < p.len() && p[i] == b;
                assert(q[i] == b);
            }
        }
    }
}

/// A mine next to `a` is counted at `a` exactly once, and removing any other
/// cell leaves the count as it is; being neighbours goes both ways.
pub proof fn lemma_neighbor_mine_counted(mines: Set<(int, int)>, a: (int, int), b: (int, int))
    requires
        is_neighbor(a, b),
    ensures
        mines_around(mines, a) == mines_around(mines.remove(b), a) + if mines.contains(b) {
            1nat
        } else {
            0nat
        },
        is_neighbor(b, a),
{
    lemma_neighbors_are_neighbors(a);
    let q = neighbors(a);
    assert(q.no_duplicates());
    let k = choose|k: int| 0 <= k < 8 && neighbors(a)[k] == b;
    assert(q.contains(b));
    lemma_count_remove(mines, q, b);
}

/// Revealing a cell a second time, with the same mines and flags, changes
/// nothing.
pub proof fn lemma_reveal_idempotent(
    mines: Set<(int, int)>,
    revealed: Set<(int, int)>,
    flagged: Set<(int, int)>,
    w: int,
    h: int,
    start: (int, int),
)
    ensures
        ({
            let once = revealed_after(mines, revealed, flagged, w, h, start);
            revealed_after(mines, once, flagged, w, h, start) == once
        }),
{
    let once = revealed_after(mines, revealed, flagged, w, h, start);
    lemma_cascade_start(mines, revealed, flagged, w, h, start);
    lemma_cascade_start(mines, once, flagged, w, h, start);
    if eligible(revealed, flagged, w, h, start) {
        assert(once.contains(start));
    } else {
        assert(once =~= revealed);
    }
    assert(revealed_after(mines, once, flagged, w, h, start) =~= once);
}

} // verus!
