use vstd::prelude::*;
use crate::grid::{in_bounds, lemma_bounded_finite, shift, CellSet, Direction};
use crate::rng::shuffle_moves;

verus! {

broadcast use vstd::seq_lib::group_seq_properties;

/// A room: a cell with both coordinates odd, inside the border.
pub open spec fn is_room(w: int, h: int, c: (int, int)) -> bool {
    &&& 1 <= c.0 <= w - 2
    &&& 1 <= c.1 <= h - 2
    &&& c.0 % 2 == 1
    &&& c.1 % 2 == 1
}

/// A wall that carving may open: a cell inside the border with exactly one
/// odd coordinate, lying between two rooms.
pub open spec fn is_wall(w: int, h: int, c: (int, int)) -> bool {
    &&& 1 <= c.0 <= w - 2
    &&& 1 <= c.1 <= h - 2
    &&& (c.0 % 2 == 1) != (c.1 % 2 == 1)
}

/// The two cells on either side of a wall, along the axis it separates.
pub open spec fn wall_sides(c: (int, int)) -> ((int, int), (int, int)) {
    if c.0 % 2 == 0 {
        ((c.0 - 1, c.1), (c.0 + 1, c.1))
    } else {
        ((c.0, c.1 - 1), (c.0, c.1 + 1))
    }
}

pub open spec fn rooms(w: int, h: int) -> Set<(int, int)> {
    Set::new(|c: (int, int)| is_room(w, h, c))
}

/// Two cells share a side.
pub open spec fn adjacent(a: (int, int), b: (int, int)) -> bool {
    ||| a.0 == b.0 && (a.1 - b.1 == 1 || b.1 - a.1 == 1)
    ||| a.1 == b.1 && (a.0 - b.0 == 1 || b.0 - a.0 == 1)
}

/// `p` is a walk through cells of `s`, each step to an adjacent cell.
pub open spec fn is_walk(s: Set<(int, int)>, p: Seq<(int, int)>) -> bool {
    &&& p.len() > 0
    &&& forall|i: int| 0 <= i < p.len() ==> s.contains(#[trigger] p[i])
    &&& forall|i: int| 0 <= i < p.len() - 1 ==> adjacent(#[trigger] p[i], p[i + 1])
}

/// A search through `s` that starts at `from` reaches `to`.
pub open spec fn reachable(s: Set<(int, int)>, from: (int, int), to: (int, int)) -> bool {
    exists|p: Seq<(int, int)>| #[trigger] is_walk(s, p) && p[0] == from && p.last() == to
}

/// The cells `c` of `s` whose neighbour at offset `d` is in `s` too; each such
/// cell stands for one adjacent pair.
pub open spec fn pairs_along(s: Set<(int, int)>, d: (int, int)) -> Set<(int, int)> {
    s.filter(|c: (int, int)| s.contains((c.0 + d.0, c.1 + d.1)))
}

/// The number of unordered pairs of cells of `s` that share a side.
pub open spec fn adjacent_pair_count(s: Set<(int, int)>) -> int {
    pairs_along(s, (1, 0)).len() as int + pairs_along(s, (0, 1)).len() as int
}

/// The shape every generated maze has: rooms all open, nothing else open but
/// walls between two open rooms.
pub open spec fn is_carved(w: int, h: int, s: Set<(int, int)>) -> bool {
    &&& forall|c: (int, int)| is_room(w, h, c) ==> #[trigger] s.contains(c)
    &&& forall|c: (int, int)| #[trigger] s.contains(c) ==> is_room(w, h, c) || is_wall(w, h, c)
}

proof fn lemma_pairs_insert(s: Set<(int, int)>, c: (int, int), d: (int, int))
    requires
        s.finite(),
        !s.contains(c),
        d != (0int, 0int),
    ensures
        pairs_along(s.insert(c), d).len() == pairs_along(s, d).len() + (if s.contains(
            (c.0 + d.0, c.1 + d.1),
        ) {
            1int
        } else {
            0int
        }) + (if s.contains((c.0 - d.0, c.1 - d.1)) {
            1int
        } else {
            0int
        }),
{
    let t = s.insert(c);
    let p = pairs_along(s, d);
    let back = (c.0 - d.0, c.1 - d.1);
    s.lemma_len_filter(|e: (int, int)| s.contains((e.0 + d.0, e.1 + d.1)));
    let p1 = if s.contains((c.0 + d.0, c.1 + d.1)) {
        p.insert(c)
    } else {
        p
    };
    let p2 = if s.contains(back) {
        p1.insert(back)
    } else {
        p1
    };
    assert(!p.contains(c));
    assert(!p.contains(back));
    assert(back != c);
    assert(pairs_along(t, d) =~= p2);
}

proof fn lemma_walk_grows(s: Set<(int, int)>, t: Set<(int, int)>, p: Seq<(int, int)>)
    requires
        is_walk(s, p),
        s.subset_of(t),
    ensures
        is_walk(t, p),
{
    assert forall|i: int| 0 <= i < p.len() implies t.contains(#[trigger] p[i]) by {
        assert(s.contains(p[i]));
    }
}

proof fn lemma_reachable_grows(s: Set<(int, int)>, t: Set<(int, int)>, from: (int, int), to: (int, int))
    requires
        reachable(s, from, to),
        s.subset_of(t),
    ensures
        reachable(t, from, to),
{
    let p = choose|p: Seq<(int, int)>| #[trigger] is_walk(s, p) && p[0] == from && p.last() == to;
    lemma_walk_grows(s, t, p);
}

proof fn lemma_reachable_step(s: Set<(int, int)>, from: (int, int), a: (int, int), b: (int, int))
    requires
        reachable(s, from, a),
        s.contains(b),
        adjacent(a, b),
    ensures
        reachable(s, from, b),
{
    let p = choose|p: Seq<(int, int)>| #[trigger] is_walk(s, p) && p[0] == from && p.last() == a;
    let q = p.push(b);
    assert(q[q.len() - 2] == a);
    assert(is_walk(s, q));
}


/// The neighbour room two steps from `c` in direction `d` is open, if there
/// is such a room.
spec fn handled(w: int, h: int, s: Set<(int, int)>, c: (int, int), d: Direction) -> bool {
    is_room(w, h, shift(shift(c, d), d)) ==> s.contains(shift(shift(c, d), d))
}

/// Every neighbour room of `c` is open.
spec fn finished(w: int, h: int, s: Set<(int, int)>, c: (int, int)) -> bool {
    forall|d: Direction| #[trigger] handled(w, h, s, c, d)
}

/// Nothing is open but rooms, and walls whose two rooms are open.
spec fn shape_inv(w: int, h: int, s: Set<(int, int)>) -> bool {
    &&& forall|c: (int, int)| #[trigger] s.contains(c) ==> is_room(w, h, c) || is_wall(w, h, c)
    &&& forall|c: (int, int)| #[trigger] s.contains(c) && is_wall(w, h, c) ==> s.contains(wall_sides(c).0) && s.contains(wall_sides(c).1)
}

/// Every open cell can be reached from `(1, 1)`.
pub open spec fn connected(s: Set<(int, int)>) -> bool {
    forall|c: (int, int)| #[trigger] s.contains(c) ==> reachable(s, (1int, 1int), c)
}

/// What holds of the open cells at every step of carving from `(1, 1)`.
#[verifier::opaque]
spec fn carving_inv(w: int, h: int, s: Set<(int, int)>) -> bool {
    &&& s.finite()
    &&& s.contains((1int, 1int))
    &&& shape_inv(w, h, s)
    &&& connected(s)
    &&& adjacent_pair_count(s) == s.len() - 1
}

proof fn lemma_carve_start(w: int, h: int)
    requires
        3 <= w,
        3 <= h,
    ensures
        carving_inv(w, h, Set::empty().insert((1int, 1int))),
{
    reveal(carving_inv);
    let s = Set::empty().insert((1int, 1int));
    assert forall|c: (int, int)| #[trigger] s.contains(c) implies reachable(s, (1int, 1int), c) by {
        let p = seq![(1int, 1int)];
        assert(is_walk(s, p));
    }
    assert(pairs_along(s, (1, 0)) =~= Set::empty());
    assert(pairs_along(s, (0, 1)) =~= Set::empty());
}

/// Where the wall and the room beyond it lie, and which of their neighbours
/// are open.
proof fn lemma_carve_geometry(w: int, h: int, s: Set<(int, int)>, c: (int, int), d: Direction)
    requires
        shape_inv(w, h, s),
        is_room(w, h, c),
        s.contains(c),
        is_room(w, h, shift(shift(c, d), d)),
        !s.contains(shift(shift(c, d), d)),
    ensures
        is_wall(w, h, shift(c, d)),
        !is_room(w, h, shift(c, d)),
        !s.contains(shift(c, d)),
        wall_sides(shift(c, d)) == (c, shift(shift(c, d), d)) || wall_sides(shift(c, d)) == (
            shift(shift(c, d), d),
            c,
        ),
        adjacent(c, shift(c, d)),
        adjacent(shift(c, d), shift(shift(c, d), d)),
        ({
            let wl = shift(c, d);
            &&& s.contains((wl.0 + 1, wl.1)) == ((wl.0 + 1, wl.1) == c)
            &&& s.contains((wl.0 - 1, wl.1)) == ((wl.0 - 1, wl.1) == c)
            &&& s.contains((wl.0, wl.1 + 1)) == ((wl.0, wl.1 + 1) == c)
            &&& s.contains((wl.0, wl.1 - 1)) == ((wl.0, wl.1 - 1) == c)
        }),
        ({
            let r = shift(shift(c, d), d);
            &&& !s.contains((r.0 + 1, r.1))
            &&& !s.contains((r.0 - 1, r.1))
            &&& !s.contains((r.0, r.1 + 1))
            &&& !s.contains((r.0, r.1 - 1))
        }),
{
    let wl = shift(c, d);
    let r = shift(wl, d);
    let e1 = (r.0 + 1, r.1);
    let e2 = (r.0 - 1, r.1);
    let e3 = (r.0, r.1 + 1);
    let e4 = (r.0, r.1 - 1);
    if s.contains(e1) {
        assert(is_wall(w, h, e1));
    }
    if s.contains(e2) {
        assert(is_wall(w, h, e2));
    }
    if s.contains(e3) {
        assert(is_wall(w, h, e3));
    }
    if s.contains(e4) {
        assert(is_wall(w, h, e4));
    }
    let f1 = (wl.0 + 1, wl.1);
    let f2 = (wl.0 - 1, wl.1);
    let f3 = (wl.0, wl.1 + 1);
    let f4 = (wl.0, wl.1 - 1);
    if s.contains(f1) {
        assert(is_room(w, h, f1) || is_wall(w, h, f1));
    }
    if s.contains(f2) {
        assert(is_room(w, h, f2) || is_wall(w, h, f2));
    }
    if s.contains(f3) {
        assert(is_room(w, h, f3) || is_wall(w, h, f3));
    }
    if s.contains(f4) {
        assert(is_room(w, h, f4) || is_wall(w, h, f4));
    }
    if s.contains(wl) {
        assert(is_wall(w, h, wl));
    }
}

proof fn lemma_carve_count(w: int, h: int, s: Set<(int, int)>, c: (int, int), d: Direction)
    requires
        s.finite(),
        adjacent_pair_count(s) == s.len() - 1,
        shape_inv(w, h, s),
        is_room(w, h, c),
        s.contains(c),
        is_room(w, h, shift(shift(c, d), d)),
        !s.contains(shift(shift(c, d), d)),
    ensures
        ({
            let t = s.insert(shift(c, d)).insert(shift(shift(c, d), d));
            &&& t.finite()
            &&& adjacent_pair_count(t) == t.len() - 1
        }),
{
    lemma_carve_geometry(w, h, s, c, d);
    let wl = shift(c, d);
    let r = shift(wl, d);
    let s1 = s.insert(wl);
    lemma_pairs_insert(s, wl, (1, 0));
    lemma_pairs_insert(s, wl, (0, 1));
    assert(!s1.contains(r));
    lemma_pairs_insert(s1, r, (1, 0));
    lemma_pairs_insert(s1, r, (0, 1));
}

proof fn lemma_carve_connected(s: Set<(int, int)>, c: (int, int), wl: (int, int), r: (int, int))
    requires
        connected(s),
        s.contains(c),
        adjacent(c, wl),
        adjacent(wl, r),
    ensures
        connected(s.insert(wl).insert(r)),
{
    let s2 = s.insert(wl).insert(r);
    assert(s.subset_of(s2));
    lemma_reachable_grows(s, s2, (1int, 1int), c);
    lemma_reachable_step(s2, (1int, 1int), c, wl);
    lemma_reachable_step(s2, (1int, 1int), wl, r);
    assert forall|e: (int, int)| #[trigger] s2.contains(e) implies reachable(s2, (1int, 1int), e) by {
        if s.contains(e) {
            lemma_reachable_grows(s, s2, (1int, 1int), e);
        }
    }
}

/// Opening the wall `shift(c, d)` and the closed room beyond it keeps the
/// invariant of carving.
proof fn lemma_carve_step(w: int, h: int, s: Set<(int, int)>, c: (int, int), d: Direction)
    requires
        carving_inv(w, h, s),
        is_room(w, h, c),
        s.contains(c),
        is_room(w, h, shift(shift(c, d), d)),
        !s.contains(shift(shift(c, d), d)),
    ensures
        carving_inv(w, h, s.insert(shift(c, d)).insert(shift(shift(c, d), d))),
        !s.contains(shift(c, d)),
        !is_room(w, h, shift(c, d)),
{
    reveal(carving_inv);
    let wl = shift(c, d);
    let r = shift(wl, d);
    let s2 = s.insert(wl).insert(r);
    lemma_carve_geometry(w, h, s, c, d);
    lemma_carve_count(w, h, s, c, d);
    lemma_carve_connected(s, c, wl, r);
    assert forall|e: (int, int)| #[trigger] s2.contains(e) && is_wall(w, h, e) implies s2.contains(
        wall_sides(e).0,
    ) && s2.contains(wall_sides(e).1) by {
        if e != wl && e != r {
            assert(s.contains(e));
        }
    }
}

proof fn lemma_room_open(w: int, h: int, s: Set<(int, int)>, c: (int, int))
    requires
        s.contains((1int, 1int)),
        forall|e: (int, int)| #[trigger] s.contains(e) && is_room(w, h, e) ==> finished(w, h, s, e),
        is_room(w, h, c),
    ensures
        s.contains(c),
    decreases c.0 + c.1,
{
    if c == (1int, 1int) {
    } else if c.0 > 1 {
        let b = (c.0 - 2, c.1);
        lemma_room_open(w, h, s, b);
        assert(handled(w, h, s, b, Direction::Right));
    } else {
        let b = (c.0, c.1 - 2);
        lemma_room_open(w, h, s, b);
        assert(handled(w, h, s, b, Direction::Down));
    }
}

/// Why a maze of the asked size cannot be made.
#[derive(Clone, Copy, Debug, PartialEq, Eq, Structural)]
pub enum MazeError {
    /// A side is shorter than 3 cells.
    TooSmall,
    /// A side has an even number of cells.
    EvenSize,
    /// The grid has more cells than a `usize` counts.
    TooLarge,
}

/// A perfect maze: its open cells form a tree that spans every room.
pub struct Maze {
    open: CellSet,
}

impl View for Maze {
    type V = Set<(int, int)>;

    closed spec fn view(&self) -> Set<(int, int)> {
        self.open@
    }
}

impl Maze {
    pub closed spec fn w(&self) -> nat {
        self.open.w()
    }

    pub closed spec fn h(&self) -> nat {
        self.open.h()
    }

    pub closed spec fn wf(&self) -> bool {
        &&& self.open.wf()
        &&& self.open.w() >= 3
        &&& self.open.h() >= 3
    }

    pub fn width(&self) -> (r: usize)
        ensures
            r == self.w(),
    {
        self.open.width()
    }

    pub fn height(&self) -> (r: usize)
        ensures
            r == self.h(),
    {
        self.open.height()
    }

    /// Whether `(x, y)` is an open cell; `false` outside the grid.
    pub fn is_open(&self, x: i64, y: i64) -> (r: bool)
        requires
            self.wf(),
        ensures
            r == self@.contains((x as int, y as int)),
    {
        proof {
            self.open.lemma_wf();
        }
        if x < 0 || y < 0 {
            false
        } else if x as u64 >= self.open.width() as u64 || y as u64 >= self.open.height() as u64 {
            false
        } else {
            self.open.contains(x as usize, y as usize)
        }
    }

    /// Where a player starts: the first room.
    pub fn start(&self) -> (r: (i64, i64))
        ensures
            r == (1i64, 1i64),
    {
        (1, 1)
    }

    /// Where a player heads: the room in the far corner.
    pub fn target(&self) -> (r: (i64, i64))
        requires
            self.wf(),
            self.w() >= 2,
            self.h() >= 2,
        ensures
            r.0 == self.w() - 2,
            r.1 == self.h() - 2,
    {
        proof {
            self.open.lemma_wf();
            assert(self.w() <= usize::MAX) by (nonlinear_arith)
                requires
                    self.w() * self.h() <= usize::MAX,
                    self.h() >= 2,
            ;
            assert(self.h() <= usize::MAX) by (nonlinear_arith)
                requires
                    self.w() * self.h() <= usize::MAX,
                    self.w() >= 2,
            ;
            assert(self.w() * 2 <= usize::MAX) by (nonlinear_arith)
                requires
                    self.w() * self.h() <= usize::MAX,
                    self.h() >= 2,
            ;
            assert(self.h() * 2 <= usize::MAX) by (nonlinear_arith)
                requires
                    self.w() * self.h() <= usize::MAX,
                    self.w() >= 2,
            ;
            assert(usize::MAX <= u64::MAX);
        }
        ((self.open.width() - 2) as i64, (self.open.height() - 2) as i64)
    }

    /// A player at `pos` moving in direction `d`: the next cell if it is open,
    /// else `pos` again.
    pub fn move_player(&self, pos: (i64, i64), d: Direction) -> (r: (i64, i64))
        requires
            self.wf(),
        ensures
            self@.contains(shift((pos.0 as int, pos.1 as int), d)) ==> (r.0 as int, r.1 as int)
                == shift((pos.0 as int, pos.1 as int), d),
            !self@.contains(shift((pos.0 as int, pos.1 as int), d)) ==> r == pos,
    {
        proof {
            self.open.lemma_wf();
        }
        let next = step(pos, d);
        match next {
            Some((nx, ny)) => {
                assert((nx as int, ny as int) == shift((pos.0 as int, pos.1 as int), d));
                let open = self.is_open(nx, ny);
                assert(open == self@.contains(shift((pos.0 as int, pos.1 as int), d)));
                if open {
                    let res = (nx, ny);
                    assert((res.0 as int, res.1 as int) == shift((pos.0 as int, pos.1 as int), d));
                    res
                } else {
                    pos
                }
            },
            None => {
                proof {
                    let c = shift((pos.0 as int, pos.1 as int), d);
                    if self@.contains(c) {
                        assert(in_bounds(self.w() as int, self.h() as int, c));
                        assert(self.w() * 3 <= usize::MAX) by (nonlinear_arith)
                            requires
                                self.w() * self.h() <= usize::MAX,
                                self.h() >= 3,
                        ;
                        assert(self.h() * 3 <= usize::MAX) by (nonlinear_arith)
                            requires
                                self.w() * self.h() <= usize::MAX,
                                self.w() >= 3,
                        ;
                        assert(usize::MAX <= u64::MAX);
                    }
                }
                pos
            },
        }
    }
}

/// The cell next to `pos` in direction `d`, when `i64` holds it.
fn step(pos: (i64, i64), d: Direction) -> (r: Option<(i64, i64)>)
    ensures
        r matches Some(n) ==> (n.0 as int, n.1 as int) == shift((pos.0 as int, pos.1 as int), d),
        r is None ==> {
            let c = shift((pos.0 as int, pos.1 as int), d);
            c.0 < i64::MIN || c.0 > i64::MAX || c.1 < i64::MIN || c.1 > i64::MAX
        },
{
    let (x, y) = pos;
    match d {
        Direction::Up => if y > i64::MIN {
            Some((x, y - 1))
        } else {
            None
        },
        Direction::Down => if y < i64::MAX {
            Some((x, y + 1))
        } else {
            None
        },
        Direction::Left => if x > i64::MIN {
            Some((x - 1, y))
        } else {
            None
        },
        Direction::Right => if x < i64::MAX {
            Some((x + 1, y))
        } else {
            None
        },
    }
}

/// One room on the carving stack, with its moves in the order it tries them
/// and how many it has tried.
struct Frame {
    x: usize,
    y: usize,
    moves: Vec<Direction>,
    next: usize,
}

spec fn frame_cell(f: Frame) -> (int, int) {
    (f.x as int, f.y as int)
}

spec fn frame_ok(w: int, h: int, s: Set<(int, int)>, f: Frame) -> bool {
    &&& is_room(w, h, frame_cell(f))
    &&& s.contains(frame_cell(f))
    &&& f.moves@.len() == 4
    &&& forall|d: Direction| #[trigger] f.moves@.contains(d)
    &&& f.next <= 4
    &&& forall|j: int| 0 <= j < f.next ==> #[trigger] handled(w, h, s, frame_cell(f), f.moves@[j])
}

spec fn on_stack(st: Seq<Frame>, c: (int, int)) -> bool {
    exists|i: int| 0 <= i < st.len() && #[trigger] frame_cell(st[i]) == c
}

spec fn top_pending(st: Seq<Frame>) -> int {
    if st.len() > 0 {
        st.last().moves@.len() - st.last().next
    } else {
        0
    }
}

proof fn lemma_frames_grow(w: int, h: int, s0: Set<(int, int)>, s1: Set<(int, int)>, st: Seq<Frame>)
    requires
        s0.subset_of(s1),
        forall|i: int| 0 <= i < st.len() ==> #[trigger] frame_ok(w, h, s0, st[i]),
    ensures
        forall|i: int| 0 <= i < st.len() ==> #[trigger] frame_ok(w, h, s1, st[i]),
{
    assert forall|i: int| 0 <= i < st.len() implies #[trigger] frame_ok(w, h, s1, st[i]) by {
        let f = st[i];
        assert(frame_ok(w, h, s0, f));
        assert forall|j: int| 0 <= j < f.next implies #[trigger] handled(
            w,
            h,
            s1,
            frame_cell(f),
            f.moves@[j],
        ) by {
            assert(handled(w, h, s0, frame_cell(f), f.moves@[j]));
        }
    }
}

proof fn lemma_finished_grow(w: int, h: int, s0: Set<(int, int)>, s1: Set<(int, int)>, c: (int, int))
    requires
        s0.subset_of(s1),
        finished(w, h, s0, c),
    ensures
        finished(w, h, s1, c),
{
    assert forall|d: Direction| #[trigger] handled(w, h, s1, c, d) by {
        assert(handled(w, h, s0, c, d));
    }
}

/// A stack whose first cells are those of `st0` holds every cell `st0` holds.
proof fn lemma_on_stack_kept(st0: Seq<Frame>, st1: Seq<Frame>, c: (int, int))
    requires
        st0.len() <= st1.len(),
        forall|i: int| 0 <= i < st0.len() ==> frame_cell(#[trigger] st1[i]) == frame_cell(st0[i]),
        on_stack(st0, c),
    ensures
        on_stack(st1, c),
{
    let i = choose|i: int| 0 <= i < st0.len() && #[trigger] frame_cell(st0[i]) == c;
    assert(frame_cell(st1[i]) == c);
}

/// Dropping a frame that has tried all its moves leaves every open room off
/// the stack finished.
proof fn lemma_pop_finished(w: int, h: int, s: Set<(int, int)>, st0: Seq<Frame>)
    requires
        st0.len() > 0,
        frame_ok(w, h, s, st0.last()),
        st0.last().next >= st0.last().moves@.len(),
        forall|c: (int, int)| #[trigger] s.contains(c) && is_room(w, h, c) && !on_stack(st0, c) ==> finished(
            w,
            h,
            s,
            c,
        ),
    ensures
        forall|c: (int, int)| #[trigger] s.contains(c) && is_room(w, h, c) && !on_stack(st0.drop_last(), c)
            ==> finished(w, h, s, c),
{
    let f = st0.last();
    let c = frame_cell(f);
    assert forall|dd: Direction| #[trigger] handled(w, h, s, c, dd) by {
        assert(f.moves@.contains(dd));
        let j = choose|j: int| 0 <= j < f.moves@.len() && f.moves@[j] == dd;
        assert(handled(w, h, s, c, f.moves@[j]));
    }
    let st1 = st0.drop_last();
    assert forall|e: (int, int)| #[trigger] s.contains(e) && is_room(w, h, e) && !on_stack(st1, e) implies finished(
        w,
        h,
        s,
        e,
    ) by {
        if on_stack(st0, e) {
            let i = choose|i: int| 0 <= i < st0.len() && #[trigger] frame_cell(st0[i]) == e;
            if i < st0.len() - 1 {
                assert(frame_cell(st1[i]) == e);
            }
        }
    }
}

proof fn lemma_frame_advance(
    w: int,
    h: int,
    s0: Set<(int, int)>,
    s1: Set<(int, int)>,
    f0: Frame,
    f1: Frame,
    d: Direction,
)
    requires
        s0.subset_of(s1),
        frame_ok(w, h, s0, f0),
        f0.next < f0.moves@.len(),
        f0.moves@[f0.next as int] == d,
        f1.x == f0.x,
        f1.y == f0.y,
        f1.moves@ == f0.moves@,
        f1.next == f0.next + 1,
        handled(w, h, s1, frame_cell(f0), d),
    ensures
        frame_ok(w, h, s1, f1),
{
    assert forall|j: int| 0 <= j < f1.next implies #[trigger] handled(
        w,
        h,
        s1,
        frame_cell(f1),
        f1.moves@[j],
    ) by {
        if j < f0.next {
            assert(handled(w, h, s0, frame_cell(f0), f0.moves@[j]));
        }
    }
}

/// After the top frame tries a move, and the room beyond is pushed when it
/// was carved, every open room off the stack is still finished.
proof fn lemma_push_finished(
    w: int,
    h: int,
    s0: Set<(int, int)>,
    s1: Set<(int, int)>,
    st0: Seq<Frame>,
    st1: Seq<Frame>,
    carved: bool,
    r: (int, int),
)
    requires
        st0.len() > 0,
        s0.subset_of(s1),
        !carved ==> s1 == s0,
        carved ==> forall|e: (int, int)| #[trigger] s1.contains(e) && is_room(w, h, e) ==> s0.contains(e) || e == r,
        carved ==> st1.len() == st0.len() + 1 && frame_cell(st1[st0.len() as int]) == r,
        !carved ==> st1.len() == st0.len(),
        forall|i: int| 0 <= i < st0.len() - 1 ==> st1[i] == st0[i],
        frame_cell(st1[st0.len() - 1]) == frame_cell(st0[st0.len() - 1]),
        forall|c: (int, int)| #[trigger] s0.contains(c) && is_room(w, h, c) && !on_stack(st0, c) ==> finished(
            w,
            h,
            s0,
            c,
        ),
    ensures
        forall|c: (int, int)| #[trigger] s1.contains(c) && is_room(w, h, c) && !on_stack(st1, c) ==> finished(
            w,
            h,
            s1,
            c,
        ),
{
    assert forall|e: (int, int)| #[trigger] s1.contains(e) && is_room(w, h, e) && !on_stack(st1, e) implies finished(
        w,
        h,
        s1,
        e,
    ) by {
        if carved && e == r {
            assert(frame_cell(st1[st0.len() as int]) == e);
        } else {
            assert(s0.contains(e));
            if on_stack(st0, e) {
                assert forall|i: int| 0 <= i < st0.len() implies frame_cell(#[trigger] st1[i])
                    == frame_cell(st0[i]) by {
                    if i < st0.len() - 1 {
                        assert(st1[i] == st0[i]);
                    }
                }
                lemma_on_stack_kept(st0, st1, e);
            }
            lemma_finished_grow(w, h, s0, s1, e);
        }
    }
}

/// The four moves in a random order.
fn fresh_moves(rng: &mut rand::rngs::StdRng) -> (m: Vec<Direction>)
    ensures
        m@.len() == 4,
        forall|d: Direction| #[trigger] m@.contains(d),
{
    let mut m = vec![Direction::Down, Direction::Right, Direction::Up, Direction::Left];
    let ghost before = m@;
    assert forall|d: Direction| #[trigger] before.contains(d) by {
        match d {
            Direction::Down => assert(before[0] == d),
            Direction::Right => assert(before[1] == d),
            Direction::Up => assert(before[2] == d),
            Direction::Left => assert(before[3] == d),
        }
    }
    shuffle_moves(&mut m, rng);
    proof {
        m@.to_multiset_ensures();
        before.to_multiset_ensures();
        assert forall|d: Direction| #[trigger] m@.contains(d) by {
            assert(before.to_multiset().count(d) > 0);
        }
    }
    m
}

/// The wall next to room `(x, y)` in direction `d` and the room beyond it,
/// when that room lies inside the border.
fn room_beyond(w: usize, h: usize, x: usize, y: usize, d: Direction) -> (r: Option<
    (usize, usize, usize, usize),
>)
    requires
        is_room(w as int, h as int, (x as int, y as int)),
    ensures
        match r {
            Some((wx, wy, nx, ny)) => {
                &&& (wx as int, wy as int) == shift((x as int, y as int), d)
                &&& (nx as int, ny as int) == shift(shift((x as int, y as int), d), d)
                &&& is_room(w as int, h as int, (nx as int, ny as int))
            },
            None => !is_room(w as int, h as int, shift(shift((x as int, y as int), d), d)),
        },
{
    match d {
        Direction::Up => {
            if y >= 3 {
                Some((x, y - 1, x, y - 2))
            } else {
                None
            }
        },
        Direction::Down => {
            if h - y >= 4 {
                Some((x, y + 1, x, y + 2))
            } else {
                None
            }
        },
        Direction::Left => {
            if x >= 3 {
                Some((x - 1, y, x - 2, y))
            } else {
                None
            }
        },
        Direction::Right => {
            if w - x >= 4 {
                Some((x + 1, y, x + 2, y))
            } else {
                None
            }
        },
    }
}

/// Carves a perfect maze of `width` x `height` cells by a depth-first walk
/// over the rooms from `(1, 1)`, each room trying its four moves in an order
/// drawn from `rng`.
pub fn generate_maze(width: usize, height: usize, rng: &mut rand::rngs::StdRng) -> (r: Result<
    Maze,
    MazeError,
>)
    ensures
        width < 3 || height < 3 ==> r == Err::<Maze, MazeError>(MazeError::TooSmall),
        width >= 3 && height >= 3 && (width % 2 == 0 || height % 2 == 0) ==> r == Err::<
            Maze,
            MazeError,
        >(MazeError::EvenSize),
        width >= 3 && height >= 3 && width % 2 == 1 && height % 2 == 1 && width * height
            > usize::MAX ==> r == Err::<Maze, MazeError>(MazeError::TooLarge),
        width >= 3 && height >= 3 && width % 2 == 1 && height % 2 == 1 && width * height
            <= usize::MAX ==> r is Ok,
        r matches Ok(m) ==> {
            &&& m.wf()
            &&& m.w() == width
            &&& m.h() == height
            &&& is_carved(width as int, height as int, m@)
            &&& connected(m@)
            &&& adjacent_pair_count(m@) == m@.len() - 1
        },
{
    if width < 3 || height < 3 {
        return Err(MazeError::TooSmall);
    }
    if width % 2 == 0 || height % 2 == 0 {
        return Err(MazeError::EvenSize);
    }
    let cells_count = width.checked_mul(height);
    if cells_count.is_none() {
        return Err(MazeError::TooLarge);
    }
    let w = width;
    let h = height;
    let ghost wi = w as int;
    let ghost hi = h as int;
    let mut open = CellSet::new(w, h);
    open.insert(1, 1);
    proof {
        lemma_carve_start(wi, hi);
        assert(open@ =~= Set::empty().insert((1int, 1int)));
        lemma_bounded_finite(rooms(wi, hi), wi, hi);
    }
    let mut stack: Vec<Frame> = Vec::new();
    let first = fresh_moves(rng);
    stack.push(Frame { x: 1, y: 1, moves: first, next: 0 });
    proof {
        assert(frame_cell(stack@[0]) == (1int, 1int));
        assert forall|c: (int, int)| #[trigger] open@.contains(c) && is_room(wi, hi, c) implies on_stack(
            stack@,
            c,
        ) by {
            assert(c == (1int, 1int));
        }
    }
    while stack.len() > 0
        invariant
            open.wf(),
            open.w() == w,
            open.h() == h,
            wi == w,
            hi == h,
            3 <= w,
            3 <= h,
            rooms(wi, hi).finite(),
            carving_inv(wi, hi, open@),
            forall|i: int| 0 <= i < stack@.len() ==> #[trigger] frame_ok(wi, hi, open@, stack@[i]),
            forall|c: (int, int)| #[trigger] open@.contains(c) && is_room(wi, hi, c) && !on_stack(stack@, c)
                ==> finished(wi, hi, open@, c),
        decreases rooms(wi, hi).difference(open@).len(), stack@.len(), top_pending(stack@),
    {
        let ghost s0 = open@;
        let ghost st0 = stack@;
        let mut frame = stack.pop().unwrap();
        proof {
            assert(frame == st0.last());
            assert(frame_ok(wi, hi, s0, st0[st0.len() - 1]));
            assert(stack@ =~= st0.drop_last());
        }
        if frame.next < frame.moves.len() {
            let d = frame.moves[frame.next];
            let ghost c = frame_cell(frame);
            let ghost old_next = frame.next as int;
            frame.next = frame.next + 1;
            let beyond = room_beyond(w, h, frame.x, frame.y, d);
            let mut carve = false;
            let mut nx: usize = 0;
            let mut ny: usize = 0;
            match beyond {
                Some((wx, wy, p, q)) => {
                    if !open.contains(p, q) {
                        proof {
                            lemma_carve_step(wi, hi, s0, c, d);
                        }
                        open.insert(wx, wy);
                        open.insert(p, q);
                        proof {
                            assert(rooms(wi, hi).difference(open@) =~= rooms(wi, hi).difference(
                                s0,
                            ).remove((p as int, q as int)));
                        }
                        carve = true;
                        nx = p;
                        ny = q;
                    }
                },
                None => {},
            }
            let ghost s1 = open@;
            proof {
                assert(s0.subset_of(s1));
                assert(handled(wi, hi, s1, c, d));
                lemma_frames_grow(wi, hi, s0, s1, stack@);
                lemma_frame_advance(wi, hi, s0, s1, st0.last(), frame, d);
            }
            stack.push(frame);
            if carve {
                let moves = fresh_moves(rng);
                stack.push(Frame { x: nx, y: ny, moves, next: 0 });
            }
            proof {
                lemma_push_finished(wi, hi, s0, s1, st0, stack@, carve, (nx as int, ny as int));
            }
        } else {
            proof {
                lemma_pop_finished(wi, hi, s0, st0);
            }
        }
    }
    proof {
        let s = open@;
        reveal(carving_inv);
        assert forall|e: (int, int)| #[trigger] s.contains(e) && is_room(wi, hi, e) implies finished(
            wi,
            hi,
            s,
            e,
        ) by {
            assert(!on_stack(stack@, e));
        }
        assert forall|c: (int, int)| is_room(wi, hi, c) implies #[trigger] s.contains(c) by {
            lemma_room_open(wi, hi, s, c);
        }
    }
    Ok(Maze { open })
}

} // verus!
