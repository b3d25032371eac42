use vstd::prelude::*;
use std::collections::VecDeque;
use crate::grid::{shift, CellSet, Direction};
use crate::rng::random_in;

verus! {

/// A cell inside the walls of a `w` x `h` board.
pub open spec fn interior(w: int, h: int, c: (int, int)) -> bool {
    1 <= c.0 <= w - 2 && 1 <= c.1 <= h - 2
}

pub open spec fn cell_of(p: (i32, i32)) -> (int, int) {
    (p.0 as int, p.1 as int)
}

/// The cells a snake's body covers.
pub open spec fn cells_of(body: Seq<(i32, i32)>) -> Set<(int, int)> {
    Set::new(|c: (int, int)| exists|i: int| 0 <= i < body.len() && cell_of(#[trigger] body[i]) == c)
}

pub open spec fn opposite(d: Direction) -> Direction {
    match d {
        Direction::Up => Direction::Down,
        Direction::Down => Direction::Up,
        Direction::Left => Direction::Right,
        Direction::Right => Direction::Left,
    }
}

/// `a` comes before `b` when the board is scanned column by column.
pub open spec fn scanned_before(a: (int, int), b: (int, int)) -> bool {
    a.0 < b.0 || (a.0 == b.0 && a.1 < b.1)
}

/// `c` is the first free inner cell, scanning column by column.
pub open spec fn first_free(occupied: Set<(int, int)>, w: int, h: int, c: (int, int)) -> bool {
    &&& interior(w, h, c)
    &&& !occupied.contains(c)
    &&& forall|e: (int, int)|
        interior(w, h, e) && scanned_before(e, c) ==> #[trigger] occupied.contains(e)
}

/// A game of snake on a `width` x `height` board walled all round.
pub struct SnakeGame {
    snake: VecDeque<(i32, i32)>,
    occupied: CellSet,
    direction: Direction,
    food: (i32, i32),
    score: i32,
    width: i32,
    height: i32,
}

impl SnakeGame {
    /// The body, head first.
    pub closed spec fn body(&self) -> Seq<(i32, i32)> {
        self.snake@
    }

    pub closed spec fn dir(&self) -> Direction {
        self.direction
    }

    pub closed spec fn food_spec(&self) -> (i32, i32) {
        self.food
    }

    pub closed spec fn score_spec(&self) -> i32 {
        self.score
    }

    pub closed spec fn w(&self) -> int {
        self.width as int
    }

    pub closed spec fn h(&self) -> int {
        self.height as int
    }

    /// The body lies inside the walls without crossing itself, and so does
    /// the food.
    pub closed spec fn wf(&self) -> bool {
        &&& 3 <= self.width
        &&& 3 <= self.height
        &&& self.occupied.wf()
        &&& self.occupied.w() == self.width
        &&& self.occupied.h() == self.height
        &&& self.snake@.len() > 0
        &&& self.snake@.no_duplicates()
        &&& forall|i: int| 0 <= i < self.snake@.len() ==> interior(self.w(), self.h(), cell_of(#[trigger] self.snake@[i]))
        &&& self.occupied@ == cells_of(self.snake@)
        &&& interior(self.w(), self.h(), cell_of(self.food))
    }

    /// A snake of one cell in the middle of the board heading right, and food
    /// on an inner cell drawn from `rng`.
    pub fn new(width: i32, height: i32, rng: &mut rand::rngs::StdRng) -> (g: SnakeGame)
        requires
            3 <= width,
            3 <= height,
            width * height <= usize::MAX,
        ensures
            g.wf(),
            g.w() == width,
            g.h() == height,
            g.body().len() == 1,
            cell_of(g.body()[0]) == (width / 2, height / 2),
            g.dir() == Direction::Right,
            g.score_spec() == 0,
    {
        let food_x = random_in(rng, 1, width - 1);
        let food_y = random_in(rng, 1, height - 1);
        let center_x = width / 2;
        let center_y = height / 2;
        let mut snake: VecDeque<(i32, i32)> = VecDeque::new();
        snake.push_front((center_x, center_y));
        let mut occupied = CellSet::new(width as usize, height as usize);
        occupied.insert(center_x as usize, center_y as usize);
        let g = SnakeGame {
            snake,
            occupied,
            direction: Direction::Right,
            food: (food_x, food_y),
            score: 0,
            width,
            height,
        };
        proof {
            assert(g.snake@ =~= seq![(center_x, center_y)]);
            assert(g.occupied@ =~= cells_of(g.snake@)) by {
                assert(cell_of(g.snake@[0]) == (center_x as int, center_y as int));
            }
        }
        g
    }

    pub fn width(&self) -> (r: i32)
        ensures
            r == self.w(),
    {
        self.width
    }

    pub fn height(&self) -> (r: i32)
        ensures
            r == self.h(),
    {
        self.height
    }

    pub fn segments(&self) -> (r: &VecDeque<(i32, i32)>)
        ensures
            r@ == self.body(),
    {
        &self.snake
    }

    pub fn food(&self) -> (r: (i32, i32))
        ensures
            r == self.food_spec(),
    {
        self.food
    }

    pub fn score(&self) -> (r: i32)
        ensures
            r == self.score_spec(),
    {
        self.score
    }

    pub fn direction(&self) -> (r: Direction)
        ensures
            r == self.dir(),
    {
        self.direction
    }

    /// Whether the snake's head would hit a wall or its own body at `position`.
    fn is_collision(&self, position: &(i32, i32)) -> (r: bool)
        requires
            self.wf(),
        ensures
            r == (!interior(self.w(), self.h(), cell_of(*position)) || cells_of(self.body()).contains(
                cell_of(*position),
            )),
    {
        let (x, y) = *position;
        if x <= 0 || x >= self.width - 1 || y <= 0 || y >= self.height - 1 {
            true
        } else {
            self.occupied.contains(x as usize, y as usize)
        }
    }

    /// The first inner cell off the snake, scanning column by column.
    fn generate_food(&self) -> (r: Option<(i32, i32)>)
        requires
            self.wf(),
        ensures
            r matches Some(c) ==> first_free(cells_of(self.body()), self.w(), self.h(), cell_of(c)),
            r is None ==> forall|e: (int, int)|
                interior(self.w(), self.h(), e) ==> #[trigger] cells_of(self.body()).contains(e),
    {
        let ghost occ = cells_of(self.body());
        let mut x: i32 = 1;
        while x < self.width - 1
            invariant
                self.wf(),
                occ == cells_of(self.body()),
                1 <= x <= self.width - 1,
                forall|e: (int, int)|
                    interior(self.w(), self.h(), e) && e.0 < x ==> #[trigger] occ.contains(e),
            decreases self.width - x,
        {
            let mut y: i32 = 1;
            while y < self.height - 1
                invariant
                    self.wf(),
                    occ == cells_of(self.body()),
                    1 <= x < self.width - 1,
                    1 <= y <= self.height - 1,
                    forall|e: (int, int)|
                        interior(self.w(), self.h(), e) && (e.0 < x || (e.0 == x && e.1 < y))
                            ==> #[trigger] occ.contains(e),
                decreases self.height - y,
            {
                if !self.occupied.contains(x as usize, y as usize) {
                    return Some((x, y));
                }
                y = y + 1;
            }
            x = x + 1;
        }
        None
    }

    /// Moves the snake one cell in its direction. Returns `false`, changing
    /// nothing, when the head would hit a wall or the body. Otherwise the head
    /// moves on; on the food the snake grows by one, the score goes up by one
    /// (stopping at `i32::MAX`) and the food moves to the first free inner
    /// cell, if there is one; elsewhere the tail follows.
    pub fn update(&mut self) -> (r: bool)
        requires
            old(self).wf(),
        ensures
            final(self).wf(),
            final(self).w() == old(self).w(),
            final(self).h() == old(self).h(),
            final(self).dir() == old(self).dir(),
            ({
                let head = shift(cell_of(old(self).body()[0]), old(self).dir());
                let hit = !interior(old(self).w(), old(self).h(), head) || cells_of(
                    old(self).body(),
                ).contains(head);
                &&& r == !hit
                &&& hit ==> final(self).body() == old(self).body() && final(self).score_spec() == old(
                    self,
                ).score_spec() && final(self).food_spec() == old(self).food_spec()
                &&& !hit ==> cell_of(final(self).body()[0]) == head
                &&& !hit && head == cell_of(old(self).food_spec()) ==> {
                    &&& final(self).body().subrange(1, final(self).body().len() as int) == old(
                        self,
                    ).body()
                    &&& final(self).score_spec() == if old(self).score_spec() < i32::MAX {
                        old(self).score_spec() + 1
                    } else {
                        old(self).score_spec() as int
                    }
                    &&& (first_free(
                        cells_of(final(self).body()),
                        final(self).w(),
                        final(self).h(),
                        cell_of(final(self).food_spec()),
                    ) || (final(self).food_spec() == old(self).food_spec() && forall|e: (int, int)|
                        interior(final(self).w(), final(self).h(), e) ==> #[trigger] cells_of(
                            final(self).body(),
                        ).contains(e)))
                }
                &&& !hit && head != cell_of(old(self).food_spec()) ==> {
                    &&& final(self).body().subrange(1, final(self).body().len() as int) == old(
                        self,
                    ).body().drop_last()
                    &&& final(self).score_spec() == old(self).score_spec()
                    &&& final(self).food_spec() == old(self).food_spec()
                }
            }),
    {
        let ghost b0 = self.snake@;
        let (hx, hy) = self.snake[0];
        assert(interior(self.w(), self.h(), cell_of(b0[0])));
        let new_head = match self.direction {
            Direction::Up => (hx, hy - 1),
            Direction::Down => (hx, hy + 1),
            Direction::Left => (hx - 1, hy),
            Direction::Right => (hx + 1, hy),
        };
        assert(cell_of(new_head) == shift(cell_of(b0[0]), self.direction));
        if self.is_collision(&new_head) {
            return false;
        }
        self.occupied.insert(new_head.0 as usize, new_head.1 as usize);
        self.snake.push_front(new_head);
        let ghost b1 = self.snake@;
        proof {
            assert(b1.subrange(1, b1.len() as int) =~= b0);
            assert(!b0.contains(new_head)) by {
                if b0.contains(new_head) {
                    let i = choose|i: int| 0 <= i < b0.len() && b0[i] == new_head;
                    assert(cells_of(b0).contains(cell_of(b0[i])));
                }
            }
            assert(b1.no_duplicates()) by {
                assert forall|i: int, j: int| 0 <= i < b1.len() && 0 <= j < b1.len() && i != j implies b1[i]
                    != b1[j] by {
                    if i > 0 && j > 0 {
                        assert(b1[i] == b0[i - 1] && b1[j] == b0[j - 1]);
                    } else if i == 0 {
                        assert(b1[j] == b0[j - 1]);
                    } else {
                        assert(b1[i] == b0[i - 1]);
                    }
                }
            }
            assert(self.occupied@ =~= cells_of(b1)) by {
                assert forall|c: (int, int)| #[trigger] cells_of(b1).contains(c) implies self.occupied@.contains(
                    c,
                ) by {
                    let i = choose|i: int| 0 <= i < b1.len() && cell_of(#[trigger] b1[i]) == c;
                    if i > 0 {
                        assert(b1[i] == b0[i - 1]);
                        assert(cells_of(b0).contains(cell_of(b0[i - 1])));
                    }
                }
                assert forall|c: (int, int)| #[trigger] self.occupied@.contains(c) implies cells_of(b1).contains(
                    c,
                ) by {
                    if c == cell_of(new_head) {
                        assert(cell_of(b1[0]) == c);
                    } else {
                        assert(cells_of(b0).contains(c));
                        let i = choose|i: int| 0 <= i < b0.len() && cell_of(#[trigger] b0[i]) == c;
                        assert(b1[i + 1] == b0[i]);
                    }
                }
            }
            assert forall|i: int| 0 <= i < b1.len() implies interior(self.w(), self.h(), cell_of(
                #[trigger] b1[i],
            )) by {
                if i > 0 {
                    assert(b1[i] == b0[i - 1]);
                }
            }
        }
        if new_head.0 == self.food.0 && new_head.1 == self.food.1 {
            if self.score < i32::MAX {
                self.score = self.score + 1;
            }
            match self.generate_food() {
                Some(f) => {
                    self.food = f;
                },
                None => {},
            }
        } else {
            let tail = self.snake.pop_back().unwrap();
            let ghost b2 = self.snake@;
            proof {
                assert(tail == b1[b1.len() - 1]);
                assert(interior(self.w(), self.h(), cell_of(b1[b1.len() - 1])));
            }
            self.occupied.remove(tail.0 as usize, tail.1 as usize);
            proof {
                assert(b2.subrange(1, b2.len() as int) =~= b0.drop_last());
                assert(b2.len() > 0);
                assert(b2.no_duplicates()) by {
                    assert forall|i: int, j: int| 0 <= i < b2.len() && 0 <= j < b2.len() && i != j implies b2[i]
                        != b2[j] by {
                        assert(b2[i] == b1[i] && b2[j] == b1[j]);
                    }
                }
                assert(self.occupied@ =~= cells_of(b2)) by {
                    assert forall|c: (int, int)| #[trigger] cells_of(b2).contains(c) implies self.occupied@.contains(
                        c,
                    ) by {
                        let i = choose|i: int| 0 <= i < b2.len() && cell_of(#[trigger] b2[i]) == c;
                        assert(b2[i] == b1[i]);
                        assert(cells_of(b1).contains(cell_of(b1[i])));
                        assert(b1[i] != b1[b1.len() - 1]);
                    }
                    assert forall|c: (int, int)| #[trigger] self.occupied@.contains(c) implies cells_of(
                        b2,
                    ).contains(c) by {
                        assert(cells_of(b1).contains(c));
                        let i = choose|i: int| 0 <= i < b1.len() && cell_of(#[trigger] b1[i]) == c;
                        assert(i != b1.len() - 1);
                        assert(b2[i] == b1[i]);
                    }
                }
                assert forall|i: int| 0 <= i < b2.len() implies interior(self.w(), self.h(), cell_of(
                    #[trigger] b2[i],
                )) by {
                    assert(b2[i] == b1[i]);
                }
            }
        }
        true
    }

    /// Turns the snake to `new_direction`, unless that would reverse it.
    pub fn change_direction(&mut self, new_direction: Direction)
        requires
            old(self).wf(),
        ensures
            final(self).wf(),
            final(self).body() == old(self).body(),
            final(self).food_spec() == old(self).food_spec(),
            final(self).score_spec() == old(self).score_spec(),
            final(self).w() == old(self).w(),
            final(self).h() == old(self).h(),
            final(self).dir() == if new_direction == opposite(old(self).dir()) {
                old(self).dir()
            } else {
                new_direction
            },
    {
        let opposite_direction = match self.direction {
            Direction::Up => Direction::Down,
            Direction::Down => Direction::Up,
            Direction::Left => Direction::Right,
            Direction::Right => Direction::Left,
        };
        if new_direction != opposite_direction {
            self.direction = new_direction;
        }
    }
}

} // verus!
