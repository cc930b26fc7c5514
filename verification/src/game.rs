//! The board/game engine: the cell grid, the snake's body, the score and
//! the game-over flag, together with the per-tick movement, collision and
//! growth rules.

use vstd::prelude::*;

verus! {

/// One value per grid position, mutated in place as the snake moves.
#[derive(Clone, Copy, PartialEq, Eq, Structural, Debug)]
pub enum Cell {
    Plain,
    Snake,
    Wall,
    Food,
}

/// A tick input or a committed movement direction. `Keep` means "no new
/// input this tick, keep the previous direction".
#[derive(Clone, Copy, PartialEq, Eq, Structural, Debug)]
pub enum Direction {
    Up,
    Down,
    Left,
    Right,
    Keep,
}

/// The snake's body: an ordered double-ended sequence of board indices,
/// front = head, back = tail, plus the last committed direction.
#[derive(Debug)]
pub struct Snake {
    pub coordinates: std::collections::VecDeque<usize>,
    pub direction: Direction,
}

/// The whole game state: a flat row-major grid of `width * height` cells,
/// the snake, the score, the terminal game-over flag and the feeding mode.
#[derive(Debug)]
pub struct Game {
    pub cells: Vec<Cell>,
    pub width: usize,
    pub height: usize,
    pub snake: Snake,
    pub score: u32,
    pub game_over: bool,
    pub grow_on_eat: bool,
}

impl Game {
    /// Well-formedness: the grid has exactly `width * height` cells, the
    /// body is non-empty, its indices are in range and pairwise distinct,
    /// and the Snake-typed cells are exactly the body's cells.
    pub open spec fn inv(self) -> bool {
        let coords = self.snake.coordinates@;
        &&& self.cells@.len() == self.width * self.height
        &&& self.width >= 1
        &&& self.height >= 1
        &&& coords.len() >= 1
        &&& forall|i: int| 0 <= i < coords.len() ==> coords[i] < self.cells@.len()
        &&& forall|i: int, j: int|
            0 <= i < j < coords.len() ==> coords[i] != coords[j]
        &&& forall|i: int|
            0 <= i < coords.len() ==> self.cells@[coords[i] as int] == Cell::Snake
        &&& forall|j: int|
            0 <= j < self.cells@.len() && self.cells@[j] == Cell::Snake
                ==> coords.contains(j as usize)
    }
}

/// The 180-degree-reversal relation on directions.
pub open spec fn opposite(a: Direction, b: Direction) -> bool {
    ||| (a == Direction::Up && b == Direction::Down)
    ||| (a == Direction::Down && b == Direction::Up)
    ||| (a == Direction::Left && b == Direction::Right)
    ||| (a == Direction::Right && b == Direction::Left)
}

/// The direction-resolution rule for one tick. A body of length 1 accepts
/// any input verbatim, reversal included; a longer body rejects a
/// 180-degree reversal and keeps the current direction, and treats `Keep`
/// as "keep the current direction". A resolved `Keep` falls back to the
/// current direction, so the result is `Keep` only when both the current
/// direction and the input are `Keep`.
pub open spec fn resolve_direction(cur: Direction, input: Direction, body_len: nat) -> Direction {
    let d = if body_len > 1 {
        if opposite(cur, input) {
            cur
        } else if cur == Direction::Keep {
            input
        } else if input == Direction::Keep {
            cur
        } else {
            input
        }
    } else {
        input
    };
    if d == Direction::Keep {
        cur
    } else {
        d
    }
}

/// The column reached by one step from column `x` in direction `d`.
pub open spec fn step_x(x: int, d: Direction) -> int {
    match d {
        Direction::Left => x - 1,
        Direction::Right => x + 1,
        _ => x,
    }
}

/// The row reached by one step from row `y` in direction `d`.
pub open spec fn step_y(y: int, d: Direction) -> int {
    match d {
        Direction::Up => y - 1,
        Direction::Down => y + 1,
        _ => y,
    }
}

impl Game {
    /// The head's board index: the front of the body sequence.
    pub open spec fn spec_head(self) -> usize {
        self.snake.coordinates@[0]
    }

    /// The tail's board index: the back of the body sequence.
    pub open spec fn spec_tail(self) -> usize {
        self.snake.coordinates@.last()
    }

    /// The head's column.
    pub open spec fn head_x(self) -> int {
        self.spec_head() as int % self.width as int
    }

    /// The head's row.
    pub open spec fn head_y(self) -> int {
        self.spec_head() as int / self.width as int
    }

    /// Whether one step of the head in direction `d` leaves the grid.
    /// Running off the border ends the game; in the running code the
    /// out-of-range coordinate arises by unsigned wraparound and is caught
    /// by the same bounds comparison.
    pub open spec fn moves_out_of_bounds(self, d: Direction) -> bool {
        !(0 <= step_x(self.head_x(), d) < self.width as int && 0 <= step_y(self.head_y(), d)
            < self.height as int)
    }

    /// The board index one step of the head in direction `d` reaches,
    /// meaningful only when the step stays on the grid.
    pub open spec fn target_index(self, d: Direction) -> int {
        step_y(self.head_y(), d) * self.width + step_x(self.head_x(), d)
    }

    /// The direction this tick commits to, given the input.
    pub open spec fn resolved(self, input: Direction) -> Direction {
        resolve_direction(self.snake.direction, input, self.snake.coordinates@.len())
    }
}

/// Holds when `post` is `pre` with exactly one formerly Plain cell turned
/// into Food: the outcome of one successful food placement.
pub open spec fn is_food_placement(pre: Seq<Cell>, post: Seq<Cell>) -> bool {
    exists|i: int|
        0 <= i < pre.len() && pre[i] == Cell::Plain && post == pre.update(i, Cell::Food)
}

/// Holds when the board has at least one Plain cell, the precondition for
/// food placement to succeed.
pub open spec fn has_plain_cell(cells: Seq<Cell>) -> bool {
    exists|i: int| 0 <= i < cells.len() && cells[i] == Cell::Plain
}

/// The cell a freshly generated `width` by `height` board holds at flat
/// index `i`: the single starting snake segment at index `2 * width + 2`,
/// Wall on the outermost ring, Plain elsewhere. The snake segment is
/// written after the walls, so it takes precedence where the two overlap.
pub open spec fn new_cell(width: int, height: int, i: int) -> Cell {
    let x = i % width;
    let y = i / width;
    if i == 2 * width + 2 {
        Cell::Snake
    } else if x == 0 || x == width - 1 || y == 0 || y == height - 1 {
        Cell::Wall
    } else {
        Cell::Plain
    }
}

/// The freshly generated board before food placement.
pub open spec fn new_board(width: int, height: int) -> Seq<Cell> {
    Seq::new((width * height) as nat, |i: int| new_cell(width, height, i))
}

/// Whether flat index `i` lies on the outermost ring of a `width` by
/// `height` grid.
pub open spec fn on_border(width: int, height: int, i: int) -> bool {
    let x = i % width;
    let y = i / width;
    x == 0 || x == width - 1 || y == 0 || y == height - 1
}

/// Law: a freshly built board's full outermost ring is Wall, the snake
/// occupies exactly one cell, which lies off the ring, and exactly one
/// Food cell is present. On a grid only 3 wide or only 3 tall the fixed
/// starting index `2 * width + 2` itself lies on the ring, so those sizes
/// are left out here.
pub proof fn lemma_new_board_shape(width: int, height: int, cells: Seq<Cell>)
    requires
        width >= 4,
        height >= 4,
        width * height <= usize::MAX,
        is_food_placement(new_board(width, height), cells),
    ensures
        cells.len() == width * height,
        forall|i: int|
            0 <= i < cells.len() && on_border(width, height, i) ==> cells[i] == Cell::Wall,
        forall|i: int|
            0 <= i < cells.len() ==> (cells[i] == Cell::Snake <==> i == 2 * width + 2),
        !on_border(width, height, 2 * width + 2),
        exists|f: int| 0 <= f < cells.len() && cells[f] == Cell::Food,
        forall|f: int, j: int|
            0 <= f < cells.len() && 0 <= j < cells.len() && cells[f] == Cell::Food && cells[j]
                == Cell::Food ==> f == j,
{
    let base = new_board(width, height);
    let fi = choose|i: int|
        0 <= i < base.len() && base[i] == Cell::Plain && cells == base.update(i, Cell::Food);
    vstd::arithmetic::div_mod::lemma_fundamental_div_mod_converse(2 * width + 2, width, 2, 2);
    assert(!on_border(width, height, 2 * width + 2));
    assert(0 <= fi < cells.len() && cells[fi] == Cell::Food);
    assert forall|i: int|
        0 <= i < cells.len() && on_border(width, height, i) implies cells[i] == Cell::Wall by {
        assert(base[i] == Cell::Wall);
    }
}

/// Relies on rand::Rng::gen_range over `0..n`, which returns a uniform
/// sample from the range and panics only when the range is empty.
#[verifier::external_body]
fn random_index(n: usize) -> (r: usize)
    requires
        n >= 1,
    ensures
        r < n,
{
    rand::Rng::gen_range(&mut rand::thread_rng(), 0..n)
}

impl Game {
    /// Builds a fresh game: a `width` by `height` grid whose outermost
    /// ring is Wall and whose interior is Plain, a single-segment snake at
    /// index `2 * width + 2` heading Right, score 0, not over, and one
    /// Food cell placed on some Plain cell. Degenerate sizes below 3 by 3
    /// are ruled out by precondition.
    #[verifier::loop_isolation(false)]
    pub fn new(width: usize, height: usize, grow_on_eat: bool) -> (g: Game)
        requires
            width >= 3,
            height >= 3,
            width * height <= usize::MAX,
        ensures
            g.inv(),
            g.width == width,
            g.height == height,
            g.snake.coordinates@ == seq![(2 * width + 2) as usize],
            g.snake.direction == Direction::Right,
            g.score == 0,
            g.game_over == false,
            g.grow_on_eat == grow_on_eat,
            is_food_placement(new_board(width as int, height as int), g.cells@),
    {
        proof {
            assert(2 * width + 2 < width * height) by (nonlinear_arith)
                requires
                    width >= 3,
                    height >= 3,
            ;
        }
        let n = width * height;
        let mut cells: Vec<Cell> = Vec::new();
        let mut i: usize = 0;
        while i < n
            invariant
                i <= n,
                cells@.len() == i,
                forall|j: int|
                    0 <= j < i ==> cells@[j] == new_cell(width as int, height as int, j),
            decreases n - i,
        {
            let x = i % width;
            let y = i / width;
            let c = if i == 2 * width + 2 {
                Cell::Snake
            } else if x == 0 || x == width - 1 || y == 0 || y == height - 1 {
                Cell::Wall
            } else {
                Cell::Plain
            };
            cells.push(c);
            i = i + 1;
        }
        let snake_pos = 2 * width + 2;
        let mut coords = std::collections::VecDeque::new();
        coords.push_front(snake_pos);
        let mut game = Game {
            cells,
            width,
            height,
            snake: Snake { coordinates: coords, direction: Direction::Right },
            score: 0,
            game_over: false,
            grow_on_eat,
        };
        proof {
            assert(game.cells@ =~= new_board(width as int, height as int));
            let w = width as int;
            vstd::arithmetic::div_mod::lemma_fundamental_div_mod_converse(w + 1, w, 1, 1);
            assert(new_cell(width as int, height as int, w + 1) == Cell::Plain);
            assert(has_plain_cell(game.cells@));
            assert forall|j: int|
                0 <= j < game.cells@.len() && game.cells@[j] == Cell::Snake implies game
                .snake
                .coordinates@
                .contains(j as usize) by {
                assert(j == 2 * w + 2);
                assert(game.snake.coordinates@[0] == (2 * width + 2) as usize);
            }
            assert(game.inv());
        }
        game.place_food();
        game
    }

    /// Marks one Plain cell of the board as Food. The cell is chosen by
    /// rejection sampling over the whole grid; the sampling here is
    /// bounded, with a left-to-right scan as fallback, so the call always
    /// returns: on a board without any Plain cell — on which the unbounded
    /// sampling rule would never terminate — it leaves the board unchanged.
    #[verifier::loop_isolation(false)]
    pub fn place_food(&mut self)
        requires
            old(self).inv(),
        ensures
            final(self).inv(),
            final(self).width == old(self).width,
            final(self).height == old(self).height,
            final(self).snake.coordinates@ == old(self).snake.coordinates@,
            final(self).snake.direction == old(self).snake.direction,
            final(self).score == old(self).score,
            final(self).game_over == old(self).game_over,
            final(self).grow_on_eat == old(self).grow_on_eat,
            has_plain_cell(old(self).cells@) ==> is_food_placement(
                old(self).cells@,
                final(self).cells@,
            ),
            !has_plain_cell(old(self).cells@) ==> final(self).cells@ == old(self).cells@,
    {
        let n = self.cells.len();
        assert(n >= 1) by {
            assert(old(self).snake.coordinates@[0] < old(self).cells@.len());
        }
        let mut tries: usize = 0;
        while tries < n
            invariant
                *self == *old(self),
            decreases n - tries,
        {
            let idx = random_index(n);
            if self.cells[idx] == Cell::Plain {
                self.cells[idx] = Cell::Food;
                proof {
                    assert(self.cells@ == old(self).cells@.update(idx as int, Cell::Food));
                    lemma_food_keeps_inv(*old(self), *self, idx as int);
                }
                return;
            }
            tries = tries + 1;
        }
        let mut i: usize = 0;
        while i < n
            invariant
                *self == *old(self),
                i <= n,
                forall|j: int| 0 <= j < i ==> self.cells@[j] != Cell::Plain,
            decreases n - i,
        {
            if self.cells[i] == Cell::Plain {
                self.cells[i] = Cell::Food;
                proof {
                    assert(self.cells@ == old(self).cells@.update(i as int, Cell::Food));
                    lemma_food_keeps_inv(*old(self), *self, i as int);
                }
                return;
            }
            i = i + 1;
        }
    }
}

/// Whether the cell at target index `ni` ends the game: a Wall, or a
/// Snake segment other than the current tail. The tail vacates its cell
/// in the same tick, so moving onto it is allowed.
pub open spec fn hits_obstacle(pre: Game, ni: int) -> bool {
    let c = pre.cells@[ni];
    c == Cell::Wall || (c == Cell::Snake && ni != pre.spec_tail() as int)
}

/// The post-state of a tick that ends the game: the flag is set, the
/// direction is already committed, and nothing else changes.
pub open spec fn game_over_unchanged(pre: Game, post: Game) -> bool {
    &&& post.game_over == true
    &&& post.cells@ == pre.cells@
    &&& post.snake.coordinates@ == pre.snake.coordinates@
    &&& post.score == pre.score
}

/// The grid after an ordinary constant-length advance: the head cell is
/// marked Snake, the vacated tail cell reverts to Plain, and the head
/// marking is reapplied last, so the head cell is Snake-typed even when
/// the snake follows its own tail.
pub open spec fn advance_cells(cells: Seq<Cell>, ni: int, tail: usize) -> Seq<Cell> {
    cells.update(ni, Cell::Snake).update(tail as int, Cell::Plain).update(ni, Cell::Snake)
}

/// The grid after food placement on `mid`: one Plain cell turned to Food
/// when the board has one, otherwise unchanged.
pub open spec fn food_follow(mid: Seq<Cell>, post: Seq<Cell>) -> bool {
    &&& has_plain_cell(mid) ==> is_food_placement(mid, post)
    &&& !has_plain_cell(mid) ==> post == mid
}

/// The full movement/collision/growth rule of one tick taken on a live
/// game: how the post-state `post` relates to the pre-state `pre` under
/// input `input`.
pub open spec fn post_step(pre: Game, post: Game, input: Direction) -> bool {
    let d = pre.resolved(input);
    let ni = pre.target_index(d);
    let tail = pre.spec_tail();
    &&& post.snake.direction == d
    &&& post.snake.coordinates@.len() >= 1
    &&& if pre.moves_out_of_bounds(d) {
        game_over_unchanged(pre, post)
    } else if hits_obstacle(pre, ni) {
        game_over_unchanged(pre, post)
    } else if pre.cells@[ni] == Cell::Food {
        &&& post.score == pre.score + 1
        &&& post.game_over == false
        &&& if pre.grow_on_eat {
            &&& post.snake.coordinates@ == seq![ni as usize] + pre.snake.coordinates@
            &&& food_follow(pre.cells@.update(ni, Cell::Snake), post.cells@)
        } else {
            &&& post.snake.coordinates@ == seq![ni as usize]
                + pre.snake.coordinates@.drop_last()
            &&& food_follow(advance_cells(pre.cells@, ni, tail), post.cells@)
        }
    } else {
        &&& post.score == pre.score
        &&& post.game_over == false
        &&& post.snake.coordinates@ == seq![ni as usize] + pre.snake.coordinates@.drop_last()
        &&& post.cells@ == advance_cells(pre.cells@, ni, tail)
    }
}

/// Turning one Plain cell into Food touches no Snake cell, so the game
/// invariant survives the change.
proof fn lemma_food_keeps_inv(pre: Game, post: Game, idx: int)
    requires
        pre.inv(),
        0 <= idx < pre.cells@.len(),
        pre.cells@[idx] == Cell::Plain,
        post.cells@ == pre.cells@.update(idx, Cell::Food),
        post.width == pre.width,
        post.height == pre.height,
        post.snake.coordinates@ == pre.snake.coordinates@,
    ensures
        post.inv(),
        is_food_placement(pre.cells@, post.cells@),
{
    let coords = post.snake.coordinates@;
    assert forall|i: int| 0 <= i < coords.len() implies post.cells@[coords[i] as int]
        == Cell::Snake by {
        assert(pre.cells@[coords[i] as int] == Cell::Snake);
    }
    assert forall|j: int|
        0 <= j < post.cells@.len() && post.cells@[j] == Cell::Snake implies coords.contains(
        j as usize,
    ) by {
        assert(pre.cells@[j] == Cell::Snake);
    }
}

/// Position arithmetic: a flat index below `w * h` splits into a column
/// below `w` and a row below `h`.
proof fn lemma_xy_bounds(idx: int, w: int, h: int)
    requires
        0 <= idx < w * h,
        w >= 1,
        h >= 1,
    ensures
        0 <= idx % w < w,
        0 <= idx / w < h,
{
    vstd::arithmetic::div_mod::lemma_mod_bound(idx, w);
    vstd::arithmetic::div_mod::lemma_div_pos_is_pos(idx, w);
    vstd::arithmetic::div_mod::lemma_fundamental_div_mod(idx, w);
    if idx / w >= h {
        assert(w * (idx / w) >= w * h) by (nonlinear_arith)
            requires
                w >= 1,
                idx / w >= h,
        ;
        assert(false);
    }
}

/// A constant-length advance preserves the game invariant: the target
/// cell becomes the head, the vacated tail cell leaves the body, and no
/// other cell changes kind.
proof fn lemma_advance_inv(pre: Game, mid: Game, ni: usize)
    requires
        pre.inv(),
        ni < pre.cells@.len(),
        pre.cells@[ni as int] == Cell::Snake ==> ni == pre.spec_tail(),
        mid.width == pre.width,
        mid.height == pre.height,
        mid.snake.coordinates@ == seq![ni] + pre.snake.coordinates@.drop_last(),
        mid.cells@ == advance_cells(pre.cells@, ni as int, pre.spec_tail()),
    ensures
        mid.inv(),
{
    let c = pre.snake.coordinates@;
    let n = c.len() as int;
    let m = mid.snake.coordinates@;
    let tail = pre.spec_tail();
    assert(c[n - 1] == tail);
    assert forall|i: int| 0 <= i < n - 1 implies c[i] != ni by {
        if pre.cells@[ni as int] == Cell::Snake {
            assert(c[i] != c[n - 1]);
        } else {
            assert(pre.cells@[c[i] as int] == Cell::Snake);
        }
    }
    assert forall|i: int| 0 <= i < m.len() implies mid.cells@[m[i] as int] == Cell::Snake by {
        if i > 0 {
            assert(m[i] == c[i - 1]);
            assert(c[i - 1] != c[n - 1]);
            assert(pre.cells@[c[i - 1] as int] == Cell::Snake);
        }
    }
    assert forall|j: int|
        0 <= j < mid.cells@.len() && mid.cells@[j] == Cell::Snake implies m.contains(
        j as usize,
    ) by {
        if j == ni as int {
            assert(m[0] == ni);
        } else {
            broadcast use vstd::std_specs::vec::axiom_spec_len;

            assert(j < pre.cells.len());
            assert(j != tail as int);
            assert(pre.cells@[j] == Cell::Snake);
            assert(c.contains(j as usize));
            let k = choose|k: int| 0 <= k < n && c[k] == j as usize;
            assert(j == (j as usize) as int);
            assert(k != n - 1);
            assert(m[k + 1] == j as usize);
        }
    }
}

/// Growing onto a Food cell preserves the game invariant: the eaten cell
/// joins the body as the new head and every old segment stays where it
/// was.
proof fn lemma_grow_inv(pre: Game, mid: Game, ni: usize)
    requires
        pre.inv(),
        ni < pre.cells@.len(),
        pre.cells@[ni as int] == Cell::Food,
        mid.width == pre.width,
        mid.height == pre.height,
        mid.snake.coordinates@ == seq![ni] + pre.snake.coordinates@,
        mid.cells@ == pre.cells@.update(ni as int, Cell::Snake),
    ensures
        mid.inv(),
{
    let c = pre.snake.coordinates@;
    let m = mid.snake.coordinates@;
    assert forall|i: int| 0 <= i < c.len() implies c[i] != ni by {
        assert(pre.cells@[c[i] as int] == Cell::Snake);
    }
    assert forall|i: int| 0 <= i < m.len() implies mid.cells@[m[i] as int] == Cell::Snake by {
        if i > 0 {
            assert(m[i] == c[i - 1]);
            assert(pre.cells@[c[i - 1] as int] == Cell::Snake);
        }
    }
    assert forall|j: int|
        0 <= j < mid.cells@.len() && mid.cells@[j] == Cell::Snake implies m.contains(
        j as usize,
    ) by {
        if j == ni as int {
            assert(m[0] == ni);
        } else {
            broadcast use vstd::std_specs::vec::axiom_spec_len;

            assert(j < pre.cells.len());
            assert(pre.cells@[j] == Cell::Snake);
            assert(c.contains(j as usize));
            let k = choose|k: int| 0 <= k < c.len() && c[k] == j as usize;
            assert(j == (j as usize) as int);
            assert(m[k + 1] == j as usize);
        }
    }
}

impl Game {
    /// Advances the simulation by exactly one tick: resolves the input
    /// direction, moves the head one cell, applies the collision rule at
    /// the target, and the growth/feeding rule. A tick on a finished game
    /// changes nothing.
    #[verifier::rlimit(100)]
    #[verifier::spinoff_prover]
    pub fn update(&mut self, input: Direction)
        requires
            old(self).inv(),
            old(self).score < u32::MAX,
        ensures
            final(self).inv(),
            final(self).width == old(self).width,
            final(self).height == old(self).height,
            final(self).grow_on_eat == old(self).grow_on_eat,
            old(self).score <= final(self).score,
            old(self).game_over ==> *final(self) == *old(self),
            !old(self).game_over ==> post_step(*old(self), *final(self), input),
    {
        if self.game_over {
            return;
        }
        let ghost pre = *old(self);

        let mut new_dir = input;
        if self.snake.coordinates.len() > 1 {
            match (self.snake.direction, input) {
                (Direction::Up, Direction::Down)
                | (Direction::Down, Direction::Up)
                | (Direction::Left, Direction::Right)
                | (Direction::Right, Direction::Left) => {
                    new_dir = self.snake.direction;
                },
                (Direction::Keep, _) => {
                    new_dir = input;
                },
                (_, Direction::Keep) => {
                    new_dir = self.snake.direction;
                },
                _ => {},
            }
        }
        if new_dir == Direction::Keep {
            new_dir = self.snake.direction;
        }
        self.snake.direction = new_dir;
        proof {
            assert(new_dir == pre.resolved(input));
        }

        let head_idx = self.snake.coordinates[0];
        // read the length in executable code: it is a machine word, which
        // bounds every flat index the arithmetic below produces
        let grid_len = self.cells.len();
        proof {
            assert(grid_len == pre.cells@.len());
            assert(pre.snake.coordinates@[0] < pre.cells@.len());
            lemma_xy_bounds(head_idx as int, pre.width as int, pre.height as int);
        }
        let head_x = head_idx % self.width;
        let head_y = head_idx / self.width;

        let mut oob = false;
        let mut next_x = head_x;
        let mut next_y = head_y;
        match new_dir {
            Direction::Up => {
                if head_y == 0 {
                    oob = true;
                } else {
                    next_y = head_y - 1;
                }
            },
            Direction::Down => {
                next_y = head_y + 1;
            },
            Direction::Left => {
                if head_x == 0 {
                    oob = true;
                } else {
                    next_x = head_x - 1;
                }
            },
            Direction::Right => {
                next_x = head_x + 1;
            },
            Direction::Keep => {},
        }

        if oob || next_x >= self.width || next_y >= self.height {
            self.game_over = true;
            proof {
                assert(pre.moves_out_of_bounds(new_dir));
                assert(post_step(pre, *self, input));
            }
            return;
        }
        proof {
            assert(!pre.moves_out_of_bounds(new_dir));
            assert((next_y as int) * (pre.width as int) + (next_x as int) < (pre.width as int) * (
            pre.height as int)) by (nonlinear_arith)
                requires
                    next_x < pre.width,
                    next_y < pre.height,
            ;
        }
        let next_idx = next_y * self.width + next_x;
        proof {
            assert(next_idx as int == pre.target_index(new_dir));
        }

        let target = self.cells[next_idx];
        if target == Cell::Wall || target == Cell::Snake {
            let tail_idx = self.snake.coordinates[self.snake.coordinates.len() - 1];
            proof {
                assert(tail_idx == pre.spec_tail());
            }
            if next_idx == tail_idx {
                proof {
                    assert(!hits_obstacle(pre, next_idx as int));
                }
            } else {
                self.game_over = true;
                proof {
                    assert(hits_obstacle(pre, next_idx as int));
                    assert(post_step(pre, *self, input));
                }
                return;
            }
        }
        proof {
            assert(!hits_obstacle(pre, next_idx as int));
        }

        let is_food = target == Cell::Food;
        self.snake.coordinates.push_front(next_idx);
        self.cells[next_idx] = Cell::Snake;

        if is_food {
            self.score = self.score + 1;
            if self.grow_on_eat {
                proof {
                    lemma_grow_inv(pre, *self, next_idx);
                }
                self.place_food();
                proof {
                    assert(post_step(pre, *self, input));
                }
            } else {
                let tail = self.snake.coordinates.pop_back().unwrap();
                proof {
                    assert(tail == pre.spec_tail());
                    assert(tail < pre.cells@.len());
                    assert(self.snake.coordinates@ =~= seq![next_idx]
                        + pre.snake.coordinates@.drop_last());
                }
                self.cells[tail] = Cell::Plain;
                self.cells[next_idx] = Cell::Snake;
                proof {
                    assert(self.cells@ =~= advance_cells(
                        pre.cells@,
                        next_idx as int,
                        pre.spec_tail(),
                    ));
                    lemma_advance_inv(pre, *self, next_idx);
                }
                self.place_food();
                proof {
                    assert(post_step(pre, *self, input));
                }
            }
        } else {
            let tail = self.snake.coordinates.pop_back().unwrap();
            proof {
                assert(tail == pre.spec_tail());
                assert(tail < pre.cells@.len());
                assert(self.snake.coordinates@ =~= seq![next_idx]
                    + pre.snake.coordinates@.drop_last());
            }
            self.cells[tail] = Cell::Plain;
            self.cells[next_idx] = Cell::Snake;
            proof {
                assert(self.cells@ =~= advance_cells(
                    pre.cells@,
                    next_idx as int,
                    pre.spec_tail(),
                ));
                lemma_advance_inv(pre, *self, next_idx);
                assert(post_step(pre, *self, input));
            }
        }
    }
}

/// Law: on a live, in-bounds tick, a snake of length at least 2 moving
/// into the cell its own tail occupies does not end the game, while
/// moving into any other cell of its body does.
pub proof fn lemma_self_collision(pre: Game, post: Game, input: Direction)
    requires
        pre.inv(),
        !pre.game_over,
        pre.snake.coordinates@.len() >= 2,
        !pre.moves_out_of_bounds(pre.resolved(input)),
        pre.snake.coordinates@.contains(pre.target_index(pre.resolved(input)) as usize),
        0 <= pre.target_index(pre.resolved(input)) < pre.cells@.len(),
        post_step(pre, post, input),
    ensures
        post.game_over <==> pre.target_index(pre.resolved(input)) != pre.spec_tail() as int,
{
    broadcast use vstd::std_specs::vec::axiom_spec_len;

    let ni = pre.target_index(pre.resolved(input));
    assert(ni < pre.cells.len());
    assert(ni == (ni as usize) as int);
    let c = pre.snake.coordinates@;
    let k = choose|k: int| 0 <= k < c.len() && c[k] == ni as usize;
    assert(pre.cells@[c[k] as int] == Cell::Snake);
    assert(pre.cells@[ni] == Cell::Snake);
}

/// Law: eating food on a live, in-bounds tick raises the score by
/// exactly 1; in growth mode the body gains exactly one segment and every
/// old segment stays, in constant-length mode the body length is
/// unchanged.
pub proof fn lemma_eating(pre: Game, post: Game, input: Direction)
    requires
        pre.inv(),
        !pre.game_over,
        !pre.moves_out_of_bounds(pre.resolved(input)),
        0 <= pre.target_index(pre.resolved(input)) < pre.cells@.len(),
        pre.cells@[pre.target_index(pre.resolved(input))] == Cell::Food,
        post_step(pre, post, input),
    ensures
        post.score == pre.score + 1,
        !post.game_over,
        pre.grow_on_eat ==> post.snake.coordinates@.len() == pre.snake.coordinates@.len() + 1,
        pre.grow_on_eat ==> post.snake.coordinates@.skip(1) == pre.snake.coordinates@,
        !pre.grow_on_eat ==> post.snake.coordinates@.len() == pre.snake.coordinates@.len(),
{
    let ni = pre.target_index(pre.resolved(input));
    assert(!hits_obstacle(pre, ni));
    if pre.grow_on_eat {
        assert(post.snake.coordinates@.skip(1) =~= pre.snake.coordinates@);
    }
}

/// Law: a 180-degree reversal input is rejected by a snake of length at
/// least 2, which keeps its current direction, but is accepted verbatim
/// by a single-segment snake.
pub proof fn lemma_reversal_rejection(cur: Direction, input: Direction, body_len: nat)
    requires
        opposite(cur, input),
    ensures
        body_len >= 2 ==> resolve_direction(cur, input, body_len) == cur,
        body_len == 1 ==> resolve_direction(cur, input, body_len) == input,
{
}

/// Law: a live tick whose resolved direction would carry the head across
/// the grid bound ends the game on that tick and mutates no cell and no
/// body segment.
pub proof fn lemma_boundary(pre: Game, post: Game, input: Direction)
    requires
        pre.inv(),
        !pre.game_over,
        pre.moves_out_of_bounds(pre.resolved(input)),
        post_step(pre, post, input),
    ensures
        post.game_over,
        post.cells@ == pre.cells@,
        post.snake.coordinates@ == pre.snake.coordinates@,
        post.score == pre.score,
{
}

} // verus!
