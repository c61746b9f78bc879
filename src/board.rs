//! The transition model: blocks on a grid, chain pushes and arrows.
use vstd::prelude::*;

verus! {

/// The way a block faces, and so the way it travels when moved.
#[derive(Clone, Copy, PartialEq, Eq, Structural, Debug, Hash)]
pub enum Direction {
    Up,
    Down,
    Left,
    Right,
}

/// Largest absolute coordinate from which a block can still take one step.
pub const STEP_LIMIT: i64 = 0x7fff_ffff_ffff_fffe;

/// A block as a mathematical value: its cell and its facing.
pub struct Tile {
    pub x: int,
    pub y: int,
    pub dir: Direction,
}

/// One movable block: its cell and the direction it faces.
#[derive(Clone, Copy, Debug)]
pub struct Block {
    pub x: i64,
    pub y: i64,
    pub direction: Direction,
}

impl View for Block {
    type V = Tile;

    open spec fn view(&self) -> Tile {
        Tile { x: self.x as int, y: self.y as int, dir: self.direction }
    }
}

/// A fixed arrow painted on a cell.
#[derive(Clone, Copy, Debug)]
pub struct Arrow {
    pub x: i64,
    pub y: i64,
    pub direction: Direction,
}

/// The configuration that a vector of blocks stands for.
pub open spec fn tiles(s: Seq<Block>) -> Seq<Tile> {
    s.map_values(|b: Block| b@)
}

pub open spec fn dx(d: Direction) -> int {
    match d {
        Direction::Left => -1,
        Direction::Right => 1,
        _ => 0,
    }
}

pub open spec fn dy(d: Direction) -> int {
    match d {
        Direction::Up => 1,
        Direction::Down => -1,
        _ => 0,
    }
}

/// How far along direction `d` a tile stands.
pub open spec fn proj(t: Tile, d: Direction) -> int {
    match d {
        Direction::Right => t.x,
        Direction::Left => -t.x,
        Direction::Up => t.y,
        Direction::Down => -t.y,
    }
}

/// The arrow on cell (x, y), if any; a later arrow on a cell hides an earlier one.
pub open spec fn arrow_at(arrows: Seq<Arrow>, x: int, y: int) -> Option<Direction>
    decreases arrows.len(),
{
    if arrows.len() == 0 {
        None
    } else {
        let a = arrows.last();
        if a.x == x && a.y == y {
            Some(a.direction)
        } else {
            arrow_at(arrows.drop_last(), x, y)
        }
    }
}

/// A tile after one step along `d`, taking the facing of an arrow on the cell it enters.
pub open spec fn stepped(arrows: Seq<Arrow>, t: Tile, d: Direction) -> Tile {
    let nx = t.x + dx(d);
    let ny = t.y + dy(d);
    Tile {
        x: nx,
        y: ny,
        dir: match arrow_at(arrows, nx, ny) {
            Some(a) => a,
            None => t.dir,
        },
    }
}

/// The first index from `j` on, other than `i`, of a tile on the cell of tile `i`.
pub open spec fn collision_from(c: Seq<Tile>, i: int, j: int) -> Option<int>
    decreases c.len() - j,
{
    if j >= c.len() || j < 0 {
        None
    } else if j != i && c[j].x == c[i].x && c[j].y == c[i].y {
        Some(j)
    } else {
        collision_from(c, i, j + 1)
    }
}

/// The first other tile on the cell of tile `i`.
pub open spec fn collision(c: Seq<Tile>, i: int) -> Option<int> {
    collision_from(c, i, 0)
}

/// How many tiles stand further than `t` along `d`.
pub open spec fn count_ahead(c: Seq<Tile>, t: int, d: Direction) -> nat
    decreases c.len(),
{
    if c.len() == 0 {
        0
    } else {
        count_ahead(c.drop_last(), t, d) + if proj(c.last(), d) > t {
            1nat
        } else {
            0nat
        }
    }
}

/// Tile `i` steps along `d`; a tile it lands on is pushed along the same `d`, and so on.
pub open spec fn push(arrows: Seq<Arrow>, c: Seq<Tile>, i: int, d: Direction) -> Seq<Tile>
    decreases count_ahead(c, proj(c[i], d), d),
    when 0 <= i < c.len()
    via push_decreases
{
    let c1 = c.update(i, stepped(arrows, c[i], d));
    match collision(c1, i) {
        Some(k) => push(arrows, c1, k, d),
        None => c1,
    }
}

/// The configuration after the block of index `i` is moved the way it faces.
pub open spec fn move_tiles(arrows: Seq<Arrow>, c: Seq<Tile>, i: int) -> Seq<Tile> {
    push(arrows, c, i, c[i].dir)
}

pub proof fn lemma_collision_from(c: Seq<Tile>, i: int, j: int)
    ensures
        match collision_from(c, i, j) {
            Some(k) => j <= k < c.len() && 0 <= k && k != i && c[k].x == c[i].x && c[k].y
                == c[i].y && (forall|m: int|
                j <= m < k && m != i ==> !(c[m].x == c[i].x && c[m].y == c[i].y)),
            None => forall|m: int|
                0 <= j <= m < c.len() && m != i ==> !(c[m].x == c[i].x && c[m].y == c[i].y),
        },
    decreases c.len() - j,
{
    if j >= c.len() || j < 0 {
    } else if j != i && c[j].x == c[i].x && c[j].y == c[i].y {
    } else {
        lemma_collision_from(c, i, j + 1);
    }
}

pub proof fn lemma_count_mono(c1: Seq<Tile>, t1: int, c2: Seq<Tile>, t2: int, d: Direction, k: int)
    requires
        c1.len() == c2.len(),
        forall|j: int| 0 <= j < c1.len() && proj(c2[j], d) > t2 ==> proj(c1[j], d) > t1,
    ensures
        count_ahead(c2, t2, d) <= count_ahead(c1, t1, d),
        0 <= k < c1.len() && proj(c1[k], d) > t1 && proj(c2[k], d) <= t2 ==> count_ahead(c2, t2, d)
            < count_ahead(c1, t1, d),
    decreases c1.len(),
{
    if c1.len() > 0 {
        let n = c1.len() - 1;
        assert forall|j: int|
            0 <= j < n && proj(c2.drop_last()[j], d) > t2 implies proj(
                c1.drop_last()[j],
                d,
            ) > t1 by {
            assert(c2.drop_last()[j] == c2[j]);
            assert(c1.drop_last()[j] == c1[j]);
        }
        lemma_count_mono(c1.drop_last(), t1, c2.drop_last(), t2, d, k);
    }
}

#[via_fn]
proof fn push_decreases(arrows: Seq<Arrow>, c: Seq<Tile>, i: int, d: Direction) {
    if 0 <= i < c.len() {
        lemma_push_step(arrows, c, i, d);
    }
}

/// The tile that a step lands on stands one further along `d`, with fewer tiles ahead of it.
pub proof fn lemma_push_step(arrows: Seq<Arrow>, c: Seq<Tile>, i: int, d: Direction)
    requires
        0 <= i < c.len(),
    ensures
        ({
            let c1 = c.update(i, stepped(arrows, c[i], d));
            match collision(c1, i) {
                Some(k) => 0 <= k < c1.len() && k != i && proj(c1[k], d) == proj(c[i], d) + 1
                    && count_ahead(c1, proj(c1[k], d), d) < count_ahead(c, proj(c[i], d), d),
                None => true,
            }
        }),
{
    {
        let c1 = c.update(i, stepped(arrows, c[i], d));
        lemma_collision_from(c1, i, 0);
        match collision(c1, i) {
            Some(k) => {
                let t = proj(c[i], d);
                assert(proj(c1[i], d) == t + 1);
                assert(proj(c1[k], d) == t + 1);
                assert forall|j: int|
                    0 <= j < c.len() && proj(c1[j], d) > t + 1 implies proj(c[j], d) > t by {
                    if j == i {
                    } else {
                        assert(c1[j] == c[j]);
                    }
                }
                lemma_count_mono(c, t, c1, t + 1, d, k);
            },
            None => {},
        }
    }
}

/// A push keeps the number of tiles, and moves each tile at most one step along `d`,
/// leaving tiles behind the pushed one where they stood.
pub proof fn lemma_push_shape(arrows: Seq<Arrow>, c: Seq<Tile>, i: int, d: Direction)
    requires
        0 <= i < c.len(),
    ensures
        push(arrows, c, i, d).len() == c.len(),
        forall|j: int|
            #![trigger push(arrows, c, i, d)[j]]
            0 <= j < c.len() ==> {
                let r = push(arrows, c, i, d)[j];
                (r == c[j]) || (j == i || proj(c[j], d) > proj(c[i], d)) && r.x == c[j].x + dx(d)
                    && r.y == c[j].y + dy(d)
            },
    decreases count_ahead(c, proj(c[i], d), d),
{
    let c1 = c.update(i, stepped(arrows, c[i], d));
    lemma_collision_from(c1, i, 0);
    match collision(c1, i) {
        Some(k) => {
            lemma_push_step(arrows, c, i, d);
            lemma_push_shape(arrows, c1, k, d);
            let t = proj(c[i], d);
            assert(proj(c1[k], d) == t + 1);
            assert forall|j: int| 0 <= j < c.len() implies {
                let r = #[trigger] push(arrows, c, i, d)[j];
                (r == c[j]) || (j == i || proj(c[j], d) > proj(c[i], d)) && r.x == c[j].x + dx(d)
                    && r.y == c[j].y + dy(d)
            } by {
                let r = push(arrows, c1, k, d)[j];
                if j == i {
                    assert(r == c1[j]);
                } else {
                    assert(c1[j] == c[j]);
                }
            }
        },
        None => {},
    }
}

/// Both coordinates of `t` leave room for one more step.
pub open spec fn in_bound(t: Tile) -> bool {
    -STEP_LIMIT <= t.x <= STEP_LIMIT && -STEP_LIMIT <= t.y <= STEP_LIMIT
}

pub open spec fn abs(v: int) -> int {
    if v < 0 {
        -v
    } else {
        v
    }
}

/// The sum of the absolute differences of `a` and `b`, coordinate by coordinate.
pub open spec fn manhattan(a: Seq<i64>, b: Seq<i64>) -> int
    decreases a.len(),
{
    if a.len() == 0 {
        0
    } else {
        manhattan(a.drop_last(), b.drop_last()) + abs(a.last() - b.last())
    }
}

/// What one block adds to the distance to the goal.
pub open spec fn goal_term(t: Tile, g: Option<(i64, i64)>) -> int {
    match g {
        Some(p) => abs(t.x - p.0) + abs(t.y - p.1),
        None => 0,
    }
}

/// The summed distance of the first `n` blocks to their goals.
pub open spec fn distance(c: Seq<Tile>, goals: Seq<Option<(i64, i64)>>, n: int) -> int
    decreases n,
{
    if n <= 0 {
        0
    } else {
        distance(c, goals, n - 1) + goal_term(c[n - 1], goals[n - 1])
    }
}

/// The direction of the arrow on cell (x, y), if one is painted there.
pub fn arrow_lookup(arrows: &Vec<Arrow>, x: i64, y: i64) -> (r: Option<Direction>)
    ensures
        r == arrow_at(arrows@, x as int, y as int),
{
    let mut j: usize = arrows.len();
    assert(arrows@.subrange(0, j as int) =~= arrows@);
    while j > 0
        invariant
            j <= arrows.len(),
            arrow_at(arrows@, x as int, y as int) == arrow_at(
                arrows@.subrange(0, j as int),
                x as int,
                y as int,
            ),
        decreases j,
    {
        let a = arrows[j - 1];
        let ghost s = arrows@.subrange(0, j as int);
        assert(s.drop_last() =~= arrows@.subrange(0, j - 1));
        if a.x == x && a.y == y {
            return Some(a.direction);
        }
        j = j - 1;
    }
    None
}

/// The index of the first block, other than block `i`, on the cell of block `i`.
pub fn find_collision_with(squares: &Vec<Block>, i: usize) -> (r: Option<usize>)
    requires
        i < squares.len(),
    ensures
        match r {
            Some(k) => collision(tiles(squares@), i as int) == Some(k as int),
            None => collision(tiles(squares@), i as int) == None::<int>,
        },
{
    let ghost c = tiles(squares@);
    let b = squares[i];
    let mut j: usize = 0;
    while j < squares.len()
        invariant
            i < squares.len(),
            j <= squares.len(),
            c == tiles(squares@),
            b == squares@[i as int],
            collision(c, i as int) == collision_from(c, i as int, j as int),
        decreases squares.len() - j,
    {
        let other = squares[j];
        if j != i && other.x == b.x && other.y == b.y {
            return Some(j);
        }
        j = j + 1;
    }
    None
}

/// Pushes block `i` one cell along `d`, and with it every block it runs into.
pub fn push_square(squares: &mut Vec<Block>, arrows: &Vec<Arrow>, i: usize, d: Direction)
    requires
        i < old(squares).len(),
        in_bound(old(squares)@[i as int]@),
        forall|j: int|
            0 <= j < old(squares).len() && proj(old(squares)@[j]@, d) > proj(
                old(squares)@[i as int]@,
                d,
            ) ==> in_bound(#[trigger] old(squares)@[j]@),
    ensures
        tiles(final(squares)@) == push(arrows@, tiles(old(squares)@), i as int, d),
{
    let ghost target = push(arrows@, tiles(squares@), i as int, d);
    let mut cur: usize = i;
    loop
        invariant_except_break
            cur < squares.len(),
            push(arrows@, tiles(squares@), cur as int, d) == target,
            in_bound(squares@[cur as int]@),
            forall|j: int|
                0 <= j < squares.len() && proj(squares@[j]@, d) > proj(squares@[cur as int]@, d)
                    ==> in_bound(#[trigger] squares@[j]@),
        ensures
            tiles(squares@) == target,
        decreases count_ahead(tiles(squares@), proj(squares@[cur as int]@, d), d),
    {
        let ghost c = tiles(squares@);
        let b = squares[cur];
        let (nx, ny) = match d {
            Direction::Up => (b.x, b.y + 1),
            Direction::Down => (b.x, b.y - 1),
            Direction::Left => (b.x - 1, b.y),
            Direction::Right => (b.x + 1, b.y),
        };
        let nd = match arrow_lookup(arrows, nx, ny) {
            Some(a) => a,
            None => b.direction,
        };
        squares.set(cur, Block { x: nx, y: ny, direction: nd });
        let ghost c1 = c.update(cur as int, stepped(arrows@, c[cur as int], d));
        assert(tiles(squares@) =~= c1);
        proof {
            lemma_push_step(arrows@, c, cur as int, d);
        }
        match find_collision_with(squares, cur) {
            Some(k) => {
                assert(push(arrows@, c, cur as int, d) == push(arrows@, c1, k as int, d));
                assert forall|j: int|
                    0 <= j < squares.len() && proj(squares@[j]@, d) > proj(squares@[k as int]@, d)
                        implies in_bound(#[trigger] squares@[j]@) by {
                    assert(c1[j] == squares@[j]@);
                    if j != cur {
                        assert(c[j] == c1[j]);
                    }
                }
                assert(c1[k as int] == c[k as int]);
                cur = k;
            },
            None => {
                break ;
            },
        }
    }
}

/// A copy of `squares` with block `i` moved the way it faces.
pub fn move_square(squares: &Vec<Block>, arrows: &Vec<Arrow>, i: usize) -> (r: Vec<Block>)
    requires
        i < squares.len(),
        forall|j: int| 0 <= j < squares.len() ==> in_bound(#[trigger] squares@[j]@),
    ensures
        tiles(r@) == move_tiles(arrows@, tiles(squares@), i as int),
{
    let mut next = squares.clone();
    assert(next@ =~= squares@);
    let direction = next[i].direction;
    push_square(&mut next, arrows, i, direction);
    next
}

/// The Manhattan distance between two points of `N` coordinates.
pub fn manhattan_distance<const N: usize>(a: &[i64; N], b: &[i64; N]) -> (r: u128)
    ensures
        r == manhattan(a@, b@),
{
    let mut sum: u128 = 0;
    let mut i: usize = 0;
    while i < N
        invariant
            i <= N,
            a@.len() == N,
            b@.len() == N,
            sum == manhattan(a@.subrange(0, i as int), b@.subrange(0, i as int)),
            sum <= i * 0xffff_ffff_ffff_ffffu128,
        decreases N - i,
    {
        let diff: i128 = a[i] as i128 - b[i] as i128;
        let step: u128 = if diff < 0 {
            (-diff) as u128
        } else {
            diff as u128
        };
        assert(a@.subrange(0, i + 1).drop_last() =~= a@.subrange(0, i as int));
        assert(b@.subrange(0, i + 1).drop_last() =~= b@.subrange(0, i as int));
        assert(sum + step <= (i + 1) * 0xffff_ffff_ffff_ffffu128) by (nonlinear_arith)
            requires
                sum <= i * 0xffff_ffff_ffff_ffffu128,
                step <= 0xffff_ffff_ffff_ffffu128,
        ;
        assert((i + 1) * 0xffff_ffff_ffff_ffffu128 <= 0xffff_ffff_ffff_ffffu128
            * 0xffff_ffff_ffff_ffffu128) by (nonlinear_arith)
            requires
                i + 1 <= 0xffff_ffff_ffff_ffffu128,
        ;
        sum = sum + step;
        i = i + 1;
    }
    assert(a@.subrange(0, N as int) =~= a@);
    assert(b@.subrange(0, N as int) =~= b@);
    sum
}

/// Largest absolute coordinate that a distance to the goal is computed over.
pub const DISTANCE_LIMIT: i64 = 0x4000_0000_0000_0000;

pub open spec fn small(v: int) -> bool {
    -DISTANCE_LIMIT <= v <= DISTANCE_LIMIT
}

pub open spec fn small_goal(g: Option<(i64, i64)>) -> bool {
    match g {
        Some(p) => small(p.0 as int) && small(p.1 as int),
        None => true,
    }
}

/// The summed Manhattan distance of every block with a goal to that goal.
pub fn distance_to_goal(squares: &Vec<Block>, goals: &Vec<Option<(i64, i64)>>) -> (r: u128)
    requires
        squares.len() == goals.len(),
        forall|j: int|
            0 <= j < squares.len() ==> small(#[trigger] squares@[j].x as int) && small(
                squares@[j].y as int,
            ),
        forall|j: int| 0 <= j < goals.len() ==> small_goal(#[trigger] goals@[j]),
    ensures
        r == distance(tiles(squares@), goals@, squares.len() as int),
        r <= 0xffff_ffff_ffff_ffff_0000_0000_0000_0000u128,
{
    let mut sum: u128 = 0;
    let mut j: usize = 0;
    while j < squares.len()
        invariant
            j <= squares.len(),
            squares.len() == goals.len(),
            forall|m: int|
                0 <= m < squares.len() ==> small(#[trigger] squares@[m].x as int) && small(
                    squares@[m].y as int,
                ),
            forall|m: int| 0 <= m < goals.len() ==> small_goal(#[trigger] goals@[m]),
            sum == distance(tiles(squares@), goals@, j as int),
            sum <= j * 0x1_0000_0000_0000_0000u128,
            sum <= 0xffff_ffff_ffff_ffff_0000_0000_0000_0000u128,
        decreases squares.len() - j,
    {
        let b = squares[j];
        let mut term: u128 = 0;
        match goals[j] {
            Some(g) => {
                let here: [i64; 2] = [b.x, b.y];
                let there: [i64; 2] = [g.0, g.1];
                term = manhattan_distance(&here, &there);
                assert(here@.drop_last() =~= seq![b.x]);
                assert(there@.drop_last() =~= seq![g.0]);
                assert(seq![b.x].drop_last() =~= Seq::<i64>::empty());
                assert(seq![g.0].drop_last() =~= Seq::<i64>::empty());
                assert(manhattan(Seq::<i64>::empty(), Seq::<i64>::empty()) == 0);
                assert(seq![b.x].last() == b.x && seq![g.0].last() == g.0);
                assert(manhattan(seq![b.x], seq![g.0]) == abs(b.x - g.0));
                assert(here@.last() == b.y && there@.last() == g.1);
                assert(manhattan(here@, there@) == abs(b.x - g.0) + abs(b.y - g.1));
            },
            None => {},
        }
        assert(term == goal_term(tiles(squares@)[j as int], goals@[j as int]));
        assert(sum + term <= (j + 1) * 0x1_0000_0000_0000_0000u128) by (nonlinear_arith)
            requires
                sum <= j * 0x1_0000_0000_0000_0000u128,
                term <= 0x1_0000_0000_0000_0000u128,
        ;
        assert((j + 1) * 0x1_0000_0000_0000_0000u128 <= 0xffff_ffff_ffff_ffffu128
            * 0x1_0000_0000_0000_0000u128) by (nonlinear_arith)
            requires
                j + 1 <= 0xffff_ffff_ffff_ffffu128,
        ;
        sum = sum + term;
        j = j + 1;
    }
    sum
}

} // verus!
