//! The maze generator: randomized depth-first backtracking.
//!
//! Starting from a fully walled grid, the generator repeatedly carves a
//! passage from the current cell to a randomly chosen unvisited neighbor,
//! and backtracks along its path stack when no unvisited neighbor is left.
//! The run terminates with every cell visited and exactly
//! `width * height - 1` carved interior walls, every cell reachable from
//! the origin through open passages: a spanning tree of the grid.

use crate::counting::bool_grid;
use crate::counting::count_grid;
use crate::counting::count_row;
use crate::counting::lemma_count_grid_all_false;
use crate::counting::lemma_count_grid_nonneg;
use crate::counting::lemma_count_grid_push;
use crate::counting::lemma_count_grid_update;
use crate::counting::lemma_count_grid_zero;
use crate::counting::lemma_count_row_push;
use crate::counting::lemma_count_row_update;
use crate::grid::is_edge_side;
use crate::grid::neighbor_coord;
use crate::grid::Maze;
use crate::grid::Size;
use crate::grid::TileDirection;
use rand::Rng;
use rand::SeedableRng;
use vstd::prelude::*;

verus! {

#[verifier::external_type_specification]
#[verifier::external_body]
pub struct ExPcg64(rand_pcg::Lcg128Xsl64);

/// Relies on rand_core's `SeedableRng::seed_from_u64` for `rand_pcg::Pcg64`:
/// builds a pseudo-random generator from a 64-bit seed.  Nothing is assumed
/// about the values the generator will later produce.
#[verifier::external_body]
fn rng_from_seed(seed: u64) -> rand_pcg::Pcg64 {
    rand_pcg::Pcg64::seed_from_u64(seed)
}

/// Relies on rand's `Rng::gen_range` over the range `0..n`: every value it
/// returns lies below `n`.  The range is non-empty by the precondition, so
/// the call cannot panic; nothing is assumed about which value comes back.
#[verifier::external_body]
fn rand_below(rng: &mut rand_pcg::Pcg64, n: usize) -> (r: usize)
    requires
        n > 0,
    ensures
        r < n,
{
    rng.gen_range(0..n)
}

/// One step between adjacent cells `a` and `b` whose shared wall is open
/// (its stored flag cleared), so the step crosses no wall.
pub open spec fn step_open(m: Maze, a: (usize, usize), b: (usize, usize)) -> bool {
    exists|d: TileDirection|
        !m.spec_is_edge(a, d) && b == neighbor_coord(a, d) && !(#[trigger] m.wall_flag(a, d))
}

/// A walk through the maze from `a` to `b` that only crosses open walls.
pub open spec fn is_open_path(
    m: Maze,
    p: Seq<(usize, usize)>,
    a: (usize, usize),
    b: (usize, usize),
) -> bool {
    &&& p.len() > 0
    &&& p[0] == a
    &&& p.last() == b
    &&& forall|k: int| 0 <= k < p.len() ==> m.spec_valid_coord(#[trigger] p[k])
    &&& forall|k: int| 0 <= k < p.len() - 1 ==> step_open(m, #[trigger] p[k], p[k + 1])
}

/// Two cells are connected when some walk through open walls joins them.
pub open spec fn connected(m: Maze, a: (usize, usize), b: (usize, usize)) -> bool {
    exists|p: Seq<(usize, usize)>| is_open_path(m, p, a, b)
}

/// The canonical name of the wall carved at `(c, d)`: every interior wall
/// is the EAST or SOUTH wall of exactly one cell.
pub open spec fn norm_edge(c: (usize, usize), d: TileDirection) -> (
    (usize, usize),
    TileDirection,
) {
    match d {
        TileDirection::EAST => (c, TileDirection::EAST),
        TileDirection::SOUTH => (c, TileDirection::SOUTH),
        TileDirection::WEST => (neighbor_coord(c, TileDirection::WEST), TileDirection::EAST),
        TileDirection::NORTH => (neighbor_coord(c, TileDirection::NORTH), TileDirection::SOUTH),
    }
}

/// `es` lists the open interior walls of `m`, one entry per physical wall
/// under its canonical name, without repetition, and there are exactly
/// `width * height - 1` of them: the edge count of a spanning tree.
pub open spec fn tree_edges(m: Maze, es: Seq<((usize, usize), TileDirection)>) -> bool {
    &&& es.len() == m.size.width * m.size.height - 1
    &&& forall|k: int, l: int| 0 <= k < l < es.len() ==> es[k] != es[l]
    &&& forall|k: int|
        0 <= k < es.len() ==> {
            let (c, d) = #[trigger] es[k];
            &&& m.spec_valid_coord(c)
            &&& !m.spec_is_edge(c, d)
            &&& (d == TileDirection::EAST || d == TileDirection::SOUTH)
            &&& !m.wall_flag(c, d)
        }
    &&& forall|c: (usize, usize), d: TileDirection|
        m.spec_valid_coord(c) && (d == TileDirection::EAST || d == TileDirection::SOUTH)
            && !m.spec_is_edge(c, d) && !(#[trigger] m.wall_flag(c, d)) ==> es.contains((c, d))
}

/// What generation establishes: the open interior walls form a set of
/// exactly `width * height - 1` edges and every cell is connected to the
/// origin through them — a spanning tree over the grid of cells.
pub open spec fn spanning_maze(m: Maze) -> bool {
    &&& exists|es: Seq<((usize, usize), TileDirection)>| tree_edges(m, es)
    &&& forall|c: (usize, usize)|
        m.spec_valid_coord(c) ==> #[trigger] connected(m, (0usize, 0usize), c)
}

/// Pushing onto a sequence keeps every element it already contains.
proof fn lemma_push_contains<T>(s: Seq<T>, x: T, y: T)
    requires
        s.contains(y),
    ensures
        s.push(x).contains(y),
{
    let k = choose|k: int| 0 <= k < s.len() && s[k] == y;
    assert(s.push(x)[k] == y);
}

/// A path stays open when walls only change from enabled to disabled.
proof fn lemma_path_monotone(
    m1: Maze,
    m2: Maze,
    p: Seq<(usize, usize)>,
    a: (usize, usize),
    b: (usize, usize),
)
    requires
        is_open_path(m1, p, a, b),
        m2.size == m1.size,
        forall|c: (usize, usize), d: TileDirection|
            m1.spec_valid_coord(c) && !m1.spec_is_edge(c, d) && !(#[trigger] m1.wall_flag(c, d))
                ==> !m2.wall_flag(c, d),
    ensures
        is_open_path(m2, p, a, b),
{
    assert forall|k: int| 0 <= k < p.len() - 1 implies step_open(m2, #[trigger] p[k], p[k + 1]) by {
        let d = choose|d: TileDirection|
            !m1.spec_is_edge(p[k], d) && p[k + 1] == neighbor_coord(p[k], d) && !(
            #[trigger] m1.wall_flag(p[k], d));
        assert(!m2.wall_flag(p[k], d));
    }
}

/// In a symmetric maze every walk can be reversed: each step crosses the
/// same open wall in the other direction.
proof fn lemma_open_path_reverse(m: Maze, p: Seq<(usize, usize)>, a: (usize, usize), b: (usize, usize))
    requires
        m.wf(),
        m.symmetric(),
        is_open_path(m, p, a, b),
    ensures
        connected(m, b, a),
    decreases p.len(),
{
    if p.len() == 1 {
        assert(is_open_path(m, p, b, a));
    } else {
        let c = p[1];
        let p1 = p.subrange(1, p.len() as int);
        assert(is_open_path(m, p1, c, b)) by {
            assert(p1.last() == p.last());
            assert(forall|k: int| 0 <= k < p1.len() ==> p1[k] == p[k + 1]);
            assert forall|k: int| 0 <= k < p1.len() - 1 implies step_open(
                m,
                #[trigger] p1[k],
                p1[k + 1],
            ) by {
                assert(step_open(m, p[k + 1], p[k + 2]));
            }
        }
        lemma_open_path_reverse(m, p1, c, b);
        let q = choose|q: Seq<(usize, usize)>| is_open_path(m, q, b, c);
        assert(step_open(m, p[0], p[1]));
        let d = choose|d: TileDirection|
            !m.spec_is_edge(a, d) && c == neighbor_coord(a, d) && !(#[trigger] m.wall_flag(a, d));
        m.lemma_neighbor_involution(a, d);
        assert(!m.wall_flag(c, d.spec_opposite()));
        assert(step_open(m, c, a));
        let q2 = q.push(a);
        assert(is_open_path(m, q2, b, a)) by {
            assert(q2.last() == a);
            assert(forall|k: int| 0 <= k < q.len() ==> q2[k] == q[k]);
            assert forall|k: int| 0 <= k < q2.len() - 1 implies step_open(
                m,
                #[trigger] q2[k],
                q2[k + 1],
            ) by {
                if k < q.len() - 1 {
                    assert(step_open(m, q[k], q[k + 1]));
                } else {
                    assert(q2[k] == c && q2[k + 1] == a);
                }
            }
        }
    }
}

/// Two walks that meet in the middle join into one.
proof fn lemma_connected_trans(m: Maze, a: (usize, usize), b: (usize, usize), c: (usize, usize))
    requires
        connected(m, a, b),
        connected(m, b, c),
    ensures
        connected(m, a, c),
{
    let p = choose|p: Seq<(usize, usize)>| is_open_path(m, p, a, b);
    let q = choose|q: Seq<(usize, usize)>| is_open_path(m, q, b, c);
    if q.len() == 1 {
        assert(is_open_path(m, p, a, c));
    } else {
        let r = p + q.subrange(1, q.len() as int);
        assert(is_open_path(m, r, a, c)) by {
            assert(r.len() == p.len() + q.len() - 1);
            assert(forall|k: int| 0 <= k < p.len() ==> r[k] == p[k]);
            assert(forall|k: int| p.len() <= k < r.len() ==> r[k] == q[k - p.len() + 1]);
            assert(r[0] == a);
            assert(r.last() == q.last());
            assert forall|k: int| 0 <= k < r.len() - 1 implies step_open(
                m,
                #[trigger] r[k],
                r[k + 1],
            ) by {
                if k < p.len() - 1 {
                    assert(step_open(m, p[k], p[k + 1]));
                } else if k == p.len() - 1 {
                    assert(r[k] == p.last() && p.last() == q[0]);
                    assert(r[k + 1] == q[1]);
                    assert(step_open(m, q[0], q[1]));
                } else {
                    assert(r[k] == q[k - p.len() + 1] && r[k + 1] == q[k - p.len() + 2]);
                    assert(step_open(m, q[k - p.len() + 1], q[k - p.len() + 2]));
                }
            }
        }
    }
}

/// In a generated maze any two cells are mutually reachable: the walks to
/// the origin reverse and join, so the carved passages connect everything
/// to everything.
pub proof fn lemma_spanning_all_pairs(m: Maze, a: (usize, usize), b: (usize, usize))
    requires
        m.wf(),
        m.symmetric(),
        spanning_maze(m),
        m.spec_valid_coord(a),
        m.spec_valid_coord(b),
    ensures
        connected(m, a, b),
{
    let origin = (0usize, 0usize);
    assert(connected(m, origin, a));
    assert(connected(m, origin, b));
    let p = choose|p: Seq<(usize, usize)>| is_open_path(m, p, origin, a);
    lemma_open_path_reverse(m, p, origin, a);
    lemma_connected_trans(m, a, origin, b);
}

/// A non-empty set of visited cells that is closed under adjacency and
/// contains the origin covers the whole grid: every cell is reached by
/// walking right and down from the origin.
proof fn lemma_closed_all_visited(un: Seq<Seq<bool>>, w: int, h: int, i: int, j: int)
    requires
        un.len() == w,
        forall|a: int| 0 <= a < w ==> (#[trigger] un[a]).len() == h,
        w > 0,
        h > 0,
        !un[0][0],
        forall|a: int, b: int|
            0 <= a < w && 0 <= b < h && !(#[trigger] un[a][b]) ==> {
                &&& (a + 1 < w ==> !un[a + 1][b])
                &&& (b + 1 < h ==> !un[a][b + 1])
                &&& (a > 0 ==> !un[a - 1][b])
                &&& (b > 0 ==> !un[a][b - 1])
            },
        0 <= i < w,
        0 <= j < h,
    ensures
        !un[i][j],
    decreases i + j,
{
    if i > 0 {
        lemma_closed_all_visited(un, w, h, i - 1, j);
        assert(!un[i - 1][j]);
    } else if j > 0 {
        lemma_closed_all_visited(un, w, h, i, j - 1);
        assert(!un[i][j - 1]);
    }
}

/// A fresh visit-flag grid: everything still waits to be visited.
fn fresh_unvisited(width: usize, height: usize) -> (r: Vec<Vec<bool>>)
    ensures
        bool_grid(r@).len() == width,
        forall|i: int| 0 <= i < width ==> (#[trigger] bool_grid(r@)[i]).len() == height,
        forall|i: int, k: int|
            0 <= i < width && 0 <= k < height ==> (#[trigger] bool_grid(r@)[i][k]),
        count_grid(bool_grid(r@)) == width * height,
{
    let mut r: Vec<Vec<bool>> = Vec::new();
    let mut i: usize = 0;
    while i < width
        invariant
            i <= width,
            r@.len() == i,
            forall|a: int| 0 <= a < i ==> (#[trigger] r@[a]@).len() == height,
            forall|a: int, k: int| 0 <= a < i && 0 <= k < height ==> (#[trigger] r@[a]@[k]),
            count_grid(bool_grid(r@)) == i * height,
        decreases width - i,
    {
        let mut row: Vec<bool> = Vec::new();
        let mut j: usize = 0;
        while j < height
            invariant
                j <= height,
                row@.len() == j,
                forall|k: int| 0 <= k < j ==> (#[trigger] row@[k]),
                count_row(row@) == j,
            decreases height - j,
        {
            let ghost prev = row@;
            row.push(true);
            proof {
                lemma_count_row_push(prev, true);
            }
            j = j + 1;
        }
        let ghost prevg = r@;
        r.push(row);
        proof {
            lemma_count_grid_push(bool_grid(prevg), row@);
            assert(bool_grid(r@) =~= bool_grid(prevg).push(row@));
            assert((i + 1) * height == i * height + height) by (nonlinear_arith);
        }
        i = i + 1;
    }
    r
}

/// Clears the visit flag of `c` and decrements the running count.
fn mark_visited(lv: &mut Vec<Vec<bool>>, remaining: &mut usize, c: (usize, usize))
    requires
        c.0 < old(lv)@.len(),
        c.1 < bool_grid(old(lv)@)[c.0 as int].len(),
        bool_grid(old(lv)@)[c.0 as int][c.1 as int],
        *old(remaining) == count_grid(bool_grid(old(lv)@)),
    ensures
        bool_grid(final(lv)@) == bool_grid(old(lv)@).update(
            c.0 as int,
            bool_grid(old(lv)@)[c.0 as int].update(c.1 as int, false),
        ),
        *final(remaining) == *old(remaining) - 1,
        *final(remaining) == count_grid(bool_grid(final(lv)@)),
{
    proof {
        let g = bool_grid(lv@);
        let newrow = g[c.0 as int].update(c.1 as int, false);
        lemma_count_row_update(g[c.0 as int], c.1 as int, false);
        lemma_count_grid_update(g, c.0 as int, newrow);
        lemma_count_grid_nonneg(g.update(c.0 as int, newrow));
    }
    let col = &mut lv[c.0];
    let slot = &mut col[c.1];
    *slot = false;
    proof {
        assert(bool_grid(lv@) =~= bool_grid(old(lv)@).update(
            c.0 as int,
            bool_grid(old(lv)@)[c.0 as int].update(c.1 as int, false),
        ));
    }
    *remaining = *remaining - 1;
}

/// The generator: the maze under construction, the per-cell visit flags
/// with their running count, and the depth-first path stack.
pub struct MazeGen {
    pub maze: Maze,
    pub left_to_visit: Vec<Vec<bool>>,
    pub remaining: usize,
    pub path_stack: Vec<(usize, usize)>,
}

impl MazeGen {
    /// Which cells still wait to be visited, as a grid of flags.
    pub open spec fn unvisited(self) -> Seq<Seq<bool>> {
        bool_grid(self.left_to_visit@)
    }

    /// Whether the cell at `c` still waits to be visited.
    pub open spec fn unvisited_at(self, c: (usize, usize)) -> bool {
        self.unvisited()[c.0 as int][c.1 as int]
    }

    /// The depth-first path stack.
    pub open spec fn stack(self) -> Seq<(usize, usize)> {
        self.path_stack@
    }

    /// Well-formedness: the maze is well formed and small enough to count
    /// its cells, the visit flags form a grid of the maze's dimensions,
    /// the running count matches the flags, and the path stack holds only
    /// valid coordinates.
    pub open spec fn wf(self) -> bool {
        &&& self.maze.wf()
        &&& self.maze.size.width * self.maze.size.height <= usize::MAX
        &&& self.unvisited().len() == self.maze.size.width
        &&& forall|i: int|
            0 <= i < self.unvisited().len() ==> (#[trigger] self.unvisited()[i]).len()
                == self.maze.size.height
        &&& self.remaining == count_grid(self.unvisited())
        &&& forall|k: int|
            0 <= k < self.stack().len() ==> self.maze.spec_valid_coord(#[trigger] self.stack()[k])
    }

    pub fn new(size: &Size) -> (r: MazeGen)
        requires
            size.width > 0,
            size.height > 0,
            size.width * size.height <= usize::MAX,
        ensures
            r.wf(),
            r.maze.size == *size,
            r.maze.wf(),
            r.maze.symmetric(),
            forall|c: (usize, usize), d: TileDirection|
                r.maze.spec_valid_coord(c) ==> #[trigger] r.maze.wall_flag(c, d) == is_edge_side(
                    *size,
                    c,
                    d,
                ),
            forall|c: (usize, usize)| r.maze.spec_valid_coord(c) ==> #[trigger] r.unvisited_at(c),
            r.remaining == size.width * size.height,
            r.stack().len() == 0,
    {
        let maze = Maze::new(size);
        let left_to_visit = fresh_unvisited(size.width, size.height);
        let remaining = size.width * size.height;
        let r = MazeGen { maze, left_to_visit, remaining, path_stack: Vec::new() };
        proof {
            assert forall|c: (usize, usize)| r.maze.spec_valid_coord(c) implies
                #[trigger] r.unvisited_at(c) by {
                assert(r.unvisited()[c.0 as int][c.1 as int]);
            }
        }
        r
    }

    /// The subsequence of `s` whose coordinates still wait to be visited,
    /// in the order of `s`.
    pub open spec fn spec_unvisited_filter(self, s: Seq<((usize, usize), TileDirection)>) -> Seq<
        ((usize, usize), TileDirection),
    >
        decreases s.len(),
    {
        if s.len() == 0 {
            Seq::empty()
        } else {
            self.spec_unvisited_filter(s.drop_last()) + (if self.unvisited_at(s.last().0) {
                seq![s.last()]
            } else {
                Seq::empty()
            })
        }
    }

    /// The neighbors of `coord` that still wait to be visited, each with
    /// the direction that points from `coord` toward it, in candidate
    /// order.
    #[verifier::rlimit(100)]
    fn get_valid_neighbor_coords_and_dirs(&self, coord: (usize, usize)) -> (r: Vec<
        ((usize, usize), TileDirection),
    >)
        requires
            self.wf(),
            self.maze.spec_valid_coord(coord),
        ensures
            forall|k: int|
                0 <= k < r@.len() ==> {
                    &&& !self.maze.spec_is_edge(coord, (#[trigger] r@[k]).1)
                    &&& r@[k].0 == neighbor_coord(coord, r@[k].1)
                    &&& self.maze.spec_valid_coord(r@[k].0)
                    &&& self.unvisited_at(r@[k].0)
                },
            forall|d: TileDirection|
                !self.maze.spec_is_edge(coord, d) && self.unvisited_at(neighbor_coord(coord, d))
                    ==> exists|k: int|
                    0 <= k < r@.len() && #[trigger] r@[k] == ((neighbor_coord(coord, d), d)),
            r@.len() <= 4,
            forall|k: int, l: int|
                0 <= k < l < r@.len() ==> (#[trigger] r@[k]).1 != (#[trigger] r@[l]).1,
            r@ == self.spec_unvisited_filter(self.maze.spec_neighbors(coord)),
    {
        let all = self.maze.get_neighbor_coords_and_dirs(coord);
        let mut r: Vec<((usize, usize), TileDirection)> = Vec::new();
        let mut k: usize = 0;
        while k < all.len()
            invariant
                self.wf(),
                self.maze.spec_valid_coord(coord),
                k <= all@.len(),
                all@.len() <= 4,
                forall|a: int, b: int|
                    0 <= a < b < all@.len() ==> (#[trigger] all@[a]).1 != (#[trigger] all@[b]).1,
                forall|a: int|
                    0 <= a < all@.len() ==> {
                        &&& !self.maze.spec_is_edge(coord, (#[trigger] all@[a]).1)
                        &&& all@[a].0 == neighbor_coord(coord, all@[a].1)
                        &&& self.maze.spec_valid_coord(all@[a].0)
                    },
                forall|a: int|
                    0 <= a < r@.len() ==> {
                        &&& !self.maze.spec_is_edge(coord, (#[trigger] r@[a]).1)
                        &&& r@[a].0 == neighbor_coord(coord, r@[a].1)
                        &&& self.maze.spec_valid_coord(r@[a].0)
                        &&& self.unvisited_at(r@[a].0)
                    },
                forall|a: int|
                    0 <= a < k && self.unvisited_at((#[trigger] all@[a]).0) ==> exists|l: int|
                        0 <= l < r@.len() && r@[l] == all@[a],
                r@.len() <= k,
                forall|a: int|
                    0 <= a < r@.len() ==> exists|idx: int|
                        0 <= idx < k && #[trigger] r@[a] == all@[idx],
                forall|a: int, b: int|
                    0 <= a < b < r@.len() ==> (#[trigger] r@[a]).1 != (#[trigger] r@[b]).1,
                r@ == self.spec_unvisited_filter(all@.take(k as int)),
            decreases all@.len() - k,
        {
            let (nc, nd) = all[k];
            proof {
                assert(self.unvisited().len() == self.left_to_visit@.len());
                assert(self.unvisited()[nc.0 as int] == self.left_to_visit@[nc.0 as int]@);
            }
            let ghost prev = r@;
            if self.left_to_visit[nc.0][nc.1] {
                r.push((nc, nd));
                proof {
                    assert forall|a: int|
                        0 <= a < k + 1 && self.unvisited_at((#[trigger] all@[a]).0) implies exists|
                        l: int,
                    |
                        0 <= l < r@.len() && r@[l] == all@[a] by {
                        if a < k {
                            let l = choose|l: int| 0 <= l < prev.len() && prev[l] == all@[a];
                            assert(r@[l] == all@[a]);
                        } else {
                            assert(r@[prev.len() as int] == all@[a]);
                        }
                    }
                    assert forall|a: int|
                        0 <= a < r@.len() implies exists|idx: int|
                        0 <= idx < k + 1 && #[trigger] r@[a] == all@[idx] by {
                        if a < prev.len() {
                            let idx = choose|idx: int| 0 <= idx < k && prev[a] == all@[idx];
                            assert(r@[a] == all@[idx]);
                        } else {
                            assert(r@[a] == all@[k as int]);
                        }
                    }
                    assert forall|a: int, b: int|
                        0 <= a < b < r@.len() implies (#[trigger] r@[a]).1 != (
                    #[trigger] r@[b]).1 by {
                        if b == r@.len() - 1 {
                            let idx = choose|idx: int| 0 <= idx < k && prev[a] == all@[idx];
                            assert(all@[idx].1 != all@[k as int].1);
                        }
                    }
                }
            }
            proof {
                assert(all@.take(k + 1).drop_last() =~= all@.take(k as int));
                assert(all@.take(k + 1).last() == all@[k as int]);
                assert(r@ =~= self.spec_unvisited_filter(all@.take(k + 1)));
            }
            k = k + 1;
        }
        proof {
            assert(all@.take(all@.len() as int) =~= all@);
            assert forall|d: TileDirection|
                !self.maze.spec_is_edge(coord, d) && self.unvisited_at(
                    neighbor_coord(coord, d),
                ) implies exists|k2: int|
                0 <= k2 < r@.len() && #[trigger] r@[k2] == ((neighbor_coord(coord, d), d)) by {
                assert(all@.contains((neighbor_coord(coord, d), d)));
                let a = choose|a: int|
                    0 <= a < all@.len() && all@[a] == ((neighbor_coord(coord, d), d));
                let l = choose|l: int| 0 <= l < r@.len() && r@[l] == all@[a];
                assert(r@[l] == ((neighbor_coord(coord, d), d)));
            }
        }
        r
    }

    /// Runs one full generation pass: resets the grid to fully walled and
    /// everything unvisited, then carves passages depth-first until every
    /// cell has been visited and the path stack has unwound.
    #[verifier::rlimit(100)]
    pub fn generate(&mut self, seed: u64)
        requires
            old(self).wf(),
        ensures
            final(self).wf(),
            final(self).maze.size == old(self).maze.size,
            final(self).maze.wf(),
            final(self).maze.symmetric(),
            spanning_maze(final(self).maze),
            final(self).remaining == 0,
            forall|c: (usize, usize)|
                final(self).maze.spec_valid_coord(c) ==> !(#[trigger] final(self).unvisited_at(c)),
            final(self).stack().len() == 0,
    {
        let width = self.maze.size.width;
        let height = self.maze.size.height;
        self.maze.enable_all_walls();
        self.path_stack.clear();
        self.left_to_visit = fresh_unvisited(width, height);
        self.remaining = width * height;
        let mut rng = rng_from_seed(seed);
        let mut coord: (usize, usize) = (0, 0);
        mark_visited(&mut self.left_to_visit, &mut self.remaining, coord);
        let ghost mut edges: Seq<((usize, usize), TileDirection)> = Seq::empty();
        proof {
            let p0: Seq<(usize, usize)> = seq![(0usize, 0usize)];
            assert(p0.last() == (0usize, 0usize));
            assert(is_open_path(self.maze, p0, (0usize, 0usize), (0usize, 0usize)));
            assert forall|c2: (usize, usize)|
                self.maze.spec_valid_coord(c2) && !self.unvisited_at(c2) implies
                #[trigger] connected(self.maze, (0usize, 0usize), c2) by {
                assert(c2 == (0usize, 0usize));
            }
        }
        while self.path_stack.len() > 0 || self.remaining > 0
            invariant
                width > 0,
                height > 0,
                width * height <= usize::MAX,
                self.maze.wf(),
                self.maze.size.width == width,
                self.maze.size.height == height,
                self.unvisited().len() == width,
                forall|i: int|
                    0 <= i < width ==> (#[trigger] self.unvisited()[i]).len() == height,
                self.remaining == count_grid(self.unvisited()),
                self.maze.symmetric(),
                self.maze.spec_valid_coord(coord),
                !self.unvisited_at(coord),
                !self.unvisited_at((0usize, 0usize)),
                forall|k: int|
                    0 <= k < self.stack().len() ==> self.maze.spec_valid_coord(
                        #[trigger] self.stack()[k],
                    ),
                forall|k: int|
                    0 <= k < self.stack().len() ==> !self.unvisited_at(
                        #[trigger] self.stack()[k],
                    ),
                forall|c2: (usize, usize), d: TileDirection|
                    self.maze.spec_valid_coord(c2) && !self.unvisited_at(c2) && c2 != coord
                        && !self.stack().contains(c2) && !self.maze.spec_is_edge(c2, d) ==> !(
                    #[trigger] self.unvisited_at(neighbor_coord(c2, d))),
                forall|c2: (usize, usize), d: TileDirection|
                    self.maze.spec_valid_coord(c2) && self.unvisited_at(c2)
                        && !self.maze.spec_is_edge(c2, d) ==> #[trigger] self.maze.wall_flag(
                        c2,
                        d,
                    ),
                edges.len() == width * height - self.remaining - 1,
                forall|k: int, l: int| 0 <= k < l < edges.len() ==> edges[k] != edges[l],
                forall|k: int|
                    0 <= k < edges.len() ==> {
                        let (c2, d) = #[trigger] edges[k];
                        &&& self.maze.spec_valid_coord(c2)
                        &&& !self.maze.spec_is_edge(c2, d)
                        &&& (d == TileDirection::EAST || d == TileDirection::SOUTH)
                        &&& !self.maze.wall_flag(c2, d)
                    },
                forall|c2: (usize, usize), d: TileDirection|
                    self.maze.spec_valid_coord(c2) && (d == TileDirection::EAST || d
                        == TileDirection::SOUTH) && !self.maze.spec_is_edge(c2, d) && !(
                    #[trigger] self.maze.wall_flag(c2, d)) ==> edges.contains((c2, d)),
                forall|c2: (usize, usize)|
                    self.maze.spec_valid_coord(c2) && !self.unvisited_at(c2)
                        ==> #[trigger] connected(self.maze, (0usize, 0usize), c2),
            decreases 2 * self.remaining + self.stack().len(),
        {
            let cands = self.get_valid_neighbor_coords_and_dirs(coord);
            if cands.len() > 0 {
                let pick = rand_below(&mut rng, cands.len());
                let (next, dir) = cands[pick];
                let ghost pre = *self;
                let ghost e = norm_edge(coord, dir);
                let ghost edges0 = edges;
                self.maze.disable_wall(coord, &dir);
                proof {
                    pre.maze.lemma_neighbor_involution(coord, dir);
                    // the carved wall was still enabled: `next` was unvisited
                    assert(pre.maze.wall_flag(next, dir.spec_opposite()));
                    assert(pre.maze.wall_flag(coord, dir));
                    assert(pre.maze.wall_flag(e.0, e.1));
                    if edges.contains(e) {
                        let k = choose|k: int| 0 <= k < edges.len() && edges[k] == e;
                        assert(false);
                    }
                    edges = edges0.push(e);
                }
                self.path_stack.push(coord);
                let ghost oldc = coord;
                coord = next;
                mark_visited(&mut self.left_to_visit, &mut self.remaining, coord);
                proof {
                    let m1 = pre.maze;
                    let m2 = self.maze;
                    assert(Maze::wall_set_rel(m1, m2, oldc, dir, false));
                    assert(forall|k: int| 0 <= k < edges0.len() ==> edges[k] == #[trigger] edges0[k]);
                    // every wall open before stays open
                    assert forall|c2: (usize, usize), d2: TileDirection|
                        m1.spec_valid_coord(c2) && !m1.spec_is_edge(c2, d2) && !(
                        #[trigger] m1.wall_flag(c2, d2)) implies !m2.wall_flag(c2, d2) by {}
                    // the visit flags changed only at `next`
                    assert forall|c2: (usize, usize)|
                        pre.maze.spec_valid_coord(c2) && c2 != next implies self.unvisited_at(c2)
                        == pre.unvisited_at(c2) by {}
                    assert(!self.unvisited_at(next));
                    // the path stack grew by the old current cell
                    assert(self.stack() == pre.stack().push(oldc));
                    assert(self.stack()[pre.stack().len() as int] == oldc);
                    assert(self.stack().contains(oldc));
                    assert forall|c2: (usize, usize)|
                        !self.stack().contains(c2) implies !pre.stack().contains(c2) && c2 != oldc by {
                        if pre.stack().contains(c2) {
                            let k = choose|k: int|
                                0 <= k < pre.stack().len() && pre.stack()[k] == c2;
                            assert(self.stack()[k] == c2);
                        }
                    }
                    // depth-first closure: cells off the stack keep all
                    // their neighbors visited
                    assert forall|c2: (usize, usize), d2: TileDirection|
                        self.maze.spec_valid_coord(c2) && !self.unvisited_at(c2) && c2 != coord
                            && !self.stack().contains(c2) && !self.maze.spec_is_edge(
                            c2,
                            d2,
                        ) implies !(#[trigger] self.unvisited_at(neighbor_coord(c2, d2))) by {
                        assert(!pre.unvisited_at(neighbor_coord(c2, d2)) ==> !self.unvisited_at(
                            neighbor_coord(c2, d2),
                        ));
                    }
                    // carved edges still name open, interior, canonical walls
                    assert forall|k: int| 0 <= k < edges.len() implies {
                        let (c2, d2) = #[trigger] edges[k];
                        &&& m2.spec_valid_coord(c2)
                        &&& !m2.spec_is_edge(c2, d2)
                        &&& (d2 == TileDirection::EAST || d2 == TileDirection::SOUTH)
                        &&& !m2.wall_flag(c2, d2)
                    } by {
                        if k < edges.len() - 1 {
                            assert(edges[k] == edges0[k]);
                            assert(!m1.wall_flag(edges0[k].0, edges0[k].1));
                        } else {
                            assert(edges[k] == e);
                        }
                    }
                    // no other eligible wall opened: every open interior
                    // EAST/SOUTH wall is listed
                    assert forall|c2: (usize, usize), d2: TileDirection|
                        m2.spec_valid_coord(c2) && (d2 == TileDirection::EAST || d2
                            == TileDirection::SOUTH) && !m2.spec_is_edge(c2, d2) && !(
                        #[trigger] m2.wall_flag(c2, d2)) implies edges.contains((c2, d2)) by {
                        if (c2, d2) == e {
                            assert(edges[edges.len() - 1] == e);
                        } else {
                            assert(!Maze::wall_touched(oldc, dir, c2, d2));
                            assert(!m1.wall_flag(c2, d2));
                            assert(edges0.contains((c2, d2)));
                            lemma_push_contains(edges0, e, (c2, d2));
                        }
                    }
                    // connectivity: old paths survive, and the new cell
                    // hangs off the old current cell through the new passage
                    assert forall|c2: (usize, usize)|
                        self.maze.spec_valid_coord(c2) && !self.unvisited_at(
                            c2,
                        ) implies #[trigger] connected(self.maze, (0usize, 0usize), c2) by {
                        if c2 == next {
                            assert(!pre.unvisited_at(oldc));
                            assert(connected(m1, (0usize, 0usize), oldc));
                            let p = choose|p: Seq<(usize, usize)>|
                                is_open_path(m1, p, (0usize, 0usize), oldc);
                            lemma_path_monotone(m1, m2, p, (0usize, 0usize), oldc);
                            let p2 = p.push(next);
                            assert(p2.last() == next);
                            assert(forall|k: int| 0 <= k < p.len() ==> p2[k] == p[k]);
                            assert(!m2.wall_flag(oldc, dir));
                            assert(step_open(m2, oldc, next));
                            assert forall|k: int|
                                0 <= k < p2.len() - 1 implies step_open(
                                m2,
                                #[trigger] p2[k],
                                p2[k + 1],
                            ) by {
                                if k < p.len() - 1 {
                                    assert(step_open(m2, p[k], p[k + 1]));
                                } else {
                                    assert(p2[k] == oldc && p2[k + 1] == next);
                                }
                            }
                            assert(is_open_path(m2, p2, (0usize, 0usize), next));
                        } else {
                            assert(connected(m1, (0usize, 0usize), c2));
                            let p = choose|p: Seq<(usize, usize)>|
                                is_open_path(m1, p, (0usize, 0usize), c2);
                            lemma_path_monotone(m1, m2, p, (0usize, 0usize), c2);
                        }
                    }
                }
            } else {
                let ghost pre = *self;
                let ghost oldc = coord;
                proof {
                    // no candidate: every neighbor of the current cell is
                    // already visited
                    assert forall|d: TileDirection|
                        !pre.maze.spec_is_edge(oldc, d) implies !pre.unvisited_at(
                        neighbor_coord(oldc, d),
                    ) by {
                        if self.unvisited_at(neighbor_coord(coord, d)) {
                            assert(exists|k: int|
                                0 <= k < cands@.len() && #[trigger] cands@[k] == ((
                                neighbor_coord(coord, d),
                                d,
                            )));
                        }
                    }
                    if self.path_stack.len() == 0 {
                        // with an empty stack the visited set is closed
                        // under adjacency, so it covers the whole grid
                        let un = self.unvisited();
                        assert forall|a: int, b: int|
                            0 <= a < width && 0 <= b < height && !(#[trigger] un[a][b]) implies {
                            &&& (a + 1 < width ==> !un[a + 1][b])
                            &&& (b + 1 < height ==> !un[a][b + 1])
                            &&& (a > 0 ==> !un[a - 1][b])
                            &&& (b > 0 ==> !un[a][b - 1])
                        } by {
                            let c2 = (a as usize, b as usize);
                            assert(!self.unvisited_at(c2));
                            assert(!self.stack().contains(c2));
                            if c2 == coord {
                                if a + 1 < width {
                                    assert(!self.maze.spec_is_edge(c2, TileDirection::EAST));
                                    assert(!self.unvisited_at(
                                        neighbor_coord(c2, TileDirection::EAST),
                                    ));
                                }
                                if b + 1 < height {
                                    assert(!self.maze.spec_is_edge(c2, TileDirection::SOUTH));
                                    assert(!self.unvisited_at(
                                        neighbor_coord(c2, TileDirection::SOUTH),
                                    ));
                                }
                                if a > 0 {
                                    assert(!self.maze.spec_is_edge(c2, TileDirection::WEST));
                                    assert(!self.unvisited_at(
                                        neighbor_coord(c2, TileDirection::WEST),
                                    ));
                                }
                                if b > 0 {
                                    assert(!self.maze.spec_is_edge(c2, TileDirection::NORTH));
                                    assert(!self.unvisited_at(
                                        neighbor_coord(c2, TileDirection::NORTH),
                                    ));
                                }
                            } else {
                                if a + 1 < width {
                                    assert(!self.maze.spec_is_edge(c2, TileDirection::EAST));
                                    assert(!self.unvisited_at(
                                        neighbor_coord(c2, TileDirection::EAST),
                                    ));
                                }
                                if b + 1 < height {
                                    assert(!self.maze.spec_is_edge(c2, TileDirection::SOUTH));
                                    assert(!self.unvisited_at(
                                        neighbor_coord(c2, TileDirection::SOUTH),
                                    ));
                                }
                                if a > 0 {
                                    assert(!self.maze.spec_is_edge(c2, TileDirection::WEST));
                                    assert(!self.unvisited_at(
                                        neighbor_coord(c2, TileDirection::WEST),
                                    ));
                                }
                                if b > 0 {
                                    assert(!self.maze.spec_is_edge(c2, TileDirection::NORTH));
                                    assert(!self.unvisited_at(
                                        neighbor_coord(c2, TileDirection::NORTH),
                                    ));
                                }
                            }
                        }
                        assert forall|a: int, b: int|
                            0 <= a < width && 0 <= b < height implies !(#[trigger] un[a][b]) by {
                            lemma_closed_all_visited(
                                un,
                                width as int,
                                height as int,
                                a,
                                b,
                            );
                        }
                        lemma_count_grid_all_false(un);
                        assert(self.remaining == 0);
                        assert(false);
                    }
                }
                let popped = self.path_stack.pop();
                match popped {
                    Some(c) => {
                        coord = c;
                        proof {
                            assert(self.stack() == pre.stack().drop_last());
                            assert(coord == pre.stack().last());
                            assert forall|c2: (usize, usize), d2: TileDirection|
                                self.maze.spec_valid_coord(c2) && !self.unvisited_at(c2) && c2
                                    != coord && !self.stack().contains(c2)
                                    && !self.maze.spec_is_edge(c2, d2) implies !(
                            #[trigger] self.unvisited_at(neighbor_coord(c2, d2))) by {
                                assert(self.maze == pre.maze);
                                assert(self.unvisited() == pre.unvisited());
                                assert(self.unvisited_at(neighbor_coord(c2, d2))
                                    == pre.unvisited_at(neighbor_coord(c2, d2)));
                                assert(!pre.unvisited_at(c2));
                                if c2 == oldc {
                                    assert(!pre.maze.spec_is_edge(oldc, d2));
                                    assert(!pre.unvisited_at(neighbor_coord(oldc, d2)));
                                } else if c2 == pre.stack().last() {
                                } else if pre.stack().contains(c2) {
                                    let k = choose|k: int|
                                        0 <= k < pre.stack().len() && pre.stack()[k] == c2;
                                    assert(k < pre.stack().len() - 1);
                                    assert(self.stack()[k] == c2);
                                    assert(false);
                                }
                            }
                        }
                    },
                    None => {
                        proof {
                            assert(false);
                        }
                    },
                }
            }
        }
        proof {
            lemma_count_grid_zero(self.unvisited());
            assert forall|a: int, b: int|
                0 <= a < width && 0 <= b < height implies !(#[trigger] self.unvisited()[a][b]) by {}
            assert forall|c2: (usize, usize)|
                self.maze.spec_valid_coord(c2) implies !(#[trigger] self.unvisited_at(c2)) by {
                assert(!self.unvisited()[c2.0 as int][c2.1 as int]);
            }
            assert forall|c2: (usize, usize)|
                self.maze.spec_valid_coord(c2) implies #[trigger] connected(
                self.maze,
                (0usize, 0usize),
                c2,
            ) by {
                assert(!self.unvisited_at(c2));
            }
            assert(tree_edges(self.maze, edges));
            assert(spanning_maze(self.maze));
        }
    }
}

/// The seed a maze is generated with when the caller supplies none.
pub const DEFAULT_SEED: u64 = 1512;

/// Builds a grid of the given size and runs one generation pass over it
/// with the given seed.
pub fn gen_maze_seeded(size: &Size, seed: u64) -> (r: Maze)
    requires
        size.width > 0,
        size.height > 0,
        size.width * size.height <= usize::MAX,
    ensures
        r.wf(),
        r.size == *size,
        r.symmetric(),
        spanning_maze(r),
{
    let mut mazegen = MazeGen::new(size);
    mazegen.generate(seed);
    mazegen.maze
}

/// Builds a grid of the given size and runs one generation pass over it
/// with the default seed.
pub fn gen_maze(size: &Size) -> (r: Maze)
    requires
        size.width > 0,
        size.height > 0,
        size.width * size.height <= usize::MAX,
    ensures
        r.wf(),
        r.size == *size,
        r.symmetric(),
        spanning_maze(r),
{
    gen_maze_seeded(size, DEFAULT_SEED)
}

} // verus!
