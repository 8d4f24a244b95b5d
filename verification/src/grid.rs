//! The maze grid: cells, wall flags, and coordinate-indexed wall
//! queries and mutations that keep the two sides of a shared wall in sync.
//!
//! A wall between two adjacent cells is stored twice, once in each cell.
//! Every mutation goes through a coordinate plus a direction and updates
//! both copies, so the two flags never disagree.  Walls on the outer
//! boundary of the grid are permanent: queries report them as enabled
//! whatever the cell's own flag says, and mutations on them are no-ops.

use vstd::prelude::*;

verus! {

/// Grid dimensions, fixed at construction.
#[derive(PartialEq, Eq, Structural, Debug, Clone, Copy)]
pub struct Size {
    pub width: usize,
    pub height: usize,
}

/// One of the four compass directions a cell wall can face.
#[allow(non_camel_case_types)]
#[derive(PartialEq, Eq, Structural, Debug, Clone, Copy)]
pub enum TileDirection {
    NORTH,
    EAST,
    SOUTH,
    WEST,
}

impl TileDirection {
    /// The direction that faces this one: the side of the neighboring cell
    /// that shares the same physical wall.
    pub open spec fn spec_opposite(self) -> TileDirection {
        match self {
            TileDirection::NORTH => TileDirection::SOUTH,
            TileDirection::EAST => TileDirection::WEST,
            TileDirection::SOUTH => TileDirection::NORTH,
            TileDirection::WEST => TileDirection::EAST,
        }
    }
}

/// The coordinate one step from `c` in direction `d`, as grid coordinates.
/// Meaningful only when the step stays on the grid, i.e. when the wall at
/// `(c, d)` is not a boundary wall.
pub open spec fn neighbor_coord(c: (usize, usize), d: TileDirection) -> (usize, usize) {
    match d {
        TileDirection::NORTH => (c.0, (c.1 - 1) as usize),
        TileDirection::EAST => ((c.0 + 1) as usize, c.1),
        TileDirection::SOUTH => (c.0, (c.1 + 1) as usize),
        TileDirection::WEST => ((c.0 - 1) as usize, c.1),
    }
}

/// Whether the wall on side `d` of the cell at `c` lies on the outer
/// boundary of a grid of dimensions `size`.
pub open spec fn is_edge_side(size: Size, c: (usize, usize), d: TileDirection) -> bool {
    match d {
        TileDirection::NORTH => c.1 == 0,
        TileDirection::EAST => c.0 == size.width - 1,
        TileDirection::SOUTH => c.1 == size.height - 1,
        TileDirection::WEST => c.0 == 0,
    }
}

/// The four directions a wall can face, in a fixed order for callers that
/// walk every side of a cell.
pub const ALL_TILE_DIRECTIONS: [TileDirection; 4] = [
    TileDirection::NORTH,
    TileDirection::EAST,
    TileDirection::SOUTH,
    TileDirection::WEST,
];

/// A single cell: its coordinate and a wall flag for each of its four sides.
#[derive(PartialEq, Eq, Debug, Clone, Copy)]
pub struct Cell {
    pub coord: (usize, usize),
    pub north: bool,
    pub east: bool,
    pub south: bool,
    pub west: bool,
}

impl Cell {
    /// Whether this cell's own flag for the wall on side `dir` is set.
    pub open spec fn spec_wall(self, dir: TileDirection) -> bool {
        match dir {
            TileDirection::NORTH => self.north,
            TileDirection::EAST => self.east,
            TileDirection::SOUTH => self.south,
            TileDirection::WEST => self.west,
        }
    }

    /// The same cell with the flag for side `dir` set to `b`.
    pub open spec fn spec_with_wall(self, dir: TileDirection, b: bool) -> Cell {
        match dir {
            TileDirection::NORTH => Cell { north: b, ..self },
            TileDirection::EAST => Cell { east: b, ..self },
            TileDirection::SOUTH => Cell { south: b, ..self },
            TileDirection::WEST => Cell { west: b, ..self },
        }
    }

    pub fn new(coord: (usize, usize)) -> (r: Cell)
        ensures
            r.coord == coord,
            forall|d: TileDirection| !r.spec_wall(d),
    {
        Cell { coord, north: false, east: false, south: false, west: false }
    }

    pub fn enable_wall(&mut self, dir: &TileDirection)
        ensures
            *final(self) == old(self).spec_with_wall(*dir, true),
    {
        match dir {
            TileDirection::NORTH => self.north = true,
            TileDirection::EAST => self.east = true,
            TileDirection::SOUTH => self.south = true,
            TileDirection::WEST => self.west = true,
        }
    }

    pub fn disable_wall(&mut self, dir: &TileDirection)
        ensures
            *final(self) == old(self).spec_with_wall(*dir, false),
    {
        match dir {
            TileDirection::NORTH => self.north = false,
            TileDirection::EAST => self.east = false,
            TileDirection::SOUTH => self.south = false,
            TileDirection::WEST => self.west = false,
        }
    }

    pub fn is_wall_enabled(&self, dir: &TileDirection) -> (r: bool)
        ensures
            r == self.spec_wall(*dir),
    {
        match dir {
            TileDirection::NORTH => self.north,
            TileDirection::EAST => self.east,
            TileDirection::SOUTH => self.south,
            TileDirection::WEST => self.west,
        }
    }
}

/// The maze: a fixed size and one cell per coordinate, the outer `Vec`
/// indexed by column and each inner `Vec` by row.
pub struct Maze {
    pub size: Size,
    pub cells: Vec<Vec<Cell>>,
}

impl Maze {
    /// The grid of cells as a sequence of columns.
    pub open spec fn grid(self) -> Seq<Seq<Cell>> {
        self.cells@.map_values(|col: Vec<Cell>| col@)
    }

    /// Shape invariant: positive dimensions, a full rectangle of cells, and
    /// every cell labelled with its own coordinate.
    pub open spec fn wf(self) -> bool {
        &&& self.size.width > 0
        &&& self.size.height > 0
        &&& self.grid().len() == self.size.width
        &&& forall|i: int|
            0 <= i < self.size.width ==> (#[trigger] self.grid()[i]).len() == self.size.height
        &&& forall|i: int, j: int|
            0 <= i < self.size.width && 0 <= j < self.size.height ==> (#[trigger] self.grid()[i][j]).coord
                == ((i as usize, j as usize))
    }

    /// Whether `c` addresses a cell of this maze.
    pub open spec fn spec_valid_coord(self, c: (usize, usize)) -> bool {
        c.0 < self.size.width && c.1 < self.size.height
    }

    /// Whether the wall at `(c, d)` lies on the outer boundary.
    pub open spec fn spec_is_edge(self, c: (usize, usize), d: TileDirection) -> bool {
        is_edge_side(self.size, c, d)
    }

    /// The stored flag of the cell at `c` for its side `d`.
    pub open spec fn wall_flag(self, c: (usize, usize), d: TileDirection) -> bool {
        self.grid()[c.0 as int][c.1 as int].spec_wall(d)
    }

    /// What the public query reports: boundary walls are always enabled,
    /// interior walls follow the cell's flag.
    pub open spec fn spec_wall_enabled(self, c: (usize, usize), d: TileDirection) -> bool {
        self.spec_is_edge(c, d) || self.wall_flag(c, d)
    }

    /// The two stored flags that make up the physical wall at `(c, d)`:
    /// the flag at `c` itself and the facing flag of the neighbor.
    pub open spec fn wall_touched(
        c: (usize, usize),
        d: TileDirection,
        c2: (usize, usize),
        d2: TileDirection,
    ) -> bool {
        (c2 == c && d2 == d) || (c2 == neighbor_coord(c, d) && d2 == d.spec_opposite())
    }

    /// How a maze changes when the wall at `(c, d)` is set to `b`: nothing
    /// on a boundary wall, otherwise exactly the two flags of that wall.
    pub open spec fn wall_set_rel(
        pre: Maze,
        post: Maze,
        c: (usize, usize),
        d: TileDirection,
        b: bool,
    ) -> bool {
        &&& post.size == pre.size
        &&& post.wf()
        &&& if pre.spec_is_edge(c, d) {
            post.grid() == pre.grid()
        } else {
            forall|c2: (usize, usize), d2: TileDirection|
                pre.spec_valid_coord(c2) ==> #[trigger] post.wall_flag(c2, d2) == (if Self::wall_touched(
                    c,
                    d,
                    c2,
                    d2,
                ) {
                    b
                } else {
                    pre.wall_flag(c2, d2)
                })
        }
    }

    /// Bidirectional symmetry: for every interior wall the two stored
    /// copies of its flag agree.
    pub open spec fn symmetric(self) -> bool {
        forall|c: (usize, usize), d: TileDirection|
            self.spec_valid_coord(c) && !self.spec_is_edge(c, d) ==> #[trigger] self.wall_flag(c, d)
                == self.wall_flag(neighbor_coord(c, d), d.spec_opposite())
    }

    /// For a non-boundary wall the step to the neighbor stays on the grid,
    /// the same wall seen from the neighbor is also non-boundary, and
    /// stepping back returns to the original cell.
    pub proof fn lemma_neighbor_involution(self, c: (usize, usize), d: TileDirection)
        requires
            self.wf(),
            self.spec_valid_coord(c),
            !self.spec_is_edge(c, d),
        ensures
            self.spec_valid_coord(neighbor_coord(c, d)),
            !self.spec_is_edge(neighbor_coord(c, d), d.spec_opposite()),
            neighbor_coord(neighbor_coord(c, d), d.spec_opposite()) == c,
    {
    }

    pub fn new(size: &Size) -> (r: Maze)
        requires
            size.width > 0,
            size.height > 0,
        ensures
            r.wf(),
            r.size == *size,
            forall|c: (usize, usize), d: TileDirection|
                r.spec_valid_coord(c) ==> #[trigger] r.wall_flag(c, d) == is_edge_side(*size, c, d),
            r.symmetric(),
    {
        let mut cells: Vec<Vec<Cell>> = Vec::new();
        let mut i: usize = 0;
        while i < size.width
            invariant
                i <= size.width,
                size.width > 0,
                size.height > 0,
                cells@.len() == i,
                forall|a: int|
                    0 <= a < i ==> (#[trigger] cells@[a]@).len() == size.height,
                forall|a: int, b: int|
                    0 <= a < i && 0 <= b < size.height ==> (#[trigger] cells@[a]@[b]).coord == ((
                        a as usize,
                        b as usize,
                    )),
                forall|a: int, b: int, d: TileDirection|
                    0 <= a < i && 0 <= b < size.height ==> (#[trigger] cells@[a]@[b].spec_wall(d))
                        == is_edge_side(*size, (a as usize, b as usize), d),
            decreases size.width - i,
        {
            let mut row: Vec<Cell> = Vec::new();
            let mut j: usize = 0;
            while j < size.height
                invariant
                    j <= size.height,
                    i < size.width,
                    size.width > 0,
                    size.height > 0,
                    row@.len() == j,
                    forall|b: int|
                        0 <= b < j ==> (#[trigger] row@[b]).coord == ((i, b as usize)),
                    forall|b: int, d: TileDirection|
                        0 <= b < j ==> (#[trigger] row@[b].spec_wall(d)) == is_edge_side(
                            *size,
                            (i, b as usize),
                            d,
                        ),
                decreases size.height - j,
            {
                let mut cell = Cell::new((i, j));
                proof {
                    assert(!cell.spec_wall(TileDirection::NORTH));
                    assert(!cell.spec_wall(TileDirection::EAST));
                    assert(!cell.spec_wall(TileDirection::SOUTH));
                    assert(!cell.spec_wall(TileDirection::WEST));
                }
                if i == 0 {
                    cell.enable_wall(&TileDirection::WEST);
                }
                if i == size.width - 1 {
                    cell.enable_wall(&TileDirection::EAST);
                }
                if j == 0 {
                    cell.enable_wall(&TileDirection::NORTH);
                }
                if j == size.height - 1 {
                    cell.enable_wall(&TileDirection::SOUTH);
                }
                proof {
                    assert forall|d: TileDirection| cell.spec_wall(d) == is_edge_side(
                        *size,
                        (i, j),
                        d,
                    ) by {
                        match d {
                            TileDirection::NORTH => {
                                assert(cell.spec_wall(d) == (j == 0));
                            },
                            TileDirection::EAST => {
                                assert(cell.spec_wall(d) == (i == size.width - 1));
                            },
                            TileDirection::SOUTH => {
                                assert(cell.spec_wall(d) == (j == size.height - 1));
                            },
                            TileDirection::WEST => {
                                assert(cell.spec_wall(d) == (i == 0));
                            },
                        }
                    }
                }
                row.push(cell);
                j = j + 1;
            }
            cells.push(row);
            i = i + 1;
        }
        let r = Maze { size: *size, cells };
        proof {
            assert forall|c: (usize, usize), d: TileDirection|
                r.spec_valid_coord(c) implies #[trigger] r.wall_flag(c, d) == is_edge_side(
                *size,
                c,
                d,
            ) by {
                assert(r.grid()[c.0 as int][c.1 as int].spec_wall(d) == is_edge_side(*size, c, d));
            }
        }
        r
    }

    pub fn get_opposite(direction: &TileDirection) -> (r: TileDirection)
        ensures
            r == direction.spec_opposite(),
    {
        match direction {
            TileDirection::NORTH => TileDirection::SOUTH,
            TileDirection::EAST => TileDirection::WEST,
            TileDirection::SOUTH => TileDirection::NORTH,
            TileDirection::WEST => TileDirection::EAST,
        }
    }

    pub fn get_mut_neighbor_cell_and_shared_wall(
        &mut self,
        coord: (usize, usize),
        direction: &TileDirection,
    ) -> (r: Option<(&mut Cell, TileDirection)>)
        requires
            old(self).wf(),
            old(self).spec_valid_coord(coord),
        ensures
            match r {
                Some(p) => {
                    let nc = neighbor_coord(coord, *direction);
                    &&& !old(self).spec_is_edge(coord, *direction)
                    &&& p.1 == direction.spec_opposite()
                    &&& *p.0 == old(self).grid()[nc.0 as int][nc.1 as int]
                    &&& final(self).size == old(self).size
                    &&& final(self).grid().len() == old(self).grid().len()
                    &&& forall|a: int|
                        0 <= a < old(self).grid().len() && a != nc.0 as int
                            ==> #[trigger] final(self).grid()[a] == old(self).grid()[a]
                    &&& final(self).grid()[nc.0 as int].len() == old(self).grid()[nc.0 as int].len()
                    &&& forall|b: int|
                        0 <= b < old(self).grid()[nc.0 as int].len() && b != nc.1 as int
                            ==> #[trigger] final(self).grid()[nc.0 as int][b]
                            == old(self).grid()[nc.0 as int][b]
                    &&& final(self).grid()[nc.0 as int][nc.1 as int] == *final(p.0)
                },
                None => {
                    &&& old(self).spec_is_edge(coord, *direction)
                    &&& *final(self) == *old(self)
                },
            },
    {
        if self.is_edge_wall(coord, direction) {
            return None;
        }
        let (ncoord, ndir) = self.neighbor_and_opposite(coord, direction);
        proof {
            assert(old(self).grid().len() == old(self).cells@.len());
            assert(old(self).grid()[ncoord.0 as int] == old(self).cells@[ncoord.0 as int]@);
        }
        let col = &mut self.cells[ncoord.0];
        Some((&mut col[ncoord.1], ndir))
    }

    pub fn is_valid_coord(&self, coord: &(usize, usize)) -> (r: bool)
        ensures
            r == self.spec_valid_coord(*coord),
    {
        coord.0 < self.size.width && coord.1 < self.size.height
    }

    fn is_edge_wall(&self, coord: (usize, usize), direction: &TileDirection) -> (r: bool)
        requires
            self.wf(),
        ensures
            r == self.spec_is_edge(coord, *direction),
    {
        match direction {
            TileDirection::NORTH => coord.1 == 0,
            TileDirection::EAST => coord.0 == self.size.width - 1,
            TileDirection::SOUTH => coord.1 == self.size.height - 1,
            TileDirection::WEST => coord.0 == 0,
        }
    }

    pub fn get_cell(&self, coord: (usize, usize)) -> (r: Option<&Cell>)
        requires
            self.wf(),
        ensures
            match r {
                Some(cell) => self.spec_valid_coord(coord) && *cell == self.grid()[coord.0 as int][coord.1 as int],
                None => !self.spec_valid_coord(coord),
            },
    {
        proof {
            assert(self.grid().len() == self.cells@.len());
        }
        if coord.0 < self.cells.len() {
            let col = &self.cells[coord.0];
            proof {
                assert(col@ == self.grid()[coord.0 as int]);
            }
            if coord.1 < col.len() {
                return Some(&col[coord.1]);
            }
        }
        None
    }

    pub fn get_mut_cell(&mut self, coord: (usize, usize)) -> (r: Option<&mut Cell>)
        requires
            old(self).wf(),
        ensures
            match r {
                Some(cell) => {
                    &&& old(self).spec_valid_coord(coord)
                    &&& *cell == old(self).grid()[coord.0 as int][coord.1 as int]
                    &&& final(self).size == old(self).size
                    &&& final(self).grid().len() == old(self).grid().len()
                    &&& forall|a: int|
                        0 <= a < old(self).grid().len() && a != coord.0 as int
                            ==> #[trigger] final(self).grid()[a] == old(self).grid()[a]
                    &&& final(self).grid()[coord.0 as int].len() == old(self).grid()[coord.0 as int].len()
                    &&& forall|b: int|
                        0 <= b < old(self).grid()[coord.0 as int].len() && b != coord.1 as int
                            ==> #[trigger] final(self).grid()[coord.0 as int][b]
                            == old(self).grid()[coord.0 as int][b]
                    &&& final(self).grid()[coord.0 as int][coord.1 as int] == *final(cell)
                },
                None => {
                    &&& !old(self).spec_valid_coord(coord)
                    &&& final(self).size == old(self).size
                    &&& final(self).grid() == old(self).grid()
                },
            },
    {
        proof {
            assert(old(self).grid().len() == old(self).cells@.len());
        }
        if coord.0 < self.cells.len() {
            proof {
                assert(old(self).grid()[coord.0 as int] == old(self).cells@[coord.0 as int]@);
            }
            let height = self.cells[coord.0].len();
            if coord.1 < height {
                let col = &mut self.cells[coord.0];
                return Some(&mut col[coord.1]);
            }
        }
        None
    }

    /// Sets the stored flag of the cell at `c` for side `d` to `b`, and
    /// nothing else.
    fn set_wall_flag(&mut self, c: (usize, usize), d: &TileDirection, b: bool)
        requires
            old(self).wf(),
            old(self).spec_valid_coord(c),
        ensures
            final(self).wf(),
            final(self).size == old(self).size,
            forall|c2: (usize, usize), d2: TileDirection|
                old(self).spec_valid_coord(c2) ==> #[trigger] final(self).wall_flag(c2, d2) == (if c2
                    == c && d2 == *d {
                    b
                } else {
                    old(self).wall_flag(c2, d2)
                }),
    {
        proof {
            assert(old(self).grid().len() == old(self).cells@.len());
            assert(old(self).grid()[c.0 as int] == old(self).cells@[c.0 as int]@);
        }
        let col = &mut self.cells[c.0];
        let cell = &mut col[c.1];
        if b {
            cell.enable_wall(d);
        } else {
            cell.disable_wall(d);
        }
        proof {
            assert forall|c2: (usize, usize), d2: TileDirection|
                old(self).spec_valid_coord(c2) implies #[trigger] self.wall_flag(c2, d2) == (if c2
                == c && d2 == *d {
                b
            } else {
                old(self).wall_flag(c2, d2)
            }) by {
                assert(self.grid()[c2.0 as int] == self.cells@[c2.0 as int]@);
                assert(old(self).grid()[c2.0 as int] == old(self).cells@[c2.0 as int]@);
            }
            assert forall|a: int| 0 <= a < self.size.width implies (#[trigger] self.grid()[a]).len()
                == self.size.height by {
                assert(self.grid()[a] == self.cells@[a]@);
                assert(old(self).grid()[a] == old(self).cells@[a]@);
            }
            assert forall|a: int, b2: int|
                0 <= a < self.size.width && 0 <= b2 < self.size.height implies (
            #[trigger] self.grid()[a][b2]).coord == ((a as usize, b2 as usize)) by {
                assert(self.grid()[a] == self.cells@[a]@);
                assert(old(self).grid()[a] == old(self).cells@[a]@);
            }
            assert(self.wf());
        }
    }

    pub fn is_wall_enabled(&self, coord: (usize, usize), direction: &TileDirection) -> (r: bool)
        requires
            self.wf(),
            self.spec_valid_coord(coord),
        ensures
            r == self.spec_wall_enabled(coord, *direction),
    {
        if self.is_edge_wall(coord, direction) {
            return true;
        }
        match self.get_cell(coord) {
            Some(cell) => cell.is_wall_enabled(direction),
            None => true,
        }
    }

    /// Computes the neighbor coordinate and facing direction of the
    /// non-boundary wall at `(coord, direction)`.
    fn neighbor_and_opposite(&self, coord: (usize, usize), direction: &TileDirection) -> (r: (
        (usize, usize),
        TileDirection,
    ))
        requires
            self.wf(),
            self.spec_valid_coord(coord),
            !self.spec_is_edge(coord, *direction),
        ensures
            r.0 == neighbor_coord(coord, *direction),
            r.1 == direction.spec_opposite(),
            self.spec_valid_coord(r.0),
    {
        match direction {
            TileDirection::NORTH => ((coord.0, coord.1 - 1), TileDirection::SOUTH),
            TileDirection::EAST => ((coord.0 + 1, coord.1), TileDirection::WEST),
            TileDirection::SOUTH => ((coord.0, coord.1 + 1), TileDirection::NORTH),
            TileDirection::WEST => ((coord.0 - 1, coord.1), TileDirection::EAST),
        }
    }

    /// Setting both flags of one interior wall to the same value keeps the
    /// two copies of every interior wall in agreement.
    pub proof fn lemma_wall_set_preserves_symmetric(
        pre: Maze,
        post: Maze,
        c: (usize, usize),
        d: TileDirection,
        b: bool,
    )
        requires
            pre.wf(),
            pre.spec_valid_coord(c),
            Self::wall_set_rel(pre, post, c, d, b),
            pre.symmetric(),
        ensures
            post.symmetric(),
    {
        if pre.spec_is_edge(c, d) {
            assert forall|c2: (usize, usize), d2: TileDirection|
                post.spec_valid_coord(c2) && !post.spec_is_edge(c2, d2) implies #[trigger] post.wall_flag(
                c2,
                d2,
            ) == post.wall_flag(neighbor_coord(c2, d2), d2.spec_opposite()) by {
                assert(pre.wall_flag(c2, d2) == pre.wall_flag(
                    neighbor_coord(c2, d2),
                    d2.spec_opposite(),
                ));
            }
        } else {
            pre.lemma_neighbor_involution(c, d);
            assert forall|c2: (usize, usize), d2: TileDirection|
                post.spec_valid_coord(c2) && !post.spec_is_edge(c2, d2) implies #[trigger] post.wall_flag(
                c2,
                d2,
            ) == post.wall_flag(neighbor_coord(c2, d2), d2.spec_opposite()) by {
                pre.lemma_neighbor_involution(c2, d2);
                assert(pre.wall_flag(c2, d2) == pre.wall_flag(
                    neighbor_coord(c2, d2),
                    d2.spec_opposite(),
                ));
            }
        }
    }

    /// A wall on the grid's outer edge is reported as
    /// enabled in every maze state whatsoever, so no mutation — in
    /// particular no `disable_wall` or `disable_all_walls` call — can ever
    /// make the query report it as open.
    pub proof fn lemma_boundary_permanent(self, c: (usize, usize), d: TileDirection)
        requires
            self.spec_valid_coord(c),
            self.spec_is_edge(c, d),
        ensures
            self.spec_wall_enabled(c, d),
    {
    }

    /// Setting one wall to the same value twice in a row
    /// leaves the grid exactly as it was after the first call.
    pub proof fn lemma_wall_set_idempotent(
        m0: Maze,
        m1: Maze,
        m2: Maze,
        c: (usize, usize),
        d: TileDirection,
        b: bool,
    )
        requires
            m0.wf(),
            m0.spec_valid_coord(c),
            Self::wall_set_rel(m0, m1, c, d, b),
            Self::wall_set_rel(m1, m2, c, d, b),
        ensures
            m2.size == m1.size,
            m2.grid() == m1.grid(),
    {
        if m0.spec_is_edge(c, d) {
        } else {
            assert forall|a: int, b2: int|
                0 <= a < m1.size.width && 0 <= b2 < m1.size.height implies m2.grid()[a][b2]
                == m1.grid()[a][b2] by {
                let c2 = (a as usize, b2 as usize);
                assert(m2.wall_flag(c2, TileDirection::NORTH) == m1.wall_flag(
                    c2,
                    TileDirection::NORTH,
                ));
                assert(m2.wall_flag(c2, TileDirection::EAST) == m1.wall_flag(
                    c2,
                    TileDirection::EAST,
                ));
                assert(m2.wall_flag(c2, TileDirection::SOUTH) == m1.wall_flag(
                    c2,
                    TileDirection::SOUTH,
                ));
                assert(m2.wall_flag(c2, TileDirection::WEST) == m1.wall_flag(
                    c2,
                    TileDirection::WEST,
                ));
                let u1 = m1.grid()[a][b2];
                let u2 = m2.grid()[a][b2];
                assert(u1 == Cell {
                    coord: u1.coord,
                    north: u1.north,
                    east: u1.east,
                    south: u1.south,
                    west: u1.west,
                });
                assert(u2 == Cell {
                    coord: u2.coord,
                    north: u2.north,
                    east: u2.east,
                    south: u2.south,
                    west: u2.west,
                });
            }
            assert forall|a: int| 0 <= a < m1.size.width implies m2.grid()[a] == m1.grid()[a] by {
                assert(m2.grid()[a] =~= m1.grid()[a]);
            }
            assert(m2.grid() =~= m1.grid());
        }
    }

    /// The in-bounds neighbor candidates of `c`, in the order they are
    /// produced: EAST, SOUTH, WEST, NORTH, each present exactly when the
    /// step in that direction stays on the grid.
    pub open spec fn spec_neighbors(self, c: (usize, usize)) -> Seq<
        ((usize, usize), TileDirection),
    > {
        (if !self.spec_is_edge(c, TileDirection::EAST) {
            seq![(neighbor_coord(c, TileDirection::EAST), TileDirection::EAST)]
        } else {
            Seq::empty()
        }) + (if !self.spec_is_edge(c, TileDirection::SOUTH) {
            seq![(neighbor_coord(c, TileDirection::SOUTH), TileDirection::SOUTH)]
        } else {
            Seq::empty()
        }) + (if !self.spec_is_edge(c, TileDirection::WEST) {
            seq![(neighbor_coord(c, TileDirection::WEST), TileDirection::WEST)]
        } else {
            Seq::empty()
        }) + (if !self.spec_is_edge(c, TileDirection::NORTH) {
            seq![(neighbor_coord(c, TileDirection::NORTH), TileDirection::NORTH)]
        } else {
            Seq::empty()
        })
    }

    pub fn get_neighbor_coords_and_dirs(&self, coord: (usize, usize)) -> (r: Vec<
        ((usize, usize), TileDirection),
    >)
        requires
            self.wf(),
            self.spec_valid_coord(coord),
        ensures
            forall|k: int|
                0 <= k < r@.len() ==> {
                    &&& !self.spec_is_edge(coord, (#[trigger] r@[k]).1)
                    &&& r@[k].0 == neighbor_coord(coord, r@[k].1)
                    &&& self.spec_valid_coord(r@[k].0)
                },
            forall|d: TileDirection|
                !self.spec_is_edge(coord, d) ==> r@.contains((neighbor_coord(coord, d), d)),
            r@.len() <= 4,
            forall|k: int, l: int|
                0 <= k < l < r@.len() ==> (#[trigger] r@[k]).1 != (#[trigger] r@[l]).1,
            r@ == self.spec_neighbors(coord),
    {
        let mut r: Vec<((usize, usize), TileDirection)> = Vec::new();
        if coord.0 + 1 < self.size.width {
            r.push(((coord.0 + 1, coord.1), TileDirection::EAST));
        }
        if coord.1 + 1 < self.size.height {
            r.push(((coord.0, coord.1 + 1), TileDirection::SOUTH));
        }
        if coord.0 > 0 {
            r.push(((coord.0 - 1, coord.1), TileDirection::WEST));
        }
        if coord.1 > 0 {
            r.push(((coord.0, coord.1 - 1), TileDirection::NORTH));
        }
        proof {
            assert forall|k: int| 0 <= k < r@.len() implies {
                &&& !self.spec_is_edge(coord, (#[trigger] r@[k]).1)
                &&& r@[k].0 == neighbor_coord(coord, r@[k].1)
                &&& self.spec_valid_coord(r@[k].0)
            } by {
            }
            let ge: int = if self.spec_is_edge(coord, TileDirection::EAST) {
                0
            } else {
                1
            };
            let gs: int = if self.spec_is_edge(coord, TileDirection::SOUTH) {
                0
            } else {
                1
            };
            let gw: int = if self.spec_is_edge(coord, TileDirection::WEST) {
                0
            } else {
                1
            };
            assert forall|d: TileDirection| !self.spec_is_edge(coord, d) implies r@.contains(
                (neighbor_coord(coord, d), d),
            ) by {
                let x = (neighbor_coord(coord, d), d);
                match d {
                    TileDirection::EAST => {
                        assert(r@[0] == x);
                    },
                    TileDirection::SOUTH => {
                        assert(r@[ge] == x);
                    },
                    TileDirection::WEST => {
                        assert(r@[ge + gs] == x);
                    },
                    TileDirection::NORTH => {
                        assert(r@[ge + gs + gw] == x);
                    },
                }
            }
            assert forall|k: int, l: int|
                0 <= k < l < r@.len() implies (#[trigger] r@[k]).1 != (#[trigger] r@[l]).1 by {
            }
            assert(r@ =~= self.spec_neighbors(coord));
        }
        r
    }

    pub fn get_neighbor_cells_and_dir(&self, coord: (usize, usize)) -> (r: Vec<
        (&Cell, TileDirection),
    >)
        requires
            self.wf(),
            self.spec_valid_coord(coord),
        ensures
            forall|k: int|
                0 <= k < r@.len() ==> {
                    &&& !self.spec_is_edge(coord, (#[trigger] r@[k]).1)
                    &&& *r@[k].0 == self.grid()[neighbor_coord(coord, r@[k].1).0 as int][neighbor_coord(
                        coord,
                        r@[k].1,
                    ).1 as int]
                },
            forall|d: TileDirection|
                !self.spec_is_edge(coord, d) ==> exists|k: int|
                    0 <= k < r@.len() && (#[trigger] r@[k]).1 == d,
            r@.len() <= 4,
            forall|k: int, l: int|
                0 <= k < l < r@.len() ==> (#[trigger] r@[k]).1 != (#[trigger] r@[l]).1,
            r@.len() == self.spec_neighbors(coord).len(),
            forall|k: int|
                0 <= k < r@.len() ==> (#[trigger] r@[k]).1 == self.spec_neighbors(coord)[k].1
                    && *r@[k].0 == self.grid()[self.spec_neighbors(coord)[k].0.0 as int][self.spec_neighbors(
                    coord,
                )[k].0.1 as int],
    {
        let coords = self.get_neighbor_coords_and_dirs(coord);
        let mut r: Vec<(&Cell, TileDirection)> = Vec::new();
        let mut k: usize = 0;
        while k < coords.len()
            invariant
                self.wf(),
                self.spec_valid_coord(coord),
                k <= coords@.len(),
                coords@.len() <= 4,
                r@.len() == k,
                forall|a: int|
                    0 <= a < coords@.len() ==> {
                        &&& !self.spec_is_edge(coord, (#[trigger] coords@[a]).1)
                        &&& coords@[a].0 == neighbor_coord(coord, coords@[a].1)
                        &&& self.spec_valid_coord(coords@[a].0)
                    },
                forall|a: int, b: int|
                    0 <= a < b < coords@.len() ==> (#[trigger] coords@[a]).1 != (
                    #[trigger] coords@[b]).1,
                forall|a: int|
                    0 <= a < k ==> (#[trigger] r@[a]).1 == coords@[a].1 && *r@[a].0
                        == self.grid()[coords@[a].0.0 as int][coords@[a].0.1 as int],
            decreases coords@.len() - k,
        {
            let (nc, nd) = coords[k];
            proof {
                assert(self.grid().len() == self.cells@.len());
                assert(self.grid()[nc.0 as int] == self.cells@[nc.0 as int]@);
            }
            let cell = &self.cells[nc.0];
            r.push((&cell[nc.1], nd));
            k = k + 1;
        }
        proof {
            assert forall|d: TileDirection| !self.spec_is_edge(coord, d) implies exists|a: int|
                0 <= a < r@.len() && (#[trigger] r@[a]).1 == d by {
                assert(coords@.contains((neighbor_coord(coord, d), d)));
                let a = choose|a: int|
                    0 <= a < coords@.len() && coords@[a] == ((neighbor_coord(coord, d), d));
                assert(r@[a].1 == d);
            }
        }
        r
    }

    fn set_all_walls(&mut self, b: bool)
        requires
            old(self).wf(),
        ensures
            final(self).wf(),
            final(self).size == old(self).size,
            forall|c: (usize, usize), d: TileDirection|
                final(self).spec_valid_coord(c) ==> #[trigger] final(self).wall_flag(c, d)
                    == (if final(self).spec_is_edge(c, d) {
                    old(self).wall_flag(c, d)
                } else {
                    b
                }),
            final(self).symmetric(),
    {
        let width = self.size.width;
        let height = self.size.height;
        let mut i: usize = 0;
        while i < width
            invariant
                self.wf(),
                self.size == old(self).size,
                width == self.size.width,
                height == self.size.height,
                i <= width,
                forall|c: (usize, usize), d: TileDirection|
                    self.spec_valid_coord(c) && self.spec_is_edge(c, d)
                        ==> #[trigger] self.wall_flag(c, d) == old(self).wall_flag(c, d),
                forall|c: (usize, usize), d: TileDirection|
                    self.spec_valid_coord(c) && !self.spec_is_edge(c, d) && c.0 < i
                        ==> #[trigger] self.wall_flag(c, d) == b,
            decreases width - i,
        {
            let mut j: usize = 0;
            while j < height
                invariant
                    self.wf(),
                    self.size == old(self).size,
                    width == self.size.width,
                    height == self.size.height,
                    i < width,
                    j <= height,
                    forall|c: (usize, usize), d: TileDirection|
                        self.spec_valid_coord(c) && self.spec_is_edge(c, d)
                            ==> #[trigger] self.wall_flag(c, d) == old(self).wall_flag(c, d),
                    forall|c: (usize, usize), d: TileDirection|
                        self.spec_valid_coord(c) && !self.spec_is_edge(c, d) && (c.0 < i || (c.0
                            == i && c.1 < j)) ==> #[trigger] self.wall_flag(c, d) == b,
                decreases height - j,
            {
                let coord = (i, j);
                if !self.is_edge_wall(coord, &TileDirection::NORTH) {
                    self.set_wall(coord, &TileDirection::NORTH, b);
                }
                if !self.is_edge_wall(coord, &TileDirection::EAST) {
                    self.set_wall(coord, &TileDirection::EAST, b);
                }
                if !self.is_edge_wall(coord, &TileDirection::SOUTH) {
                    self.set_wall(coord, &TileDirection::SOUTH, b);
                }
                if !self.is_edge_wall(coord, &TileDirection::WEST) {
                    self.set_wall(coord, &TileDirection::WEST, b);
                }
                j = j + 1;
            }
            i = i + 1;
        }
        proof {
            assert forall|c: (usize, usize), d: TileDirection|
                self.spec_valid_coord(c) && !self.spec_is_edge(c, d) implies #[trigger] self.wall_flag(
                c,
                d,
            ) == self.wall_flag(neighbor_coord(c, d), d.spec_opposite()) by {
                self.lemma_neighbor_involution(c, d);
            }
        }
    }

    pub fn enable_all_walls(&mut self)
        requires
            old(self).wf(),
        ensures
            final(self).wf(),
            final(self).size == old(self).size,
            forall|c: (usize, usize), d: TileDirection|
                final(self).spec_valid_coord(c) ==> #[trigger] final(self).wall_flag(c, d)
                    == (if final(self).spec_is_edge(c, d) {
                    old(self).wall_flag(c, d)
                } else {
                    true
                }),
            final(self).symmetric(),
    {
        self.set_all_walls(true);
    }

    pub fn disable_all_walls(&mut self)
        requires
            old(self).wf(),
        ensures
            final(self).wf(),
            final(self).size == old(self).size,
            forall|c: (usize, usize), d: TileDirection|
                final(self).spec_valid_coord(c) ==> #[trigger] final(self).wall_flag(c, d)
                    == (if final(self).spec_is_edge(c, d) {
                    old(self).wall_flag(c, d)
                } else {
                    false
                }),
            final(self).symmetric(),
    {
        self.set_all_walls(false);
    }

    pub fn enable_wall(&mut self, coord: (usize, usize), direction: &TileDirection)
        requires
            old(self).wf(),
            old(self).spec_valid_coord(coord),
        ensures
            Self::wall_set_rel(*old(self), *final(self), coord, *direction, true),
            old(self).symmetric() ==> final(self).symmetric(),
    {
        self.set_wall(coord, direction, true);
    }

    pub fn disable_wall(&mut self, coord: (usize, usize), direction: &TileDirection)
        requires
            old(self).wf(),
            old(self).spec_valid_coord(coord),
        ensures
            Self::wall_set_rel(*old(self), *final(self), coord, *direction, false),
            old(self).symmetric() ==> final(self).symmetric(),
    {
        self.set_wall(coord, direction, false);
    }

    fn set_wall(&mut self, coord: (usize, usize), direction: &TileDirection, b: bool)
        requires
            old(self).wf(),
            old(self).spec_valid_coord(coord),
        ensures
            Self::wall_set_rel(*old(self), *final(self), coord, *direction, b),
            old(self).symmetric() ==> final(self).symmetric(),
    {
        if self.is_edge_wall(coord, direction) {
            proof {
                if old(self).symmetric() {
                    Self::lemma_wall_set_preserves_symmetric(
                        *old(self),
                        *self,
                        coord,
                        *direction,
                        b,
                    );
                }
            }
            return ;
        }
        let (ncoord, ndir) = self.neighbor_and_opposite(coord, direction);
        self.set_wall_flag(coord, direction, b);
        self.set_wall_flag(ncoord, &ndir, b);
        proof {
            old(self).lemma_neighbor_involution(coord, *direction);
            assert(Self::wall_set_rel(*old(self), *self, coord, *direction, b));
            if old(self).symmetric() {
                Self::lemma_wall_set_preserves_symmetric(*old(self), *self, coord, *direction, b);
            }
        }
    }
}

} // verus!
