//! The 2D grid: cells, coordinate/id conversion and cell access.

use vstd::arithmetic::div_mod::lemma_fundamental_div_mod_converse;
use vstd::prelude::*;

use crate::errors::PlanError;

verus! {

/// Cell ids are flat indices into the cell array, bijective with `(x, y)`
/// coordinates via `id == y * width + x`.
pub type Id = usize;

/// The state of one cell in the world.
///
/// Costs are fixed-point integers in thousandths of a cell edge (see the
/// `cost` module).  `k` is carried in the data model but never set to anything
/// but `0`; it is kept so that consumers can match on the full shape.
#[derive(Clone, Copy, Debug, PartialEq, Eq, Structural)]
pub enum Cell {
    /// Impassable.
    Obstacle,
    /// Passable and not yet discovered by a search.
    Open,
    /// Passable and discovered: best known cost-from-root `g`, heuristic
    /// estimate `h`, reserved key `k`, and the id of the predecessor on the
    /// best known path (the root points at itself).
    Visited { g: u64, h: u64, k: u64, parent: Id },
}

/// Mathematical model of a [`World`]: its dimensions and cell sequence.
#[verifier::ext_equal]
pub struct WorldModel {
    pub width: nat,
    pub height: nat,
    pub cells: Seq<Cell>,
}

impl WorldModel {
    /// The cell array holds exactly one cell per coordinate pair.
    pub open spec fn wf(self) -> bool {
        self.width * self.height == self.cells.len()
    }

    /// Both coordinates lie inside the grid.
    pub open spec fn in_bounds(self, x: int, y: int) -> bool {
        0 <= x < self.width && 0 <= y < self.height
    }

    /// The flat id of a coordinate pair.
    pub open spec fn id_of(self, x: int, y: int) -> int {
        y * self.width + x
    }

    /// The id indexes the cell array.
    pub open spec fn valid_id(self, id: int) -> bool {
        0 <= id < self.cells.len()
    }

    /// The x coordinate of a flat id.
    pub open spec fn x_of(self, id: int) -> int {
        id % (self.width as int)
    }

    /// The y coordinate of a flat id.
    pub open spec fn y_of(self, id: int) -> int {
        id / (self.width as int)
    }

    /// What `clear` leaves of one cell: visited cells reopen, the rest stay.
    pub open spec fn cleared_cell(c: Cell) -> Cell {
        match c {
            Cell::Visited { .. } => Cell::Open,
            _ => c,
        }
    }
}

/// In a well-formed grid, coordinates and ids convert back and forth exactly:
/// in-bounds coordinates map to a valid id that maps back to the same
/// coordinates.
pub proof fn lemma_coords_of_id_of(m: WorldModel, x: int, y: int)
    requires
        m.wf(),
        m.in_bounds(x, y),
    ensures
        m.valid_id(m.id_of(x, y)),
        m.x_of(m.id_of(x, y)) == x,
        m.y_of(m.id_of(x, y)) == y,
{
    let w = m.width as int;
    let h = m.height as int;
    assert(y * w + x < w * h) by (nonlinear_arith)
        requires
            0 <= x < w,
            0 <= y < h,
    ;
    assert(0 <= y * w + x) by (nonlinear_arith)
        requires
            0 <= x,
            0 <= y,
            0 < w,
    ;
    assert(m.cells.len() == w * h);
    lemma_fundamental_div_mod_converse(y * w + x, w, y, x);
}

/// In a well-formed grid, every valid id resolves to in-bounds coordinates
/// that map back to the same id.
pub proof fn lemma_id_of_coords_of(m: WorldModel, id: int)
    requires
        m.wf(),
        m.valid_id(id),
    ensures
        m.in_bounds(m.x_of(id), m.y_of(id)),
        m.id_of(m.x_of(id), m.y_of(id)) == id,
{
    let w = m.width as int;
    let h = m.height as int;
    assert(0 < w) by (nonlinear_arith)
        requires
            0 <= id < w * h,
            0 <= w,
            0 <= h,
    ;
    vstd::arithmetic::div_mod::lemma_fundamental_div_mod(id, w);
    vstd::arithmetic::div_mod::lemma_mod_bound(id, w);
    vstd::arithmetic::div_mod::lemma_div_pos_is_pos(id, w);
    assert(id / w < h) by (nonlinear_arith)
        requires
            0 < w,
            0 <= id < w * h,
            id == w * (id / w) + id % w,
            0 <= id % w < w,
    ;
}

/// Which grid directions count as adjacent.
#[derive(Clone, Copy, Debug)]
pub enum Neighbors {
    /// Four-connected: east, south, west, north.
    Cardinal,
    /// Eight-connected: the cardinals and the four diagonals.
    CardinalAndDiagonal,
}

/// Compass direction of one neighbor candidate.
#[derive(Clone, Copy, Debug)]
enum Neighbor {
    N,
    NE,
    E,
    SE,
    S,
    SW,
    W,
    NW,
}

/// The coordinate one step in direction `dir` from `(x, y)`.
spec fn emit(dir: Neighbor, x: usize, y: usize) -> (usize, usize) {
    match dir {
        Neighbor::E => ((x + 1) as usize, y),
        Neighbor::SE => ((x + 1) as usize, (y + 1) as usize),
        Neighbor::S => (x, (y + 1) as usize),
        Neighbor::SW => ((x - 1) as usize, (y + 1) as usize),
        Neighbor::W => ((x - 1) as usize, y),
        Neighbor::NW => ((x - 1) as usize, (y - 1) as usize),
        Neighbor::N => (x, (y - 1) as usize),
        Neighbor::NE => ((x + 1) as usize, (y - 1) as usize),
    }
}

/// The direction the enumeration moves to after emitting `dir`: clockwise
/// from east, skipping the whole western (resp. northern) arc when `x == 0`
/// (resp. `y == 0`) so that no coordinate ever underflows.
spec fn next_dir(dir: Neighbor, strat: Neighbors, x: usize, y: usize) -> Option<Neighbor> {
    match dir {
        Neighbor::E => match strat {
            Neighbors::CardinalAndDiagonal => Some(Neighbor::SE),
            Neighbors::Cardinal => Some(Neighbor::S),
        },
        Neighbor::SE => Some(Neighbor::S),
        Neighbor::S => if x == 0 && y == 0 {
            None
        } else if x == 0 {
            Some(Neighbor::N)
        } else {
            match strat {
                Neighbors::CardinalAndDiagonal => Some(Neighbor::SW),
                Neighbors::Cardinal => Some(Neighbor::W),
            }
        },
        Neighbor::SW => Some(Neighbor::W),
        Neighbor::W => if y == 0 {
            None
        } else {
            match strat {
                Neighbors::CardinalAndDiagonal => Some(Neighbor::NW),
                Neighbors::Cardinal => Some(Neighbor::N),
            }
        },
        Neighbor::NW => Some(Neighbor::N),
        Neighbor::N => match strat {
            Neighbors::CardinalAndDiagonal => Some(Neighbor::NE),
            Neighbors::Cardinal => None,
        },
        Neighbor::NE => None,
    }
}

/// Position of a direction in the clockwise enumeration, used as the
/// termination measure of `dir_seq`.
spec fn dir_rank(d: Option<Neighbor>) -> nat {
    match d {
        None => 0,
        Some(Neighbor::NE) => 1,
        Some(Neighbor::N) => 2,
        Some(Neighbor::NW) => 3,
        Some(Neighbor::W) => 4,
        Some(Neighbor::SW) => 5,
        Some(Neighbor::S) => 6,
        Some(Neighbor::SE) => 7,
        Some(Neighbor::E) => 8,
    }
}

/// The coordinates still to be emitted, starting with direction `d`.
spec fn dir_seq(d: Option<Neighbor>, strat: Neighbors, x: usize, y: usize) -> Seq<(usize, usize)>
    decreases dir_rank(d),
{
    match d {
        None => Seq::empty(),
        Some(dir) => seq![emit(dir, x, y)] + dir_seq(next_dir(dir, strat, x, y), strat, x, y),
    }
}

/// The full neighbor enumeration of `(x, y)`: starting at east and moving
/// clockwise — east, [southeast], south, [southwest], west, [northwest],
/// north, [northeast] — where the bracketed members appear only under
/// `CardinalAndDiagonal`, and any member whose coordinate would be negative
/// is omitted (the order of the rest is unchanged).
pub open spec fn neighbor_seq(x: usize, y: usize, strat: Neighbors) -> Seq<(usize, usize)>
    recommends
        x < usize::MAX,
        y < usize::MAX,
{
    let e = ((x + 1) as usize, y);
    let se = ((x + 1) as usize, (y + 1) as usize);
    let s = (x, (y + 1) as usize);
    let sw = ((x - 1) as usize, (y + 1) as usize);
    let w = ((x - 1) as usize, y);
    let nw = ((x - 1) as usize, (y - 1) as usize);
    let n = (x, (y - 1) as usize);
    let ne = ((x + 1) as usize, (y - 1) as usize);
    match strat {
        Neighbors::Cardinal => if x == 0 && y == 0 {
            seq![e, s]
        } else if x == 0 {
            seq![e, s, n]
        } else if y == 0 {
            seq![e, s, w]
        } else {
            seq![e, s, w, n]
        },
        Neighbors::CardinalAndDiagonal => if x == 0 && y == 0 {
            seq![e, se, s]
        } else if x == 0 {
            seq![e, se, s, n, ne]
        } else if y == 0 {
            seq![e, se, s, sw, w]
        } else {
            seq![e, se, s, sw, w, nw, n, ne]
        },
    }
}

/// Prepending one element and then dropping the first gives the rest back.
proof fn lemma_cons_drop_first<T>(a: T, rest: Seq<T>)
    ensures
        (seq![a] + rest).drop_first() == rest,
        (seq![a] + rest)[0] == a,
        (seq![a] + rest).len() == rest.len() + 1,
{
    assert((seq![a] + rest).drop_first() =~= rest);
}

/// Starting from east, the enumeration emits exactly `neighbor_seq`.
proof fn lemma_dir_seq_full(x: usize, y: usize, strat: Neighbors)
    ensures
        dir_seq(Some(Neighbor::E), strat, x, y) == neighbor_seq(x, y, strat),
{
    reveal_with_fuel(dir_seq, 10);
    assert(dir_seq(Some(Neighbor::E), strat, x, y) =~= neighbor_seq(x, y, strat));
}

/// A lazy enumeration of the neighbors of `(x, y)` under a connectivity
/// strategy, in the fixed clockwise order of [`neighbor_seq`].
pub struct NeighborIter {
    next: Option<Neighbor>,
    strat: Neighbors,
    x: usize,
    y: usize,
}

impl NeighborIter {
    /// The enumerator never emits a coordinate that would underflow or
    /// overflow.
    pub closed spec fn wf(self) -> bool {
        &&& self.x < usize::MAX
        &&& self.y < usize::MAX
        &&& match self.next {
            Some(Neighbor::SW) | Some(Neighbor::W) | Some(Neighbor::NW) => self.x > 0,
            _ => true,
        }
        &&& match self.next {
            Some(Neighbor::NW) | Some(Neighbor::N) | Some(Neighbor::NE) => self.y > 0,
            _ => true,
        }
    }

    /// The coordinates this enumerator will still emit, in order.
    pub closed spec fn remaining(self) -> Seq<(usize, usize)> {
        dir_seq(self.next, self.strat, self.x, self.y)
    }

    /// A fresh enumerator around `(x, y)`, about to emit `neighbor_seq(x, y, strat)`.
    pub fn new(x: usize, y: usize, strat: Neighbors) -> (r: NeighborIter)
        requires
            x < usize::MAX,
            y < usize::MAX,
        ensures
            r.wf(),
            r.remaining() == neighbor_seq(x, y, strat),
    {
        proof {
            lemma_dir_seq_full(x, y, strat);
        }
        NeighborIter { next: Some(Neighbor::E), strat, x, y }
    }

    /// Emit the next neighbor coordinate, or absent once the enumeration is
    /// exhausted (after which it stays exhausted).
    pub fn next(&mut self) -> (r: Option<(usize, usize)>)
        requires
            old(self).wf(),
        ensures
            final(self).wf(),
            match r {
                Some(c) => old(self).remaining().len() > 0 && c == old(self).remaining()[0]
                    && final(self).remaining() == old(self).remaining().drop_first(),
                None => old(self).remaining().len() == 0 && final(self).remaining() == old(
                    self,
                ).remaining(),
            },
    {
        let cur = self.next;
        match cur {
            None => None,
            Some(dir) => {
                let x = self.x;
                let y = self.y;
                let c: (usize, usize) = match dir {
                    Neighbor::E => {
                        self.next = match self.strat {
                            Neighbors::CardinalAndDiagonal => Some(Neighbor::SE),
                            Neighbors::Cardinal => Some(Neighbor::S),
                        };
                        (x + 1, y)
                    },
                    Neighbor::SE => {
                        self.next = Some(Neighbor::S);
                        (x + 1, y + 1)
                    },
                    Neighbor::S => {
                        if x == 0 && y == 0 {
                            self.next = None;
                        } else if x == 0 {
                            self.next = Some(Neighbor::N);
                        } else {
                            self.next = match self.strat {
                                Neighbors::CardinalAndDiagonal => Some(Neighbor::SW),
                                Neighbors::Cardinal => Some(Neighbor::W),
                            };
                        }
                        (x, y + 1)
                    },
                    Neighbor::SW => {
                        self.next = Some(Neighbor::W);
                        (x - 1, y + 1)
                    },
                    Neighbor::W => {
                        if y == 0 {
                            self.next = None;
                        } else {
                            self.next = match self.strat {
                                Neighbors::CardinalAndDiagonal => Some(Neighbor::NW),
                                Neighbors::Cardinal => Some(Neighbor::N),
                            };
                        }
                        (x - 1, y)
                    },
                    Neighbor::NW => {
                        self.next = Some(Neighbor::N);
                        (x - 1, y - 1)
                    },
                    Neighbor::N => {
                        self.next = match self.strat {
                            Neighbors::CardinalAndDiagonal => Some(Neighbor::NE),
                            Neighbors::Cardinal => None,
                        };
                        (x, y - 1)
                    },
                    Neighbor::NE => {
                        self.next = None;
                        (x + 1, y - 1)
                    },
                };
                proof {
                    assert(c == emit(dir, x, y));
                    assert(self.next == next_dir(dir, self.strat, x, y));
                    lemma_cons_drop_first(
                        emit(dir, x, y),
                        dir_seq(self.next, self.strat, x, y),
                    );
                }
                Some(c)
            },
        }
    }
}

/// On a cell away from the `x == 0` and `y == 0` edges, the enumeration is
/// exactly east, south, west, north under `Cardinal`, and the full clockwise
/// eight under `CardinalAndDiagonal`.
pub proof fn lemma_neighbor_seq_interior(x: usize, y: usize)
    requires
        0 < x < usize::MAX,
        0 < y < usize::MAX,
    ensures
        neighbor_seq(x, y, Neighbors::Cardinal) == seq![
            ((x + 1) as usize, y),
            (x, (y + 1) as usize),
            ((x - 1) as usize, y),
            (x, (y - 1) as usize),
        ],
        neighbor_seq(x, y, Neighbors::CardinalAndDiagonal) == seq![
            ((x + 1) as usize, y),
            ((x + 1) as usize, (y + 1) as usize),
            (x, (y + 1) as usize),
            ((x - 1) as usize, (y + 1) as usize),
            ((x - 1) as usize, y),
            ((x - 1) as usize, (y - 1) as usize),
            (x, (y - 1) as usize),
            ((x + 1) as usize, (y - 1) as usize),
        ],
{
}

/// The neighbor enumeration of `(x, y)` collected into a vector: exactly
/// [`neighbor_seq`].
pub fn neighbor_list(x: usize, y: usize, strat: Neighbors) -> (r: Vec<(usize, usize)>)
    requires
        x < usize::MAX,
        y < usize::MAX,
    ensures
        r@ == neighbor_seq(x, y, strat),
{
    let diag = match strat {
        Neighbors::CardinalAndDiagonal => true,
        Neighbors::Cardinal => false,
    };
    let mut v: Vec<(usize, usize)> = Vec::new();
    v.push((x + 1, y));
    if diag {
        v.push((x + 1, y + 1));
    }
    v.push((x, y + 1));
    if x == 0 && y == 0 {
    } else if x == 0 {
        v.push((x, y - 1));
        if diag {
            v.push((x + 1, y - 1));
        }
    } else if y == 0 {
        if diag {
            v.push((x - 1, y + 1));
        }
        v.push((x - 1, y));
    } else {
        if diag {
            v.push((x - 1, y + 1));
        }
        v.push((x - 1, y));
        if diag {
            v.push((x - 1, y - 1));
        }
        v.push((x, y - 1));
        if diag {
            v.push((x + 1, y - 1));
        }
    }
    proof {
        assert(v@ =~= neighbor_seq(x, y, strat));
    }
    v
}

/// A finite 2D world of cells, stored as a flat array in row-major order.
#[derive(Debug)]
pub struct World {
    width: usize,
    height: usize,
    cells: Vec<Cell>,
}

impl View for World {
    type V = WorldModel;

    closed spec fn view(&self) -> WorldModel {
        WorldModel {
            width: self.width as nat,
            height: self.height as nat,
            cells: self.cells@,
        }
    }
}

/// A world's dimensions and cell count each fit in `usize`.
pub proof fn lemma_world_dims(w: &World)
    ensures
        w@.width <= usize::MAX,
        w@.height <= usize::MAX,
        w@.cells.len() <= usize::MAX,
{
    assert(w.cells.len() == w@.cells.len());
}

impl Clone for World {
    /// A clone carries the exact same model; the two copies never alias.
    fn clone(&self) -> (r: Self)
        ensures
            r@ == self@,
    {
        let r = World { width: self.width, height: self.height, cells: self.cells.clone() };
        proof {
            assert(r@.cells =~= self@.cells);
        }
        r
    }
}

impl World {
    /// Builds a world from its dimensions and cell contents; fails with
    /// `DimensionMismatch` exactly when `width * height` is not the number of
    /// cells given.
    pub fn new(width: usize, height: usize, cells: Vec<Cell>) -> (r: Result<World, PlanError>)
        ensures
            match r {
                Ok(w) => (width as int) * (height as int) == cells@.len() && w@ == (WorldModel {
                    width: width as nat,
                    height: height as nat,
                    cells: cells@,
                }) && w@.wf(),
                Err(e) => e == PlanError::DimensionMismatch && (width as int) * (height as int)
                    != cells@.len(),
            },
    {
        let n_cells = cells.len();
        let ok = match width.checked_mul(height) {
            Some(n) => n == n_cells,
            None => false,
        };
        if ok {
            Ok(World { width, height, cells })
        } else {
            Err(PlanError::DimensionMismatch)
        }
    }

    /// Grid width in cells.
    pub fn width(&self) -> (r: usize)
        ensures
            r == self@.width,
    {
        self.width
    }

    /// Grid height in cells.
    pub fn height(&self) -> (r: usize)
        ensures
            r == self@.height,
    {
        self.height
    }

    /// The flat id of `(x, y)`, or absent when the coordinates are out of
    /// range.
    pub fn id_at(&self, x: usize, y: usize) -> (r: Option<Id>)
        requires
            self@.wf(),
        ensures
            match r {
                Some(id) => self@.in_bounds(x as int, y as int) && id == self@.id_of(
                    x as int,
                    y as int,
                ) && self@.valid_id(id as int),
                None => !self@.in_bounds(x as int, y as int),
            },
    {
        if x < self.width && y < self.height {
            proof {
                assert(self.cells.len() == self@.cells.len());
                lemma_coords_of_id_of(self@, x as int, y as int);
            }
            Some(y * self.width + x)
        } else {
            None
        }
    }

    /// The coordinates of a flat id, or absent when the id is out of range.
    pub fn coords_for(&self, id: Id) -> (r: Option<(usize, usize)>)
        requires
            self@.wf(),
        ensures
            match r {
                Some(xy) => self@.valid_id(id as int) && xy.0 == self@.x_of(id as int) && xy.1
                    == self@.y_of(id as int) && self@.in_bounds(xy.0 as int, xy.1 as int)
                    && self@.id_of(xy.0 as int, xy.1 as int) == id,
                None => !self@.valid_id(id as int),
            },
    {
        if id < self.cells.len() {
            proof {
                lemma_id_of_coords_of(self@, id as int);
            }
            let y = id / self.width;
            let x = id - y * self.width;
            Some((x, y))
        } else {
            None
        }
    }

    /// Read a cell by id; absent when the id is out of range.
    pub fn cell(&self, id: Id) -> (r: Option<&Cell>)
        ensures
            match r {
                Some(c) => self@.valid_id(id as int) && *c == self@.cells[id as int],
                None => !self@.valid_id(id as int),
            },
    {
        if id < self.cells.len() {
            Some(&self.cells[id])
        } else {
            None
        }
    }

    /// Borrow a cell mutably by id; absent when the id is out of range, in
    /// which case the world is unchanged.
    pub fn cell_mut(&mut self, id: Id) -> (r: Option<&mut Cell>)
        ensures
            match r {
                Some(c) => old(self)@.valid_id(id as int) && *c == old(self)@.cells[id as int]
                    && final(self)@ == (WorldModel {
                    cells: old(self)@.cells.update(id as int, *final(c)),
                    ..old(self)@
                }),
                None => !old(self)@.valid_id(id as int) && final(self)@ == old(self)@,
            },
    {
        if id < self.cells.len() {
            Some(&mut self.cells[id])
        } else {
            None
        }
    }

    /// Read a cell by coordinates; absent when they are out of range.
    pub fn cell_at(&self, x: usize, y: usize) -> (r: Option<&Cell>)
        requires
            self@.wf(),
        ensures
            match r {
                Some(c) => self@.in_bounds(x as int, y as int) && *c == self@.cells[self@.id_of(
                    x as int,
                    y as int,
                )],
                None => !self@.in_bounds(x as int, y as int),
            },
    {
        match self.id_at(x, y) {
            Some(id) => Some(&self.cells[id]),
            None => None,
        }
    }

    /// Borrow a cell mutably by coordinates; absent when they are out of
    /// range, in which case the world is unchanged.
    pub fn cell_at_mut(&mut self, x: usize, y: usize) -> (r: Option<&mut Cell>)
        requires
            old(self)@.wf(),
        ensures
            match r {
                Some(c) => old(self)@.in_bounds(x as int, y as int) && *c == old(
                    self,
                )@.cells[old(self)@.id_of(x as int, y as int)] && final(self)@ == (WorldModel {
                    cells: old(self)@.cells.update(
                        old(self)@.id_of(x as int, y as int),
                        *final(c),
                    ),
                    ..old(self)@
                }),
                None => !old(self)@.in_bounds(x as int, y as int) && final(self)@ == old(self)@,
            },
    {
        match self.id_at(x, y) {
            Some(id) => Some(&mut self.cells[id]),
            None => None,
        }
    }

    /// An enumerator over the neighbors of the cell with id `id` under a
    /// connectivity strategy; absent when the id is out of range.
    pub fn iter_neighbor_ids(&self, id: Id, strat: Neighbors) -> (r: Option<NeighborIter>)
        requires
            self@.wf(),
        ensures
            match r {
                Some(it) => self@.valid_id(id as int) && it.wf() && it.remaining()
                    == neighbor_seq(
                    self@.x_of(id as int) as usize,
                    self@.y_of(id as int) as usize,
                    strat,
                ),
                None => !self@.valid_id(id as int),
            },
    {
        match self.coords_for(id) {
            Some((x, y)) => Some(NeighborIter::new(x, y, strat)),
            None => None,
        }
    }

    /// Reopen every visited cell, leaving obstacles (and open cells) as they
    /// are.  Any externally held path or frontier view of this grid is stale
    /// afterwards.
    pub fn clear(&mut self)
        ensures
            final(self)@ == (WorldModel {
                cells: old(self)@.cells.map_values(|c: Cell| WorldModel::cleared_cell(c)),
                ..old(self)@
            }),
    {
        let n = self.cells.len();
        let mut i: usize = 0;
        while i < n
            invariant
                n == self.cells.len(),
                i <= n,
                self.width == old(self).width,
                self.height == old(self).height,
                forall|j: int|
                    0 <= j < i ==> self.cells@[j] == WorldModel::cleared_cell(
                        old(self)@.cells[j],
                    ),
                forall|j: int| i <= j < n ==> self.cells@[j] == old(self)@.cells[j],
            decreases n - i,
        {
            let reopen = match self.cells[i] {
                Cell::Visited { .. } => true,
                _ => false,
            };
            if reopen {
                self.cells[i] = Cell::Open;
            }
            i += 1;
        }
        proof {
            assert(self@.cells =~= old(self)@.cells.map_values(
                |c: Cell| WorldModel::cleared_cell(c),
            ));
        }
    }
}

} // verus!
