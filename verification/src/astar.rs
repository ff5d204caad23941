//! The stepping search: configuration, frontier, relaxation and path
//! reconstruction.
//!
//! The search expands outward from the goal toward the start (a reverse
//! search): heuristic values are computed against the start coordinate.  Every
//! `step` expands one cell, relaxes its neighbors in the fixed clockwise
//! order of the connectivity strategy, and re-sorts the frontier by
//! descending priority, so the cheapest candidate is always the last element.

use vstd::prelude::*;

use crate::cost::{
    abs_diff, calc_euclidean_dist, calc_manhattan_dist, euclid, manhattan, sat_add, sat_mul,
    sat_u64, sat_usize, COST_SCALE,
};
use crate::errors::PlanError;
use crate::world::{
    lemma_world_dims, neighbor_list, neighbor_seq, Cell, Id, Neighbors, World, WorldModel,
};

verus! {

/// The estimate of remaining distance added to the accumulated cost when
/// ranking frontier candidates.
#[derive(Debug, Clone, Copy)]
pub enum Heuristic {
    /// Sum of absolute coordinate differences, in cost units.
    Manhattan,
    /// Straight-line distance, in cost units.
    Euclidean,
}

/// An immutable-update search configuration: connectivity, heuristic kind,
/// and the goal and start cells.
#[derive(Debug, Clone, Copy)]
pub struct AStarCfg {
    pub neighbors: Neighbors,
    pub heuristic: Option<Heuristic>,
    pub goal: Option<Id>,
    pub start: Option<Id>,
}

impl AStarCfg {
    /// The default configuration: cardinal connectivity, no heuristic, no
    /// goal, no start.
    pub fn new() -> (r: AStarCfg)
        ensures
            r == (AStarCfg {
                neighbors: Neighbors::Cardinal,
                heuristic: None::<Heuristic>,
                goal: None::<Id>,
                start: None::<Id>,
            }),
    {
        AStarCfg { neighbors: Neighbors::Cardinal, heuristic: None, goal: None, start: None }
    }

    /// The same configuration with the goal set to `id`.
    pub fn with_goal(self, id: Id) -> (r: AStarCfg)
        ensures
            r == (AStarCfg { goal: Some(id), ..self }),
    {
        AStarCfg { goal: Some(id), ..self }
    }

    /// The same configuration with the start set to `id`.
    pub fn with_start(self, id: Id) -> (r: AStarCfg)
        ensures
            r == (AStarCfg { start: Some(id), ..self }),
    {
        AStarCfg { start: Some(id), ..self }
    }

    /// The same configuration with the heuristic set to `h`.
    pub fn with_hueristic(self, h: Option<Heuristic>) -> (r: AStarCfg)
        ensures
            r == (AStarCfg { heuristic: h, ..self }),
    {
        AStarCfg { heuristic: h, ..self }
    }

    /// The same configuration with the connectivity strategy set to `n`.
    pub fn with_neighbors(self, n: Neighbors) -> (r: AStarCfg)
        ensures
            r == (AStarCfg { neighbors: n, ..self }),
    {
        AStarCfg { neighbors: n, ..self }
    }

    /// What validation returns: the goal is checked before the start, absence
    /// before range.
    pub open spec fn valid_spec(self, m: WorldModel) -> Result<(), PlanError> {
        match self.goal {
            None => Err(PlanError::MissingGoal),
            Some(g) => if !m.valid_id(g as int) {
                Err(PlanError::OutOfBounds)
            } else {
                match self.start {
                    None => Err(PlanError::MissingStart),
                    Some(s) => if !m.valid_id(s as int) {
                        Err(PlanError::OutOfBounds)
                    } else {
                        Ok(())
                    },
                }
            },
        }
    }

    /// Both endpoints are set and resolve inside `m`.
    pub open spec fn is_valid_for(self, m: WorldModel) -> bool {
        self.valid_spec(m) == Ok::<(), PlanError>(())
    }

    /// Check that the configuration can drive a search of `world`: both goal
    /// and start must be set and resolve to in-range coordinates.  Whether an
    /// endpoint sits on an obstacle is deliberately not checked.
    pub fn valid_for(&self, world: &World) -> (r: Result<(), PlanError>)
        requires
            world@.wf(),
        ensures
            r == self.valid_spec(world@),
    {
        match self.goal {
            None => return Err(PlanError::MissingGoal),
            Some(g) => {
                if world.coords_for(g).is_none() {
                    return Err(PlanError::OutOfBounds);
                }
            },
        }
        match self.start {
            None => return Err(PlanError::MissingStart),
            Some(s) => {
                if world.coords_for(s).is_none() {
                    return Err(PlanError::OutOfBounds);
                }
            },
        }
        Ok(())
    }
}

/// Mathematical model of an [`AStar`] search: its configuration, the private
/// grid copy, the frontier, the last expanded cell, the step counter, and
/// whether a terminal state has been reached.
#[verifier::ext_equal]
pub struct AStarModel {
    pub config: AStarCfg,
    pub current: Option<Id>,
    pub frontier: Seq<(Id, u64)>,
    pub world: WorldModel,
    pub prev_step: usize,
    pub done: bool,
}

/// Every frontier entry names a cell of the grid.
pub open spec fn frontier_ok(m: WorldModel, fr: Seq<(Id, u64)>) -> bool {
    forall|i: int| 0 <= i < fr.len() ==> m.valid_id(#[trigger] fr[i].0 as int)
}

/// Every visited cell's parent is a valid id.
pub open spec fn parents_ok(m: WorldModel) -> bool {
    forall|i: int|
        0 <= i < m.cells.len() ==> match #[trigger] m.cells[i] {
            Cell::Visited { parent, .. } => m.valid_id(parent as int),
            _ => true,
        }
}

impl AStarModel {
    /// Internal invariant: the grid is well-formed, both endpoints are set
    /// and in range, every frontier entry and every parent link is in range.
    pub open spec fn wf(self) -> bool {
        &&& self.world.wf()
        &&& match self.config.goal {
            Some(g) => self.world.valid_id(g as int),
            None => false,
        }
        &&& match self.config.start {
            Some(s) => self.world.valid_id(s as int),
            None => false,
        }
        &&& frontier_ok(self.world, self.frontier)
        &&& parents_ok(self.world)
    }
}

/// The `g` cost stored on a cell; zero for cells that carry none.
pub open spec fn cell_g(c: Cell) -> u64 {
    match c {
        Cell::Visited { g, .. } => g,
        _ => 0u64,
    }
}

/// The cost of moving between two adjacent cells: one edge under `Cardinal`,
/// the Euclidean distance between the two coordinates under
/// `CardinalAndDiagonal`.
pub open spec fn edge_cost(strat: Neighbors, nx: int, ny: int, cx: int, cy: int) -> u64 {
    match strat {
        Neighbors::Cardinal => COST_SCALE,
        Neighbors::CardinalAndDiagonal => sat_u64(euclid(nx, ny, cx, cy)),
    }
}

/// The heuristic estimate from `(nx, ny)` to the search target `(sx, sy)`.
pub open spec fn heur_cost(h: Option<Heuristic>, nx: int, ny: int, sx: int, sy: int) -> u64 {
    match h {
        Some(Heuristic::Euclidean) => sat_u64(euclid(nx, ny, sx, sy)),
        Some(Heuristic::Manhattan) => sat_u64(
            sat_usize(manhattan(nx, ny, sx, sy)) as int * COST_SCALE as int,
        ),
        None => 0u64,
    }
}

/// The first position of `id` in the frontier, or the length when absent.
pub open spec fn fr_index_of(fr: Seq<(Id, u64)>, id: Id) -> int
    decreases fr.len(),
{
    if fr.len() == 0 {
        0
    } else if fr[0].0 == id {
        0
    } else {
        1 + fr_index_of(fr.drop_first(), id)
    }
}

/// `fr_index_of` finds the first occurrence when there is one, and the
/// length when there is none.
pub proof fn lemma_fr_index_of(fr: Seq<(Id, u64)>, id: Id)
    ensures
        0 <= fr_index_of(fr, id) <= fr.len(),
        fr_index_of(fr, id) < fr.len() ==> fr[fr_index_of(fr, id)].0 == id,
        forall|t: int| 0 <= t < fr_index_of(fr, id) ==> fr[t].0 != id,
    decreases fr.len(),
{
    if fr.len() == 0 {
    } else if fr[0].0 == id {
    } else {
        lemma_fr_index_of(fr.drop_first(), id);
        assert forall|t: int| 0 <= t < fr_index_of(fr, id) implies fr[t].0 != id by {
            if t > 0 {
                assert(fr.drop_first()[t - 1] == fr[t]);
            }
        }
    }
}

/// Replace the priority of `id`'s existing frontier entry, or append a new
/// entry when `id` has none.
pub open spec fn update_or_push_spec(fr: Seq<(Id, u64)>, id: Id, pri: u64) -> Seq<(Id, u64)> {
    let j = fr_index_of(fr, id);
    if j < fr.len() {
        fr.update(j, (id, pri))
    } else {
        fr.push((id, pri))
    }
}

/// The data fixed during one expansion: strategy, heuristic, the target
/// (start) coordinates, the expanded cell with its coordinates, and its
/// stored cost.
pub struct RelaxCtx {
    pub strat: Neighbors,
    pub heur: Option<Heuristic>,
    pub sx: int,
    pub sy: int,
    pub next: Id,
    pub cx: int,
    pub cy: int,
    pub g_cur: u64,
}

/// Relax one neighbor candidate: skipped when out of range or an obstacle;
/// otherwise an open cell, or a visited cell with a strictly worse stored
/// cost, is re-marked with the tentative cost and `next` as parent, and its
/// frontier entry is updated or added with priority `g + h`.  A visited cell
/// whose stored cost is not strictly worse is never reopened.
pub open spec fn relax_one(m: WorldModel, fr: Seq<(Id, u64)>, cand: (usize, usize), ctx: RelaxCtx) -> (
    WorldModel,
    Seq<(Id, u64)>,
) {
    let nx = cand.0 as int;
    let ny = cand.1 as int;
    if !m.in_bounds(nx, ny) {
        (m, fr)
    } else {
        let nid = m.id_of(nx, ny);
        let c = m.cells[nid];
        match c {
            Cell::Obstacle => (m, fr),
            _ => {
                let new_cost = sat_u64(edge_cost(ctx.strat, nx, ny, ctx.cx, ctx.cy) + ctx.g_cur);
                let new_heur = heur_cost(ctx.heur, nx, ny, ctx.sx, ctx.sy);
                let do_update = match c {
                    Cell::Visited { g, .. } => g > new_cost,
                    Cell::Open => true,
                    Cell::Obstacle => false,
                };
                if do_update {
                    let marked = Cell::Visited {
                        g: new_cost,
                        h: new_heur,
                        k: 0,
                        parent: ctx.next,
                    };
                    (
                        WorldModel { cells: m.cells.update(nid, marked), ..m },
                        update_or_push_spec(fr, nid as usize, sat_u64(new_cost + new_heur)),
                    )
                } else {
                    (m, fr)
                }
            },
        }
    }
}

/// Relax a sequence of neighbor candidates in order.
pub open spec fn relax_seq(
    m: WorldModel,
    fr: Seq<(Id, u64)>,
    cands: Seq<(usize, usize)>,
    ctx: RelaxCtx,
) -> (WorldModel, Seq<(Id, u64)>)
    decreases cands.len(),
{
    if cands.len() == 0 {
        (m, fr)
    } else {
        let (m1, f1) = relax_seq(m, fr, cands.drop_last(), ctx);
        relax_one(m1, f1, cands.last(), ctx)
    }
}

/// Insert `e` into a descending-sorted frontier, after every entry whose
/// priority is at least `e`'s (so earlier entries win ties: the insertion is
/// stable).
pub open spec fn insert_desc(fr: Seq<(Id, u64)>, e: (Id, u64)) -> Seq<(Id, u64)>
    decreases fr.len(),
{
    if fr.len() == 0 {
        seq![e]
    } else if fr[0].1 < e.1 {
        seq![e] + fr
    } else {
        seq![fr[0]] + insert_desc(fr.drop_first(), e)
    }
}

/// Stable sort by descending priority: entries are inserted left to right,
/// so entries with equal priority keep their relative order and the cheapest
/// entry ends last.
pub open spec fn sort_desc(fr: Seq<(Id, u64)>) -> Seq<(Id, u64)>
    decreases fr.len(),
{
    if fr.len() == 0 {
        Seq::<(Id, u64)>::empty()
    } else {
        insert_desc(sort_desc(fr.drop_last()), fr.last())
    }
}

/// Inserting at the first position whose priority is below `e`'s is exactly
/// `insert_desc`.
proof fn lemma_insert_desc_at(fr: Seq<(Id, u64)>, e: (Id, u64), j: int)
    requires
        0 <= j <= fr.len(),
        forall|t: int| 0 <= t < j ==> fr[t].1 >= e.1,
        j < fr.len() ==> fr[j].1 < e.1,
    ensures
        insert_desc(fr, e) == fr.insert(j, e),
    decreases fr.len(),
{
    if fr.len() == 0 {
        assert(insert_desc(fr, e) =~= fr.insert(0, e));
    } else if fr[0].1 < e.1 {
        assert(j == 0);
        assert(insert_desc(fr, e) =~= fr.insert(0, e));
    } else {
        assert(j > 0);
        lemma_insert_desc_at(fr.drop_first(), e, j - 1);
        assert(seq![fr[0]] + fr.drop_first().insert(j - 1, e) =~= fr.insert(j, e));
    }
}

/// Every entry of `insert_desc(fr, e)` is `e` or an entry of `fr`, and the
/// length grows by one.
proof fn lemma_insert_desc_elems(fr: Seq<(Id, u64)>, e: (Id, u64))
    ensures
        insert_desc(fr, e).len() == fr.len() + 1,
        forall|i: int|
            0 <= i < insert_desc(fr, e).len() ==> (#[trigger] insert_desc(fr, e)[i] == e
                || fr.contains(insert_desc(fr, e)[i])),
    decreases fr.len(),
{
    if fr.len() == 0 {
    } else if fr[0].1 < e.1 {
        assert forall|i: int| 0 <= i < insert_desc(fr, e).len() implies (#[trigger] insert_desc(
            fr,
            e,
        )[i] == e || fr.contains(insert_desc(fr, e)[i])) by {
            if i > 0 {
                assert(insert_desc(fr, e)[i] == fr[i - 1]);
            }
        }
    } else {
        lemma_insert_desc_elems(fr.drop_first(), e);
        assert forall|i: int| 0 <= i < insert_desc(fr, e).len() implies (#[trigger] insert_desc(
            fr,
            e,
        )[i] == e || fr.contains(insert_desc(fr, e)[i])) by {
            if i == 0 {
                assert(insert_desc(fr, e)[0] == fr[0]);
                assert(fr.contains(fr[0]));
            } else {
                let rest = insert_desc(fr.drop_first(), e);
                assert(insert_desc(fr, e)[i] == rest[i - 1]);
                if rest[i - 1] != e {
                    assert(fr.drop_first().contains(rest[i - 1]));
                    let w = choose|w: int|
                        0 <= w < fr.drop_first().len() && fr.drop_first()[w] == rest[i - 1];
                    assert(fr[w + 1] == rest[i - 1]);
                }
            }
        }
    }
}

/// Sorting keeps the length and draws every entry from the input.
proof fn lemma_sort_desc_elems(fr: Seq<(Id, u64)>)
    ensures
        sort_desc(fr).len() == fr.len(),
        forall|i: int|
            0 <= i < sort_desc(fr).len() ==> fr.contains(#[trigger] sort_desc(fr)[i]),
    decreases fr.len(),
{
    if fr.len() == 0 {
    } else {
        lemma_sort_desc_elems(fr.drop_last());
        lemma_insert_desc_elems(sort_desc(fr.drop_last()), fr.last());
        assert forall|i: int| 0 <= i < sort_desc(fr).len() implies fr.contains(
            #[trigger] sort_desc(fr)[i],
        ) by {
            let x = sort_desc(fr)[i];
            if x == fr.last() {
                assert(fr[fr.len() - 1] == x);
            } else {
                assert(sort_desc(fr.drop_last()).contains(x));
                let w = choose|w: int|
                    0 <= w < sort_desc(fr.drop_last()).len() && sort_desc(fr.drop_last())[w] == x;
                assert(fr.drop_last().contains(x));
                let v = choose|v: int| 0 <= v < fr.drop_last().len() && fr.drop_last()[v] == x;
                assert(fr[v] == x);
            }
        }
    }
}

/// Priorities never increase along the frontier: the cheapest entry is last.
pub open spec fn sorted_by_desc_priority(fr: Seq<(Id, u64)>) -> bool {
    forall|i: int, j: int| 0 <= i <= j < fr.len() ==> fr[i].1 >= fr[j].1
}

/// Stable insertion keeps the frontier sorted by descending priority.
proof fn lemma_insert_desc_sorted(fr: Seq<(Id, u64)>, e: (Id, u64))
    requires
        sorted_by_desc_priority(fr),
    ensures
        sorted_by_desc_priority(insert_desc(fr, e)),
    decreases fr.len(),
{
    if fr.len() == 0 {
    } else if fr[0].1 < e.1 {
        let r = insert_desc(fr, e);
        assert forall|i: int, j: int| 0 <= i <= j < r.len() implies r[i].1 >= r[j].1 by {
            if i > 0 {
                assert(r[i] == fr[i - 1]);
            }
            if j > 0 {
                assert(r[j] == fr[j - 1]);
            }
        }
    } else {
        assert(sorted_by_desc_priority(fr.drop_first())) by {
            assert forall|i: int, j: int|
                0 <= i <= j < fr.drop_first().len() implies fr.drop_first()[i].1
                >= fr.drop_first()[j].1 by {
                assert(fr.drop_first()[i] == fr[i + 1]);
                assert(fr.drop_first()[j] == fr[j + 1]);
            }
        }
        lemma_insert_desc_sorted(fr.drop_first(), e);
        lemma_insert_desc_elems(fr.drop_first(), e);
        let r = insert_desc(fr, e);
        let rest = insert_desc(fr.drop_first(), e);
        assert forall|i: int, j: int| 0 <= i <= j < r.len() implies r[i].1 >= r[j].1 by {
            if i > 0 {
                assert(r[i] == rest[i - 1]);
                assert(r[j] == rest[j - 1]);
            } else if j > 0 {
                assert(r[j] == rest[j - 1]);
                if rest[j - 1] == e {
                    assert(fr[0].1 >= e.1);
                } else {
                    assert(fr.drop_first().contains(rest[j - 1]));
                    let w = choose|w: int|
                        0 <= w < fr.drop_first().len() && fr.drop_first()[w] == rest[j - 1];
                    assert(fr[w + 1] == rest[j - 1]);
                }
            }
        }
    }
}

/// The re-sorted frontier is sorted by descending priority, so the cheapest
/// candidate is always the last element.
pub proof fn lemma_sort_desc_sorted(fr: Seq<(Id, u64)>)
    ensures
        sorted_by_desc_priority(sort_desc(fr)),
        forall|i: int|
            0 <= i < sort_desc(fr).len() ==> #[trigger] sort_desc(fr)[i].1 >= sort_desc(fr)[sort_desc(
                fr,
            ).len() - 1].1,
    decreases fr.len(),
{
    if fr.len() == 0 {
    } else {
        lemma_sort_desc_sorted(fr.drop_last());
        lemma_insert_desc_sorted(sort_desc(fr.drop_last()), fr.last());
    }
}

/// One full expansion of the cell `next`: relax its neighbors in enumeration
/// order, re-sort the frontier, record `next` as current and count the step.
pub open spec fn step_expand(s: AStarModel, next: Id, start: Id) -> (AStarModel, Option<usize>) {
    let cx = s.world.x_of(next as int);
    let cy = s.world.y_of(next as int);
    let sx = s.world.x_of(start as int);
    let sy = s.world.y_of(start as int);
    let g_cur = cell_g(s.world.cells[next as int]);
    let ctx = RelaxCtx {
        strat: s.config.neighbors,
        heur: s.config.heuristic,
        sx,
        sy,
        next,
        cx,
        cy,
        g_cur,
    };
    let cands = neighbor_seq(cx as usize, cy as usize, s.config.neighbors);
    let relaxed = relax_seq(s.world, s.frontier, cands, ctx);
    let steps = sat_usize(s.prev_step + 1);
    (
        AStarModel {
            world: relaxed.0,
            frontier: sort_desc(relaxed.1),
            current: Some(next),
            prev_step: steps,
            ..s
        },
        Some(steps),
    )
}

/// What one `step` call does to the whole search state, and what it returns.
///
/// A done search is left untouched.  The first call expands the goal;
/// afterwards the cheapest frontier entry (the last, after the descending
/// sort) is popped.  Reaching the start, or running out of frontier, ends
/// the search (sticky, with an absent result); otherwise the popped cell is
/// expanded and the step count is returned.
pub open spec fn step_result(s: AStarModel) -> (AStarModel, Option<usize>) {
    match (s.config.goal, s.config.start) {
        (Some(goal), Some(start)) => if s.done {
            (s, None)
        } else {
            match s.current {
                None => if goal == start {
                    (AStarModel { done: true, ..s }, None)
                } else {
                    step_expand(s, goal, start)
                },
                Some(_) => if s.frontier.len() == 0 {
                    (AStarModel { done: true, ..s }, None)
                } else {
                    let next = s.frontier.last().0;
                    let s1 = AStarModel { frontier: s.frontier.drop_last(), ..s };
                    if next == start {
                        (AStarModel { done: true, ..s1 }, None)
                    } else {
                        step_expand(s1, next, start)
                    }
                },
            }
        },
        _ => (s, None),
    }
}

/// The chain of cells from `cur` along parent links: stops at a cell that is
/// its own parent (the root), at a cell that is not visited (malformed, must
/// not occur), or when the fuel runs out (a cycle guard).
pub open spec fn path_walk(m: WorldModel, cur: Id, fuel: nat) -> Seq<Id>
    decreases fuel,
{
    match m.cells[cur as int] {
        Cell::Visited { parent, .. } => if parent == cur || fuel == 0 {
            seq![cur]
        } else {
            seq![cur] + path_walk(m, parent, (fuel - 1) as nat)
        },
        _ => seq![cur],
    }
}

/// The reconstructed path: present once the start cell has been visited; the
/// walk from the start along parent links (guarded by `width * height` hops),
/// reversed so that it reads from the goal end to the start.
pub open spec fn path_spec(m: WorldModel, start: Id) -> Option<Seq<Id>> {
    if m.valid_id(start as int) && (match m.cells[start as int] {
        Cell::Visited { .. } => true,
        _ => false,
    }) {
        Some(path_walk(m, start, m.cells.len()).reverse())
    } else {
        None
    }
}

/// On a fresh search whose start equals its goal, the first step ends the
/// search at once: it returns absent, the frontier stays empty, and the grid
/// is untouched.
pub proof fn lemma_step_start_equals_goal(s: AStarModel)
    requires
        s.wf(),
        s.config.goal == s.config.start,
        s.current == None::<Id>,
        s.done == false,
        s.frontier == Seq::<(Id, u64)>::empty(),
    ensures
        step_result(s).1 == None::<usize>,
        step_result(s).0.frontier == Seq::<(Id, u64)>::empty(),
        step_result(s).0.done,
        step_result(s).0.world == s.world,
{
}

/// Whether a cell is impassable.
pub open spec fn is_obstacle(c: Cell) -> bool {
    match c {
        Cell::Obstacle => true,
        _ => false,
    }
}

/// Whether a cell carries search data.
pub open spec fn is_visited(c: Cell) -> bool {
    match c {
        Cell::Visited { .. } => true,
        _ => false,
    }
}

/// Two cells sit within one king's move of each other: both coordinates
/// differ by at most one.
pub open spec fn adjacent_ids(m: WorldModel, a: int, b: int) -> bool {
    abs_diff(m.x_of(a), m.x_of(b)) <= 1 && abs_diff(m.y_of(a), m.y_of(b)) <= 1
}

/// A region of cell ids is closed when no relaxation can leave it: every
/// in-range passable cell adjacent to a region cell is itself in the region.
/// A full-width or full-height wall of obstacles closes the side it encloses.
pub open spec fn region_closed(m: WorldModel, reg: spec_fn(int) -> bool) -> bool {
    forall|a: int, b: int|
        reg(a) && m.valid_id(a) && m.valid_id(b) && #[trigger] adjacent_ids(m, a, b)
            && !is_obstacle(m.cells[b]) ==> reg(b)
}

/// The search is confined to a region: every visited cell and every frontier
/// entry lies in it.
pub open spec fn confined(s: AStarModel, reg: spec_fn(int) -> bool) -> bool {
    &&& forall|i: int|
        0 <= i < s.world.cells.len() && is_visited(#[trigger] s.world.cells[i]) ==> reg(i)
    &&& forall|i: int| 0 <= i < s.frontier.len() ==> reg(#[trigger] s.frontier[i].0 as int)
}

/// Every coordinate of the neighbor enumeration is within one step of
/// `(x, y)` in each axis.
proof fn lemma_neighbor_seq_adjacent(x: usize, y: usize, strat: Neighbors)
    requires
        x < usize::MAX,
        y < usize::MAX,
    ensures
        forall|j: int|
            0 <= j < neighbor_seq(x, y, strat).len() ==> abs_diff(
                (#[trigger] neighbor_seq(x, y, strat)[j]).0 as int,
                x as int,
            ) <= 1 && abs_diff(neighbor_seq(x, y, strat)[j].1 as int, y as int) <= 1,
{
}

/// Relaxing one candidate keeps the search inside a closed region, keeps the
/// obstacle set, and keeps the grid's shape.
proof fn lemma_relax_one_confined(
    m: WorldModel,
    fr: Seq<(Id, u64)>,
    cand: (usize, usize),
    ctx: RelaxCtx,
    reg: spec_fn(int) -> bool,
)
    requires
        m.wf(),
        m.cells.len() <= usize::MAX,
        region_closed(m, reg),
        frontier_ok(m, fr),
        parents_ok(m),
        forall|i: int| 0 <= i < m.cells.len() && is_visited(#[trigger] m.cells[i]) ==> reg(i),
        forall|i: int| 0 <= i < fr.len() ==> reg(#[trigger] fr[i].0 as int),
        m.valid_id(ctx.next as int),
        reg(ctx.next as int),
        ctx.cx == m.x_of(ctx.next as int),
        ctx.cy == m.y_of(ctx.next as int),
        abs_diff(cand.0 as int, ctx.cx) <= 1,
        abs_diff(cand.1 as int, ctx.cy) <= 1,
    ensures
        ({
            let (m2, f2) = relax_one(m, fr, cand, ctx);
            &&& m2.wf()
            &&& m2.width == m.width
            &&& m2.height == m.height
            &&& m2.cells.len() == m.cells.len()
            &&& forall|i: int|
                0 <= i < m2.cells.len() ==> is_obstacle(#[trigger] m2.cells[i]) == is_obstacle(
                    m.cells[i],
                )
            &&& region_closed(m2, reg)
            &&& frontier_ok(m2, f2)
            &&& parents_ok(m2)
            &&& forall|i: int|
                0 <= i < m2.cells.len() && is_visited(#[trigger] m2.cells[i]) ==> reg(i)
            &&& forall|i: int| 0 <= i < f2.len() ==> reg(#[trigger] f2[i].0 as int)
        }),
{
    let nx = cand.0 as int;
    let ny = cand.1 as int;
    let (m2, f2) = relax_one(m, fr, cand, ctx);
    if m.in_bounds(nx, ny) {
        let nid = m.id_of(nx, ny);
        crate::world::lemma_coords_of_id_of(m, nx, ny);
        if !is_obstacle(m.cells[nid]) {
            assert(adjacent_ids(m, ctx.next as int, nid));
            assert(reg(nid));
            lemma_fr_index_of(fr, nid as usize);
            assert(nid as usize as int == nid);
            assert forall|i: int| 0 <= i < f2.len() implies m2.valid_id(
                #[trigger] f2[i].0 as int,
            ) by {
                let j = fr_index_of(fr, nid as usize);
                if j < fr.len() && i != j {
                    assert(f2[i] == fr[i]);
                } else if j == fr.len() && i < fr.len() {
                    assert(f2[i] == fr[i]);
                }
            }
        }
    }
    assert forall|a: int, b: int|
        reg(a) && m2.valid_id(a) && m2.valid_id(b) && #[trigger] adjacent_ids(m2, a, b)
            && !is_obstacle(m2.cells[b]) implies reg(b) by {
        assert(adjacent_ids(m, a, b));
        assert(!is_obstacle(m.cells[b]));
    }
}

/// Relaxing a whole candidate list keeps the search inside a closed region.
proof fn lemma_relax_seq_confined(
    m: WorldModel,
    fr: Seq<(Id, u64)>,
    cands: Seq<(usize, usize)>,
    ctx: RelaxCtx,
    reg: spec_fn(int) -> bool,
)
    requires
        m.wf(),
        m.cells.len() <= usize::MAX,
        region_closed(m, reg),
        frontier_ok(m, fr),
        parents_ok(m),
        forall|i: int| 0 <= i < m.cells.len() && is_visited(#[trigger] m.cells[i]) ==> reg(i),
        forall|i: int| 0 <= i < fr.len() ==> reg(#[trigger] fr[i].0 as int),
        m.valid_id(ctx.next as int),
        reg(ctx.next as int),
        ctx.cx == m.x_of(ctx.next as int),
        ctx.cy == m.y_of(ctx.next as int),
        forall|j: int|
            0 <= j < cands.len() ==> abs_diff((#[trigger] cands[j]).0 as int, ctx.cx) <= 1
                && abs_diff(cands[j].1 as int, ctx.cy) <= 1,
    ensures
        ({
            let (m2, f2) = relax_seq(m, fr, cands, ctx);
            &&& m2.wf()
            &&& m2.width == m.width
            &&& m2.height == m.height
            &&& m2.cells.len() == m.cells.len()
            &&& forall|i: int|
                0 <= i < m2.cells.len() ==> is_obstacle(#[trigger] m2.cells[i]) == is_obstacle(
                    m.cells[i],
                )
            &&& region_closed(m2, reg)
            &&& frontier_ok(m2, f2)
            &&& parents_ok(m2)
            &&& forall|i: int|
                0 <= i < m2.cells.len() && is_visited(#[trigger] m2.cells[i]) ==> reg(i)
            &&& forall|i: int| 0 <= i < f2.len() ==> reg(#[trigger] f2[i].0 as int)
        }),
    decreases cands.len(),
{
    if cands.len() == 0 {
    } else {
        lemma_relax_seq_confined(m, fr, cands.drop_last(), ctx, reg);
        let (m1, f1) = relax_seq(m, fr, cands.drop_last(), ctx);
        assert(m1.x_of(ctx.next as int) == m.x_of(ctx.next as int));
        assert(m1.y_of(ctx.next as int) == m.y_of(ctx.next as int));
        lemma_relax_one_confined(m1, f1, cands.last(), ctx, reg);
        let (m2, f2) = relax_one(m1, f1, cands.last(), ctx);
        assert forall|i: int|
            0 <= i < m2.cells.len() implies is_obstacle(#[trigger] m2.cells[i]) == is_obstacle(
            m.cells[i],
        ) by {
            assert(is_obstacle(m2.cells[i]) == is_obstacle(m1.cells[i]));
        }
    }
}

/// A step keeps the search inside a closed region.
///
/// If the start cell lies outside the region, a step can only end the search
/// by exhausting the frontier (no path), never by reaching the start.
pub proof fn lemma_step_confined(s: AStarModel, reg: spec_fn(int) -> bool)
    requires
        s.wf(),
        s.world.cells.len() <= usize::MAX,
        confined(s, reg),
        region_closed(s.world, reg),
        match s.config.goal {
            Some(g) => reg(g as int),
            None => false,
        },
    ensures
        confined(step_result(s).0, reg),
        region_closed(step_result(s).0.world, reg),
        step_result(s).0.wf(),
        step_result(s).0.config == s.config,
        step_result(s).0.world.width == s.world.width,
        step_result(s).0.world.height == s.world.height,
        step_result(s).0.world.cells.len() == s.world.cells.len(),
        forall|i: int|
            0 <= i < s.world.cells.len() ==> is_obstacle(#[trigger] step_result(s).0.world.cells[i])
                == is_obstacle(s.world.cells[i]),
        !reg(s.config.start.unwrap() as int) && !s.done && step_result(s).0.done ==> s.frontier.len()
            == 0,
{
    let goal = s.config.goal.unwrap();
    let start = s.config.start.unwrap();
    if s.done {
    } else {
        match s.current {
            None => {
                if goal == start {
                } else {
                    lemma_step_confined_expand(s, goal, start, reg);
                }
            },
            Some(_) => {
                if s.frontier.len() == 0 {
                } else {
                    let next = s.frontier.last().0;
                    assert(reg(next as int));
                    let s1 = AStarModel { frontier: s.frontier.drop_last(), ..s };
                    if next == start {
                    } else {
                        assert(confined(s1, reg)) by {
                            assert forall|i: int| 0 <= i < s1.frontier.len() implies reg(
                                #[trigger] s1.frontier[i].0 as int,
                            ) by {
                                assert(s1.frontier[i] == s.frontier[i]);
                            }
                        }
                        lemma_step_confined_expand(s1, next, start, reg);
                    }
                }
            },
        }
    }
}

/// The expansion phase of a step keeps the search inside a closed region.
proof fn lemma_step_confined_expand(s: AStarModel, next: Id, start: Id, reg: spec_fn(int) -> bool)
    requires
        s.wf(),
        s.world.cells.len() <= usize::MAX,
        confined(s, reg),
        region_closed(s.world, reg),
        s.world.valid_id(next as int),
        reg(next as int),
    ensures
        confined(step_expand(s, next, start).0, reg),
        region_closed(step_expand(s, next, start).0.world, reg),
        step_expand(s, next, start).0.wf(),
        step_expand(s, next, start).0.config == s.config,
        step_expand(s, next, start).0.world.width == s.world.width,
        step_expand(s, next, start).0.world.height == s.world.height,
        step_expand(s, next, start).0.world.cells.len() == s.world.cells.len(),
        forall|i: int|
            0 <= i < s.world.cells.len() ==> is_obstacle(
                #[trigger] step_expand(s, next, start).0.world.cells[i],
            ) == is_obstacle(s.world.cells[i]),
{
    let cx = s.world.x_of(next as int);
    let cy = s.world.y_of(next as int);
    crate::world::lemma_id_of_coords_of(s.world, next as int);
    let ctx = RelaxCtx {
        strat: s.config.neighbors,
        heur: s.config.heuristic,
        sx: s.world.x_of(start as int),
        sy: s.world.y_of(start as int),
        next,
        cx,
        cy,
        g_cur: cell_g(s.world.cells[next as int]),
    };
    let cands = neighbor_seq(cx as usize, cy as usize, s.config.neighbors);
    assert(cx as usize as int == cx && cy as usize as int == cy) by {
        assert(0 < s.world.width && 0 < s.world.height) by (nonlinear_arith)
            requires
                0 <= (next as int) < s.world.width * s.world.height,
                0 <= s.world.width,
                0 <= s.world.height,
        ;
        assert(s.world.width <= s.world.cells.len()) by (nonlinear_arith)
            requires
                s.world.width * s.world.height == s.world.cells.len(),
                0 < s.world.height,
                0 <= s.world.width,
        ;
        assert(s.world.height <= s.world.cells.len()) by (nonlinear_arith)
            requires
                s.world.width * s.world.height == s.world.cells.len(),
                0 < s.world.width,
                0 <= s.world.height,
        ;
    };
    lemma_neighbor_seq_adjacent(cx as usize, cy as usize, s.config.neighbors);
    lemma_relax_seq_confined(s.world, s.frontier, cands, ctx, reg);
    let (m2, f2) = relax_seq(s.world, s.frontier, cands, ctx);
    lemma_sort_desc_elems(f2);
    assert forall|i: int| 0 <= i < sort_desc(f2).len() implies reg(
        #[trigger] sort_desc(f2)[i].0 as int,
    ) && m2.valid_id(sort_desc(f2)[i].0 as int) by {
        assert(f2.contains(sort_desc(f2)[i]));
        let w = choose|w: int| 0 <= w < f2.len() && f2[w] == sort_desc(f2)[i];
        assert(reg(f2[w].0 as int));
        assert(m2.valid_id(f2[w].0 as int));
    }
}

/// Terminal states are sticky: once a step reports an absent result, every
/// later step leaves the search unchanged and reports absent again.
pub proof fn lemma_terminal_sticky(s: AStarModel)
    requires
        step_result(s).1 == None::<usize>,
    ensures
        step_result(step_result(s).0).0 == step_result(s).0,
        step_result(step_result(s).0).1 == None::<usize>,
{
}

/// The state after `n` steps.
pub open spec fn steps_result(s: AStarModel, n: nat) -> AStarModel
    decreases n,
{
    if n == 0 {
        s
    } else {
        step_result(steps_result(s, (n - 1) as nat)).0
    }
}

/// A full-height wall of obstacles at column `wc` closes the region of cells
/// strictly west of it: no relaxation can step over or around the wall.
pub proof fn lemma_wall_closes_west(m: WorldModel, wc: int, reg: spec_fn(int) -> bool)
    requires
        m.wf(),
        0 <= wc < m.width,
        forall|y: int|
            0 <= y < m.height ==> is_obstacle(#[trigger] m.cells[m.id_of(wc, y)]),
        forall|id: int| #[trigger] reg(id) <==> m.x_of(id) < wc,
    ensures
        region_closed(m, reg),
{
    assert forall|a: int, b: int|
        reg(a) && m.valid_id(a) && m.valid_id(b) && #[trigger] adjacent_ids(m, a, b)
            && !is_obstacle(m.cells[b]) implies reg(b) by {
        crate::world::lemma_id_of_coords_of(m, b);
        if m.x_of(b) >= wc {
            assert(m.x_of(b) == wc);
            assert(is_obstacle(m.cells[m.id_of(wc, m.y_of(b))]));
            assert(m.id_of(m.x_of(b), m.y_of(b)) == b);
            assert(false);
        }
    }
}

/// Any number of steps keeps a search confined behind a full-height wall of
/// obstacles, when it begins confined there with its goal on the west side.
pub proof fn lemma_steps_confined_by_wall(
    s: AStarModel,
    wc: int,
    reg: spec_fn(int) -> bool,
    n: nat,
)
    requires
        s.wf(),
        s.world.cells.len() <= usize::MAX,
        0 <= wc < s.world.width,
        forall|y: int|
            0 <= y < s.world.height ==> is_obstacle(
                #[trigger] s.world.cells[s.world.id_of(wc, y)],
            ),
        forall|id: int| #[trigger] reg(id) <==> s.world.x_of(id) < wc,
        confined(s, reg),
        s.world.x_of(s.config.goal.unwrap() as int) < wc,
    ensures
        ({
            let sn = steps_result(s, n);
            &&& sn.wf()
            &&& sn.config == s.config
            &&& sn.world.width == s.world.width
            &&& sn.world.height == s.world.height
            &&& sn.world.cells.len() == s.world.cells.len()
            &&& forall|i: int|
                0 <= i < s.world.cells.len() ==> is_obstacle(#[trigger] sn.world.cells[i])
                    == is_obstacle(s.world.cells[i])
            &&& confined(sn, reg)
        }),
    decreases n,
{
    if n == 0 {
    } else {
        lemma_steps_confined_by_wall(s, wc, reg, (n - 1) as nat);
        let sp = steps_result(s, (n - 1) as nat);
        assert forall|id: int| #[trigger] reg(id) <==> sp.world.x_of(id) < wc by {
            assert(sp.world.x_of(id) == s.world.x_of(id));
        }
        assert forall|y: int|
            0 <= y < sp.world.height implies is_obstacle(
            #[trigger] sp.world.cells[sp.world.id_of(wc, y)],
        ) by {
            crate::world::lemma_coords_of_id_of(sp.world, wc, y);
            assert(sp.world.id_of(wc, y) == s.world.id_of(wc, y));
            assert(is_obstacle(s.world.cells[s.world.id_of(wc, y)]));
        }
        lemma_wall_closes_west(sp.world, wc, reg);
        assert(match sp.config.goal {
            Some(g) => reg(g as int),
            None => false,
        }) by {
            let g = s.config.goal.unwrap();
            assert(sp.world.x_of(g as int) == s.world.x_of(g as int));
        }
        lemma_step_confined(sp, reg);
    }
}

/// With a full-height wall of obstacles strictly between the goal (west of
/// it) and the start (east of it), no number of steps ever produces a path:
/// the search cannot cross the wall.
pub proof fn lemma_wall_means_no_path(s: AStarModel, wc: int, reg: spec_fn(int) -> bool, n: nat)
    requires
        s.wf(),
        s.world.cells.len() <= usize::MAX,
        0 <= wc < s.world.width,
        forall|y: int|
            0 <= y < s.world.height ==> is_obstacle(
                #[trigger] s.world.cells[s.world.id_of(wc, y)],
            ),
        forall|id: int| #[trigger] reg(id) <==> s.world.x_of(id) < wc,
        confined(s, reg),
        s.world.x_of(s.config.goal.unwrap() as int) < wc,
        s.world.x_of(s.config.start.unwrap() as int) > wc,
    ensures
        path_spec(steps_result(s, n).world, s.config.start.unwrap()) == None::<Seq<Id>>,
{
    lemma_steps_confined_by_wall(s, wc, reg, n);
    let sn = steps_result(s, n);
    let start = s.config.start.unwrap();
    assert(sn.world.x_of(start as int) == s.world.x_of(start as int));
    lemma_confined_no_path(sn, reg);
}

/// While the search is confined to a region that excludes the start cell,
/// the path is absent.
pub proof fn lemma_confined_no_path(s: AStarModel, reg: spec_fn(int) -> bool)
    requires
        s.wf(),
        confined(s, reg),
        !reg(s.config.start.unwrap() as int),
    ensures
        path_spec(s.world, s.config.start.unwrap()) == None::<Seq<Id>>,
{
    let start = s.config.start.unwrap();
    if is_visited(s.world.cells[start as int]) {
        assert(reg(start as int));
    }
}

/// Replace the priority of `id`'s frontier entry in place, or push a new
/// entry at the end when `id` has none.
fn update_or_push(fr: &mut Vec<(Id, u64)>, id: Id, pri: u64)
    ensures
        final(fr)@ == update_or_push_spec(old(fr)@, id, pri),
{
    proof {
        lemma_fr_index_of(fr@, id);
    }
    let n = fr.len();
    let mut j: usize = 0;
    while j < n
        invariant
            j <= n,
            n == fr@.len(),
            fr@ == old(fr)@,
            forall|t: int| 0 <= t < j ==> fr@[t].0 != id,
        decreases n - j,
    {
        if fr[j].0 == id {
            proof {
                lemma_fr_index_of(fr@, id);
                assert(fr_index_of(fr@, id) == j);
            }
            fr[j] = (id, pri);
            return ;
        }
        j += 1;
    }
    proof {
        assert(fr_index_of(fr@, id) == fr@.len());
    }
    fr.push((id, pri));
}

/// A copy of the frontier, stable-sorted by descending priority.
#[verifier::loop_isolation(false)]
fn sorted_desc(fr: &Vec<(Id, u64)>) -> (r: Vec<(Id, u64)>)
    ensures
        r@ == sort_desc(fr@),
{
    let n = fr.len();
    let mut out: Vec<(Id, u64)> = Vec::new();
    let mut k: usize = 0;
    while k < n
        invariant
            k <= n,
            out@ == sort_desc(fr@.take(k as int)),
        decreases n - k,
    {
        let e = fr[k];
        let m = out.len();
        let mut j: usize = 0;
        while j < m && out[j].1 >= e.1
            invariant
                j <= m,
                forall|t: int| 0 <= t < j ==> out@[t].1 >= e.1,
            decreases m - j,
        {
            j += 1;
        }
        proof {
            lemma_insert_desc_at(out@, e, j as int);
            assert(fr@.take(k + 1).drop_last() =~= fr@.take(k as int));
            assert(fr@.take(k + 1).last() == fr@[k as int]);
        }
        out.insert(j, e);
        k += 1;
    }
    proof {
        assert(fr@.take(n as int) =~= fr@);
    }
    out
}

/// The incremental search: a validated configuration, a private grid copy,
/// the frontier of discovered-but-unexpanded cells, and the step state.
#[derive(Debug)]
pub struct AStar {
    config: AStarCfg,
    current: Option<Id>,
    frontier: Vec<(Id, u64)>,
    world: World,
    prev_step: usize,
    done: bool,
}

impl View for AStar {
    type V = AStarModel;

    closed spec fn view(&self) -> AStarModel {
        AStarModel {
            config: self.config,
            current: self.current,
            frontier: self.frontier@,
            world: self.world@,
            prev_step: self.prev_step,
            done: self.done,
        }
    }
}

impl AStar {
    /// Build a search from a configuration and a grid, which the search then
    /// owns exclusively.  Fails with `InvalidConfig` exactly when the
    /// configuration does not validate against the grid.  On success the goal
    /// cell is pre-marked visited with zero cost and itself as parent, the
    /// frontier is empty and no cell has been expanded.
    pub fn from_cfg(cfg: AStarCfg, world: World) -> (r: Result<AStar, PlanError>)
        requires
            world@.wf(),
            parents_ok(world@),
        ensures
            match r {
                Ok(a) => cfg.is_valid_for(world@) && a@ == (AStarModel {
                    config: cfg,
                    current: None::<Id>,
                    frontier: Seq::<(Id, u64)>::empty(),
                    world: WorldModel {
                        cells: world@.cells.update(
                            cfg.goal.unwrap() as int,
                            Cell::Visited {
                                g: 0,
                                h: 0,
                                k: 0,
                                parent: cfg.goal.unwrap(),
                            },
                        ),
                        ..world@
                    },
                    prev_step: 0,
                    done: false,
                }) && a@.wf(),
                Err(e) => e == PlanError::InvalidConfig && !cfg.is_valid_for(world@),
            },
    {
        let mut world = world;
        let ghost w0 = world@;
        if let Err(_) = cfg.valid_for(&world) {
            return Err(PlanError::InvalidConfig);
        }
        let goal = match cfg.goal {
            Some(g) => g,
            None => {
                return Err(PlanError::InvalidConfig);
            },
        };
        match world.cell_mut(goal) {
            Some(c) => {
                *c = Cell::Visited { g: 0, h: 0, k: 0, parent: goal };
            },
            None => {
                return Err(PlanError::InvalidConfig);
            },
        }
        let a = AStar {
            config: cfg,
            current: None,
            frontier: Vec::new(),
            world,
            prev_step: 0,
            done: false,
        };
        proof {
            let marked = Cell::Visited { g: 0, h: 0, k: 0, parent: goal };
            assert(a@.world =~= (WorldModel {
                cells: w0.cells.update(goal as int, marked),
                ..w0
            }));
            assert(a@ =~= (AStarModel {
                config: cfg,
                current: None::<Id>,
                frontier: Seq::<(Id, u64)>::empty(),
                world: WorldModel { cells: w0.cells.update(goal as int, marked), ..w0 },
                prev_step: 0,
                done: false,
            }));
            assert(parents_ok(a@.world));
        }
        Ok(a)
    }

    /// Advance the search by one expansion.
    ///
    /// Returns the step count after a successful expansion, and absent when
    /// the search ends or had already ended: on the first call the goal cell
    /// is expanded, afterwards the cheapest frontier entry is popped; popping
    /// the start cell ends the search as found (without expanding it), an
    /// empty frontier ends it as unreachable, and both terminal states are
    /// sticky.  The exact effect on the state is [`step_result`].
    #[verifier::loop_isolation(false)]
    pub fn step(&mut self) -> (r: Option<usize>)
        requires
            old(self)@.wf(),
        ensures
            final(self)@.wf(),
            final(self)@ == step_result(old(self)@).0,
            r == step_result(old(self)@).1,
    {
        if self.done {
            return None;
        }
        let (goal, start) = match (self.config.goal, self.config.start) {
            (Some(g), Some(s)) => (g, s),
            _ => {
                proof {
                    assert(false);
                }
                return None;
            },
        };
        let next: Id = match self.current {
            None => goal,
            Some(_) => match self.frontier.pop() {
                Some((id, _)) => id,
                None => {
                    self.done = true;
                    proof {
                        assert(self@ =~= step_result(old(self)@).0);
                    }
                    return None;
                },
            },
        };
        if next == start {
            self.done = true;
            proof {
                assert(self@ =~= step_result(old(self)@).0);
            }
            return None;
        }
        let ghost s1 = self@;
        proof {
            assert(self@.world.valid_id(next as int));
            lemma_world_dims(&self.world);
        }
        let (cx, cy) = match self.world.coords_for(next) {
            Some(c) => c,
            None => {
                proof {
                    assert(false);
                }
                return None;
            },
        };
        let (sx, sy) = match self.world.coords_for(start) {
            Some(c) => c,
            None => {
                proof {
                    assert(false);
                }
                return None;
            },
        };
        let g_cur: u64 = match self.world.cell(next) {
            Some(c) => match *c {
                Cell::Visited { g, .. } => g,
                _ => 0,
            },
            None => 0,
        };
        let strat = self.config.neighbors;
        let heur = self.config.heuristic;
        let ghost ctx = RelaxCtx {
            strat,
            heur,
            sx: sx as int,
            sy: sy as int,
            next,
            cx: cx as int,
            cy: cy as int,
            g_cur,
        };
        let ghost w0 = self.world@;
        let ghost f0 = self.frontier@;
        let cands_v = neighbor_list(cx, cy, strat);
        let ghost cands = neighbor_seq(cx, cy, strat);
        let n_cands = cands_v.len();
        let mut k: usize = 0;
        while k < n_cands
            invariant
                k <= n_cands,
                (self.world@, self.frontier@) == relax_seq(w0, f0, cands.take(k as int), ctx),
                self.world@.wf(),
                self.world@.width == w0.width,
                self.world@.height == w0.height,
                self.world@.cells.len() == w0.cells.len(),
                frontier_ok(self.world@, self.frontier@),
                parents_ok(self.world@),
                self.config == s1.config,
                self.current == s1.current,
                self.prev_step == s1.prev_step,
                self.done == s1.done,
            decreases n_cands - k,
        {
            let cand = cands_v[k];
            let nx = cand.0;
            let ny = cand.1;
            let ghost m_before = self.world@;
            let ghost f_before = self.frontier@;
            match self.world.id_at(nx, ny) {
                None => {},
                Some(nid) => {
                    let ncell: Cell = match self.world.cell(nid) {
                        Some(c) => *c,
                        None => Cell::Obstacle,
                    };
                    match ncell {
                        Cell::Obstacle => {},
                        _ => {
                            let ec: u64 = match strat {
                                Neighbors::Cardinal => COST_SCALE,
                                Neighbors::CardinalAndDiagonal => calc_euclidean_dist(
                                    (nx, ny),
                                    (cx, cy),
                                ),
                            };
                            let new_cost = sat_add(ec, g_cur);
                            let new_heur: u64 = match heur {
                                Some(Heuristic::Euclidean) => calc_euclidean_dist(
                                    (nx, ny),
                                    (sx, sy),
                                ),
                                Some(Heuristic::Manhattan) => sat_mul(
                                    calc_manhattan_dist((nx, ny), (sx, sy)) as u64,
                                    COST_SCALE,
                                ),
                                None => 0,
                            };
                            let do_update = match ncell {
                                Cell::Visited { g, .. } => g > new_cost,
                                Cell::Open => true,
                                Cell::Obstacle => false,
                            };
                            if do_update {
                                match self.world.cell_mut(nid) {
                                    Some(c) => {
                                        *c = Cell::Visited {
                                            g: new_cost,
                                            h: new_heur,
                                            k: 0,
                                            parent: next,
                                        };
                                    },
                                    None => {},
                                }
                                let pri = sat_add(new_cost, new_heur);
                                update_or_push(&mut self.frontier, nid, pri);
                                proof {
                                    lemma_fr_index_of(f_before, nid);
                                    assert(frontier_ok(self.world@, self.frontier@)) by {
                                        let j = fr_index_of(f_before, nid);
                                        assert forall|i: int|
                                            0 <= i < self.frontier@.len() implies self.world@.valid_id(
                                            #[trigger] self.frontier@[i].0 as int,
                                        ) by {
                                            if j < f_before.len() {
                                                if i != j {
                                                    assert(self.frontier@[i] == f_before[i]);
                                                }
                                            } else {
                                                if i < f_before.len() {
                                                    assert(self.frontier@[i] == f_before[i]);
                                                }
                                            }
                                        }
                                    }
                                    assert(parents_ok(self.world@)) by {
                                        assert forall|i: int|
                                            0 <= i < self.world@.cells.len() implies match #[trigger] self.world@.cells[i] {
                                            Cell::Visited { parent, .. } => self.world@.valid_id(
                                                parent as int,
                                            ),
                                            _ => true,
                                        } by {
                                            if i != nid as int {
                                                assert(self.world@.cells[i] == m_before.cells[i]);
                                            }
                                        }
                                    }
                                    assert((self.world@, self.frontier@) == relax_one(
                                        m_before,
                                        f_before,
                                        cand,
                                        ctx,
                                    ));
                                }
                            }
                        },
                    }
                },
            }
            proof {
                assert(cands.take(k as int + 1).drop_last() =~= cands.take(k as int));
                assert(cands.take(k as int + 1).last() == cand);
                assert((self.world@, self.frontier@) == relax_seq(
                    w0,
                    f0,
                    cands.take(k as int + 1),
                    ctx,
                ));
            }
            k += 1;
        }
        proof {
            assert(cands.take(n_cands as int) =~= cands);
        }
        let sorted = sorted_desc(&self.frontier);
        self.frontier = sorted;
        self.current = Some(next);
        self.prev_step = self.prev_step.saturating_add(1);
        proof {
            lemma_sort_desc_elems(relax_seq(w0, f0, cands, ctx).1);
            assert(frontier_ok(self.world@, self.frontier@)) by {
                let f2 = relax_seq(w0, f0, cands, ctx).1;
                assert forall|i: int|
                    0 <= i < self.frontier@.len() implies self.world@.valid_id(
                    #[trigger] self.frontier@[i].0 as int,
                ) by {
                    assert(f2.contains(self.frontier@[i]));
                    let w = choose|w: int| 0 <= w < f2.len() && f2[w] == self.frontier@[i];
                    assert(self.world@.valid_id(f2[w].0 as int));
                }
            }
            assert(s1 =~= (AStarModel {
                frontier: s1.frontier,
                ..old(self)@
            }));
            assert(self@ =~= step_result(old(self)@).0);
        }
        Some(self.prev_step)
    }

    /// The goal cell of the active configuration.
    pub fn goal(&self) -> (r: Id)
        requires
            self@.wf(),
        ensures
            Some(r) == self@.config.goal,
    {
        match self.config.goal {
            Some(g) => g,
            None => {
                proof {
                    assert(false);
                }
                0
            },
        }
    }

    /// The start cell of the active configuration.
    pub fn start(&self) -> (r: Id)
        requires
            self@.wf(),
        ensures
            Some(r) == self@.config.start,
    {
        match self.config.start {
            Some(s) => s,
            None => {
                proof {
                    assert(false);
                }
                0
            },
        }
    }

    /// The last expanded cell, absent before the first step.
    pub fn current(&self) -> (r: Option<Id>)
        ensures
            r == self@.current,
    {
        self.current
    }

    /// The reconstructed path, goal end first, present once the start cell
    /// has been visited: the parent links are walked from the start until a
    /// cell is its own parent (the goal) or `width * height` hops have been
    /// taken, then reversed.
    #[verifier::loop_isolation(false)]
    pub fn path(&self) -> (r: Option<Vec<Id>>)
        requires
            self@.wf(),
        ensures
            match r {
                Some(p) => path_spec(self@.world, self@.config.start.unwrap()) == Some(p@),
                None => path_spec(self@.world, self@.config.start.unwrap()) == None::<Seq<Id>>,
            },
    {
        let start = match self.config.start {
            Some(s) => s,
            None => {
                proof {
                    assert(false);
                }
                return None;
            },
        };
        let visited = match self.world.cell(start) {
            Some(c) => match *c {
                Cell::Visited { .. } => true,
                _ => false,
            },
            None => false,
        };
        if !visited {
            return None;
        }
        proof {
            lemma_world_dims(&self.world);
        }
        let w = self.world.width();
        let h = self.world.height();
        let fuel0 = w * h;
        let ghost m = self.world@;
        let ghost full = path_walk(m, start, fuel0 as nat);
        let mut out: Vec<Id> = Vec::new();
        let mut cur: Id = start;
        let mut fuel: usize = fuel0;
        let mut running = true;
        while running
            invariant
                running ==> m.valid_id(cur as int),
                running ==> out@ + path_walk(m, cur, fuel as nat) == full,
                !running ==> out@ == full,
            decreases fuel, (if running { 1int } else { 0int }),
        {
            match self.world.cell(cur) {
                Some(c) => {
                    let cc = *c;
                    let ghost out0 = out@;
                    proof {
                        assert(out@.push(cur) =~= out@ + seq![cur]);
                    }
                    out.push(cur);
                    match cc {
                        Cell::Visited { parent, .. } => {
                            if parent == cur || fuel == 0 {
                                proof {
                                    assert(path_walk(m, cur, fuel as nat) =~= seq![cur]);
                                }
                                running = false;
                            } else {
                                proof {
                                    assert((out0 + seq![cur]) + path_walk(
                                        m,
                                        parent,
                                        (fuel - 1) as nat,
                                    ) =~= out0 + (seq![cur] + path_walk(
                                        m,
                                        parent,
                                        (fuel - 1) as nat,
                                    )));
                                }
                                cur = parent;
                                fuel = fuel - 1;
                            }
                        },
                        _ => {
                            proof {
                                assert(path_walk(m, cur, fuel as nat) =~= seq![cur]);
                            }
                            running = false;
                        },
                    }
                },
                None => {
                    proof {
                        assert(false);
                    }
                    running = false;
                },
            }
        }
        let n = out.len();
        let mut rev: Vec<Id> = Vec::new();
        let mut i: usize = n;
        while i > 0
            invariant
                i <= n,
                rev@.len() == n - i,
                forall|t: int| 0 <= t < rev@.len() ==> rev@[t] == out@[n - 1 - t],
            decreases i,
        {
            i -= 1;
            let v = out[i];
            rev.push(v);
        }
        proof {
            assert(rev@ =~= full.reverse());
            assert(fuel0 as nat == m.cells.len());
        }
        Some(rev)
    }

    /// Read-only view of the search's private grid.
    pub fn world_view(&self) -> (r: &World)
        ensures
            r@ == self@.world,
    {
        &self.world
    }

    /// Read-only view of the active configuration.
    pub fn config_view(&self) -> (r: &AStarCfg)
        ensures
            *r == self@.config,
    {
        &self.config
    }

    /// Read-only view of the frontier: `(id, priority)` pairs sorted by
    /// descending priority, so the cheapest candidate is last.
    pub fn frontier_view(&self) -> (r: &Vec<(Id, u64)>)
        ensures
            r@ == self@.frontier,
    {
        &self.frontier
    }
}

} // verus!
