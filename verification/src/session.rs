//! The two-mode session around a search: editing a grid and a configuration,
//! or running a search built from them.
//!
//! While configuring, the session owns the editable grid and the
//! configuration; on activation the grid is copied into a fresh search,
//! which owns its copy exclusively.  Going back to configuring reopens every
//! visited cell of the search's grid and carries the start and goal selection
//! into a fresh configuration.

use vstd::prelude::*;

use crate::astar::{parents_ok, step_result, AStar, AStarCfg, AStarModel};
use crate::errors::PlanError;
use crate::world::{Cell, Id, Neighbors, World, WorldModel};

verus! {

/// A session is either editing its inputs or running a search.
pub enum AppState {
    /// Editing mode: obstacles, endpoints and options can change.
    Config { cfg: AStarCfg, world: World },
    /// Running mode: the search advances one expansion at a time.
    Active(AStar),
}

/// Mathematical model of an [`AppState`].
#[verifier::ext_equal]
pub enum AppStateModel {
    Config { cfg: AStarCfg, world: WorldModel },
    Active(AStarModel),
}

impl AppStateModel {
    /// Internal invariant of a session: a well-formed grid whose visited
    /// cells (if any) have in-range parents, or a well-formed search.
    pub open spec fn wf(self) -> bool {
        match self {
            AppStateModel::Config { cfg, world } => world.wf() && parents_ok(world),
            AppStateModel::Active(a) => a.wf(),
        }
    }
}

impl View for AppState {
    type V = AppStateModel;

    closed spec fn view(&self) -> AppStateModel {
        match self {
            AppState::Config { cfg, world } => AppStateModel::Config { cfg: *cfg, world: world@ },
            AppState::Active(a) => AppStateModel::Active(a@),
        }
    }
}

/// What toggling does to one cell: an obstacle reopens, anything else
/// becomes an obstacle.
pub open spec fn toggled_cell(c: Cell) -> Cell {
    match c {
        Cell::Obstacle => Cell::Open,
        _ => Cell::Obstacle,
    }
}

/// What a mode transition does.
///
/// Configuring goes active only when the configuration validates against the
/// grid, which is then copied into a fresh search (goal cell pre-marked);
/// otherwise nothing changes.  Active goes back to configuring with every
/// visited cell of the search's grid reopened and a fresh configuration that
/// keeps only the start and goal selection.
pub open spec fn transition_spec(s: AppStateModel) -> AppStateModel {
    match s {
        AppStateModel::Config { cfg, world } => if cfg.is_valid_for(world) {
            AppStateModel::Active(
                AStarModel {
                    config: cfg,
                    current: None::<Id>,
                    frontier: Seq::<(Id, u64)>::empty(),
                    world: WorldModel {
                        cells: world.cells.update(
                            cfg.goal.unwrap() as int,
                            Cell::Visited { g: 0, h: 0, k: 0, parent: cfg.goal.unwrap() },
                        ),
                        ..world
                    },
                    prev_step: 0,
                    done: false,
                },
            )
        } else {
            s
        },
        AppStateModel::Active(a) => AppStateModel::Config {
            cfg: AStarCfg {
                neighbors: Neighbors::Cardinal,
                heuristic: None,
                goal: a.config.goal,
                start: a.config.start,
            },
            world: WorldModel {
                cells: a.world.cells.map_values(|c: Cell| WorldModel::cleared_cell(c)),
                ..a.world
            },
        },
    }
}

impl AppState {
    /// A fresh session: a square all-open grid of the given side length, and
    /// the default configuration.
    pub fn new(world_side_len: usize) -> (r: Result<AppState, PlanError>)
        ensures
            match r {
                Ok(s) => (world_side_len as int) * (world_side_len as int) <= usize::MAX && s@
                    == (AppStateModel::Config {
                    cfg: AStarCfg {
                        neighbors: Neighbors::Cardinal,
                        heuristic: None::<crate::astar::Heuristic>,
                        goal: None::<Id>,
                        start: None::<Id>,
                    },
                    world: WorldModel {
                        width: world_side_len as nat,
                        height: world_side_len as nat,
                        cells: Seq::new((world_side_len * world_side_len) as nat, |i: int| Cell::Open),
                    },
                }) && s@.wf(),
                Err(e) => e == PlanError::DimensionMismatch && (world_side_len as int) * (
                world_side_len as int) > usize::MAX,
            },
    {
        let n = match world_side_len.checked_mul(world_side_len) {
            Some(n) => n,
            None => {
                return Err(PlanError::DimensionMismatch);
            },
        };
        let mut cells: Vec<Cell> = Vec::new();
        let mut i: usize = 0;
        while i < n
            invariant
                i <= n,
                cells@ =~= Seq::new(i as nat, |t: int| Cell::Open),
            decreases n - i,
        {
            cells.push(Cell::Open);
            proof {
                assert(cells@ =~= Seq::new(i as nat + 1, |t: int| Cell::Open));
            }
            i += 1;
        }
        match World::new(world_side_len, world_side_len, cells) {
            Ok(world) => Ok(AppState::Config { cfg: AStarCfg::new(), world }),
            Err(e) => {
                proof {
                    assert(false);
                }
                Err(e)
            },
        }
    }

    /// Read-only view of the session's grid: the editable one while
    /// configuring, the search's private copy while active.
    pub fn world(&self) -> (r: &World)
        ensures
            r@ == match self@ {
                AppStateModel::Config { world, .. } => world,
                AppStateModel::Active(a) => a.world,
            },
    {
        match self {
            AppState::Config { cfg: _, world } => world,
            AppState::Active(astar) => astar.world_view(),
        }
    }

    /// The selected goal cell, if any.
    pub fn goal(&self) -> (r: Option<Id>)
        requires
            self@.wf(),
        ensures
            r == match self@ {
                AppStateModel::Config { cfg, .. } => cfg.goal,
                AppStateModel::Active(a) => a.config.goal,
            },
    {
        match self {
            AppState::Config { cfg, world: _ } => cfg.goal,
            AppState::Active(astar) => Some(astar.goal()),
        }
    }

    /// The selected start cell, if any.
    pub fn start(&self) -> (r: Option<Id>)
        requires
            self@.wf(),
        ensures
            r == match self@ {
                AppStateModel::Config { cfg, .. } => cfg.start,
                AppStateModel::Active(a) => a.config.start,
            },
    {
        match self {
            AppState::Config { cfg, world: _ } => cfg.start,
            AppState::Active(astar) => Some(astar.start()),
        }
    }

    /// While configuring, toggle the cell at `(x, y)` between open and
    /// obstacle; out-of-range coordinates and active mode change nothing.
    pub fn toggle_obstacle(&mut self, x: usize, y: usize)
        requires
            old(self)@.wf(),
        ensures
            final(self)@.wf(),
            final(self)@ == match old(self)@ {
                AppStateModel::Config { cfg, world } => if world.in_bounds(x as int, y as int) {
                    AppStateModel::Config {
                        cfg,
                        world: WorldModel {
                            cells: world.cells.update(
                                world.id_of(x as int, y as int),
                                toggled_cell(world.cells[world.id_of(x as int, y as int)]),
                            ),
                            ..world
                        },
                    }
                } else {
                    old(self)@
                },
                AppStateModel::Active(a) => old(self)@,
            },
    {
        match self {
            AppState::Config { cfg: _, world } => {
                let ghost w0 = world@;
                match world.cell_at_mut(x, y) {
                    Some(c) => {
                        let cc = *c;
                        *c = match cc {
                            Cell::Obstacle => Cell::Open,
                            _ => Cell::Obstacle,
                        };
                        proof {
                            crate::world::lemma_coords_of_id_of(w0, x as int, y as int);
                            let nid = w0.id_of(x as int, y as int);
                            assert(parents_ok(world@)) by {
                                assert forall|i: int|
                                    0 <= i < world@.cells.len() implies match #[trigger] world@.cells[i] {
                                    Cell::Visited { parent, .. } => world@.valid_id(parent as int),
                                    _ => true,
                                } by {
                                    if i != nid {
                                        assert(world@.cells[i] == w0.cells[i]);
                                    }
                                }
                            }
                        }
                    },
                    None => {},
                }
            },
            AppState::Active(_) => {},
        }
    }

    /// While configuring, set or clear the goal selection; no effect while
    /// active.
    pub fn set_goal(&mut self, id: Option<Id>)
        ensures
            final(self)@ == match old(self)@ {
                AppStateModel::Config { cfg, world } => AppStateModel::Config {
                    cfg: AStarCfg { goal: id, ..cfg },
                    world,
                },
                AppStateModel::Active(a) => old(self)@,
            },
    {
        match self {
            AppState::Config { cfg, world: _ } => {
                cfg.goal = id;
            },
            AppState::Active(_) => {},
        }
    }

    /// While configuring, set or clear the start selection; no effect while
    /// active.
    pub fn set_start(&mut self, id: Option<Id>)
        ensures
            final(self)@ == match old(self)@ {
                AppStateModel::Config { cfg, world } => AppStateModel::Config {
                    cfg: AStarCfg { start: id, ..cfg },
                    world,
                },
                AppStateModel::Active(a) => old(self)@,
            },
    {
        match self {
            AppState::Config { cfg, world: _ } => {
                cfg.start = id;
            },
            AppState::Active(_) => {},
        }
    }

    /// While configuring, change the connectivity strategy; no effect while
    /// active.
    pub fn set_neighbors(&mut self, n: Neighbors)
        ensures
            final(self)@ == match old(self)@ {
                AppStateModel::Config { cfg, world } => AppStateModel::Config {
                    cfg: AStarCfg { neighbors: n, ..cfg },
                    world,
                },
                AppStateModel::Active(a) => old(self)@,
            },
    {
        match self {
            AppState::Config { cfg, world: _ } => {
                cfg.neighbors = n;
            },
            AppState::Active(_) => {},
        }
    }

    /// While configuring, change the heuristic; no effect while active.
    pub fn set_heuristic(&mut self, h: Option<crate::astar::Heuristic>)
        ensures
            final(self)@ == match old(self)@ {
                AppStateModel::Config { cfg, world } => AppStateModel::Config {
                    cfg: AStarCfg { heuristic: h, ..cfg },
                    world,
                },
                AppStateModel::Active(a) => old(self)@,
            },
    {
        match self {
            AppState::Config { cfg, world: _ } => {
                cfg.heuristic = h;
            },
            AppState::Active(_) => {},
        }
    }

    /// While active, advance the search one expansion (see
    /// [`step_result`]); no effect, and an absent result, while configuring.
    pub fn step(&mut self) -> (r: Option<usize>)
        requires
            old(self)@.wf(),
        ensures
            final(self)@.wf(),
            match old(self)@ {
                AppStateModel::Config { .. } => final(self)@ == old(self)@ && r == None::<usize>,
                AppStateModel::Active(a) => final(self)@ == AppStateModel::Active(
                    step_result(a).0,
                ) && r == step_result(a).1,
            },
    {
        match self {
            AppState::Config { .. } => None,
            AppState::Active(astar) => astar.step(),
        }
    }

    /// Request a mode transition (see [`transition_spec`]): configuring goes
    /// active when the configuration validates, and is otherwise unchanged;
    /// active always goes back to configuring.
    pub fn transition(self) -> (r: AppState)
        requires
            self@.wf(),
        ensures
            r@ == transition_spec(self@),
            r@.wf(),
    {
        match self {
            AppState::Config { cfg, world } => {
                match cfg.valid_for(&world) {
                    Ok(_) => {
                        let world2 = world.clone();
                        match AStar::from_cfg(cfg, world2) {
                            Ok(a) => AppState::Active(a),
                            Err(_) => {
                                proof {
                                    assert(false);
                                }
                                AppState::Config { cfg, world }
                            },
                        }
                    },
                    Err(_) => AppState::Config { cfg, world },
                }
            },
            AppState::Active(astar) => {
                let mut new_world = astar.world_view().clone();
                new_world.clear();
                let cfg = AStarCfg::new().with_goal(astar.goal()).with_start(astar.start());
                AppState::Config { cfg, world: new_world }
            },
        }
    }
}

} // verus!
