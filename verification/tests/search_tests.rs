use gridpath::astar::{AStar, AStarCfg, Heuristic};
use gridpath::cost::{calc_euclidean_dist, calc_manhattan_dist};
use gridpath::errors::PlanError;
use gridpath::world::{Cell, Id, Neighbors, World};

fn open_world(width: usize, height: usize) -> World {
    World::new(width, height, vec![Cell::Open; width * height]).unwrap()
}

/// Run the search until it reports an absent result; returns the number of
/// `step` calls made.
fn run_to_end(astar: &mut AStar, max_calls: usize) -> usize {
    let mut calls = 0;
    loop {
        calls += 1;
        assert!(calls <= max_calls, "search did not terminate within {} calls", max_calls);
        if astar.step().is_none() {
            return calls;
        }
    }
}

#[test]
fn test_dist_funcs() {
    assert_eq!(calc_manhattan_dist((0, 0), (1, 1)), 2);
    assert_eq!(calc_manhattan_dist((1, 1), (0, 0)), 2);
    assert_eq!(calc_manhattan_dist((0, 1), (1, 0)), 2);
    assert_eq!(calc_euclidean_dist((0, 0), (1, 1)), 1414);
    assert_eq!(calc_euclidean_dist((1, 1), (0, 0)), 1414);
}

#[test]
fn dist_funcs_exact_values() {
    assert_eq!(calc_euclidean_dist((0, 0), (3, 4)), 5000);
    assert_eq!(calc_euclidean_dist((3, 4), (0, 0)), 5000);
    assert_eq!(calc_euclidean_dist((2, 2), (2, 2)), 0);
    assert_eq!(calc_euclidean_dist((0, 0), (1, 0)), 1000);
    assert_eq!(calc_manhattan_dist((5, 1), (2, 7)), 9);
    assert_eq!(calc_manhattan_dist((2, 7), (5, 1)), 9);
}

#[test]
fn test_simple_pathing() {
    let w = World::new(4, 8, vec![
        Cell::Open, Cell::Obstacle, Cell::Open, Cell::Open,
        Cell::Open, Cell::Obstacle, Cell::Open, Cell::Open,
        Cell::Open, Cell::Open,     Cell::Open, Cell::Open,
        Cell::Open, Cell::Open,     Cell::Open, Cell::Open,
        Cell::Open, Cell::Open,     Cell::Open, Cell::Open,
        Cell::Open, Cell::Open,     Cell::Open, Cell::Open,
        Cell::Open, Cell::Open,     Cell::Open, Cell::Open,
        Cell::Open, Cell::Open,     Cell::Open, Cell::Open,
    ])
    .unwrap();

    let cfg = AStarCfg::new()
        .with_goal(w.id_at(0, 0).unwrap())
        .with_start(w.id_at(3, 0).unwrap())
        .with_hueristic(Some(Heuristic::Euclidean))
        .with_neighbors(Neighbors::Cardinal);

    println!("{:#?}", cfg);

    let mut astar = AStar::from_cfg(cfg, w).unwrap();

    let mut last_step = 0;
    loop {
        println!("Step {}", last_step);
        match astar.step() {
            Some(step) => last_step = step,
            None => break,
        };
    }

    let wv = astar.world_view();
    for i in 0..wv.height() {
        let mut row = String::new();
        for j in 0..wv.width() {
            row += &format!("{:?}\t\t", wv.cell_at(j, i).unwrap());
        }
        println!("{}", row);
    }
}

// With start equal to goal, the very first step reports an absent result and
// the frontier stays empty; further steps change nothing.
#[test]
fn start_equals_goal_stops_immediately() {
    let w = open_world(3, 3);
    let center = w.id_at(1, 1).unwrap();
    let cfg = AStarCfg::new().with_goal(center).with_start(center);
    let mut astar = AStar::from_cfg(cfg, w).unwrap();
    assert_eq!(astar.step(), None);
    assert!(astar.frontier_view().is_empty());
    assert_eq!(astar.step(), None);
    assert!(astar.frontier_view().is_empty());
    assert_eq!(astar.current(), None);
}

// On obstacle-free grids the search ends within width * height + 1 calls,
// whatever the strategy and heuristic.
#[test]
fn obstacle_free_terminates_within_bound() {
    let heuristics = [None, Some(Heuristic::Manhattan), Some(Heuristic::Euclidean)];
    let strategies = [Neighbors::Cardinal, Neighbors::CardinalAndDiagonal];
    for h in heuristics.iter() {
        for s in strategies.iter() {
            let w = open_world(5, 5);
            let cfg = AStarCfg::new()
                .with_goal(w.id_at(0, 0).unwrap())
                .with_start(w.id_at(4, 4).unwrap())
                .with_hueristic(h.clone())
                .with_neighbors(*s);
            let mut astar = AStar::from_cfg(cfg, w).unwrap();
            let calls = run_to_end(&mut astar, 5 * 5 + 1);
            assert!(calls <= 5 * 5 + 1);
            assert!(astar.path().is_some());
        }
    }
}

// The documented 4x8 scenario: obstacles at column 1 of rows 0 and 1 only,
// start (3,0), goal (0,0), cardinal moves, Euclidean heuristic.  The path is
// found, runs from the goal to the start, and avoids the obstacles.
#[test]
fn simple_pathing_path_contents() {
    let w = World::new(4, 8, vec![
        Cell::Open, Cell::Obstacle, Cell::Open, Cell::Open,
        Cell::Open, Cell::Obstacle, Cell::Open, Cell::Open,
        Cell::Open, Cell::Open,     Cell::Open, Cell::Open,
        Cell::Open, Cell::Open,     Cell::Open, Cell::Open,
        Cell::Open, Cell::Open,     Cell::Open, Cell::Open,
        Cell::Open, Cell::Open,     Cell::Open, Cell::Open,
        Cell::Open, Cell::Open,     Cell::Open, Cell::Open,
        Cell::Open, Cell::Open,     Cell::Open, Cell::Open,
    ])
    .unwrap();
    let goal = w.id_at(0, 0).unwrap();
    let start = w.id_at(3, 0).unwrap();
    let cfg = AStarCfg::new()
        .with_goal(goal)
        .with_start(start)
        .with_hueristic(Some(Heuristic::Euclidean))
        .with_neighbors(Neighbors::Cardinal);
    let mut astar = AStar::from_cfg(cfg, w).unwrap();
    run_to_end(&mut astar, 4 * 8 + 1);
    let path = astar.path().expect("path must be present");
    let coords: Vec<(usize, usize)> = path
        .iter()
        .map(|id| astar.world_view().coords_for(*id).unwrap())
        .collect();
    assert_eq!(*coords.first().unwrap(), (0, 0));
    assert_eq!(*coords.last().unwrap(), (3, 0));
    for c in &coords {
        assert_ne!(*c, (1, 0));
        assert_ne!(*c, (1, 1));
    }
    // consecutive path cells are cardinally adjacent
    for pair in coords.windows(2) {
        let d = calc_manhattan_dist(pair[0], pair[1]);
        assert_eq!(d, 1);
    }
}

// A full-height wall of obstacles between start and goal: the search ends
// with no path.
#[test]
fn wall_means_no_path() {
    let mut cells = vec![Cell::Open; 25];
    for y in 0..5 {
        cells[y * 5 + 2] = Cell::Obstacle;
    }
    let w = World::new(5, 5, cells).unwrap();
    let goal = w.id_at(0, 2).unwrap();
    let start = w.id_at(4, 2).unwrap();
    for s in [Neighbors::Cardinal, Neighbors::CardinalAndDiagonal].iter() {
        let cfg = AStarCfg::new()
            .with_goal(goal)
            .with_start(start)
            .with_hueristic(Some(Heuristic::Manhattan))
            .with_neighbors(*s);
        let mut astar = AStar::from_cfg(cfg, w.clone()).unwrap();
        run_to_end(&mut astar, 5 * 5 + 1);
        assert!(astar.path().is_none());
        assert!(astar.frontier_view().is_empty());
    }
}

// In a straight obstacle-free corridor under cardinal moves with the
// Manhattan heuristic, the path's edge count equals the Manhattan distance
// between start and goal.
#[test]
fn corridor_path_length_is_manhattan_distance() {
    let w = open_world(6, 1);
    let goal = w.id_at(0, 0).unwrap();
    let start = w.id_at(5, 0).unwrap();
    let cfg = AStarCfg::new()
        .with_goal(goal)
        .with_start(start)
        .with_hueristic(Some(Heuristic::Manhattan))
        .with_neighbors(Neighbors::Cardinal);
    let mut astar = AStar::from_cfg(cfg, w).unwrap();
    run_to_end(&mut astar, 6 * 1 + 1);
    let path = astar.path().expect("path must be present");
    assert_eq!(path.len() - 1, calc_manhattan_dist((5, 0), (0, 0)));
}

// Frontier order is observable: ties keep insertion order (east, south,
// west, north) and the pop takes the last entry.
#[test]
fn frontier_tie_break_order() {
    let w = open_world(3, 3);
    let goal = w.id_at(1, 1).unwrap();
    let start = w.id_at(2, 2).unwrap();
    let cfg = AStarCfg::new().with_goal(goal).with_start(start);
    let mut astar = AStar::from_cfg(cfg, w).unwrap();
    assert_eq!(astar.step(), Some(1));
    let e = astar.world_view().id_at(2, 1).unwrap();
    let s = astar.world_view().id_at(1, 2).unwrap();
    let wst = astar.world_view().id_at(0, 1).unwrap();
    let n = astar.world_view().id_at(1, 0).unwrap();
    assert_eq!(
        astar.frontier_view().clone(),
        vec![(e, 1000), (s, 1000), (wst, 1000), (n, 1000)]
    );
    // the cheapest candidate is the last element; ties pop newest-first
    assert_eq!(astar.step(), Some(2));
    assert_eq!(astar.current(), Some(n));
}

// The goal cell is pre-marked visited with zero costs, itself as parent and
// a zero reserved field.
#[test]
fn goal_cell_premarked() {
    let w = open_world(3, 3);
    let goal = w.id_at(1, 1).unwrap();
    let start = w.id_at(0, 0).unwrap();
    let cfg = AStarCfg::new().with_goal(goal).with_start(start);
    let astar = AStar::from_cfg(cfg, w).unwrap();
    assert_eq!(
        *astar.world_view().cell(goal).unwrap(),
        Cell::Visited { g: 0, h: 0, k: 0, parent: goal }
    );
    assert_eq!(astar.current(), None);
    assert!(astar.frontier_view().is_empty());
}

#[test]
fn config_validation_errors() {
    let w = open_world(2, 2);
    assert_eq!(
        AStarCfg::new().valid_for(&w).unwrap_err(),
        PlanError::MissingGoal
    );
    assert_eq!(
        AStarCfg::new().with_goal(0).valid_for(&w).unwrap_err(),
        PlanError::MissingStart
    );
    assert_eq!(
        AStarCfg::new().with_goal(4).with_start(0).valid_for(&w).unwrap_err(),
        PlanError::OutOfBounds
    );
    assert_eq!(
        AStarCfg::new().with_goal(0).with_start(7).valid_for(&w).unwrap_err(),
        PlanError::OutOfBounds
    );
    assert!(AStarCfg::new().with_goal(0).with_start(3).valid_for(&w).is_ok());
    let cfg = AStarCfg::new().with_goal(9).with_start(0);
    assert_eq!(
        AStar::from_cfg(cfg, open_world(2, 2)).unwrap_err(),
        PlanError::InvalidConfig
    );
}

#[test]
fn builders_update_one_field_each() {
    let cfg = AStarCfg::new();
    assert!(matches!(cfg.neighbors, Neighbors::Cardinal));
    assert!(cfg.heuristic.is_none());
    assert_eq!(cfg.goal, None);
    assert_eq!(cfg.start, None);
    let cfg = cfg
        .with_goal(3)
        .with_start(7)
        .with_hueristic(Some(Heuristic::Manhattan))
        .with_neighbors(Neighbors::CardinalAndDiagonal);
    assert_eq!(cfg.goal, Some(3));
    assert_eq!(cfg.start, Some(7));
    assert!(matches!(cfg.heuristic, Some(Heuristic::Manhattan)));
    assert!(matches!(cfg.neighbors, Neighbors::CardinalAndDiagonal));
}

// After every step the frontier is sorted by descending priority: the
// cheapest candidate is always the last element.
#[test]
fn frontier_always_sorted_descending() {
    let w = open_world(5, 5);
    let goal = w.id_at(0, 0).unwrap();
    let start = w.id_at(4, 3).unwrap();
    let cfg = AStarCfg::new()
        .with_goal(goal)
        .with_start(start)
        .with_neighbors(Neighbors::CardinalAndDiagonal)
        .with_hueristic(Some(Heuristic::Euclidean));
    let mut astar = AStar::from_cfg(cfg, w).unwrap();
    loop {
        let stepped = astar.step();
        let fr = astar.frontier_view();
        for pair in fr.windows(2) {
            assert!(pair[0].1 >= pair[1].1);
        }
        if stepped.is_none() {
            break;
        }
    }
}

// A visited cell is never reopened once a comparison has kept its value:
// the stored cost of an expanded cell does not change afterwards.
#[test]
fn never_reopened_after_keep() {
    let w = open_world(4, 4);
    let goal = w.id_at(0, 0).unwrap();
    let start = w.id_at(3, 3).unwrap();
    let cfg = AStarCfg::new()
        .with_goal(goal)
        .with_start(start)
        .with_neighbors(Neighbors::CardinalAndDiagonal)
        .with_hueristic(Some(Heuristic::Euclidean));
    let mut astar = AStar::from_cfg(cfg, w).unwrap();
    let mut costs: Vec<Option<u64>> = vec![None; 16];
    loop {
        let stepped = astar.step();
        for id in 0..16 as Id {
            if let Cell::Visited { g, .. } = *astar.world_view().cell(id).unwrap() {
                if let Some(prev) = costs[id] {
                    assert!(g <= prev, "cell {} got worse: {} -> {}", id, prev, g);
                }
                costs[id] = Some(g);
            }
        }
        if stepped.is_none() {
            break;
        }
    }
}
