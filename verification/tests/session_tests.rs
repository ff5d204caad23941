use gridpath::astar::Heuristic;
use gridpath::session::AppState;
use gridpath::world::{Cell, Neighbors};

#[test]
fn session_lifecycle() {
    let mut state = AppState::new(4).unwrap();
    // configure: a small wall, endpoints, options
    state.toggle_obstacle(1, 0);
    state.toggle_obstacle(1, 1);
    state.set_start(state.world().id_at(3, 0));
    state.set_goal(state.world().id_at(0, 0));
    state.set_heuristic(Some(Heuristic::Euclidean));
    state.set_neighbors(Neighbors::Cardinal);
    assert_eq!(state.goal(), Some(0));
    assert_eq!(state.start(), Some(3));

    // transition to active and run the search
    let mut state = state.transition();
    assert!(matches!(state, AppState::Active(_)));
    let mut guard = 0;
    while state.step().is_some() {
        guard += 1;
        assert!(guard <= 17);
    }
    if let AppState::Active(astar) = &state {
        let path = astar.path().expect("path must be present");
        assert_eq!(astar.world_view().coords_for(path[0]), Some((0, 0)));
        assert_eq!(
            astar.world_view().coords_for(*path.last().unwrap()),
            Some((3, 0))
        );
    } else {
        panic!("expected active state");
    }

    // transition back: grid cleared to obstacles and open cells only,
    // endpoints carried, options reset
    let state = state.transition();
    match &state {
        AppState::Config { cfg, world } => {
            assert_eq!(cfg.goal, Some(0));
            assert_eq!(cfg.start, Some(3));
            assert!(cfg.heuristic.is_none());
            assert!(matches!(cfg.neighbors, Neighbors::Cardinal));
            assert_eq!(*world.cell_at(1, 0).unwrap(), Cell::Obstacle);
            assert_eq!(*world.cell_at(1, 1).unwrap(), Cell::Obstacle);
            for y in 0..4 {
                for x in 0..4 {
                    let c = *world.cell_at(x, y).unwrap();
                    assert!(c == Cell::Open || c == Cell::Obstacle);
                }
            }
        },
        AppState::Active(_) => panic!("expected config state"),
    }
}

#[test]
fn invalid_transition_is_refused() {
    let state = AppState::new(3).unwrap();
    // no goal/start set: stays in config mode
    let state = state.transition();
    assert!(matches!(state, AppState::Config { .. }));
}

#[test]
fn mutations_ignored_while_active() {
    let mut state = AppState::new(3).unwrap();
    state.set_start(Some(0));
    state.set_goal(Some(8));
    let mut state = state.transition();
    assert!(matches!(state, AppState::Active(_)));
    // editing calls change nothing while active
    state.toggle_obstacle(1, 1);
    state.set_goal(Some(4));
    state.set_start(Some(4));
    assert_eq!(state.goal(), Some(8));
    assert_eq!(state.start(), Some(0));
    assert_eq!(*state.world().cell_at(1, 1).unwrap(), Cell::Open);
}

#[test]
fn toggle_obstacle_flips_cells() {
    let mut state = AppState::new(2).unwrap();
    state.toggle_obstacle(0, 1);
    assert_eq!(*state.world().cell_at(0, 1).unwrap(), Cell::Obstacle);
    state.toggle_obstacle(0, 1);
    assert_eq!(*state.world().cell_at(0, 1).unwrap(), Cell::Open);
    // out of range: no effect, no panic
    state.toggle_obstacle(5, 5);
}

#[test]
fn step_while_configuring_is_absent() {
    let mut state = AppState::new(2).unwrap();
    assert_eq!(state.step(), None);
    assert!(matches!(state, AppState::Config { .. }));
}
