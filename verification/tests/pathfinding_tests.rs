use mining_bot::grid::{INFINITY, OBSTACLE, RESSOURCE};
use mining_bot::id::EntityId;
use mining_bot::pathfinding::{bfs_distance_grid, find_closest_resource, GRID_SIZE};
use mining_bot::protocol::PowChallenge;
use mining_bot::state::{AgentInfo, GameState, ResourceInfo};

fn challenge(resource: u128, x: u16, y: u16) -> PowChallenge {
    PowChallenge {
        tick: 0,
        seed: "s".to_owned(),
        resource_id: EntityId::new(resource),
        x,
        y,
        target_bits: 4,
        expires_at: 100,
        value: 1,
    }
}

fn resource(resource: u128, x: u16, y: u16) -> ResourceInfo {
    ResourceInfo {
        resource_id: EntityId::new(resource),
        x,
        y,
        expires_at: 100,
        value: 1,
    }
}

fn agent(x: u16, y: u16) -> AgentInfo {
    AgentInfo {
        id: EntityId::new(77),
        name: "other".to_owned(),
        team: "t".to_owned(),
        score: 0,
        x,
        y,
    }
}

/// The cells of a `w` x `h` map in a distance grid.
fn map_part(dist: &[Vec<i32>], w: usize, h: usize) -> Vec<Vec<i32>> {
    dist[..h].iter().map(|row| row[..w].to_vec()).collect()
}

/// 5 x 4 map, a wall in column 2 with a gap at the bottom.
fn walled_state() -> GameState {
    let mut state = GameState::new(EntityId::new(1));
    state.map_size = (5, 4);
    state.obstacles = vec![(2, 0), (2, 1), (2, 2)];
    state
}

#[test]
fn distances_go_around_obstacles() {
    let state = walled_state();
    let (dist, found) = bfs_distance_grid(&state, 0, 0, false);
    assert_eq!(found, None);
    assert_eq!(
        map_part(&dist, 5, 4),
        vec![
            vec![0, 1, OBSTACLE, 9, 10],
            vec![1, 2, OBSTACLE, 8, 9],
            vec![2, 3, OBSTACLE, 7, 8],
            vec![3, 4, 5, 6, 7],
        ]
    );
}

#[test]
fn unreachable_cells_stay_infinite() {
    let mut state = walled_state();
    state.obstacles.push((2, 3));
    let (dist, found) = bfs_distance_grid(&state, 0, 0, false);
    assert_eq!(found, None);
    assert_eq!(dist[0][3], INFINITY);
    assert_eq!(dist[3][4], INFINITY);
    assert_eq!(dist[3][1], 4);
}

#[test]
fn agents_block_the_way() {
    let mut state = GameState::new(EntityId::new(1));
    state.map_size = (3, 1);
    state.agents = vec![agent(1, 0)];
    let (dist, _) = bfs_distance_grid(&state, 0, 0, false);
    assert_eq!(map_part(&dist, 3, 1), vec![vec![0, OBSTACLE, INFINITY]]);
}

#[test]
fn challenges_are_ignored_without_stop() {
    let mut state = walled_state();
    state.pow_challenge = vec![challenge(5, 1, 1)];
    let (dist, found) = bfs_distance_grid(&state, 0, 0, false);
    assert_eq!(found, None);
    assert_eq!(dist[1][1], 2);
}

#[test]
fn search_stops_at_the_nearest_challenge() {
    let mut state = walled_state();
    state.pow_challenge = vec![challenge(5, 4, 3), challenge(6, 1, 2)];
    let (dist, found) = bfs_distance_grid(&state, 0, 0, true);
    assert_eq!(found, Some((1, 2)));
    assert_eq!(dist[2][1], RESSOURCE);
    assert_eq!(dist[3][4], RESSOURCE);
    assert_eq!(dist[0][0], 0);
    assert_eq!(dist[0][1], 1);
}

#[test]
fn search_without_reachable_challenge_finishes() {
    let mut state = walled_state();
    state.obstacles.push((2, 3));
    state.pow_challenge = vec![challenge(5, 4, 0)];
    let (dist, found) = bfs_distance_grid(&state, 0, 0, true);
    assert_eq!(found, None);
    assert_eq!(dist[0][4], RESSOURCE);
    assert_eq!(dist[3][1], 4);
}

#[test]
fn start_on_a_challenge_does_not_count() {
    let mut state = GameState::new(EntityId::new(1));
    state.map_size = (3, 1);
    state.pow_challenge = vec![challenge(5, 0, 0)];
    let (dist, found) = bfs_distance_grid(&state, 0, 0, true);
    assert_eq!(found, None);
    assert_eq!(map_part(&dist, 3, 1), vec![vec![0, 1, 2]]);
}

#[test]
fn closest_resource_step_goes_around_the_wall() {
    let mut state = walled_state();
    state.pow_challenge = vec![challenge(5, 4, 0)];
    state.resources = vec![resource(9, 0, 0), resource(5, 4, 0)];
    state.position = (0, 1);
    let (step, id) = find_closest_resource(&state).expect("a reachable challenge");
    assert_eq!(id, EntityId::new(5));
    // down: the only way round the wall
    assert_eq!(step, (0, 1));
}

#[test]
fn closest_resource_when_adjacent() {
    let mut state = GameState::new(EntityId::new(1));
    state.map_size = (4, 4);
    state.pow_challenge = vec![challenge(5, 2, 1), challenge(6, 0, 3)];
    state.resources = vec![resource(6, 0, 3), resource(5, 2, 1)];
    state.position = (1, 1);
    let (step, id) = find_closest_resource(&state).expect("a reachable challenge");
    assert_eq!(id, EntityId::new(5));
    assert_eq!(step, (1, 0));
}

#[test]
fn closest_resource_none_without_challenge() {
    let mut state = walled_state();
    state.position = (0, 0);
    assert_eq!(find_closest_resource(&state), None);
}

#[test]
fn closest_resource_never_steps_into_an_obstacle() {
    // the obstacle above holds -1, which is no distance: the step goes to the
    // free neighbour on the left, one step closer to the challenge
    let mut state = GameState::new(EntityId::new(1));
    state.map_size = (3, 3);
    state.obstacles = vec![(1, 0)];
    state.pow_challenge = vec![challenge(5, 1, 2)];
    state.resources = vec![resource(5, 1, 2)];
    state.position = (1, 1);
    let (step, _) = find_closest_resource(&state).expect("a reachable challenge");
    assert_eq!(step, (0, 1));
}

#[test]
fn closest_resource_walks_away_from_an_obstacle_on_a_line() {
    let mut state = GameState::new(EntityId::new(1));
    state.map_size = (3, 1);
    state.obstacles = vec![(0, 0)];
    state.pow_challenge = vec![challenge(9, 2, 0)];
    state.resources = vec![resource(9, 2, 0)];
    state.position = (1, 0);
    assert_eq!(find_closest_resource(&state), Some(((1, 0), EntityId::new(9))));
}

#[test]
fn closest_resource_takes_the_challenge_the_search_stops_at() {
    // two challenges at the same distance: the search handles the neighbours
    // up, down, left, right, so the one above is found first
    let mut state = GameState::new(EntityId::new(1));
    state.map_size = (3, 3);
    state.pow_challenge = vec![challenge(5, 1, 0), challenge(6, 1, 2)];
    state.resources = vec![resource(5, 1, 0), resource(6, 1, 2)];
    state.position = (1, 1);
    let (_, found) = bfs_distance_grid(&state, 1, 1, true);
    assert_eq!(found, Some((1, 0)));
    assert_eq!(find_closest_resource(&state), Some(((0, -1), EntityId::new(5))));
}

#[test]
fn distances_are_symmetric() {
    let state = walled_state();
    let (from_a, _) = bfs_distance_grid(&state, 0, 0, false);
    let (from_b, _) = bfs_distance_grid(&state, 4, 0, false);
    assert_eq!(from_a[0][4], 10);
    assert_eq!(from_b[0][0], 10);
    let (from_c, _) = bfs_distance_grid(&state, 1, 2, false);
    assert_eq!(from_c[1][3], distance_at(&state, 3, 1, 1, 2));
}

fn distance_at(state: &GameState, sx: u16, sy: u16, x: usize, y: usize) -> i32 {
    bfs_distance_grid(state, sx, sy, false).0[y][x]
}

#[test]
fn unreachable_is_symmetric() {
    let mut state = walled_state();
    state.obstacles.push((2, 3));
    assert_eq!(distance_at(&state, 0, 0, 4, 3), INFINITY);
    assert_eq!(distance_at(&state, 4, 3, 0, 0), INFINITY);
}

#[test]
fn an_added_obstacle_never_shortens_a_distance() {
    let state = walled_state();
    let mut more = walled_state();
    more.obstacles.push((1, 3));
    let (d, _) = bfs_distance_grid(&state, 0, 0, false);
    let (d_more, _) = bfs_distance_grid(&more, 0, 0, false);
    assert_eq!(d[3][4], 7);
    assert_eq!(d_more[3][4], INFINITY);
    for y in 0..4 {
        for x in 0..5 {
            if d_more[y][x] != OBSTACLE {
                assert!(d[y][x] <= d_more[y][x]);
            }
        }
    }
}

#[test]
fn the_grid_has_a_fixed_size() {
    let mut state = GameState::new(EntityId::new(1));
    state.map_size = (3, 2);
    state.obstacles = vec![(1, 0)];
    let (dist, found) = bfs_distance_grid(&state, 0, 0, false);
    assert_eq!(found, None);
    assert_eq!(GRID_SIZE, 100);
    assert_eq!(dist.len(), GRID_SIZE);
    assert!(dist.iter().all(|row| row.len() == GRID_SIZE));
    assert_eq!(map_part(&dist, 3, 2), vec![vec![0, OBSTACLE, 4], vec![1, 2, 3]]);
    // cells outside the map are never reached
    assert_eq!(dist[0][3], INFINITY);
    assert_eq!(dist[2][0], INFINITY);
    assert_eq!(dist[99][99], INFINITY);
}

#[test]
fn a_full_size_map_fills_the_grid() {
    let mut state = GameState::new(EntityId::new(1));
    state.map_size = (100, 100);
    let (dist, _) = bfs_distance_grid(&state, 0, 0, false);
    assert_eq!(dist[99][99], 198);
    assert_eq!(dist[0][99], 99);
}
