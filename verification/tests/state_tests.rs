use mining_bot::id::EntityId;
use mining_bot::protocol::{PowChallenge, ServerMsg};
use mining_bot::state::GameState;

fn id(v: u128) -> EntityId {
    EntityId::new(v)
}

fn challenge(resource: u128, x: u16, y: u16, expires_at: u64) -> PowChallenge {
    PowChallenge {
        tick: 1,
        seed: "s".to_owned(),
        resource_id: id(resource),
        x,
        y,
        target_bits: 4,
        expires_at,
        value: 10,
    }
}

fn state_msg(tick: u64) -> ServerMsg {
    ServerMsg::State {
        tick,
        width: 10,
        height: 8,
        goal: 100,
        obstacles: vec![(1, 1), (2, 3)],
        resources: vec![(id(50), 4, 4, 90, 7), (id(51), 5, 6, 95, 3)],
        agents: vec![
            (id(2), "bob".to_owned(), "red".to_owned(), 3, 9, 9),
            (id(1), "me".to_owned(), "blue".to_owned(), 5, 3, 4),
            (id(3), "eve".to_owned(), "red".to_owned(), 1, 0, 7),
        ],
    }
}

#[test]
fn new_state_is_empty() {
    let state = GameState::new(id(1));
    assert_eq!(state.agent_id, id(1));
    assert_eq!(state.tick, 0);
    assert_eq!(state.position, (0, 0));
    assert_eq!(state.map_size, (0, 0));
    assert_eq!(state.goal, 0);
    assert!(state.obstacles.is_empty());
    assert!(state.resources.is_empty());
    assert!(state.agents.is_empty());
    assert!(state.team_scores.is_empty());
    assert!(state.pow_challenge.is_empty());
}

#[test]
fn state_message_replaces_the_view() {
    let mut state = GameState::new(id(1));
    state.update(&ServerMsg::PowChallenge(challenge(50, 4, 4, 20)));
    state.update(&ServerMsg::PowChallenge(challenge(51, 5, 6, 40)));
    state.update(&state_msg(30));
    assert_eq!(state.tick, 30);
    assert_eq!(state.map_size, (10, 8));
    assert_eq!(state.goal, 100);
    assert_eq!(state.obstacles, vec![(1, 1), (2, 3)]);
    assert_eq!(state.position, (3, 4));
    assert_eq!(state.resources.len(), 2);
    assert_eq!(state.resources[0].resource_id, id(50));
    assert_eq!((state.resources[0].x, state.resources[0].y), (4, 4));
    assert_eq!(state.resources[0].expires_at, 90);
    assert_eq!(state.resources[0].value, 7);
    assert_eq!(state.resources[1].resource_id, id(51));
    // the agent itself is left out, the others keep their order
    assert_eq!(state.agents.len(), 2);
    assert_eq!(state.agents[0].id, id(2));
    assert_eq!(state.agents[0].name, "bob");
    assert_eq!(state.agents[0].team, "red");
    assert_eq!((state.agents[0].x, state.agents[0].y), (9, 9));
    assert_eq!(state.agents[1].id, id(3));
    // the challenge that expired at tick 20 is dropped
    assert_eq!(state.pow_challenge.len(), 1);
    assert_eq!(state.pow_challenge[0].resource_id, id(51));
}

#[test]
fn state_message_without_own_entry_keeps_position() {
    let mut state = GameState::new(id(42));
    state.update(&state_msg(1));
    assert_eq!(state.position, (0, 0));
    assert_eq!(state.agents.len(), 3);
}

#[test]
fn challenge_expiring_at_the_tick_is_dropped() {
    let mut state = GameState::new(id(1));
    state.update(&ServerMsg::PowChallenge(challenge(50, 4, 4, 30)));
    state.update(&ServerMsg::PowChallenge(challenge(51, 4, 5, 31)));
    state.update(&state_msg(30));
    assert_eq!(state.pow_challenge.len(), 1);
    assert_eq!(state.pow_challenge[0].expires_at, 31);
}

#[test]
fn pow_result_removes_the_resource() {
    let mut state = GameState::new(id(1));
    state.update(&state_msg(3));
    state.update(&ServerMsg::PowResult {
        resource_id: id(50),
        winner: "red".to_owned(),
    });
    assert_eq!(state.resources.len(), 1);
    assert_eq!(state.resources[0].resource_id, id(51));
    assert_eq!(state.tick, 3);
}

#[test]
fn pow_challenge_is_recorded() {
    let mut state = GameState::new(id(1));
    state.update(&ServerMsg::PowChallenge(challenge(77, 2, 2, 9)));
    assert_eq!(state.pow_challenge.len(), 1);
    assert_eq!(state.pow_challenge[0].resource_id, id(77));
    assert_eq!(state.pow_challenge[0].seed, "s");
    assert_eq!((state.pow_challenge[0].x, state.pow_challenge[0].y), (2, 2));
}

#[test]
fn other_messages_change_nothing() {
    let mut state = GameState::new(id(1));
    state.update(&state_msg(3));
    state.update(&ServerMsg::Hello {
        agent_id: id(9),
        tick_ms: 100,
    });
    state.update(&ServerMsg::Win {
        team: "red".to_owned(),
    });
    assert_eq!(state.agent_id, id(1));
    assert_eq!(state.tick, 3);
    assert_eq!(state.resources.len(), 2);
    assert_eq!(state.agents.len(), 2);
}
