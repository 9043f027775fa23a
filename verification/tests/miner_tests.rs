use std::collections::VecDeque;

use mining_bot::id::EntityId;
use mining_bot::miner::{
    clear_requests, drop_mined, mine_target, pop_target, remove_ressource, submit_challenge, MineRequest,
    MineRequestTarget, MineResult,
};
use mining_bot::pow::{pow_search, pow_valid};
use mining_bot::protocol::PowChallenge;

fn challenge(resource: u128, target_bits: u8) -> PowChallenge {
    PowChallenge {
        tick: 11,
        seed: format!("seed-{resource}"),
        resource_id: EntityId::new(resource),
        x: 1,
        y: 2,
        target_bits,
        expires_at: 50,
        value: 3,
    }
}

fn target(resource: u128, priority: usize, remaining: usize, start: u64) -> MineRequestTarget {
    MineRequestTarget {
        mine_request: MineRequest {
            seed: "s".to_owned(),
            tick: 1,
            resource_id: EntityId::new(resource),
            agent_id: EntityId::new(9),
            target_bits: 3,
        },
        priority,
        remaining_priority: remaining,
        start_nonce: start,
    }
}

fn resources(q: &VecDeque<MineRequestTarget>) -> Vec<u128> {
    q.iter().map(|t| t.mine_request.resource_id.value).collect()
}

#[test]
fn submit_queues_at_the_back_with_priority_one() {
    let mut q = VecDeque::new();
    submit_challenge(&mut q, challenge(1, 4), EntityId::new(9));
    submit_challenge(&mut q, challenge(2, 5), EntityId::new(9));
    assert_eq!(resources(&q), vec![1, 2]);
    let t = &q[1];
    assert_eq!(t.priority, 1);
    assert_eq!(t.remaining_priority, 1);
    assert_eq!(t.start_nonce, 0);
    assert_eq!(t.mine_request.seed, "seed-2");
    assert_eq!(t.mine_request.tick, 11);
    assert_eq!(t.mine_request.target_bits, 5);
    assert_eq!(t.mine_request.agent_id, EntityId::new(9));
}

#[test]
fn pop_on_empty_queue_gives_nothing() {
    let mut q: VecDeque<MineRequestTarget> = VecDeque::new();
    assert!(pop_target(&mut q).is_none());
    assert!(q.is_empty());
}

#[test]
fn pop_rotates_single_turn_targets() {
    let mut q = VecDeque::new();
    for r in 1..=3 {
        submit_challenge(&mut q, challenge(r, 4), EntityId::new(9));
    }
    let first = pop_target(&mut q).unwrap();
    assert_eq!(first.mine_request.resource_id, EntityId::new(1));
    assert_eq!(first.start_nonce, 0);
    assert_eq!(resources(&q), vec![2, 3, 1]);
    assert_eq!(q[2].start_nonce, 100_000);
    assert_eq!(q[2].remaining_priority, 1);
    // round robin: each target is handed out in turn
    assert_eq!(pop_target(&mut q).unwrap().mine_request.resource_id, EntityId::new(2));
    assert_eq!(pop_target(&mut q).unwrap().mine_request.resource_id, EntityId::new(3));
    let again = pop_target(&mut q).unwrap();
    assert_eq!(again.mine_request.resource_id, EntityId::new(1));
    assert_eq!(again.start_nonce, 100_000);
    assert_eq!(q.len(), 3);
}

#[test]
fn pop_keeps_a_target_in_front_during_its_turn() {
    let mut q = VecDeque::new();
    q.push_back(target(1, 3, 3, 500));
    q.push_back(target(2, 1, 1, 0));
    let t = pop_target(&mut q).unwrap();
    assert_eq!(t.start_nonce, 500);
    assert_eq!(resources(&q), vec![1, 2]);
    assert_eq!(q[0].remaining_priority, 2);
    assert_eq!(q[0].start_nonce, 100_500);
    pop_target(&mut q).unwrap();
    assert_eq!(q[0].remaining_priority, 1);
    let t = pop_target(&mut q).unwrap();
    assert_eq!(t.start_nonce, 200_500);
    // the turn is over: back at the end, with its priority restored
    assert_eq!(resources(&q), vec![2, 1]);
    assert_eq!(q[1].remaining_priority, 3);
    assert_eq!(q[1].start_nonce, 300_500);
}

#[test]
fn pop_with_zero_priority_goes_to_the_back() {
    let mut q = VecDeque::new();
    q.push_back(target(1, 0, 0, 0));
    q.push_back(target(2, 1, 1, 0));
    pop_target(&mut q).unwrap();
    assert_eq!(resources(&q), vec![2, 1]);
    assert_eq!(q[1].remaining_priority, 0);
}

#[test]
fn remove_drops_every_target_of_the_resource() {
    let mut q = VecDeque::new();
    q.push_back(target(1, 1, 1, 0));
    q.push_back(target(2, 1, 1, 0));
    q.push_back(target(1, 2, 2, 7));
    q.push_back(target(3, 1, 1, 0));
    remove_ressource(&mut q, EntityId::new(1));
    assert_eq!(resources(&q), vec![2, 3]);
    remove_ressource(&mut q, EntityId::new(8));
    assert_eq!(resources(&q), vec![2, 3]);
}

#[test]
fn clear_empties_the_queue() {
    let mut q = VecDeque::new();
    q.push_back(target(1, 1, 1, 0));
    clear_requests(&mut q);
    assert!(q.is_empty());
}

#[test]
fn mine_target_reports_the_first_valid_nonce_of_its_batch() {
    let t = target(4, 1, 1, 1_000);
    let result = mine_target(&t).expect("3 zero bits within a batch");
    assert_eq!(result.tick, 1);
    assert_eq!(result.resource_id, EntityId::new(4));
    assert!(pow_valid(&t.mine_request, result.nonce));
    assert_eq!(Some(result.nonce), pow_search(&t.mine_request, 1_000, 100_000));
}

#[test]
fn nonce_windows_of_one_resource_follow_each_other() {
    let mut q = VecDeque::new();
    q.push_back(target(1, 2, 2, 40));
    q.push_back(target(2, 1, 1, 0));
    q.push_back(target(3, 3, 1, 9));
    let mut starts = Vec::new();
    for _ in 0..12 {
        let t = pop_target(&mut q).unwrap();
        if t.mine_request.resource_id == EntityId::new(1) {
            starts.push(t.start_nonce);
        }
        // resource 1 keeps exactly one queued target
        let ones: Vec<&MineRequestTarget> =
            q.iter().filter(|t| t.mine_request.resource_id == EntityId::new(1)).collect();
        assert_eq!(ones.len(), 1);
        assert_eq!(ones[0].start_nonce, 40 + 100_000 * starts.len() as u64);
    }
    assert_eq!(starts, vec![40, 100_040, 200_040, 300_040, 400_040, 500_040]);
}

#[test]
fn a_found_nonce_drops_the_resource() {
    let mut q = VecDeque::new();
    q.push_back(target(1, 1, 1, 0));
    q.push_back(target(2, 1, 1, 0));
    q.push_back(target(1, 2, 2, 7));
    drop_mined(&mut q, &None);
    assert_eq!(resources(&q), vec![1, 2, 1]);
    let found = MineResult { tick: 1, resource_id: EntityId::new(1), nonce: 5 };
    drop_mined(&mut q, &Some(found));
    assert_eq!(resources(&q), vec![2]);
}
