//! The mining requests and the queue of targets that the miner threads share.

use vstd::prelude::*;
use std::collections::VecDeque;

use crate::id::EntityId;
use crate::pow::{pow_search, search_outcome};
use crate::protocol::PowChallenge;

verus! {

/// Number of nonces a miner tries for one target before handing it back.
pub const BATCH_SIZE: u64 = 100000;

/// A mining request handed to the miner threads.
#[derive(Clone, Debug)]
pub struct MineRequest {
    pub seed: String,
    pub tick: u64,
    pub resource_id: EntityId,
    pub agent_id: EntityId,
    pub target_bits: u8,
}

/// The contents of a mining request, its seed as characters.
pub struct RequestModel {
    pub seed: Seq<char>,
    pub tick: u64,
    pub resource_id: EntityId,
    pub agent_id: EntityId,
    pub target_bits: u8,
}

impl View for MineRequest {
    type V = RequestModel;

    open spec fn view(&self) -> RequestModel {
        RequestModel {
            seed: self.seed@,
            tick: self.tick,
            resource_id: self.resource_id,
            agent_id: self.agent_id,
            target_bits: self.target_bits,
        }
    }
}

impl MineRequest {
    /// A copy of the request.
    pub fn duplicate(&self) -> (copy: MineRequest)
        ensures
            copy@ == self@,
    {
        MineRequest {
            seed: self.seed.clone(),
            tick: self.tick,
            resource_id: self.resource_id,
            agent_id: self.agent_id,
            target_bits: self.target_bits,
        }
    }
}

/// A queued request with its scheduling data: how many batches it gets in a
/// row (`priority`), how many are left in the current turn, and the next nonce
/// to try.
#[derive(Clone, Debug)]
pub struct MineRequestTarget {
    pub mine_request: MineRequest,
    pub priority: usize,
    pub remaining_priority: usize,
    pub start_nonce: u64,
}

/// The contents of a queued request.
pub struct TargetModel {
    pub request: RequestModel,
    pub priority: usize,
    pub remaining_priority: usize,
    pub start_nonce: u64,
}

impl View for MineRequestTarget {
    type V = TargetModel;

    open spec fn view(&self) -> TargetModel {
        TargetModel {
            request: self.mine_request@,
            priority: self.priority,
            remaining_priority: self.remaining_priority,
            start_nonce: self.start_nonce,
        }
    }
}

impl MineRequestTarget {
    /// A copy of the queued request.
    pub fn duplicate(&self) -> (copy: MineRequestTarget)
        ensures
            copy@ == self@,
    {
        MineRequestTarget {
            mine_request: self.mine_request.duplicate(),
            priority: self.priority,
            remaining_priority: self.remaining_priority,
            start_nonce: self.start_nonce,
        }
    }
}

/// A nonce found by a miner.
#[derive(Clone, Copy, Debug)]
pub struct MineResult {
    pub tick: u64,
    pub resource_id: EntityId,
    pub nonce: u64,
}

/// The contents of a request queue, front first.
pub open spec fn queue_models(requests: Seq<MineRequestTarget>) -> Seq<TargetModel> {
    requests.map_values(|t: MineRequestTarget| t@)
}

/// A target after it has been handed out once: one turn less (back to its
/// priority when the turn is over) and the next batch of nonces.
pub open spec fn served(t: TargetModel) -> TargetModel {
    let left: usize = if t.remaining_priority == 0 {
        0
    } else {
        (t.remaining_priority - 1) as usize
    };
    TargetModel {
        request: t.request,
        priority: t.priority,
        remaining_priority: if left == 0 {
            t.priority
        } else {
            left
        },
        start_nonce: (t.start_nonce + BATCH_SIZE) as u64,
    }
}

/// The queue after its front target was handed out: the target goes to the
/// back once its turn is over, and stays in front otherwise.
pub open spec fn after_pop(q: Seq<TargetModel>) -> Seq<TargetModel> {
    if q.len() == 0 {
        q
    } else if q[0].remaining_priority <= 1 {
        q.drop_first().push(served(q[0]))
    } else {
        seq![served(q[0])] + q.drop_first()
    }
}

/// The front target can be handed out without its nonce counter overflowing.
pub open spec fn can_pop(q: Seq<TargetModel>) -> bool {
    q.len() > 0 ==> q[0].start_nonce + BATCH_SIZE <= u64::MAX
}

/// Hands out the target at the front of the queue, and puts it back advanced
/// by one batch of nonces (at the back once its turn is over).
pub fn pop_target(requests: &mut VecDeque<MineRequestTarget>) -> (target: Option<MineRequestTarget>)
    requires
        can_pop(queue_models(old(requests)@)),
    ensures
        queue_models(final(requests)@) == after_pop(queue_models(old(requests)@)),
        match target {
            None => old(requests)@.len() == 0,
            Some(t) => old(requests)@.len() > 0 && t@ == old(requests)@[0]@,
        },
{
    if requests.len() == 0 {
        return None;
    }
    let mut front = requests.pop_front().unwrap();
    let target = front.duplicate();
    front.remaining_priority = front.remaining_priority.saturating_sub(1);
    front.start_nonce = front.start_nonce + BATCH_SIZE;
    let ghost q = queue_models(old(requests)@);
    if front.remaining_priority == 0 {
        front.remaining_priority = front.priority;
        requests.push_back(front);
        assert(queue_models(requests@) =~= after_pop(q));
    } else {
        requests.push_front(front);
        assert(queue_models(requests@) =~= after_pop(q));
    }
    Some(target)
}

/// The queue without the targets of the resource `resource_id`.
pub open spec fn queue_without(q: Seq<TargetModel>, resource_id: EntityId) -> Seq<TargetModel> {
    q.filter(|t: TargetModel| t.request.resource_id != resource_id)
}

/// Removes every queued target of the resource `resource_id`, keeping the
/// others in order.
pub fn remove_ressource(requests: &mut VecDeque<MineRequestTarget>, resource_id: EntityId)
    ensures
        queue_models(final(requests)@) == queue_without(queue_models(old(requests)@), resource_id),
{
    let ghost q = queue_models(old(requests)@);
    let ghost keep = |t: TargetModel| t.request.resource_id != resource_id;
    let mut kept: VecDeque<MineRequestTarget> = VecDeque::new();
    let mut seen: usize = 0;
    let total = requests.len();
    assert(total == q.len());
    while requests.len() > 0
        invariant
            q.len() == total,
            seen + requests@.len() == q.len(),
            queue_models(requests@) == q.subrange(seen as int, q.len() as int),
            queue_models(kept@) == q.take(seen as int).filter(keep),
            keep == (|t: TargetModel| t.request.resource_id != resource_id),
        decreases requests@.len(),
    {
        let ghost before = requests@;
        let t = requests.pop_front().unwrap();
        proof {
            assert(t == before[0]);
            assert(queue_models(before)[0] == q[seen as int]);
            reveal_with_fuel(Seq::filter, 1);
            assert(q.take(seen + 1).drop_last() =~= q.take(seen as int));
            assert(q.take(seen + 1).last() == t@);
        }
        if t.mine_request.resource_id != resource_id {
            kept.push_back(t);
        }
        proof {
            assert forall|j: int| 0 <= j < requests@.len() implies queue_models(requests@)[j] == q[seen + 1 + j] by {
                assert(requests@[j] == before[j + 1]);
                assert(queue_models(before)[j + 1] == q.subrange(seen as int, q.len() as int)[j + 1]);
            }
        }
        seen = seen + 1;
        assert(queue_models(requests@) =~= q.subrange(seen as int, q.len() as int));
        assert(queue_models(kept@) =~= q.take(seen as int).filter(keep));
    }
    assert(q.take(q.len() as int) =~= q);
    std::mem::swap(requests, &mut kept);
}

/// The model of the target queued for a new challenge: priority 1, from nonce 0.
pub open spec fn challenge_target(challenge: PowChallenge, agent_id: EntityId) -> TargetModel {
    TargetModel {
        request: RequestModel {
            seed: challenge.seed@,
            tick: challenge.tick,
            resource_id: challenge.resource_id,
            agent_id: agent_id,
            target_bits: challenge.target_bits,
        },
        priority: 1,
        remaining_priority: 1,
        start_nonce: 0,
    }
}

/// A submitted challenge is queued with one batch per turn, from nonce 0, for
/// the challenge's seed, tick, resource and target and for the submitting agent.
pub proof fn law_submitted_target(challenge: PowChallenge, agent_id: EntityId)
    ensures
        challenge_target(challenge, agent_id).priority == 1,
        challenge_target(challenge, agent_id).remaining_priority == 1,
        challenge_target(challenge, agent_id).start_nonce == 0,
        challenge_target(challenge, agent_id).request.seed == challenge.seed@,
        challenge_target(challenge, agent_id).request.tick == challenge.tick,
        challenge_target(challenge, agent_id).request.resource_id == challenge.resource_id,
        challenge_target(challenge, agent_id).request.agent_id == agent_id,
        challenge_target(challenge, agent_id).request.target_bits == challenge.target_bits,
{
}

/// Queues a new challenge for mining, at the back.
pub fn submit_challenge(
    requests: &mut VecDeque<MineRequestTarget>,
    challenge: PowChallenge,
    agent_id: EntityId,
)
    ensures
        queue_models(final(requests)@) == queue_models(old(requests)@).push(
            challenge_target(challenge, agent_id),
        ),
{
    let mine_request = MineRequest {
        tick: challenge.tick,
        seed: challenge.seed,
        resource_id: challenge.resource_id,
        target_bits: challenge.target_bits,
        agent_id,
    };
    requests.push_back(
        MineRequestTarget { mine_request, priority: 1, remaining_priority: 1, start_nonce: 0 },
    );
    assert(queue_models(requests@) =~= queue_models(old(requests)@).push(
        challenge_target(challenge, agent_id),
    ));
}

/// Empties the queue.
pub fn clear_requests(requests: &mut VecDeque<MineRequestTarget>)
    ensures
        final(requests)@.len() == 0,
{
    requests.clear();
}

/// Searches one batch of nonces for a handed-out target and, when a valid
/// nonce is found, the result to send to the server.
pub fn mine_target(target: &MineRequestTarget) -> (result: Option<MineResult>)
    ensures
        match result {
            Some(r) => {
                &&& r.tick == target.mine_request.tick
                &&& r.resource_id == target.mine_request.resource_id
                &&& search_outcome(target.mine_request, target.start_nonce, BATCH_SIZE, Some(r.nonce))
            },
            None => search_outcome(target.mine_request, target.start_nonce, BATCH_SIZE, None),
        },
{
    let mine_request = &target.mine_request;
    match pow_search(mine_request, target.start_nonce, BATCH_SIZE) {
        Some(nonce) => Some(
            MineResult { tick: mine_request.tick, resource_id: mine_request.resource_id, nonce },
        ),
        None => None,
    }
}

/// Settles a mined batch: when it found a nonce the resource is done, and none
/// of its targets stays queued; otherwise the queue is left as it is.
pub fn drop_mined(requests: &mut VecDeque<MineRequestTarget>, outcome: &Option<MineResult>)
    ensures
        queue_models(final(requests)@) == match outcome {
            Some(r) => queue_without(queue_models(old(requests)@), r.resource_id),
            None => queue_models(old(requests)@),
        },
{
    if let Some(result) = outcome {
        remove_ressource(requests, result.resource_id);
    }
}

/// The requests of a queue, front first.
pub open spec fn queued_requests(q: Seq<TargetModel>) -> Seq<RequestModel> {
    q.map_values(|t: TargetModel| t.request)
}

/// Handing out a target loses no request and adds none: the queue keeps its
/// length and the same requests.
pub proof fn law_pop_keeps_requests(q: Seq<TargetModel>)
    ensures
        after_pop(q).len() == q.len(),
        queued_requests(after_pop(q)).to_multiset() == queued_requests(q).to_multiset(),
{
    broadcast use vstd::seq_lib::group_to_multiset_ensures;

    if q.len() > 0 {
        let r = queued_requests(q);
        if q[0].remaining_priority <= 1 {
            assert(queued_requests(after_pop(q)) =~= r.remove(0).push(q[0].request));
            assert(r.remove(0).push(q[0].request).to_multiset() =~= r.remove(0).to_multiset().insert(
                q[0].request,
            ));
            assert(r.remove(0).to_multiset() =~= r.to_multiset().remove(r[0]));
        } else {
            assert(queued_requests(after_pop(q)) =~= r);
        }
    }
}

/// Every target gets one batch per turn (as a submitted challenge does).
pub open spec fn single_turns(q: Seq<TargetModel>) -> bool {
    forall|i: int| 0 <= i < q.len() ==> #[trigger] q[i].priority == 1 && q[i].remaining_priority == 1
}

/// The queue after `k` targets have been handed out.
pub open spec fn pops(q: Seq<TargetModel>, k: nat) -> Seq<TargetModel>
    decreases k,
{
    if k == 0 {
        q
    } else {
        after_pop(pops(q, (k - 1) as nat))
    }
}

proof fn lemma_pops_rotate(q: Seq<TargetModel>, k: nat)
    requires
        single_turns(q),
        k <= q.len(),
    ensures
        pops(q, k).len() == q.len(),
        single_turns(pops(q, k)),
        queued_requests(pops(q, k)) == queued_requests(q).subrange(k as int, q.len() as int)
            + queued_requests(q).subrange(0, k as int),
    decreases k,
{
    let r = queued_requests(q);
    if k == 0 {
        assert(r.subrange(0, q.len() as int) + r.subrange(0, 0) =~= r);
    } else {
        let j = (k - 1) as nat;
        lemma_pops_rotate(q, j);
        let p = pops(q, j);
        assert(pops(q, k) == after_pop(p));
        assert(p[0].remaining_priority == 1);
        let a = after_pop(p);
        assert(a =~= p.drop_first().push(served(p[0])));
        assert forall|i: int| 0 <= i < a.len() implies #[trigger] a[i].priority == 1 && a[i].remaining_priority == 1 by {
            if i < a.len() - 1 {
                assert(a[i] == p[i + 1]);
            }
        }
        assert(single_turns(a));
        let n = q.len() as int;
        let rp = queued_requests(p);
        assert(rp == r.subrange(j as int, n) + r.subrange(0, j as int));
        let target = r.subrange(k as int, n) + r.subrange(0, k as int);
        assert forall|i: int| 0 <= i < n implies #[trigger] queued_requests(a)[i] == target[i] by {
            if i < n - 1 {
                assert(a[i] == p[i + 1]);
                assert(queued_requests(a)[i] == rp[i + 1]);
                if i < n - k {
                    assert(rp[i + 1] == r[j + i + 1]);
                } else {
                    assert(rp[i + 1] == r[i + 1 - (n - j)]);
                }
            } else {
                assert(a[i] == served(p[0]));
                assert(rp[0] == r[j as int]);
            }
        }
        assert(queued_requests(a) =~= target);
    }
}

/// Round robin: when every target gets one batch per turn, the `k`-th target
/// of the queue is handed out after `k` others, for every `k` below the length.
pub proof fn law_round_robin(q: Seq<TargetModel>, k: nat)
    requires
        single_turns(q),
        k < q.len(),
    ensures
        pops(q, k)[0].request == q[k as int].request,
{
    lemma_pops_rotate(q, k);
    assert(queued_requests(pops(q, k))[0] == queued_requests(q)[k as int]);
}

/// Among the first `k` targets handed out, the number that belong to the
/// resource `resource_id`.
pub open spec fn handouts(q: Seq<TargetModel>, resource_id: EntityId, k: nat) -> nat
    decreases k,
{
    if k == 0 {
        0
    } else {
        let p = pops(q, (k - 1) as nat);
        handouts(q, resource_id, (k - 1) as nat) + if p.len() > 0 && p[0].request.resource_id
            == resource_id {
            1nat
        } else {
            0nat
        }
    }
}

/// Exactly one queued target belongs to the resource `resource_id`, and its
/// next nonce is `nonce`.
pub open spec fn sole_entry(q: Seq<TargetModel>, resource_id: EntityId, nonce: int) -> bool {
    &&& exists|i: int| 0 <= i < q.len() && #[trigger] q[i].request.resource_id == resource_id
    &&& forall|i: int|
        0 <= i < q.len() && #[trigger] q[i].request.resource_id == resource_id ==> q[i].start_nonce
            == nonce
    &&& forall|i: int, j: int|
        0 <= i < q.len() && 0 <= j < q.len() && #[trigger] q[i].request.resource_id == resource_id
            && #[trigger] q[j].request.resource_id == resource_id ==> i == j
}

proof fn lemma_pop_sole_entry(p: Seq<TargetModel>, resource_id: EntityId, nonce: int)
    requires
        sole_entry(p, resource_id, nonce),
        can_pop(p),
    ensures
        p.len() > 0,
        sole_entry(
            after_pop(p),
            resource_id,
            nonce + if p[0].request.resource_id == resource_id {
                BATCH_SIZE as int
            } else {
                0int
            },
        ),
{
    let i0 = choose|i: int| 0 <= i < p.len() && #[trigger] p[i].request.resource_id == resource_id;
    let n = p.len() as int;
    let a = after_pop(p);
    let v = nonce + if p[0].request.resource_id == resource_id {
        BATCH_SIZE as int
    } else {
        0int
    };
    let f = served(p[0]);
    assert(f.request == p[0].request);
    assert(f.start_nonce == p[0].start_nonce + BATCH_SIZE);
    // position in `a` of the entry at position `i` of `p`
    let pos = |i: int|
        if i == 0 {
            if p[0].remaining_priority <= 1 {
                n - 1
            } else {
                0
            }
        } else if p[0].remaining_priority <= 1 {
            i - 1
        } else {
            i
        };
    if p[0].remaining_priority <= 1 {
        assert(a =~= p.drop_first().push(f));
        assert forall|i: int| 0 <= i < n - 1 implies a[i] == p[i + 1] by {}
        assert(a[n - 1] == f);
        assert(a[pos(i0)].request.resource_id == resource_id);
        assert forall|i: int|
            0 <= i < a.len() && #[trigger] a[i].request.resource_id == resource_id implies a[i].start_nonce
            == v by {
            if i < n - 1 {
                assert(p[i + 1].request.resource_id == resource_id);
            }
        }
        assert forall|i: int, j: int|
            0 <= i < a.len() && 0 <= j < a.len() && #[trigger] a[i].request.resource_id == resource_id
                && #[trigger] a[j].request.resource_id == resource_id implies i == j by {
            let pi = if i == n - 1 { 0 } else { i + 1 };
            let pj = if j == n - 1 { 0 } else { j + 1 };
            assert(p[pi].request.resource_id == resource_id);
            assert(p[pj].request.resource_id == resource_id);
        }
    } else {
        assert(a =~= seq![f] + p.drop_first());
        assert forall|i: int| 1 <= i < n implies a[i] == p[i] by {}
        assert(a[0] == f);
        assert(a[pos(i0)].request.resource_id == resource_id);
        assert forall|i: int|
            0 <= i < a.len() && #[trigger] a[i].request.resource_id == resource_id implies a[i].start_nonce
            == v by {
            if i > 0 {
                assert(p[i].request.resource_id == resource_id);
            }
        }
        assert forall|i: int, j: int|
            0 <= i < a.len() && 0 <= j < a.len() && #[trigger] a[i].request.resource_id == resource_id
                && #[trigger] a[j].request.resource_id == resource_id implies i == j by {
            assert(p[i].request.resource_id == resource_id);
            assert(p[j].request.resource_id == resource_id);
        }
    }
}

/// Nonce windows: when a resource has exactly one queued target, starting at
/// nonce `first`, and only hand-outs follow (none of them overflowing), the
/// target keeps being the only one of its resource, and every time it is
/// handed out it starts one batch after the previous time. So the batches of
/// nonces handed out for the resource follow each other and never overlap.
pub proof fn law_nonce_windows(q: Seq<TargetModel>, resource_id: EntityId, first: int, k: nat)
    requires
        sole_entry(q, resource_id, first),
        forall|j: nat| j < k ==> #[trigger] can_pop(pops(q, j)),
    ensures
        sole_entry(pops(q, k), resource_id, first + BATCH_SIZE * handouts(q, resource_id, k)),
        pops(q, k).len() > 0 && pops(q, k)[0].request.resource_id == resource_id ==> pops(
            q,
            k,
        )[0].start_nonce == first + BATCH_SIZE * handouts(q, resource_id, k),
    decreases k,
{
    if k > 0 {
        let j = (k - 1) as nat;
        law_nonce_windows(q, resource_id, first, j);
        let p = pops(q, j);
        assert(can_pop(p));
        lemma_pop_sole_entry(p, resource_id, first + BATCH_SIZE * handouts(q, resource_id, j));
        assert(pops(q, k) == after_pop(p));
    }
}

/// After a removal no queued target belongs to the removed resource, and every
/// target of another resource is still queued.
pub proof fn law_removed_resource_gone(q: Seq<TargetModel>, resource_id: EntityId)
    ensures
        forall|i: int|
            0 <= i < queue_without(q, resource_id).len() ==> #[trigger] queue_without(
                q,
                resource_id,
            )[i].request.resource_id != resource_id,
        forall|i: int|
            0 <= i < q.len() && q[i].request.resource_id != resource_id ==> queue_without(
                q,
                resource_id,
            ).contains(#[trigger] q[i]),
{
    broadcast use vstd::seq_lib::group_filter_ensures;

}

} // verus!
