//! What the agent knows of the game, and its update from server messages.

use vstd::prelude::*;
use std::collections::HashMap;

use crate::id::EntityId;
use crate::protocol::{PowChallenge, ServerMsg};

verus! {

/// A resource (mining challenge) that is active on the map.
#[derive(Clone, Copy, Debug)]
pub struct ResourceInfo {
    pub resource_id: EntityId,
    pub x: u16,
    pub y: u16,
    pub expires_at: u64,
    pub value: u32,
}

/// Another agent visible on the map.
#[derive(Clone, Debug)]
pub struct AgentInfo {
    pub id: EntityId,
    pub name: String,
    pub team: String,
    pub score: u32,
    pub x: u16,
    pub y: u16,
}

/// The contents of an agent entry, names as characters.
pub struct AgentModel {
    pub id: EntityId,
    pub name: Seq<char>,
    pub team: Seq<char>,
    pub score: u32,
    pub x: u16,
    pub y: u16,
}

impl View for AgentInfo {
    type V = AgentModel;

    open spec fn view(&self) -> AgentModel {
        AgentModel {
            id: self.id,
            name: self.name@,
            team: self.team@,
            score: self.score,
            x: self.x,
            y: self.y,
        }
    }
}

/// An agent entry of a state message: id, name, team, score, x, y.
pub type AgentEntry = (EntityId, String, String, u32, u16, u16);

/// A resource entry of a state message: id, x, y, expiry tick, value.
pub type ResourceEntry = (EntityId, u16, u16, u64, u32);

/// The contents of an agent entry of a state message.
pub open spec fn agent_entry_model(a: AgentEntry) -> AgentModel {
    AgentModel { id: a.0, name: a.1@, team: a.2@, score: a.3, x: a.4, y: a.5 }
}

/// The resource described by a resource entry of a state message.
pub open spec fn resource_entry_info(r: ResourceEntry) -> ResourceInfo {
    ResourceInfo { resource_id: r.0, x: r.1, y: r.2, expires_at: r.3, value: r.4 }
}

/// The position of the first agent entry with the id `me`.
pub open spec fn own_position(agents: Seq<AgentEntry>, me: EntityId) -> Option<(u16, u16)>
    decreases agents.len(),
{
    if agents.len() == 0 {
        None
    } else if agents[0].0 == me {
        Some((agents[0].4, agents[0].5))
    } else {
        own_position(agents.drop_first(), me)
    }
}

/// The other agents of a state message, in order.
pub open spec fn other_agents(agents: Seq<AgentEntry>, me: EntityId) -> Seq<AgentModel> {
    agents.map_values(|a: AgentEntry| agent_entry_model(a)).filter(|m: AgentModel| m.id != me)
}

/// The challenges that are still open after tick `tick`.
pub open spec fn open_challenges(challenges: Seq<PowChallenge>, tick: u64) -> Seq<PowChallenge> {
    challenges.filter(|c: PowChallenge| c.expires_at > tick)
}

/// The resources without the one with id `id`.
pub open spec fn resources_without(resources: Seq<ResourceInfo>, id: EntityId) -> Seq<ResourceInfo> {
    resources.filter(|r: ResourceInfo| r.resource_id != id)
}

/// The agent models of a list of agents.
pub open spec fn agent_models(agents: Seq<AgentInfo>) -> Seq<AgentModel> {
    agents.map_values(|a: AgentInfo| a@)
}

/// What the agent knows of the game.
pub struct GameState {
    pub agent_id: EntityId,
    pub tick: u64,
    pub position: (u16, u16),
    pub map_size: (u16, u16),
    pub goal: u32,
    pub obstacles: Vec<(u16, u16)>,
    pub resources: Vec<ResourceInfo>,
    pub agents: Vec<AgentInfo>,
    pub team_scores: HashMap<String, u32>,
    pub pow_challenge: Vec<PowChallenge>,
}

fn copy_obstacles(obstacles: &Vec<(u16, u16)>) -> (copy: Vec<(u16, u16)>)
    ensures
        copy@ == obstacles@,
{
    let mut copy: Vec<(u16, u16)> = Vec::new();
    let mut i: usize = 0;
    while i < obstacles.len()
        invariant
            i <= obstacles@.len(),
            copy@ == obstacles@.take(i as int),
        decreases obstacles.len() - i,
    {
        let o = obstacles[i];
        copy.push((o.0, o.1));
        i = i + 1;
        assert(copy@ =~= obstacles@.take(i as int));
    }
    assert(obstacles@.take(obstacles@.len() as int) =~= obstacles@);
    copy
}

fn resource_infos(resources: &Vec<ResourceEntry>) -> (infos: Vec<ResourceInfo>)
    ensures
        infos@ == resources@.map_values(|r: ResourceEntry| resource_entry_info(r)),
{
    let mut infos: Vec<ResourceInfo> = Vec::new();
    let mut i: usize = 0;
    while i < resources.len()
        invariant
            i <= resources@.len(),
            infos@ == resources@.take(i as int).map_values(|r: ResourceEntry| resource_entry_info(r)),
        decreases resources.len() - i,
    {
        let r = &resources[i];
        infos.push(ResourceInfo { resource_id: r.0, x: r.1, y: r.2, expires_at: r.3, value: r.4 });
        i = i + 1;
        assert(infos@ =~= resources@.take(i as int).map_values(|r: ResourceEntry| resource_entry_info(r)));
    }
    assert(resources@.take(resources@.len() as int) =~= resources@);
    infos
}

fn visible_agents(agents: &Vec<AgentEntry>, me: EntityId) -> (others: Vec<AgentInfo>)
    ensures
        agent_models(others@) == other_agents(agents@, me),
{
    let ghost models = agents@.map_values(|a: AgentEntry| agent_entry_model(a));
    let ghost keep = |m: AgentModel| m.id != me;
    let mut others: Vec<AgentInfo> = Vec::new();
    let mut i: usize = 0;
    while i < agents.len()
        invariant
            i <= agents@.len(),
            models == agents@.map_values(|a: AgentEntry| agent_entry_model(a)),
            keep == (|m: AgentModel| m.id != me),
            agent_models(others@) == models.take(i as int).filter(keep),
        decreases agents.len() - i,
    {
        let a = &agents[i];
        proof {
            reveal_with_fuel(Seq::filter, 1);
            assert(models.take(i + 1).drop_last() =~= models.take(i as int));
            assert(models.take(i + 1).last() == agent_entry_model(agents@[i as int]));
        }
        if a.0 != me {
            others.push(
                AgentInfo {
                    id: a.0,
                    name: a.1.clone(),
                    team: a.2.clone(),
                    score: a.3,
                    x: a.4,
                    y: a.5,
                },
            );
            assert(agent_models(others@) =~= models.take(i + 1).filter(keep));
        } else {
            assert(agent_models(others@) =~= models.take(i + 1).filter(keep));
        }
        i = i + 1;
    }
    assert(models.take(agents@.len() as int) =~= models);
    others
}

fn find_own_position(agents: &Vec<AgentEntry>, me: EntityId) -> (pos: Option<(u16, u16)>)
    ensures
        pos == own_position(agents@, me),
{
    let mut i: usize = 0;
    assert(agents@.subrange(0, agents@.len() as int) =~= agents@);
    while i < agents.len()
        invariant
            i <= agents@.len(),
            own_position(agents@, me) == own_position(agents@.subrange(i as int, agents@.len() as int), me),
        decreases agents.len() - i,
    {
        let ghost rest = agents@.subrange(i as int, agents@.len() as int);
        assert(rest.drop_first() =~= agents@.subrange(i + 1, agents@.len() as int));
        if agents[i].0 == me {
            return Some((agents[i].4, agents[i].5));
        }
        i = i + 1;
    }
    None
}

fn keep_open_challenges(challenges: Vec<PowChallenge>, tick: u64) -> (kept: Vec<PowChallenge>)
    ensures
        kept@ == open_challenges(challenges@, tick),
{
    let ghost all = challenges@;
    let ghost keep = |c: PowChallenge| c.expires_at > tick;
    let mut kept: Vec<PowChallenge> = Vec::new();
    for c in it: challenges.into_iter()
        invariant
            it.seq() == all,
            keep == (|c: PowChallenge| c.expires_at > tick),
            kept@ == all.take(it.index() as int).filter(keep),
    {
        let ghost i = it.index();
        proof {
            reveal_with_fuel(Seq::filter, 1);
            assert(all.take(i + 1).drop_last() =~= all.take(i as int));
        }
        if c.expires_at > tick {
            kept.push(c);
        }
    }
    assert(all.take(all.len() as int) =~= all);
    kept
}

fn remove_resource(resources: &Vec<ResourceInfo>, id: EntityId) -> (kept: Vec<ResourceInfo>)
    ensures
        kept@ == resources_without(resources@, id),
{
    let ghost keep = |r: ResourceInfo| r.resource_id != id;
    let mut kept: Vec<ResourceInfo> = Vec::new();
    let mut i: usize = 0;
    while i < resources.len()
        invariant
            i <= resources@.len(),
            keep == (|r: ResourceInfo| r.resource_id != id),
            kept@ == resources@.take(i as int).filter(keep),
        decreases resources.len() - i,
    {
        proof {
            reveal_with_fuel(Seq::filter, 1);
            assert(resources@.take(i + 1).drop_last() =~= resources@.take(i as int));
        }
        let r = resources[i];
        if r.resource_id != id {
            kept.push(r);
        }
        i = i + 1;
    }
    assert(resources@.take(resources@.len() as int) =~= resources@);
    kept
}

/// After a state message the agent itself is not among the other agents, and
/// every other agent of the message is listed.
pub proof fn law_self_not_listed(agents: Seq<AgentEntry>, me: EntityId)
    ensures
        forall|i: int|
            0 <= i < other_agents(agents, me).len() ==> #[trigger] other_agents(agents, me)[i].id != me,
        forall|i: int|
            0 <= i < agents.len() && agents[i].0 != me ==> other_agents(agents, me).contains(
                #[trigger] agent_entry_model(agents[i]),
            ),
{
    broadcast use vstd::seq_lib::group_filter_ensures;

    let models = agents.map_values(|a: AgentEntry| agent_entry_model(a));
    assert forall|i: int| 0 <= i < agents.len() && agents[i].0 != me implies other_agents(
        agents,
        me,
    ).contains(#[trigger] agent_entry_model(agents[i])) by {
        assert(models[i] == agent_entry_model(agents[i]));
    }
}

/// After a state message the recorded resources are the entries of the
/// message, one for one and in order, each with the id, the cell `(x, y)`, the
/// expiry and the value of its entry.
pub proof fn law_resources_as_listed(entries: Seq<ResourceEntry>, recorded: Seq<ResourceInfo>)
    requires
        recorded == entries.map_values(|r: ResourceEntry| resource_entry_info(r)),
    ensures
        recorded.len() == entries.len(),
        forall|i: int|
            0 <= i < entries.len() ==> {
                &&& #[trigger] recorded[i].resource_id == entries[i].0
                &&& recorded[i].x == entries[i].1
                &&& recorded[i].y == entries[i].2
                &&& recorded[i].expires_at == entries[i].3
                &&& recorded[i].value == entries[i].4
            },
{
}

/// The agent `m` shows the entry `e` of a state message: same id, name, team,
/// score and cell `(x, y)`.
pub open spec fn shows_entry(m: AgentModel, e: AgentEntry) -> bool {
    &&& m.id == e.0
    &&& m.name == e.1@
    &&& m.team == e.2@
    &&& m.score == e.3
    &&& m.x == e.4
    &&& m.y == e.5
}

/// `m` shows some entry of `entries` with another id than `me`.
pub open spec fn entry_shown_by(entries: Seq<AgentEntry>, me: EntityId, m: AgentModel) -> bool {
    exists|j: int| 0 <= j < entries.len() && entries[j].0 != me && #[trigger] shows_entry(m, entries[j])
}

/// After a state message every listed agent shows an entry of the message
/// with another id than this agent's.
pub proof fn law_listed_agents_show_entries(entries: Seq<AgentEntry>, me: EntityId, others: Seq<AgentModel>)
    requires
        others == other_agents(entries, me),
    ensures
        forall|i: int| 0 <= i < others.len() ==> #[trigger] entry_shown_by(entries, me, others[i]),
{
    assert forall|i: int| 0 <= i < others.len() implies #[trigger] entry_shown_by(entries, me, others[i]) by {
        lemma_listed_agent_shows_entry(entries, me, others, i);
    }
}

/// After a state message every entry of the message with another id than
/// this agent's is shown by a listed agent.
pub proof fn law_other_entries_listed(entries: Seq<AgentEntry>, me: EntityId, others: Seq<AgentModel>)
    requires
        others == other_agents(entries, me),
    ensures
        forall|j: int|
            #![trigger entries[j]]
            0 <= j < entries.len() && entries[j].0 != me ==> exists|i: int|
                0 <= i < others.len() && #[trigger] shows_entry(others[i], entries[j]),
{
    assert forall|j: int| #![trigger entries[j]] 0 <= j < entries.len() && entries[j].0 != me implies exists|i: int|
        0 <= i < others.len() && #[trigger] shows_entry(others[i], entries[j]) by {
        lemma_entry_is_listed(entries, me, others, j);
    }
}

proof fn lemma_listed_agent_shows_entry(entries: Seq<AgentEntry>, me: EntityId, others: Seq<AgentModel>, i: int)
    requires
        others == other_agents(entries, me),
        0 <= i < others.len(),
    ensures
        entry_shown_by(entries, me, others[i]),
{
    let models = entries.map_values(|a: AgentEntry| agent_entry_model(a));
    let keep = |m: AgentModel| m.id != me;
    assert(others == models.filter(keep));
    models.lemma_filter_pred(keep, i);
    assert(others.contains(others[i]));
    models.lemma_filter_contains_rev(keep, others[i]);
    let j = choose|j: int| 0 <= j < models.len() && models[j] == others[i];
    assert(models[j] == agent_entry_model(entries[j]));
    assert(shows_entry(others[i], entries[j]));
}

proof fn lemma_entry_is_listed(entries: Seq<AgentEntry>, me: EntityId, others: Seq<AgentModel>, j: int)
    requires
        others == other_agents(entries, me),
        0 <= j < entries.len(),
        entries[j].0 != me,
    ensures
        exists|i: int| 0 <= i < others.len() && #[trigger] shows_entry(others[i], entries[j]),
{
    let models = entries.map_values(|a: AgentEntry| agent_entry_model(a));
    let keep = |m: AgentModel| m.id != me;
    assert(others == models.filter(keep));
    assert(models[j] == agent_entry_model(entries[j]));
    models.lemma_filter_contains(keep, j);
    assert(others.contains(models[j]));
    let i = choose|i: int| 0 <= i < others.len() && others[i] == models[j];
    assert(shows_entry(others[i], entries[j]));
}

/// The agent's own position after a state message is the cell `(x, y)` of the
/// first entry that carries its id; without such an entry it has none.
pub proof fn law_own_position_from_entry(entries: Seq<AgentEntry>, me: EntityId)
    ensures
        match own_position(entries, me) {
            Some(p) => exists|j: int|
                0 <= j < entries.len() && #[trigger] entries[j].0 == me && p.0 == entries[j].4 && p.1
                    == entries[j].5 && forall|k: int| 0 <= k < j ==> entries[k].0 != me,
            None => forall|j: int| 0 <= j < entries.len() ==> #[trigger] entries[j].0 != me,
        },
    decreases entries.len(),
{
    if entries.len() > 0 {
        let rest = entries.drop_first();
        law_own_position_from_entry(rest, me);
        if entries[0].0 == me {
            assert(entries[0].0 == me);
        } else {
            match own_position(rest, me) {
                Some(p) => {
                    let j = choose|j: int|
                        0 <= j < rest.len() && #[trigger] rest[j].0 == me && p.0 == rest[j].4 && p.1
                            == rest[j].5 && forall|k: int| 0 <= k < j ==> rest[k].0 != me;
                    assert(entries[j + 1] == rest[j]);
                    assert forall|k: int| 0 <= k < j + 1 implies entries[k].0 != me by {
                        if k > 0 {
                            assert(entries[k] == rest[k - 1]);
                        }
                    }
                },
                None => {
                    assert forall|j: int| 0 <= j < entries.len() implies #[trigger] entries[j].0 != me by {
                        if j > 0 {
                            assert(entries[j] == rest[j - 1]);
                        }
                    }
                },
            }
        }
    }
}

/// After a mining result no resource with the mined id is left, and every
/// other resource is kept.
pub proof fn law_mined_resource_removed(resources: Seq<ResourceInfo>, id: EntityId)
    ensures
        forall|i: int|
            0 <= i < resources_without(resources, id).len() ==> #[trigger] resources_without(
                resources,
                id,
            )[i].resource_id != id,
        forall|i: int|
            0 <= i < resources.len() && resources[i].resource_id != id ==> resources_without(
                resources,
                id,
            ).contains(#[trigger] resources[i]),
{
    broadcast use vstd::seq_lib::group_filter_ensures;

}

/// After a state message at tick `tick` every recorded challenge expires later
/// than `tick`, and every such challenge recorded before is kept.
pub proof fn law_expired_challenges_dropped(challenges: Seq<PowChallenge>, tick: u64)
    ensures
        forall|i: int|
            0 <= i < open_challenges(challenges, tick).len() ==> #[trigger] open_challenges(
                challenges,
                tick,
            )[i].expires_at > tick,
        forall|i: int|
            0 <= i < challenges.len() && challenges[i].expires_at > tick ==> open_challenges(
                challenges,
                tick,
            ).contains(#[trigger] challenges[i]),
{
    broadcast use vstd::seq_lib::group_filter_ensures;

}

impl GameState {
    /// The initial state, with the identifier received from the server.
    pub fn new(agent_id: EntityId) -> (state: GameState)
        ensures
            state.agent_id == agent_id,
            state.tick == 0,
            state.position == (0u16, 0u16),
            state.map_size == (0u16, 0u16),
            state.goal == 0,
            state.obstacles@.len() == 0,
            state.resources@.len() == 0,
            state.agents@.len() == 0,
            state.team_scores@.len() == 0,
            state.pow_challenge@.len() == 0,
    {
        GameState {
            agent_id: agent_id,
            tick: 0,
            position: (0, 0),
            map_size: (0, 0),
            goal: 0,
            obstacles: Vec::new(),
            resources: Vec::new(),
            agents: Vec::new(),
            team_scores: HashMap::new(),
            pow_challenge: Vec::new(),
        }
    }

    /// Updates the state from a server message.
    ///
    /// A `State` message sets tick, map size, goal and obstacles, replaces the
    /// resources and the other agents (this agent is left out), moves the agent
    /// to its own entry (if the message lists it) and drops the challenges that
    /// expired; a `PowResult` removes the mined resource; a `PowChallenge` is
    /// recorded; other messages change nothing.
    pub fn update(&mut self, msg: &ServerMsg)
        ensures
            final(self).agent_id == old(self).agent_id,
            final(self).team_scores == old(self).team_scores,
            match *msg {
                ServerMsg::State { tick, width, height, goal, obstacles, resources, agents } => {
                    &&& final(self).tick == tick
                    &&& final(self).map_size == (width, height)
                    &&& final(self).goal == goal
                    &&& final(self).obstacles@ == obstacles@
                    &&& final(self).resources@ == resources@.map_values(
                        |r: ResourceEntry| resource_entry_info(r),
                    )
                    &&& final(self).resources@.len() == resources@.len()
                    &&& forall|i: int|
                        0 <= i < resources@.len() ==> {
                            &&& #[trigger] final(self).resources@[i].resource_id == resources@[i].0
                            &&& final(self).resources@[i].x == resources@[i].1
                            &&& final(self).resources@[i].y == resources@[i].2
                            &&& final(self).resources@[i].expires_at == resources@[i].3
                            &&& final(self).resources@[i].value == resources@[i].4
                        }
                    &&& agent_models(final(self).agents@) == other_agents(agents@, old(self).agent_id)
                    &&& forall|i: int|
                        0 <= i < final(self).agents@.len() ==> entry_shown_by(
                            agents@,
                            old(self).agent_id,
                            #[trigger] final(self).agents@[i]@,
                        )
                    &&& final(self).position == match own_position(agents@, old(self).agent_id) {
                        Some(p) => p,
                        None => old(self).position,
                    }
                    &&& final(self).pow_challenge@ == open_challenges(old(self).pow_challenge@, tick)
                },
                ServerMsg::PowResult { resource_id, winner } => {
                    &&& final(self).resources@ == resources_without(old(self).resources@, resource_id)
                    &&& final(self).tick == old(self).tick
                    &&& final(self).position == old(self).position
                    &&& final(self).map_size == old(self).map_size
                    &&& final(self).goal == old(self).goal
                    &&& final(self).obstacles@ == old(self).obstacles@
                    &&& agent_models(final(self).agents@) == agent_models(old(self).agents@)
                    &&& final(self).pow_challenge@ == old(self).pow_challenge@
                },
                ServerMsg::PowChallenge(challenge) => {
                    &&& final(self).pow_challenge@.len() == old(self).pow_challenge@.len() + 1
                    &&& final(self).pow_challenge@.drop_last() == old(self).pow_challenge@
                    &&& final(self).pow_challenge@.last()@ == challenge@
                    &&& final(self).tick == old(self).tick
                    &&& final(self).position == old(self).position
                    &&& final(self).map_size == old(self).map_size
                    &&& final(self).goal == old(self).goal
                    &&& final(self).obstacles@ == old(self).obstacles@
                    &&& final(self).resources@ == old(self).resources@
                    &&& agent_models(final(self).agents@) == agent_models(old(self).agents@)
                },
                _ => *final(self) == *old(self),
            },
    {
        match msg {
            ServerMsg::State { tick, width, height, goal, obstacles, resources, agents } => {
                self.tick = *tick;
                self.map_size = (*width, *height);
                self.goal = *goal;
                self.obstacles = copy_obstacles(obstacles);
                self.resources = resource_infos(resources);
                self.agents = visible_agents(agents, self.agent_id);
                proof {
                    law_resources_as_listed(resources@, self.resources@);
                    let others = agent_models(self.agents@);
                    law_listed_agents_show_entries(agents@, self.agent_id, others);
                    assert forall|i: int| 0 <= i < self.agents@.len() implies entry_shown_by(
                        agents@,
                        self.agent_id,
                        #[trigger] self.agents@[i]@,
                    ) by {
                        assert(others[i] == self.agents@[i]@);
                    }
                }
                match find_own_position(agents, self.agent_id) {
                    Some(p) => {
                        self.position = p;
                    },
                    None => {},
                }
                let mut challenges: Vec<PowChallenge> = Vec::new();
                std::mem::swap(&mut challenges, &mut self.pow_challenge);
                self.pow_challenge = keep_open_challenges(challenges, *tick);
            },
            ServerMsg::PowResult { resource_id, winner: _ } => {
                self.resources = remove_resource(&self.resources, *resource_id);
            },
            ServerMsg::PowChallenge(challenge) => {
                self.pow_challenge.push(challenge.duplicate());
                assert(self.pow_challenge@.drop_last() =~= old(self).pow_challenge@);
            },
            _ => {},
        }
    }
}

} // verus!
