//! The messages of the game server.

use vstd::prelude::*;

use crate::id::EntityId;

verus! {

/// A proof-of-work challenge placed on the map by the server.
#[derive(Clone, Debug)]
pub struct PowChallenge {
    pub tick: u64,
    pub seed: String,
    pub resource_id: EntityId,
    pub x: u16,
    pub y: u16,
    pub target_bits: u8,
    pub expires_at: u64,
    pub value: u32,
}

/// The contents of a challenge, its seed as characters.
pub struct ChallengeModel {
    pub tick: u64,
    pub seed: Seq<char>,
    pub resource_id: EntityId,
    pub x: u16,
    pub y: u16,
    pub target_bits: u8,
    pub expires_at: u64,
    pub value: u32,
}

impl View for PowChallenge {
    type V = ChallengeModel;

    open spec fn view(&self) -> ChallengeModel {
        ChallengeModel {
            tick: self.tick,
            seed: self.seed@,
            resource_id: self.resource_id,
            x: self.x,
            y: self.y,
            target_bits: self.target_bits,
            expires_at: self.expires_at,
            value: self.value,
        }
    }
}

impl PowChallenge {
    /// A copy of the challenge.
    pub fn duplicate(&self) -> (copy: PowChallenge)
        ensures
            copy@ == self@,
    {
        PowChallenge {
            tick: self.tick,
            seed: self.seed.clone(),
            resource_id: self.resource_id,
            x: self.x,
            y: self.y,
            target_bits: self.target_bits,
            expires_at: self.expires_at,
            value: self.value,
        }
    }
}

/// A message sent by the game server.
#[derive(Clone, Debug)]
pub enum ServerMsg {
    /// Greeting, with the identifier the server gave this agent.
    Hello { agent_id: EntityId, tick_ms: u64 },
    /// Snapshot of the game: map size, obstacles, resources
    /// `(id, x, y, expires_at, value)` and agents `(id, name, team, score, x, y)`.
    State {
        tick: u64,
        width: u16,
        height: u16,
        goal: u32,
        obstacles: Vec<(u16, u16)>,
        resources: Vec<(EntityId, u16, u16, u64, u32)>,
        agents: Vec<(EntityId, String, String, u32, u16, u16)>,
    },
    /// A new mining challenge.
    PowChallenge(PowChallenge),
    /// A resource was mined.
    PowResult { resource_id: EntityId, winner: String },
    /// A team reached the goal.
    Win { team: String },
}

} // verus!
