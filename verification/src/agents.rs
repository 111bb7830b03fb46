//! Agent state as maintained by the client.

use vstd::prelude::*;

verus! {

/// A persisted agent, as listed by the daemon.
#[derive(Debug, Clone)]
pub struct AgentSnapshot {
    pub id: i32,
    pub session_id: String,
    pub palette: u8,
    pub hue_shift: i32,
    pub seat_id: Option<String>,
}

/// Live status of an agent as observed through events.
#[derive(Debug, Clone, PartialEq)]
pub enum AgentStatus {
    Idle,
    /// Running the named tool.
    Active(String),
    Waiting,
    Exited,
}

/// The label shown for a status.
pub open spec fn status_label(s: AgentStatus) -> Seq<char> {
    match s {
        AgentStatus::Idle => "idle"@,
        AgentStatus::Active(_) => "active"@,
        AgentStatus::Waiting => "waiting"@,
        AgentStatus::Exited => "exited"@,
    }
}

impl AgentStatus {
    pub fn label(&self) -> (r: &'static str)
        ensures
            r@ == status_label(*self),
    {
        match self {
            AgentStatus::Idle => "idle",
            AgentStatus::Active(_) => "active",
            AgentStatus::Waiting => "waiting",
            AgentStatus::Exited => "exited",
        }
    }
}

/// The activity shown above a selected agent: the tool it runs (or
/// "Working" when the tool is unnamed), "Needs approval" while waiting.
pub open spec fn activity_text(s: AgentStatus) -> Seq<char> {
    match s {
        AgentStatus::Active(tool) => if tool@.len() > 0 { tool@ } else { "Working"@ },
        AgentStatus::Waiting => "Needs approval"@,
        AgentStatus::Exited => "Exited"@,
        AgentStatus::Idle => "Idle"@,
    }
}

/// The activity label of a status (see [`activity_text`]).
pub fn activity_label(status: &AgentStatus) -> (r: &str)
    ensures
        r@ == activity_text(*status),
{
    match status {
        AgentStatus::Active(tool) => {
            if tool.as_str().unicode_len() > 0 {
                tool.as_str()
            } else {
                "Working"
            }
        },
        AgentStatus::Waiting => "Needs approval",
        AgentStatus::Exited => "Exited",
        AgentStatus::Idle => "Idle",
    }
}

/// An agent's snapshot together with its live status.
#[derive(Debug, Clone)]
pub struct AgentState {
    pub snapshot: AgentSnapshot,
    pub status: AgentStatus,
}

impl AgentState {
    /// A newly known agent starts idle.
    pub fn new(snapshot: AgentSnapshot) -> (a: Self)
        ensures
            a.snapshot == snapshot,
            a.status == AgentStatus::Idle,
    {
        AgentState { snapshot, status: AgentStatus::Idle }
    }

    pub fn id(&self) -> (r: i32)
        ensures
            r == self.snapshot.id,
    {
        self.snapshot.id
    }
}

} // verus!
