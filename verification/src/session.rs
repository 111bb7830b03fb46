//! The client's session state and its decisions: request ids and the
//! requests in flight, zoom, focus, the known agents and how daemon events,
//! key presses and toolbar clicks change them. The commands an event implies
//! for the office simulation are handed back to the caller to carry out.

use vstd::prelude::*;
use vstd::string::*;

use std::collections::HashMap;

use crate::agents::{AgentSnapshot, AgentState, AgentStatus};
use crate::chrome::ChromeAction;
use crate::focus::{tab_outcome, tab_press, FocusMode, TabOutcome};
use crate::keymap::{Action, Keymap};
use crate::keys::{has_mods, KeyCode, KeyMods, MOD_CONTROL};
use crate::reconnect::{ReconnectState, FIRST_PROBE_MS};
use crate::text::str_eq;

verus! {

broadcast use vstd::std_specs::hash::group_hash_axioms;

/// Highest zoom level.
pub const ZOOM_MAX: u8 = 10;
/// Lowest zoom level.
pub const ZOOM_MIN: u8 = 1;
/// Zoom level of a new session.
pub const ZOOM_DEFAULT: u8 = 2;

/// What an in-flight request asked for, so that its response can be routed.
#[derive(Debug, Clone, Copy, PartialEq, Eq, Structural)]
pub enum PendingKind {
    Subscribe,
    AgentList,
    AgentSpawn,
    AssetBlob,
}

/// Whether the client keeps running after an input event.
#[derive(Debug, Clone, Copy, PartialEq, Eq, Structural)]
pub enum AppAction {
    Continue,
    Quit,
}

/// An agent event from the daemon, read from its topic and data.
#[derive(Debug, Clone)]
pub enum AgentEvent {
    /// `agent.created`, with the new agent's snapshot.
    Created(AgentSnapshot),
    /// `agent.exited`, for an agent id.
    Exited(i32),
    /// `agent.statusChanged`: the status and tool texts (empty when absent).
    StatusChanged { id: i32, status: String, tool: String },
}

/// What an agent event asks of the office simulation and the terminal
/// models.
#[derive(Debug, Clone)]
pub enum OfficeCommand {
    /// Spawn a character for a new agent, with the spawn effect.
    AddAgent { id: i32, palette: u8, hue_shift: i32, seat_id: Option<String> },
    /// Despawn the agent's character.
    RemoveAgent(i32),
    /// Drop the agent's terminal model.
    DropTerminal(i32),
    /// Mark the agent's character active or not.
    SetActive(i32, bool),
    /// Show the tool the agent runs, if any.
    SetTool(i32, Option<String>),
    /// Show the waiting bubble over the agent's character.
    ShowWaitingBubble(i32),
}

/// The index of the first agent with id `id`.
pub open spec fn first_agent(agents: Seq<AgentState>, id: i32) -> Option<int>
    decreases agents.len(),
{
    if agents.len() == 0 {
        None
    } else if agents[0].snapshot.id == id {
        Some(0)
    } else {
        match first_agent(agents.drop_first(), id) {
            Some(i) => Some(i + 1),
            None => None,
        }
    }
}

proof fn lemma_first_agent(agents: Seq<AgentState>, id: i32, i: int)
    requires
        0 <= i <= agents.len(),
        forall|j: int| 0 <= j < i ==> (#[trigger] agents[j]).snapshot.id != id,
        i == agents.len() || agents[i].snapshot.id == id,
    ensures
        first_agent(agents, id) == (if i < agents.len() { Some(i) } else { None::<int> }),
    decreases agents.len(),
{
    if agents.len() > 0 && i > 0 {
        let t = agents.drop_first();
        assert forall|j: int| 0 <= j < i - 1 implies (#[trigger] t[j]).snapshot.id != id by {
            assert(t[j] == agents[j + 1]);
        }
        lemma_first_agent(t, id, i - 1);
    }
}

/// The status a `statusChanged` event sets.
pub open spec fn status_for(status: Seq<char>, tool: String) -> AgentStatus {
    if status == "active"@ {
        AgentStatus::Active(tool)
    } else if status == "waiting"@ {
        AgentStatus::Waiting
    } else if status == "exited"@ {
        AgentStatus::Exited
    } else {
        AgentStatus::Idle
    }
}

/// The agents with the first one of id `id`, if any, given status `s`.
pub open spec fn with_status(agents: Seq<AgentState>, id: i32, s: AgentStatus) -> Seq<AgentState> {
    match first_agent(agents, id) {
        Some(i) => agents.update(i, AgentState { snapshot: agents[i].snapshot, status: s }),
        None => agents,
    }
}

/// The office commands of a `statusChanged` event: an active agent shows its
/// tool (none for an empty name), a waiting one its bubble; any other status
/// only clears the active flag.
pub open spec fn status_commands(id: i32, status: Seq<char>, tool: String) -> Seq<OfficeCommand> {
    if status == "active"@ {
        seq![
            OfficeCommand::SetActive(id, true),
            OfficeCommand::SetTool(id, if tool@.len() == 0 { None } else { Some(tool) }),
        ]
    } else if status == "waiting"@ {
        seq![OfficeCommand::SetActive(id, false), OfficeCommand::ShowWaitingBubble(id)]
    } else {
        seq![OfficeCommand::SetActive(id, false)]
    }
}

/// The agents after an event, and the commands it implies. A created agent
/// already known is ignored; a new one is added idle and spawned. An exit
/// marks the agent exited, despawns it and drops its terminal. A status
/// change updates the agent's status.
pub open spec fn agent_event_effect(agents: Seq<AgentState>, ev: AgentEvent) -> (Seq<AgentState>, Seq<OfficeCommand>) {
    match ev {
        AgentEvent::Created(snap) => if first_agent(agents, snap.id) is Some {
            (agents, Seq::empty())
        } else {
            (
                agents.push(AgentState { snapshot: snap, status: AgentStatus::Idle }),
                seq![
                    OfficeCommand::AddAgent {
                        id: snap.id,
                        palette: snap.palette,
                        hue_shift: snap.hue_shift,
                        seat_id: snap.seat_id,
                    },
                ],
            )
        },
        AgentEvent::Exited(id) => (
            with_status(agents, id, AgentStatus::Exited),
            seq![OfficeCommand::RemoveAgent(id), OfficeCommand::DropTerminal(id)],
        ),
        AgentEvent::StatusChanged { id, status, tool } => (
            with_status(agents, id, status_for(status@, tool)),
            status_commands(id, status@, tool),
        ),
    }
}

/// The layout toggle: the editor goes back to the office, anything else to
/// the editor.
pub open spec fn toggled(f: FocusMode) -> FocusMode {
    if f == FocusMode::Editor { FocusMode::Office } else { FocusMode::Editor }
}

/// The focus after a key press, and whether the client quits. A bound chord
/// runs its action; otherwise a bare `q` quits from the office or editor,
/// Control+`c` quits anywhere, and Tab moves the focus as [`tab_outcome`]
/// says.
pub open spec fn key_effect(
    focus: FocusMode,
    agent_ids: Seq<i32>,
    bound: Option<Action>,
    mods: KeyMods,
    code: KeyCode,
) -> (FocusMode, AppAction) {
    match bound {
        Some(Action::Quit) => (focus, AppAction::Quit),
        Some(Action::ToggleLayout) => (toggled(focus), AppAction::Continue),
        Some(Action::FocusOffice) => (FocusMode::Office, AppAction::Continue),
        None => if code == KeyCode::Char('q') && mods.bits == 0 {
            if focus == FocusMode::Office || focus == FocusMode::Editor {
                (focus, AppAction::Quit)
            } else {
                (focus, AppAction::Continue)
            }
        } else if code == KeyCode::Char('c') && has_mods(mods.bits, MOD_CONTROL) {
            (focus, AppAction::Quit)
        } else if code == KeyCode::Tab {
            match tab_outcome(focus, agent_ids) {
                TabOutcome::Focus(f) => (f, AppAction::Continue),
                _ => (focus, AppAction::Continue),
            }
        } else {
            (focus, AppAction::Continue)
        },
    }
}

/// The ids of the agents, in order.
pub open spec fn ids_of(agents: Seq<AgentState>) -> Seq<i32> {
    agents.map_values(|a: AgentState| a.snapshot.id)
}

/// The client's session state.
pub struct Session {
    pub focus: FocusMode,
    pub agents: Vec<AgentState>,
    pub zoom: u8,
    pub keymap: Keymap,
    /// The id of the last request sent.
    pub req_id: u32,
    /// Requests sent and not yet answered.
    pub pending: HashMap<u32, PendingKind>,
    /// The boot id of the daemon last connected to.
    pub connected_boot_id: Option<String>,
    /// Back-off state while disconnected.
    pub reconnect: Option<ReconnectState>,
}

impl Session {
    /// A session in the office, with no agents, at zoom 2, with nothing sent
    /// and never connected.
    pub fn new(keymap: Keymap) -> (s: Self)
        ensures
            s.focus == FocusMode::Office,
            s.agents@.len() == 0,
            s.zoom == ZOOM_DEFAULT,
            s.keymap == keymap,
            s.req_id == 0,
            s.pending@ == Map::<u32, PendingKind>::empty(),
            s.connected_boot_id is None,
            s.reconnect is None,
    {
        Session {
            focus: FocusMode::Office,
            agents: Vec::new(),
            zoom: ZOOM_DEFAULT,
            keymap,
            req_id: 0,
            pending: HashMap::new(),
            connected_boot_id: None,
            reconnect: None,
        }
    }

    /// The next request id: one more than the last.
    pub fn next_req_id(&mut self) -> (r: u32)
        requires
            old(self).req_id < u32::MAX,
        ensures
            r == old(self).req_id + 1,
            final(self).req_id == r,
            final(self).pending@ == old(self).pending@,
            final(self).agents@ == old(self).agents@,
            final(self).focus == old(self).focus,
            final(self).zoom == old(self).zoom,
    {
        self.req_id = self.req_id + 1;
        self.req_id
    }

    /// Take the next request id and record what the request asks for.
    pub fn track_request(&mut self, kind: PendingKind) -> (r: u32)
        requires
            old(self).req_id < u32::MAX,
        ensures
            r == old(self).req_id + 1,
            final(self).req_id == r,
            final(self).pending@ == old(self).pending@.insert(r, kind),
            final(self).agents@ == old(self).agents@,
            final(self).focus == old(self).focus,
            final(self).zoom == old(self).zoom,
    {
        let id = self.next_req_id();
        self.pending.insert(id, kind);
        id
    }

    /// Route a response: what request `req_id` asked for, if it was in
    /// flight, which it no longer is.
    pub fn take_pending(&mut self, req_id: u32) -> (r: Option<PendingKind>)
        ensures
            r == (if old(self).pending@.contains_key(req_id) {
                Some(old(self).pending@[req_id])
            } else {
                None
            }),
            final(self).pending@ == old(self).pending@.remove(req_id),
            final(self).req_id == old(self).req_id,
            final(self).agents@ == old(self).agents@,
            final(self).focus == old(self).focus,
    {
        self.pending.remove(&req_id)
    }

    /// Zoom in one level, up to 10.
    pub fn zoom_in(&mut self)
        ensures
            final(self).zoom == (if old(self).zoom < ZOOM_MAX { old(self).zoom + 1 } else { old(self).zoom as int }),
            final(self).focus == old(self).focus,
            final(self).agents@ == old(self).agents@,
            final(self).req_id == old(self).req_id,
            final(self).pending@ == old(self).pending@,
    {
        if self.zoom < ZOOM_MAX {
            self.zoom = self.zoom + 1;
        }
    }

    /// Zoom out one level, down to 1.
    pub fn zoom_out(&mut self)
        ensures
            final(self).zoom == (if old(self).zoom > ZOOM_MIN { old(self).zoom - 1 } else { old(self).zoom as int }),
            final(self).focus == old(self).focus,
            final(self).agents@ == old(self).agents@,
            final(self).req_id == old(self).req_id,
            final(self).pending@ == old(self).pending@,
    {
        if self.zoom > ZOOM_MIN {
            self.zoom = self.zoom - 1;
        }
    }

    /// The ids of the known agents, in order.
    pub fn agent_ids(&self) -> (r: Vec<i32>)
        ensures
            r@ == ids_of(self.agents@),
    {
        let mut out: Vec<i32> = Vec::new();
        let mut i: usize = 0;
        while i < self.agents.len()
            invariant
                i <= self.agents@.len(),
                out@ == ids_of(self.agents@.take(i as int)),
            decreases self.agents@.len() - i,
        {
            out.push(self.agents[i].id());
            proof {
                assert(ids_of(self.agents@.take(i + 1)) =~= ids_of(self.agents@.take(i as int)).push(self.agents@[i as int].snapshot.id));
            }
            i = i + 1;
        }
        proof {
            assert(self.agents@.take(i as int) =~= self.agents@);
        }
        out
    }

    /// The index of the first known agent with id `id`.
    pub fn agent_index(&self, id: i32) -> (r: Option<usize>)
        ensures
            match r {
                Some(i) => first_agent(self.agents@, id) == Some(i as int) && i < self.agents@.len(),
                None => first_agent(self.agents@, id) is None,
            },
    {
        let mut i: usize = 0;
        while i < self.agents.len()
            invariant
                i <= self.agents@.len(),
                forall|j: int| 0 <= j < i ==> (#[trigger] self.agents@[j]).snapshot.id != id,
            decreases self.agents@.len() - i,
        {
            if self.agents[i].id() == id {
                proof {
                    lemma_first_agent(self.agents@, id, i as int);
                }
                return Some(i);
            }
            i = i + 1;
        }
        proof {
            lemma_first_agent(self.agents@, id, i as int);
        }
        None
    }

    /// Whether the daemon connection is down.
    pub fn is_reconnecting(&self) -> (r: bool)
        ensures
            r == self.reconnect is Some,
    {
        self.reconnect.is_some()
    }

    /// The connection closed: forget the requests in flight and start the
    /// back-off, first probe after 250 ms.
    pub fn on_disconnected(&mut self)
        ensures
            final(self).pending@ == Map::<u32, PendingKind>::empty(),
            final(self).reconnect matches Some(rs) && rs.attempt == 0 && rs.next_try_ms == FIRST_PROBE_MS
                && !rs.fork_attempted,
            final(self).agents@ == old(self).agents@,
            final(self).focus == old(self).focus,
            final(self).req_id == old(self).req_id,
            final(self).connected_boot_id == old(self).connected_boot_id,
    {
        self.pending.clear();
        self.reconnect = Some(ReconnectState::new());
    }

    /// Connected to a daemon with boot id `boot_id`. A daemon that restarted
    /// (another boot id than the last) has lost its agents: they are
    /// forgotten, and a PTY focus falls back to the office.
    pub fn on_connected(&mut self, boot_id: String)
        ensures
            ({
                let changed = old(self).connected_boot_id matches Some(prev) && prev@ != boot_id@;
                &&& final(self).agents@ == (if changed { Seq::empty() } else { old(self).agents@ })
                &&& final(self).focus == (if changed && old(self).focus is PtyAgent {
                    FocusMode::Office
                } else {
                    old(self).focus
                })
            }),
            final(self).connected_boot_id == Some(boot_id),
            final(self).reconnect is None,
            final(self).pending@ == old(self).pending@,
            final(self).req_id == old(self).req_id,
    {
        let changed = match &self.connected_boot_id {
            Some(prev) => !str_eq(prev.as_str(), boot_id.as_str()),
            None => false,
        };
        if changed {
            self.agents.clear();
            if self.focus.is_pty_agent() {
                self.focus = FocusMode::Office;
            }
        }
        self.connected_boot_id = Some(boot_id);
        self.reconnect = None;
    }

    /// Give the first known agent with id `id` status `s`.
    fn set_status(&mut self, id: i32, s: AgentStatus)
        ensures
            final(self).agents@ == with_status(old(self).agents@, id, s),
            final(self).focus == old(self).focus,
            final(self).zoom == old(self).zoom,
            final(self).req_id == old(self).req_id,
            final(self).pending@ == old(self).pending@,
    {
        match self.agent_index(id) {
            Some(i) => {
                let ghost before = self.agents@;
                let mut a = self.agents.remove(i);
                a.status = s;
                self.agents.insert(i, a);
                proof {
                    assert(self.agents@ =~= before.update(
                        i as int,
                        AgentState { snapshot: before[i as int].snapshot, status: s },
                    ));
                }
            },
            None => {},
        }
    }

    /// Apply an agent event: the agents change as [`agent_event_effect`]
    /// says, and the returned commands are what the office simulation and
    /// the terminal models should do.
    pub fn apply_agent_event(&mut self, ev: AgentEvent) -> (cmds: Vec<OfficeCommand>)
        ensures
            final(self).agents@ == agent_event_effect(old(self).agents@, ev).0,
            cmds@ == agent_event_effect(old(self).agents@, ev).1,
            final(self).focus == old(self).focus,
            final(self).zoom == old(self).zoom,
            final(self).req_id == old(self).req_id,
            final(self).pending@ == old(self).pending@,
    {
        let ghost ev0 = ev;
        let mut cmds: Vec<OfficeCommand> = Vec::new();
        match ev {
            AgentEvent::Created(snap) => {
                if self.agent_index(snap.id).is_none() {
                    cmds.push(OfficeCommand::AddAgent {
                        id: snap.id,
                        palette: snap.palette,
                        hue_shift: snap.hue_shift,
                        seat_id: snap.seat_id.clone(),
                    });
                    self.agents.push(AgentState::new(snap));
                }
            },
            AgentEvent::Exited(id) => {
                self.set_status(id, AgentStatus::Exited);
                cmds.push(OfficeCommand::RemoveAgent(id));
                cmds.push(OfficeCommand::DropTerminal(id));
            },
            AgentEvent::StatusChanged { id, status, tool } => {
                let s = status.as_str();
                if str_eq(s, "active") {
                    self.set_status(id, AgentStatus::Active(tool.clone()));
                    cmds.push(OfficeCommand::SetActive(id, true));
                    let shown = if tool.as_str().unicode_len() == 0 { None } else { Some(tool) };
                    cmds.push(OfficeCommand::SetTool(id, shown));
                } else if str_eq(s, "waiting") {
                    self.set_status(id, AgentStatus::Waiting);
                    cmds.push(OfficeCommand::SetActive(id, false));
                    cmds.push(OfficeCommand::ShowWaitingBubble(id));
                } else {
                    if str_eq(s, "exited") {
                        self.set_status(id, AgentStatus::Exited);
                    } else {
                        self.set_status(id, AgentStatus::Idle);
                    }
                    cmds.push(OfficeCommand::SetActive(id, false));
                }
            },
        }
        proof {
            assert(cmds@ =~= agent_event_effect(old(self).agents@, ev0).1);
        }
        cmds
    }

    /// Handle a key press: a bound chord runs its action, else the built-in
    /// keys apply (see [`key_effect`]).
    pub fn on_key(&mut self, mods: KeyMods, code: KeyCode) -> (r: AppAction)
        requires
            old(self).keymap.wf(),
        ensures
            ({
                let bound = if old(self).keymap@.contains_key((mods, code)) {
                    Some(old(self).keymap@[(mods, code)])
                } else {
                    None
                };
                let e = key_effect(old(self).focus, ids_of(old(self).agents@), bound, mods, code);
                &&& final(self).focus == e.0
                &&& r == e.1
            }),
            final(self).agents@ == old(self).agents@,
            final(self).zoom == old(self).zoom,
            final(self).req_id == old(self).req_id,
            final(self).pending@ == old(self).pending@,
            final(self).keymap == old(self).keymap,
    {
        match self.keymap.matches(mods, code) {
            Some(Action::Quit) => AppAction::Quit,
            Some(Action::ToggleLayout) => {
                self.focus = if self.focus == FocusMode::Editor { FocusMode::Office } else { FocusMode::Editor };
                AppAction::Continue
            },
            Some(Action::FocusOffice) => {
                self.focus = FocusMode::Office;
                AppAction::Continue
            },
            None => {
                if code == KeyCode::Char('q') && mods.bits == 0 {
                    if self.focus == FocusMode::Office || self.focus == FocusMode::Editor {
                        AppAction::Quit
                    } else {
                        AppAction::Continue
                    }
                } else if code == KeyCode::Char('c') && mods.contains(MOD_CONTROL) {
                    AppAction::Quit
                } else if code == KeyCode::Tab {
                    let ids = self.agent_ids();
                    match tab_press(&self.focus, ids.as_slice()) {
                        TabOutcome::Focus(f) => self.focus = f,
                        _ => {},
                    }
                    AppAction::Continue
                } else {
                    AppAction::Continue
                }
            },
        }
    }

    /// Handle a toolbar action. Returns whether an agent spawn was asked
    /// for, which the caller sends to the daemon.
    pub fn on_chrome_action(&mut self, action: ChromeAction) -> (spawn: bool)
        ensures
            spawn == (action == ChromeAction::SpawnAgent),
            final(self).focus == (match action {
                ChromeAction::ToggleLayout => toggled(old(self).focus),
                ChromeAction::OpenSettings => FocusMode::Modal,
                _ => old(self).focus,
            }),
            final(self).zoom == (match action {
                ChromeAction::ZoomIn => if old(self).zoom < ZOOM_MAX { (old(self).zoom + 1) as u8 } else { old(self).zoom },
                ChromeAction::ZoomOut => if old(self).zoom > ZOOM_MIN { (old(self).zoom - 1) as u8 } else { old(self).zoom },
                _ => old(self).zoom,
            }),
            final(self).agents@ == old(self).agents@,
            final(self).req_id == old(self).req_id,
            final(self).pending@ == old(self).pending@,
    {
        match action {
            ChromeAction::SpawnAgent => true,
            ChromeAction::ToggleLayout => {
                self.focus = if self.focus == FocusMode::Editor { FocusMode::Office } else { FocusMode::Editor };
                false
            },
            ChromeAction::OpenSettings => {
                self.focus = FocusMode::Modal;
                false
            },
            ChromeAction::ZoomIn => {
                self.zoom_in();
                false
            },
            ChromeAction::ZoomOut => {
                self.zoom_out();
                false
            },
        }
    }
}

} // verus!
