//! Client focus mode: which pane is active and how Tab moves between them.

use vstd::prelude::*;

verus! {

/// Client focus mode; decides key routing and which pane is active.
#[derive(Debug, Clone, Copy, PartialEq, Eq, Structural)]
pub enum FocusMode {
    /// Office canvas is active; keys drive camera/selection.
    Office,
    /// An agent's PTY pane is active; keys go to the PTY. A positive id is a
    /// real agent, a negative id a sub-agent (see [`FocusMode::normalize`]).
    PtyAgent(i32),
    /// Layout editor is active.
    Editor,
    /// A modal dialog is overlaid; Esc dismisses.
    Modal,
}

/// The status-bar label of a focus mode.
pub open spec fn focus_label(f: FocusMode) -> Seq<char> {
    match f {
        FocusMode::Office => "OFFICE"@,
        FocusMode::PtyAgent(_) => "AGENT"@,
        FocusMode::Editor => "EDITOR"@,
        FocusMode::Modal => "MODAL"@,
    }
}

impl FocusMode {
    pub fn label(&self) -> (r: &'static str)
        ensures
            r@ == focus_label(*self),
    {
        match self {
            FocusMode::Office => "OFFICE",
            FocusMode::PtyAgent(_) => "AGENT",
            FocusMode::Editor => "EDITOR",
            FocusMode::Modal => "MODAL",
        }
    }

    pub fn is_pty_agent(&self) -> (r: bool)
        ensures
            r == (*self is PtyAgent),
    {
        matches!(self, FocusMode::PtyAgent(_))
    }

    /// A sub-agent focus (negative id) becomes its parent's focus, or the
    /// office when `parent_of` knows no parent; every other focus is kept.
    pub fn normalize<F: Fn(i32) -> Option<i32>>(self, parent_of: F) -> (r: FocusMode)
        requires
            (self matches FocusMode::PtyAgent(id) && id < 0) ==> call_requires(parent_of, (self->PtyAgent_0,)),
        ensures
            match self {
                FocusMode::PtyAgent(id) => if id < 0 {
                    exists|p: Option<i32>|
                        #![trigger call_ensures(parent_of, (id,), p)]
                        call_ensures(parent_of, (id,), p) && r == match p {
                            Some(parent) => FocusMode::PtyAgent(parent),
                            None => FocusMode::Office,
                        }
                } else {
                    r == self
                },
                _ => r == self,
            },
    {
        match self {
            FocusMode::PtyAgent(id) => {
                if id < 0 {
                    let p = parent_of(id);
                    match p {
                        Some(parent) => FocusMode::PtyAgent(parent),
                        None => FocusMode::Office,
                    }
                } else {
                    self
                }
            },
            _ => self,
        }
    }
}

/// What a Tab press does.
#[derive(Debug, Clone, Copy, PartialEq, Eq, Structural)]
pub enum TabOutcome {
    Focus(FocusMode),
    PassThroughToPty,
    NoOp,
}

/// The first positive id in `ids`, if any.
pub open spec fn first_positive(ids: Seq<i32>) -> Option<i32>
    decreases ids.len(),
{
    if ids.len() == 0 {
        None
    } else if ids[0] > 0 {
        Some(ids[0])
    } else {
        first_positive(ids.drop_first())
    }
}

/// The outcome of Tab given the current focus and the known agent ids.
pub open spec fn tab_outcome(current: FocusMode, agents: Seq<i32>) -> TabOutcome {
    match current {
        FocusMode::Office => match first_positive(agents) {
            Some(id) => TabOutcome::Focus(FocusMode::PtyAgent(id)),
            None => TabOutcome::NoOp,
        },
        FocusMode::PtyAgent(_) => TabOutcome::PassThroughToPty,
        _ => TabOutcome::NoOp,
    }
}

/// Next focus on a Tab press. From the office, Tab focuses the first real
/// (positive-id) agent, if any; in a PTY pane Tab belongs to the PTY; in the
/// editor or a modal it does nothing.
pub fn tab_press(current: &FocusMode, agents: &[i32]) -> (r: TabOutcome)
    ensures
        r == tab_outcome(*current, agents@),
{
    match current {
        FocusMode::Office => {
            let mut i: usize = 0;
            assert(agents@.skip(0) =~= agents@);
            while i < agents.len()
                invariant
                    i <= agents@.len(),
                    *current == FocusMode::Office,
                    first_positive(agents@) == first_positive(agents@.skip(i as int)),
                decreases agents@.len() - i,
            {
                assert(agents@.skip(i as int).drop_first() =~= agents@.skip(i + 1));
                assert(agents@.skip(i as int)[0] == agents@[i as int]);
                if agents[i] > 0 {
                    return TabOutcome::Focus(FocusMode::PtyAgent(agents[i]));
                }
                i = i + 1;
            }
            TabOutcome::NoOp
        },
        FocusMode::PtyAgent(_) => TabOutcome::PassThroughToPty,
        FocusMode::Editor | FocusMode::Modal => TabOutcome::NoOp,
    }
}

/// Tab from the office only ever focuses a real agent that is listed: a
/// positive id among `agents`.
pub proof fn lemma_tab_focuses_real_agent(agents: Seq<i32>)
    ensures
        tab_outcome(FocusMode::Office, agents) matches TabOutcome::Focus(FocusMode::PtyAgent(id)) ==> id > 0 && agents.contains(id),
        tab_outcome(FocusMode::Office, agents) is NoOp <==> forall|i: int| 0 <= i < agents.len() ==> agents[i] <= 0,
    decreases agents.len(),
{
    if agents.len() > 0 {
        lemma_tab_focuses_real_agent(agents.drop_first());
        if agents[0] <= 0 {
            if let Some(id) = first_positive(agents.drop_first()) {
                let j = choose|j: int| 0 <= j < agents.drop_first().len() && agents.drop_first()[j] == id;
                assert(agents[j + 1] == id);
            }
            assert forall|i: int| 0 <= i < agents.len() && agents[i] > 0 implies exists|j: int| 0 <= j < agents.drop_first().len() && agents.drop_first()[j] > 0 by {
                assert(i > 0);
                assert(agents.drop_first()[i - 1] > 0);
            }
        } else {
            assert(agents[0] == agents[0]);
        }
    }
}

} // verus!
