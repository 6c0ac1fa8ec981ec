//! Restarting and stopping a server.

use vstd::prelude::*;

verus! {

/// What happens to a server besides requests.
pub enum ControlEvent {
    /// Someone asks for a restart.
    RestartRequested,
    /// The new process has been started, under this number.
    Spawned(u32),
    /// The new process could not be started.
    SpawnFailed,
    /// The new process has run for the time that it is given to prove itself;
    /// `force` says whether the restart is not to wait for requests.
    ChildStable { force: bool },
    /// The new process has ended, or nothing can be learnt of it.
    ChildGone,
    /// The user or the system asks the server to stop.
    StopRequested,
}

/// What a server does about it.
pub enum ControlAction {
    /// Nothing.
    Continue,
    /// Start a new process.
    Spawn,
    /// See whether the new process proves itself.
    Watch,
    /// Stop accepting, let the hook of the restart run, and leave to the new
    /// process; `force` says whether requests are not waited for.
    HandOver { force: bool },
    /// Stop accepting, kill the new process, if there is one, and leave.
    Stop { kill: Option<u32> },
}

/// Whether a restart is going on, and the number of the new process once it has
/// been started.
pub struct Control {
    restart_in_progress: bool,
    child_pid: Option<u32>,
}

/// Whether a restart is going on, and the number of the new process.
pub struct ControlModel {
    pub restarting: bool,
    pub child: Option<u32>,
}

impl View for Control {
    type V = ControlModel;

    closed spec fn view(&self) -> ControlModel {
        ControlModel { restarting: self.restart_in_progress, child: self.child_pid }
    }
}

/// A new process has been started only in a restart.
pub open spec fn consistent(m: ControlModel) -> bool {
    m.child is Some ==> m.restarting
}

/// An event that can happen in a state: only in a restart is a new process
/// started.
pub open spec fn possible(m: ControlModel, event: ControlEvent) -> bool {
    event is Spawned ==> m.restarting
}

/// The next state, and what is done.
pub open spec fn control_step(m: ControlModel, event: ControlEvent) -> (
    ControlModel,
    ControlAction,
) {
    match event {
        ControlEvent::RestartRequested => if m.restarting {
            (m, ControlAction::Continue)
        } else {
            (ControlModel { restarting: true, ..m }, ControlAction::Spawn)
        },
        ControlEvent::Spawned(pid) => (
            ControlModel { child: Some(pid), ..m },
            ControlAction::Watch,
        ),
        ControlEvent::SpawnFailed => (
            ControlModel { restarting: false, child: None },
            ControlAction::Continue,
        ),
        ControlEvent::ChildStable { force } => (m, ControlAction::HandOver { force }),
        ControlEvent::ChildGone => (
            ControlModel { restarting: false, child: None },
            ControlAction::Continue,
        ),
        ControlEvent::StopRequested => (
            m,
            ControlAction::Stop {
                kill: if m.restarting {
                    m.child
                } else {
                    None
                },
            },
        ),
    }
}

impl Control {
    /// A new process has been started only in a restart.
    pub open spec fn wf(&self) -> bool {
        consistent(self@)
    }

    /// No restart is going on.
    pub fn new() -> (r: Control)
        ensures
            r.wf(),
            r@ == (ControlModel { restarting: false, child: None }),
    {
        Control { restart_in_progress: false, child_pid: None }
    }

    /// Says what is done about an event.
    pub fn step(&mut self, event: ControlEvent) -> (r: ControlAction)
        requires
            old(self).wf(),
            possible(old(self)@, event),
        ensures
            final(self).wf(),
            control_step(old(self)@, event) == (final(self)@, r),
    {
        match event {
            ControlEvent::RestartRequested => {
                if self.restart_in_progress {
                    return ControlAction::Continue;
                }
                self.restart_in_progress = true;
                ControlAction::Spawn
            },
            ControlEvent::Spawned(pid) => {
                self.child_pid = Some(pid);
                ControlAction::Watch
            },
            ControlEvent::SpawnFailed => {
                self.child_pid = None;
                self.restart_in_progress = false;
                ControlAction::Continue
            },
            ControlEvent::ChildStable { force } => ControlAction::HandOver { force },
            ControlEvent::ChildGone => {
                self.child_pid = None;
                self.restart_in_progress = false;
                ControlAction::Continue
            },
            ControlEvent::StopRequested => {
                let kill: Option<u32> = if self.restart_in_progress {
                    self.child_pid
                } else {
                    None
                };
                ControlAction::Stop { kill }
            },
        }
    }

    pub fn restart_in_progress(&self) -> (r: bool)
        ensures
            r == self@.restarting,
    {
        self.restart_in_progress
    }
}

/// Whether the server waits for the requests that are going on before it leaves.
pub open spec fn waits_for_requests(action: ControlAction) -> bool {
    match action {
        ControlAction::HandOver { force } => !force,
        ControlAction::Stop { kill: _ } => true,
        _ => false,
    }
}

/// Whether the server waits for the requests that are going on before it leaves.
pub fn drains(action: &ControlAction) -> (r: bool)
    ensures
        r == waits_for_requests(*action),
{
    match action {
        ControlAction::HandOver { force } => !*force,
        ControlAction::Stop { kill: _ } => true,
        _ => false,
    }
}

// ── Laws ───────────────────────────────────────────────────────────────────

/// The state after events.
pub open spec fn state_after(m: ControlModel, events: Seq<ControlEvent>) -> ControlModel
    decreases events.len(),
{
    if events.len() == 0 {
        m
    } else {
        control_step(state_after(m, events.drop_last()), events.last()).0
    }
}

/// While a restart is going on, no other is begun: as long as the new process
/// neither fails to start nor ends, whatever else happens starts no process.
pub proof fn law_one_restart(m: ControlModel, events: Seq<ControlEvent>, event: ControlEvent)
    requires
        m.restarting,
        forall|i: int|
            0 <= i < events.len() ==> !(#[trigger] events[i] is SpawnFailed)
                && !(events[i] is ChildGone),
    ensures
        state_after(m, events).restarting,
        !(control_step(state_after(m, events), event).1 is Spawn),
    decreases events.len(),
{
    if events.len() > 0 {
        law_one_restart(m, events.drop_last(), event);
        assert(events.last() == events[events.len() - 1]);
    }
}

/// A process that was started and has not ended is killed when the server is
/// stopped before it has proved itself.
pub proof fn law_no_orphan(m: ControlModel, pid: u32)
    requires
        m.restarting,
    ensures
        control_step(
            control_step(m, ControlEvent::Spawned(pid)).0,
            ControlEvent::StopRequested,
        ).1 == (ControlAction::Stop { kill: Some(pid) }),
{
}

/// After a restart that came to nothing another can be begun.
pub proof fn law_restart_again(m: ControlModel, failure: ControlEvent)
    requires
        failure is SpawnFailed || failure is ChildGone,
    ensures
        control_step(control_step(m, failure).0, ControlEvent::RestartRequested).1 is Spawn,
{
}

/// What each event leads to, whatever the state. A restart is begun only where none
/// is going on. A process that has been started is kept in mind and watched. One
/// that could not be started or has ended leaves no restart and no process. One
/// that has proved itself is handed over to, in the way that is asked for. A stop
/// kills the new process of a restart that is going on, and no other.
pub proof fn law_events(m: ControlModel, event: ControlEvent)
    ensures
        ({
            let (after, action) = control_step(m, event);
            &&& action is Spawn <==> event is RestartRequested && !m.restarting
            &&& event is RestartRequested ==> after.restarting && after.child == m.child && (
            m.restarting ==> action is Continue)
            &&& event matches ControlEvent::Spawned(pid) ==> after.child == Some(pid)
                && after.restarting == m.restarting && action is Watch
            &&& event is SpawnFailed || event is ChildGone ==> !after.restarting
                && after.child is None && action is Continue
            &&& event matches ControlEvent::ChildStable { force } ==> after == m && action == (
            ControlAction::HandOver { force })
            &&& event is StopRequested ==> after == m && (action matches ControlAction::Stop {
                kill,
            } && (kill is Some <==> m.restarting && m.child is Some) && (kill is Some ==> kill
                == m.child))
        }),
{
}

/// A server that leaves waits for the requests that are going on, unless it hands
/// over and is told not to.
pub proof fn law_waits(action: ControlAction)
    ensures
        waits_for_requests(action) <==> action is Stop || (
        action matches ControlAction::HandOver { force } && !force),
{
}

} // verus!
