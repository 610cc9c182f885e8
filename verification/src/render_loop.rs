use vstd::prelude::*;

verus! {

/// Whether a render loop ran out of time or finished its work.
#[derive(Clone, Copy, Debug, PartialEq, Eq, Structural)]
pub enum RenderFlow {
    Suspend,
    Done,
}

/// Where a render loop stands within one round: taking messages, taking events, updating
/// the marked nodes, committing (or mounting), or at the end of the round.
#[derive(Clone, Copy, Debug, PartialEq, Eq, Structural)]
pub enum LoopPhase {
    Messages,
    Events,
    Update,
    Commit,
    End,
}

/// What a render loop knows when it decides what to do next.
#[derive(Clone, Copy, Debug, PartialEq, Eq, Structural)]
pub struct LoopState {
    pub phase: LoopPhase,
    pub messages_pending: bool,
    pub events_pending: bool,
    pub update_pending: bool,
    pub commit_pending: bool,
    pub is_mounted: bool,
}

/// The next piece of work of a render loop, or the answer it returns.
#[derive(Clone, Copy, Debug, PartialEq, Eq, Structural)]
pub enum LoopStep {
    /// Hand the first queued message to the state.
    Message,
    /// Deliver the first queued event.
    Event,
    /// Update the nodes marked for update.
    Update,
    /// Commit the nodes marked for commit.
    Commit,
    /// Mount the whole tree for the first time.
    Mount,
    /// Stop and return.
    Finish(RenderFlow),
}

/// `Done` exactly when nothing is queued or marked and the tree is mounted.
pub open spec fn spec_render_flow(s: LoopState) -> RenderFlow {
    if !s.messages_pending && !s.events_pending && !s.update_pending && !s.commit_pending
        && s.is_mounted {
        RenderFlow::Done
    } else {
        RenderFlow::Suspend
    }
}

/// At the end of a round: another round where messages came in, else done.
pub open spec fn step_from_end(s: LoopState) -> LoopStep {
    if s.messages_pending {
        LoopStep::Message
    } else {
        LoopStep::Finish(RenderFlow::Done)
    }
}

/// Committing: a mounted tree commits its marked nodes; an unmounted one is mounted.
pub open spec fn step_from_commit(s: LoopState) -> LoopStep {
    if !s.is_mounted {
        LoopStep::Mount
    } else if s.commit_pending {
        LoopStep::Commit
    } else {
        step_from_end(s)
    }
}

pub open spec fn step_from_update(s: LoopState) -> LoopStep {
    if s.update_pending {
        LoopStep::Update
    } else {
        step_from_commit(s)
    }
}

/// Events are taken while any are queued; messages that came in meanwhile start the round
/// over before anything is updated.
pub open spec fn step_from_events(s: LoopState) -> LoopStep {
    if s.events_pending {
        LoopStep::Event
    } else if s.messages_pending {
        LoopStep::Message
    } else {
        step_from_update(s)
    }
}

pub open spec fn step_from_messages(s: LoopState) -> LoopStep {
    if s.messages_pending {
        LoopStep::Message
    } else {
        step_from_events(s)
    }
}

/// The next step: after a piece of work that ran past the deadline, the loop returns its
/// render flow; otherwise it goes on from where it stands, in the order messages, events,
/// update, commit or mount, end of round.
pub open spec fn spec_loop_step(s: LoopState, timed_out: bool) -> LoopStep {
    if timed_out {
        LoopStep::Finish(spec_render_flow(s))
    } else {
        match s.phase {
            LoopPhase::Messages => step_from_messages(s),
            LoopPhase::Events => step_from_events(s),
            LoopPhase::Update => step_from_update(s),
            LoopPhase::Commit => step_from_commit(s),
            LoopPhase::End => step_from_end(s),
        }
    }
}

/// Where the loop stands once a step's work is done.
pub open spec fn spec_phase_after(step: LoopStep) -> LoopPhase {
    match step {
        LoopStep::Message => LoopPhase::Messages,
        LoopStep::Event => LoopPhase::Events,
        LoopStep::Update => LoopPhase::Commit,
        LoopStep::Commit | LoopStep::Mount | LoopStep::Finish(_) => LoopPhase::End,
    }
}

/// Whether the loop is done: nothing queued or marked, and the tree mounted.
pub fn render_flow(s: LoopState) -> (f: RenderFlow)
    ensures
        f == spec_render_flow(s),
{
    if !s.messages_pending && !s.events_pending && !s.update_pending && !s.commit_pending
        && s.is_mounted {
        RenderFlow::Done
    } else {
        RenderFlow::Suspend
    }
}

/// Decides the loop's next step; `timed_out` tells whether the deadline passed during
/// the last piece of work.
pub fn loop_step(s: LoopState, timed_out: bool) -> (step: LoopStep)
    ensures
        step == spec_loop_step(s, timed_out),
{
    if timed_out {
        return LoopStep::Finish(render_flow(s));
    }
    let mut phase = s.phase;
    if phase == LoopPhase::Messages {
        if s.messages_pending {
            return LoopStep::Message;
        }
        phase = LoopPhase::Events;
    }
    if phase == LoopPhase::Events {
        if s.events_pending {
            return LoopStep::Event;
        }
        if s.messages_pending {
            return LoopStep::Message;
        }
        phase = LoopPhase::Update;
    }
    if phase == LoopPhase::Update {
        if s.update_pending {
            return LoopStep::Update;
        }
        phase = LoopPhase::Commit;
    }
    if phase == LoopPhase::Commit {
        if !s.is_mounted {
            return LoopStep::Mount;
        }
        if s.commit_pending {
            return LoopStep::Commit;
        }
    }
    if s.messages_pending {
        LoopStep::Message
    } else {
        LoopStep::Finish(RenderFlow::Done)
    }
}

/// Where the loop stands once the work of `step` is done.
pub fn phase_after(step: LoopStep) -> (phase: LoopPhase)
    ensures
        phase == spec_phase_after(step),
{
    match step {
        LoopStep::Message => LoopPhase::Messages,
        LoopStep::Event => LoopPhase::Events,
        LoopStep::Update => LoopPhase::Commit,
        LoopStep::Commit | LoopStep::Mount | LoopStep::Finish(_) => LoopPhase::End,
    }
}

/// Without a timeout the loop never stops while messages wait, and when it stops it is
/// done; a stop for a timeout reports `Done` only with nothing pending and the tree
/// mounted.
pub proof fn law_loop_stops(s: LoopState, timed_out: bool)
    ensures
        !timed_out && spec_loop_step(s, timed_out) is Finish ==> !s.messages_pending
            && spec_loop_step(s, timed_out) == LoopStep::Finish(RenderFlow::Done),
        spec_loop_step(s, timed_out) == LoopStep::Finish(RenderFlow::Done) && timed_out
            ==> !s.messages_pending && !s.events_pending && !s.update_pending && !s.commit_pending
            && s.is_mounted,
{
}

/// An unmounted tree is mounted before the loop can finish without a timeout: every
/// phase leads to `Mount` or to other work first.
pub proof fn law_mount_before_done(s: LoopState)
    requires
        !s.is_mounted,
        s.phase != LoopPhase::End,
    ensures
        spec_loop_step(s, false) != LoopStep::Finish(RenderFlow::Done),
{
}

/// Updating the marked nodes is followed by committing them: from where the loop stands
/// after an update, an unmounted tree is mounted, a mounted tree with nodes to commit
/// commits them (even while messages wait), and only otherwise does the round end.
pub proof fn law_update_then_commit(s: LoopState)
    requires
        s.phase == spec_phase_after(LoopStep::Update),
    ensures
        !s.is_mounted ==> spec_loop_step(s, false) == LoopStep::Mount,
        s.is_mounted && s.commit_pending ==> spec_loop_step(s, false) == LoopStep::Commit,
        s.is_mounted && !s.commit_pending ==> spec_loop_step(s, false) == if s.messages_pending {
            LoopStep::Message
        } else {
            LoopStep::Finish(RenderFlow::Done)
        },
{
}

/// Each piece of work is followed by work of the same round, in order: messages stay in
/// the message phase, events in the event phase, and committing or mounting ends the round.
pub proof fn law_phase_order(s: LoopState)
    ensures
        s.phase == spec_phase_after(LoopStep::Message) && s.messages_pending ==> spec_loop_step(s, false)
            == LoopStep::Message,
        s.phase == spec_phase_after(LoopStep::Event) && s.events_pending ==> spec_loop_step(s, false)
            == LoopStep::Event,
        s.phase == spec_phase_after(LoopStep::Mount) ==> spec_loop_step(s, false) == if s.messages_pending {
            LoopStep::Message
        } else {
            LoopStep::Finish(RenderFlow::Done)
        },
        s.phase == spec_phase_after(LoopStep::Commit) ==> spec_loop_step(s, false) == if s.messages_pending {
            LoopStep::Message
        } else {
            LoopStep::Finish(RenderFlow::Done)
        },
{
}

/// A round takes every queued message first, then every queued event; messages that came
/// in meanwhile start the round over; only then are marked nodes updated. After a piece of
/// work that ran past the deadline, the loop stops with its render flow.
pub proof fn law_round_order(s: LoopState)
    ensures
        s.phase == LoopPhase::Messages && s.messages_pending ==> spec_loop_step(s, false) == LoopStep::Message,
        s.phase == LoopPhase::Messages && !s.messages_pending && s.events_pending ==> spec_loop_step(s, false)
            == LoopStep::Event,
        s.phase == LoopPhase::Events && !s.events_pending && s.messages_pending ==> spec_loop_step(s, false)
            == LoopStep::Message,
        (s.phase == LoopPhase::Messages || s.phase == LoopPhase::Events) && !s.messages_pending
            && !s.events_pending && s.update_pending ==> spec_loop_step(s, false) == LoopStep::Update,
        spec_loop_step(s, true) == LoopStep::Finish(spec_render_flow(s)),
{
}

} // verus!
