use yuiui::render_loop::{loop_step, phase_after, render_flow, LoopPhase, LoopState, LoopStep, RenderFlow};

fn state(phase: LoopPhase, messages: bool, events: bool, update: bool, commit: bool, mounted: bool) -> LoopState {
    LoopState {
        phase,
        messages_pending: messages,
        events_pending: events,
        update_pending: update,
        commit_pending: commit,
        is_mounted: mounted,
    }
}

#[test]
fn test_render_flow_is_done_only_when_idle_and_mounted() {
    assert_eq!(render_flow(state(LoopPhase::End, false, false, false, false, true)), RenderFlow::Done);
    assert_eq!(render_flow(state(LoopPhase::End, false, false, false, false, false)), RenderFlow::Suspend);
    assert_eq!(render_flow(state(LoopPhase::End, true, false, false, false, true)), RenderFlow::Suspend);
    assert_eq!(render_flow(state(LoopPhase::End, false, true, false, false, true)), RenderFlow::Suspend);
    assert_eq!(render_flow(state(LoopPhase::End, false, false, true, false, true)), RenderFlow::Suspend);
    assert_eq!(render_flow(state(LoopPhase::End, false, false, false, true, true)), RenderFlow::Suspend);
}

#[test]
fn test_loop_order_messages_events_update_mount() {
    // A fresh loop with a message and an event queued.
    let s = state(LoopPhase::Messages, true, true, false, false, false);
    assert_eq!(loop_step(s, false), LoopStep::Message);
    // The message marked nodes for update; the event comes next.
    let s = state(phase_after(LoopStep::Message), false, true, true, false, false);
    assert_eq!(loop_step(s, false), LoopStep::Event);
    // The event queued a message: events are done, so the round starts over.
    let s = state(phase_after(LoopStep::Event), true, false, true, false, false);
    assert_eq!(loop_step(s, false), LoopStep::Message);
    let s = state(phase_after(LoopStep::Message), false, false, true, false, false);
    assert_eq!(loop_step(s, false), LoopStep::Update);
    let s = state(phase_after(LoopStep::Update), false, false, false, false, false);
    assert_eq!(loop_step(s, false), LoopStep::Mount);
    let s = state(phase_after(LoopStep::Mount), false, false, false, false, true);
    assert_eq!(loop_step(s, false), LoopStep::Finish(RenderFlow::Done));
}

#[test]
fn test_loop_commits_when_mounted_and_repeats_for_new_messages() {
    let s = state(LoopPhase::Commit, false, false, false, true, true);
    assert_eq!(loop_step(s, false), LoopStep::Commit);
    let s = state(phase_after(LoopStep::Commit), true, false, false, false, true);
    assert_eq!(loop_step(s, false), LoopStep::Message);
    // Nothing marked for commit: straight to the end of the round.
    let s = state(LoopPhase::Update, false, false, false, false, true);
    assert_eq!(loop_step(s, false), LoopStep::Finish(RenderFlow::Done));
}

#[test]
fn test_loop_timeout_returns_render_flow() {
    let s = state(LoopPhase::Events, false, true, false, false, true);
    assert_eq!(loop_step(s, true), LoopStep::Finish(RenderFlow::Suspend));
    let s = state(LoopPhase::End, false, false, false, false, true);
    assert_eq!(loop_step(s, true), LoopStep::Finish(RenderFlow::Done));
}
