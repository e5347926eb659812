//! The decisions of the window's event loop. Each iteration checks the
//! window's close flag, drains the pending events and dispatches them in
//! order; an Escape key press raises the close flag, which the next
//! iteration's check observes.
use vstd::prelude::*;

verus! {

/// A keyboard key, as far as the loop tells keys apart.
#[derive(Clone, Copy, Debug, PartialEq, Eq, Structural)]
pub enum KeyCode {
    Escape,
    /// Any other key, by the windowing library's key code.
    Other(i32),
}

/// What happened to a key.
#[derive(Clone, Copy, Debug, PartialEq, Eq, Structural)]
pub enum KeyAction {
    Press,
    Release,
    Repeat,
}

/// A window event, as far as the loop tells events apart.
#[derive(Clone, Copy, Debug, PartialEq, Eq, Structural)]
pub enum WindowEvent {
    Key { key: KeyCode, action: KeyAction },
    /// Any other kind of event.
    Other,
}

/// The two states of the event loop; `Closed` is final.
#[derive(Clone, Copy, Debug, PartialEq, Eq, Structural)]
pub enum LoopState {
    Running,
    Closed,
}

/// The event asks for the window to close: a press of Escape.
pub open spec fn is_close_request(e: WindowEvent) -> bool {
    e == WindowEvent::Key { key: KeyCode::Escape, action: KeyAction::Press }
}

/// The loop state that a check of the close flag gives.
pub open spec fn state_for(close_flag: bool) -> LoopState {
    if close_flag {
        LoopState::Closed
    } else {
        LoopState::Running
    }
}

/// The close flag after the events are dispatched in order.
pub open spec fn close_flag_after(close_flag: bool, events: Seq<WindowEvent>) -> bool
    decreases events.len(),
{
    if events.len() == 0 {
        close_flag
    } else {
        close_flag_after(close_flag, events.drop_last()) || is_close_request(events.last())
    }
}

/// Dispatches one event: whether it raises the close flag.
pub fn handle_window_event(event: &WindowEvent) -> (r: bool)
    ensures
        r == is_close_request(*event),
{
    match event {
        WindowEvent::Key { key: KeyCode::Escape, action: KeyAction::Press } => true,
        _ => false,
    }
}

/// The check at the head of each iteration: the loop ends once the close
/// flag is set.
pub fn check_close(close_flag: bool) -> (r: LoopState)
    ensures
        r == state_for(close_flag),
{
    if close_flag {
        LoopState::Closed
    } else {
        LoopState::Running
    }
}

/// Dispatches the events drained in one iteration, in the order received,
/// and gives the close flag that follows.
pub fn dispatch_events(close_flag: bool, events: &[WindowEvent]) -> (r: bool)
    ensures
        r == close_flag_after(close_flag, events@),
{
    let mut flag = close_flag;
    let mut i: usize = 0;
    assert(events@.take(0) =~= Seq::<WindowEvent>::empty());
    while i < events.len()
        invariant
            0 <= i <= events@.len(),
            flag == close_flag_after(close_flag, events@.take(i as int)),
        decreases events@.len() - i,
    {
        assert(events@.take(i + 1).drop_last() =~= events@.take(i as int));
        if handle_window_event(&events[i]) {
            flag = true;
        }
        i = i + 1;
    }
    assert(events@.take(i as int) =~= events@);
    flag
}

/// A batch of events closes a running loop at the next check exactly when
/// one of them is a press of Escape; a closed loop stays closed.
pub proof fn lemma_escape_closes(close_flag: bool, events: Seq<WindowEvent>)
    ensures
        state_for(close_flag_after(close_flag, events)) == LoopState::Closed <==> (close_flag
            || exists|i: int| 0 <= i < events.len() && is_close_request(#[trigger] events[i])),
    decreases events.len(),
{
    if events.len() > 0 {
        let prev = events.drop_last();
        lemma_escape_closes(close_flag, prev);
        if exists|i: int| 0 <= i < prev.len() && is_close_request(#[trigger] prev[i]) {
            let i = choose|i: int| 0 <= i < prev.len() && is_close_request(#[trigger] prev[i]);
            assert(events[i] == prev[i]);
        }
        if exists|i: int| 0 <= i < events.len() && is_close_request(#[trigger] events[i]) {
            let i = choose|i: int| 0 <= i < events.len() && is_close_request(#[trigger] events[i]);
            if i < prev.len() {
                assert(prev[i] == events[i]);
            }
        }
        if is_close_request(events.last()) {
            assert(is_close_request(events[events.len() - 1]));
        }
    }
}

/// The GPU objects made at start-up.
#[derive(Clone, Copy, Debug, PartialEq, Eq, Structural)]
pub enum GpuObject {
    VertexArray,
    VertexBuffer,
}

/// A GPU object name came back as 0: the context cannot be used.
#[derive(Clone, Copy, Debug, PartialEq, Eq, Structural)]
pub struct NullHandle {
    pub object: GpuObject,
}

/// Accepts the name that the driver gave for `object`, unless it is 0.
pub fn check_handle(object: GpuObject, handle: u32) -> (r: Result<u32, NullHandle>)
    ensures
        handle != 0 ==> r == Ok::<u32, NullHandle>(handle),
        handle == 0 ==> r == Err::<u32, NullHandle>(NullHandle { object }),
{
    if handle == 0 {
        Err(NullHandle { object })
    } else {
        Ok(handle)
    }
}

} // verus!
