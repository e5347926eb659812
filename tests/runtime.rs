use wings::runtime::{
    check_close, check_handle, dispatch_events, handle_window_event, GpuObject, KeyAction, KeyCode,
    LoopState, NullHandle, WindowEvent,
};

fn key(key: KeyCode, action: KeyAction) -> WindowEvent {
    WindowEvent::Key { key, action }
}

#[test]
fn escape_press_closes_on_next_check() {
    let mut flag = false;
    assert_eq!(check_close(flag), LoopState::Running);
    flag = dispatch_events(flag, &[key(KeyCode::Escape, KeyAction::Press)]);
    assert_eq!(check_close(flag), LoopState::Closed);
}

#[test]
fn no_other_event_closes() {
    let events = [
        key(KeyCode::Escape, KeyAction::Release),
        key(KeyCode::Escape, KeyAction::Repeat),
        key(KeyCode::Other(65), KeyAction::Press),
        key(KeyCode::Other(256), KeyAction::Press),
        WindowEvent::Other,
    ];
    for e in events {
        assert!(!handle_window_event(&e));
    }
    assert!(!dispatch_events(false, &events));
    assert_eq!(check_close(dispatch_events(false, &events)), LoopState::Running);
    assert!(handle_window_event(&key(KeyCode::Escape, KeyAction::Press)));
}

#[test]
fn escape_among_other_events_closes() {
    let events = [
        WindowEvent::Other,
        key(KeyCode::Escape, KeyAction::Press),
        key(KeyCode::Other(1), KeyAction::Release),
    ];
    assert!(dispatch_events(false, &events));
}

#[test]
fn closed_loop_stays_closed() {
    assert!(dispatch_events(true, &[]));
    assert!(dispatch_events(true, &[WindowEvent::Other]));
    assert!(!dispatch_events(false, &[]));
}

#[test]
fn null_gpu_handles_are_refused() {
    assert_eq!(check_handle(GpuObject::VertexArray, 3), Ok(3));
    assert_eq!(
        check_handle(GpuObject::VertexArray, 0),
        Err(NullHandle { object: GpuObject::VertexArray })
    );
    assert_eq!(
        check_handle(GpuObject::VertexBuffer, 0),
        Err(NullHandle { object: GpuObject::VertexBuffer })
    );
}
