use granite::scene::{decide, surface_size, LoopAction, SceneEvent, WindowSignal};

#[test]
fn surface_sides_are_at_least_one() {
    assert_eq!(surface_size(0, 0), (1, 1));
    assert_eq!(surface_size(800, 0), (800, 1));
    assert_eq!(surface_size(1280, 720), (1280, 720));
}

#[test]
fn events_are_ignored_while_suspended_or_elsewhere() {
    assert_eq!(decide(false, true, WindowSignal::CloseRequested), LoopAction::Ignore);
    assert_eq!(decide(true, false, WindowSignal::RedrawRequested), LoopAction::Ignore);
}

#[test]
fn close_redraw_and_input_events() {
    assert_eq!(decide(true, true, WindowSignal::CloseRequested), LoopAction::Exit);
    assert_eq!(decide(true, true, WindowSignal::RedrawRequested), LoopAction::Frame);
    assert_eq!(decide(true, true, WindowSignal::Other), LoopAction::ForwardInput);
}

#[test]
fn resize_clamps_surface_and_tells_scene() {
    assert_eq!(
        decide(true, true, WindowSignal::Resized { width: 0, height: 600 }),
        LoopAction::Resize {
            width: 1,
            height: 600,
            event: SceneEvent::WindowResized { width: 0, height: 600 },
        }
    );
}
