//! The decisions of the window event loop, apart from the window and the GPU:
//! which events end the loop, resize the surface, draw a frame, or go to input.
use vstd::prelude::*;

verus! {

/// An event handed to a scene.
#[derive(Clone, Copy, Debug, PartialEq, Eq, Structural)]
pub enum SceneEvent {
    WindowResized { width: u32, height: u32 },
}

/// A window event, as far as the event loop's decisions go.
#[derive(Clone, Copy, Debug, PartialEq, Eq, Structural)]
pub enum WindowSignal {
    CloseRequested,
    Resized { width: u32, height: u32 },
    RedrawRequested,
    /// Keyboard, mouse and every other event, which go to the input state.
    Other,
}

/// What the event loop does in answer to a window event.
#[derive(Clone, Copy, Debug, PartialEq, Eq, Structural)]
pub enum LoopAction {
    /// The application is suspended, or the event is for another window.
    Ignore,
    /// Leave the event loop.
    Exit,
    /// Reconfigure the surface to `width` by `height`, then hand `event` to the scene.
    Resize { width: u32, height: u32, event: SceneEvent },
    /// Update the scene, reset the per-frame input, render, present, and ask for
    /// the next redraw.
    Frame,
    /// Hand the event to the input state.
    ForwardInput,
}

/// A side of a surface is never zero: the surface is configured with at least one
/// pixel on each side.
pub open spec fn surface_side(n: u32) -> u32 {
    if n == 0 {
        1
    } else {
        n
    }
}

/// The surface size for a window of `width` by `height` pixels: each side at least one.
pub fn surface_size(width: u32, height: u32) -> (r: (u32, u32))
    ensures
        r == (surface_side(width), surface_side(height)),
        r.0 >= 1 && r.1 >= 1,
{
    let w = if width == 0 {
        1
    } else {
        width
    };
    let h = if height == 0 {
        1
    } else {
        height
    };
    (w, h)
}

/// What the event loop does with `signal`: nothing while suspended or for another
/// window; otherwise exit on a close request, resize the surface and tell the scene
/// on a resize, draw on a redraw request, and pass anything else to the input state.
pub open spec fn action_for(resumed: bool, own_window: bool, signal: WindowSignal) -> LoopAction {
    if !resumed || !own_window {
        LoopAction::Ignore
    } else {
        match signal {
            WindowSignal::CloseRequested => LoopAction::Exit,
            WindowSignal::Resized { width, height } => LoopAction::Resize {
                width: surface_side(width),
                height: surface_side(height),
                event: SceneEvent::WindowResized { width, height },
            },
            WindowSignal::RedrawRequested => LoopAction::Frame,
            WindowSignal::Other => LoopAction::ForwardInput,
        }
    }
}

/// Decides what the event loop does with a window event.
pub fn decide(resumed: bool, own_window: bool, signal: WindowSignal) -> (r: LoopAction)
    ensures
        r == action_for(resumed, own_window, signal),
{
    if !resumed || !own_window {
        return LoopAction::Ignore;
    }
    match signal {
        WindowSignal::CloseRequested => LoopAction::Exit,
        WindowSignal::Resized { width, height } => {
            let (w, h) = surface_size(width, height);
            LoopAction::Resize { width: w, height: h, event: SceneEvent::WindowResized { width, height } }
        },
        WindowSignal::RedrawRequested => LoopAction::Frame,
        WindowSignal::Other => LoopAction::ForwardInput,
    }
}

} // verus!
