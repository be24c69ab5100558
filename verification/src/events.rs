//! What the main loop of the engine does about each event of its window.

use vstd::prelude::*;

verus! {

/// A key, as far as the loop tells keys apart.
#[derive(Debug, Clone, Copy, PartialEq, Eq, Structural)]
pub enum Key {
    Escape,
    F11,
    Other,
}

/// An event of the window, as far as the loop decides on it.
#[derive(Debug, Clone, Copy, PartialEq, Eq, Structural)]
pub enum WindowInput {
    /// A key went down.
    KeyPressed(Key),
    /// The window or its framebuffer has a new width and height.
    Resized(i32, i32),
    /// The window was iconified (`true`) or restored.
    Iconified(bool),
    /// The window gained (`true`) or lost the focus.
    Focused(bool),
    /// Any other event.
    Other,
}

/// What the loop tells the render thread.
#[derive(Debug, Clone, Copy, PartialEq, Eq, Structural)]
pub enum RenderSignal {
    /// End rendering.
    Stop,
    /// Stop drawing frames for now.
    Pause,
    /// Draw frames again.
    Resume,
    /// The viewport has a new width and height.
    ViewportResize(i32, i32),
}

/// What the loop does about one event.
#[derive(Debug, Clone, Copy, PartialEq, Eq, Structural)]
pub enum Reaction {
    /// The render thread is gone: close the window and leave the loop.
    Shutdown,
    /// Ask the window to close.
    Close,
    /// Switch between fullscreen and windowed.
    ToggleFullscreen,
    /// Send the signal and wake the render thread.
    Send(RenderSignal),
    /// Hand the event itself to the render thread.
    Forward,
}

/// The reaction to `input` while the render thread is `running` or not.
///
/// Once the render thread has ended, nothing is sent to it. Escape closes the
/// window and F11 toggles fullscreen. A new size with a positive width and
/// height resizes the viewport. Iconifying pauses; losing the focus pauses and
/// gaining it resumes. Everything else is forwarded as it is, a size that is
/// not positive and a restored window included.
pub open spec fn reaction(running: bool, input: WindowInput) -> Reaction {
    if !running {
        Reaction::Shutdown
    } else {
        match input {
            WindowInput::KeyPressed(Key::Escape) => Reaction::Close,
            WindowInput::KeyPressed(Key::F11) => Reaction::ToggleFullscreen,
            WindowInput::KeyPressed(Key::Other) => Reaction::Forward,
            WindowInput::Resized(width, height) => if width > 0 && height > 0 {
                Reaction::Send(RenderSignal::ViewportResize(width, height))
            } else {
                Reaction::Forward
            },
            WindowInput::Iconified(iconified) => if iconified {
                Reaction::Send(RenderSignal::Pause)
            } else {
                Reaction::Forward
            },
            WindowInput::Focused(focused) => if focused {
                Reaction::Send(RenderSignal::Resume)
            } else {
                Reaction::Send(RenderSignal::Pause)
            },
            WindowInput::Other => Reaction::Forward,
        }
    }
}

/// Decides what the loop does about `input`.
pub fn react(running: bool, input: WindowInput) -> (chosen: Reaction)
    ensures
        chosen == reaction(running, input),
{
    // Do not send any events if the render thread cannot accept them.
    if !running {
        return Reaction::Shutdown;
    }
    match input {
        WindowInput::KeyPressed(Key::Escape) => Reaction::Close,
        WindowInput::KeyPressed(Key::F11) => Reaction::ToggleFullscreen,
        WindowInput::Resized(width, height) => {
            if width > 0 && height > 0 {
                Reaction::Send(RenderSignal::ViewportResize(width, height))
            } else {
                Reaction::Forward
            }
        },
        WindowInput::Iconified(true) => Reaction::Send(RenderSignal::Pause),
        WindowInput::Focused(focused) => {
            if focused {
                Reaction::Send(RenderSignal::Resume)
            } else {
                Reaction::Send(RenderSignal::Pause)
            }
        },
        _ => Reaction::Forward,
    }
}

} // verus!
