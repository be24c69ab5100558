use combustion::events::{react, Key, Reaction, RenderSignal, WindowInput};

#[test]
fn nothing_is_sent_once_rendering_has_ended() {
    assert_eq!(react(false, WindowInput::KeyPressed(Key::Escape)), Reaction::Shutdown);
    assert_eq!(react(false, WindowInput::Resized(800, 600)), Reaction::Shutdown);
    assert_eq!(react(false, WindowInput::Other), Reaction::Shutdown);
}

#[test]
fn keys() {
    assert_eq!(react(true, WindowInput::KeyPressed(Key::Escape)), Reaction::Close);
    assert_eq!(react(true, WindowInput::KeyPressed(Key::F11)), Reaction::ToggleFullscreen);
    assert_eq!(react(true, WindowInput::KeyPressed(Key::Other)), Reaction::Forward);
}

#[test]
fn sizes() {
    assert_eq!(
        react(true, WindowInput::Resized(1280, 720)),
        Reaction::Send(RenderSignal::ViewportResize(1280, 720))
    );
    assert_eq!(react(true, WindowInput::Resized(1, 1)), Reaction::Send(RenderSignal::ViewportResize(1, 1)));
    assert_eq!(react(true, WindowInput::Resized(0, 720)), Reaction::Forward);
    assert_eq!(react(true, WindowInput::Resized(1280, 0)), Reaction::Forward);
    assert_eq!(react(true, WindowInput::Resized(-1, -1)), Reaction::Forward);
}

#[test]
fn focus_and_iconify() {
    assert_eq!(react(true, WindowInput::Iconified(true)), Reaction::Send(RenderSignal::Pause));
    assert_eq!(react(true, WindowInput::Iconified(false)), Reaction::Forward);
    assert_eq!(react(true, WindowInput::Focused(true)), Reaction::Send(RenderSignal::Resume));
    assert_eq!(react(true, WindowInput::Focused(false)), Reaction::Send(RenderSignal::Pause));
    assert_eq!(react(true, WindowInput::Other), Reaction::Forward);
}
