use engine::input::{InputState, Key, MouseButton};
use engine::settings::{window_key_hooks, Anchor, FullscreenAction, FullscreenOptions, WindowDescriptor};

#[test]
fn press_and_release_a_key() {
    let mut i = InputState::new();
    assert!(!i.is_key_held(Key::A));
    i.handle_key_event(Key::A, true);
    assert!(i.is_key_down(Key::A));
    assert!(i.is_key_held(Key::A));
    assert!(!i.is_key_up(Key::A));
    assert!(!i.is_key_held(Key::B));
    i.flush();
    assert!(!i.is_key_down(Key::A));
    assert!(i.is_key_held(Key::A));
    i.handle_key_event(Key::A, false);
    assert!(i.is_key_up(Key::A));
    assert!(!i.is_key_held(Key::A));
    i.flush();
    assert!(!i.is_key_up(Key::A));
}

#[test]
fn every_key_has_its_own_slot() {
    let keys = [Key::A, Key::Z, Key::N0, Key::N9, Key::ArrowUp, Key::AltRight, Key::Space, Key::F1, Key::F12, Key::Numpad0, Key::NumpadDivide];
    for k in keys {
        let mut i = InputState::new();
        i.handle_key_event(k, true);
        for j in keys {
            assert_eq!(i.is_key_held(j), j == k);
        }
    }
    assert_eq!(Key::COUNT, 79);
    assert_eq!(Key::NumpadDivide.index(), 78);
}

#[test]
fn mouse_buttons_are_held_but_never_marked_down() {
    let mut i = InputState::new();
    i.handle_mouse_event(MouseButton::Left, true);
    assert!(!i.is_mouse_button_down(MouseButton::Left));
    assert!(!i.is_mouse_button_up(MouseButton::Left));
    i.handle_mouse_event(MouseButton::Left, false);
    assert!(!i.is_mouse_button_up(MouseButton::Left));
    assert_eq!(MouseButton::COUNT, 3);
    assert_eq!(MouseButton::Right.index(), 2);
}

#[test]
fn default_window() {
    let d = WindowDescriptor::default();
    assert_eq!(d.title, "Default Title");
    assert_eq!(d.dims, (1440, 810));
    let o = d.fullscreen_options.unwrap();
    assert!(!o.on_start);
    assert_eq!(o.toggle_key, Key::F11);
    assert!(!d.starts_fullscreen());
    assert_eq!(FullscreenOptions::DEFAULT_ESCAPE_KEY, Key::Escape);
    let d2 = WindowDescriptor {
        fullscreen_options: Some(FullscreenOptions { on_start: true, toggle_key: Key::F }),
        ..d
    };
    assert!(d2.starts_fullscreen());
    let d3 = WindowDescriptor { fullscreen_options: None, ..d };
    assert!(!d3.starts_fullscreen());
}

#[test]
fn fullscreen_hooks() {
    let d = WindowDescriptor::default();
    let mut i = InputState::new();
    assert_eq!(window_key_hooks(&d, &i, false), FullscreenAction::Keep);
    i.handle_key_event(Key::F11, true);
    assert_eq!(window_key_hooks(&d, &i, false), FullscreenAction::Enter);
    assert_eq!(window_key_hooks(&d, &i, true), FullscreenAction::Leave);
    i.flush();
    assert_eq!(window_key_hooks(&d, &i, true), FullscreenAction::Keep);
    i.handle_key_event(Key::Escape, true);
    assert_eq!(window_key_hooks(&d, &i, true), FullscreenAction::Leave);
    assert_eq!(window_key_hooks(&d, &i, false), FullscreenAction::Leave);
    let none = WindowDescriptor { fullscreen_options: None, ..d };
    assert_eq!(window_key_hooks(&none, &i, true), FullscreenAction::Keep);
}

#[test]
fn anchor_default_is_top_left() {
    assert_eq!(Anchor::default(), Anchor::TopLeft);
}
