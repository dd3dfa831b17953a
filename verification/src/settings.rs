use vstd::prelude::*;

use crate::input::{InputState, Key};

verus! {

/// How the window is to be opened.
#[derive(Clone, Copy, Debug)]
pub struct WindowDescriptor {
    pub title: &'static str,
    pub dims: (u32, u32),
    pub fullscreen_options: Option<FullscreenOptions>,
}

impl Default for WindowDescriptor {
    /// A 1440 by 810 window titled "Default Title", with the default
    /// fullscreen options.
    fn default() -> (d: Self)
        ensures
            d.title@ == "Default Title"@,
            d.dims == (1440u32, 810u32),
            d.fullscreen_options == Some(FullscreenOptions::spec_default()),
    {
        let dims = (1440, 810);
        WindowDescriptor { title: "Default Title", dims, fullscreen_options: Some(FullscreenOptions::default()) }
    }
}

impl WindowDescriptor {
    /// Whether the window opens in (borderless) fullscreen: when there are
    /// fullscreen options and they ask for it.
    pub fn starts_fullscreen(&self) -> (r: bool)
        ensures
            r == (self.fullscreen_options matches Some(o) && o.on_start),
    {
        match self.fullscreen_options {
            Some(o) => o.on_start,
            None => false,
        }
    }
}

/// Fullscreen behaviour: whether to start in fullscreen, and the key that
/// toggles it.
#[derive(Clone, Copy, Debug)]
pub struct FullscreenOptions {
    pub on_start: bool,
    pub toggle_key: Key,
}

impl FullscreenOptions {
    /// The key that always leaves fullscreen.
    pub const DEFAULT_ESCAPE_KEY: Key = Key::Escape;

    pub open spec fn spec_default() -> Self {
        FullscreenOptions { on_start: false, toggle_key: Key::F11 }
    }
}

impl Default for FullscreenOptions {
    /// Not fullscreen at start; F11 toggles.
    fn default() -> (o: Self)
        ensures
            o == Self::spec_default(),
    {
        FullscreenOptions { on_start: false, toggle_key: Key::F11 }
    }
}

/// What the window should do about fullscreen this frame.
#[derive(Clone, Copy, Debug, PartialEq, Eq, Structural)]
pub enum FullscreenAction {
    /// Leave it as it is.
    Keep,
    /// Go to borderless fullscreen.
    Enter,
    /// Go back to a window.
    Leave,
}

/// The window's key hooks for one frame: with fullscreen options, the toggle
/// key (when it went down this frame) switches between fullscreen and a
/// window; otherwise the escape key (when it went down) leaves fullscreen.
/// Without fullscreen options nothing happens.
pub fn window_key_hooks(descriptor: &WindowDescriptor, input: &InputState, is_fullscreen: bool) -> (a:
    FullscreenAction)
    requires
        input.wf(),
    ensures
        a == (match descriptor.fullscreen_options {
            None => FullscreenAction::Keep,
            Some(o) => if input.key_down(o.toggle_key) {
                if is_fullscreen {
                    FullscreenAction::Leave
                } else {
                    FullscreenAction::Enter
                }
            } else if input.key_down(Key::Escape) {
                FullscreenAction::Leave
            } else {
                FullscreenAction::Keep
            },
        }),
{
    match descriptor.fullscreen_options {
        Some(fs_options) => {
            if input.is_key_down(fs_options.toggle_key) {
                if is_fullscreen {
                    FullscreenAction::Leave
                } else {
                    FullscreenAction::Enter
                }
            } else if input.is_key_down(FullscreenOptions::DEFAULT_ESCAPE_KEY) {
                FullscreenAction::Leave
            } else {
                FullscreenAction::Keep
            }
        },
        None => FullscreenAction::Keep,
    }
}

/// The point of a rectangle that a position refers to.
#[derive(Debug, Copy, Clone, PartialEq, Eq, Structural, PartialOrd, Ord)]
pub enum Anchor {
    TopLeft,
    TopRight,
    BottomLeft,
    BottomRight,
    Center,
}

impl Default for Anchor {
    fn default() -> (a: Self)
        ensures
            a == Anchor::TopLeft,
    {
        Anchor::TopLeft
    }
}

} // verus!
