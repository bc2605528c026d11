//! How the native window reacts to its events: redrawing, closing, and
//! grabbing the cursor to steer the camera with the mouse.

use vstd::prelude::*;

verus! {

/// A window event, as far as the reaction to it depends on it.
#[derive(Clone, Copy, Debug, PartialEq, Eq, Structural)]
pub enum WindowEvent {
    /// The window asks to be drawn.
    RedrawRequested,
    /// All pending events have been handled.
    MainEventsCleared,
    /// The user asks to close the window.
    CloseRequested,
    /// The escape key was pressed.
    EscapePressed,
    /// The window lost the focus.
    FocusLost,
    /// A mouse button was pressed.
    MousePressed,
    /// The mouse moved.
    MouseMotion,
    /// Any other event.
    Other,
}

/// What the window does in response to an event.
#[derive(Clone, Copy, Debug, PartialEq, Eq, Structural)]
pub enum Action {
    /// Draw a frame and present it.
    Draw,
    /// Ask the window to be drawn.
    RequestRedraw,
    /// Leave the event loop.
    Exit,
    /// Show the cursor and release it.
    ReleaseCursor,
    /// Try to grab the cursor; report the outcome with [`Controls::grab_result`].
    GrabCursor,
    /// Turn the view by the mouse's movement.
    Rotate,
    /// Nothing.
    Ignore,
}

/// Whether the cursor is grabbed.
#[derive(Clone, Copy, Debug)]
pub struct Controls {
    pub grabbed: bool,
}

/// The action for `ev` when the cursor's grab is `grabbed`.
pub open spec fn action_for(grabbed: bool, ev: WindowEvent) -> Action {
    match ev {
        WindowEvent::RedrawRequested => Action::Draw,
        WindowEvent::MainEventsCleared => Action::RequestRedraw,
        WindowEvent::CloseRequested => Action::Exit,
        WindowEvent::EscapePressed | WindowEvent::FocusLost => if grabbed {
            Action::ReleaseCursor
        } else {
            Action::Ignore
        },
        WindowEvent::MousePressed => if grabbed {
            Action::Ignore
        } else {
            Action::GrabCursor
        },
        WindowEvent::MouseMotion => if grabbed {
            Action::Rotate
        } else {
            Action::Ignore
        },
        WindowEvent::Other => Action::Ignore,
    }
}

impl Controls {
    /// No grab.
    pub fn new() -> (r: Controls)
        ensures
            !r.grabbed,
    {
        Controls { grabbed: false }
    }

    /// Decides what to do about `ev`. Releasing the cursor ends the grab at
    /// once; a grab begins only when [`Controls::grab_result`] reports that
    /// it succeeded.
    pub fn on_event(&mut self, ev: WindowEvent) -> (r: Action)
        ensures
            r == action_for(old(self).grabbed, ev),
            final(self).grabbed == (old(self).grabbed && r != Action::ReleaseCursor),
            ev == WindowEvent::EscapePressed || ev == WindowEvent::FocusLost ==> {
                &&& !final(self).grabbed
                &&& r == (if old(self).grabbed { Action::ReleaseCursor } else { Action::Ignore })
            },
    {
        match ev {
            WindowEvent::RedrawRequested => Action::Draw,
            WindowEvent::MainEventsCleared => Action::RequestRedraw,
            WindowEvent::CloseRequested => Action::Exit,
            WindowEvent::EscapePressed | WindowEvent::FocusLost => {
                if self.grabbed {
                    self.grabbed = false;
                    Action::ReleaseCursor
                } else {
                    Action::Ignore
                }
            },
            WindowEvent::MousePressed => {
                if self.grabbed {
                    Action::Ignore
                } else {
                    Action::GrabCursor
                }
            },
            WindowEvent::MouseMotion => {
                if self.grabbed {
                    Action::Rotate
                } else {
                    Action::Ignore
                }
            },
            WindowEvent::Other => Action::Ignore,
        }
    }

    /// Records the outcome of grabbing the cursor: the grab holds if it
    /// succeeded.
    pub fn grab_result(&mut self, ok: bool)
        ensures
            final(self).grabbed == (old(self).grabbed || ok),
    {
        if ok {
            self.grabbed = true;
        }
    }
}

/// The mouse steers the view only while the cursor is grabbed, and a
/// released cursor stays released until a press and a successful grab.
pub proof fn lemma_rotate_only_when_grabbed(grabbed: bool, ev: WindowEvent)
    ensures
        action_for(grabbed, ev) == Action::Rotate ==> grabbed,
        action_for(grabbed, ev) == Action::GrabCursor ==> !grabbed && ev == WindowEvent::MousePressed,
        action_for(grabbed, ev) == Action::ReleaseCursor ==> grabbed,
{
}

/// Pressing Escape and losing the focus act the same: while the cursor is
/// grabbed either one releases it, and otherwise neither does anything. No
/// other event releases the cursor.
pub proof fn lemma_escape_releases_like_focus_loss(grabbed: bool, ev: WindowEvent)
    ensures
        action_for(grabbed, WindowEvent::EscapePressed) == action_for(grabbed, WindowEvent::FocusLost),
        grabbed ==> action_for(grabbed, WindowEvent::EscapePressed) == Action::ReleaseCursor,
        !grabbed ==> action_for(grabbed, WindowEvent::EscapePressed) == Action::Ignore,
        action_for(grabbed, ev) == Action::ReleaseCursor <==> grabbed && (ev == WindowEvent::EscapePressed
            || ev == WindowEvent::FocusLost),
{
}

} // verus!
