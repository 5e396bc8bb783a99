//! Binding resolution engine for pointer-device gestures.
//!
//! Raw pointer events (button presses and releases, held modifiers, screen
//! edges touched, and freehand shapes traced while a button is held) are
//! resolved against a table of user-defined bindings.  The engine decides
//! which bindings are structurally compatible with an event, scores traced
//! shapes against gesture patterns by rotation-invariant alignment, picks at
//! most one winning binding, and reports the side effect that follows: run
//! the binding's command, replay a suppressed click, or let the event
//! propagate unchanged.

pub mod args;
pub mod binding;
pub mod compare_angles;
pub mod event;
pub mod process_event;
