//! Bindings and the configuration that holds them.

use vstd::prelude::*;

use crate::event::Button;
use crate::event::ClickEvent;

verus! {

/// A configured rule: an event pattern and the command it launches.
///
/// `event.shape` holds the gesture pattern the binding expects; it is empty
/// for bindings that fire on a plain click.  `cmd` is the argv of the
/// command to launch, `comment` a free-form label for diagnostics.
/// Bindings are immutable once loaded.
#[derive(Clone, Debug)]
pub struct Binding {
    pub event: ClickEvent,
    pub cmd: Vec<String>,
    pub comment: String,
}

/// The loaded configuration: the ordered binding table and the button that
/// gesture shapes are traced with.
#[derive(Clone, Debug)]
pub struct Config {
    pub bindings: Vec<Binding>,
    pub shape_button: Button,
}

} // verus!
