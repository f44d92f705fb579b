//! The environments pane: which environment of the active collection is highlighted.
use vstd::prelude::*;

use crate::model::{Entry, Environment};
use crate::selection::{self, clamped, cycled};

verus! {

/// View state for the environments pane.
#[derive(Debug)]
pub struct State {
    pub list: Option<usize>,
}

impl Default for State {
    fn default() -> (r: Self)
        ensures
            r.list == Some(0usize),
    {
        State { list: Some(0) }
    }
}

impl State {
    pub fn selected(&self) -> (r: Option<usize>)
        ensures
            r == self.list,
    {
        self.list
    }

    /// Highlight the next environment, wrapping around.
    pub fn move_down(&mut self, len: usize)
        ensures
            final(self).list == cycled(old(self).list, len as nat, 1),
    {
        selection::next(&mut self.list, len);
    }

    /// Highlight the previous environment, wrapping around.
    pub fn move_up(&mut self, len: usize)
        ensures
            final(self).list == cycled(
                old(self).list,
                len as nat,
                (if len > 0 {
                    len - 1
                } else {
                    0
                }) as nat,
            ),
    {
        selection::previous(&mut self.list, len);
    }

    /// Keep the highlight inside a list of `len` environments.
    pub fn clamp(&mut self, len: usize)
        ensures
            final(self).list == clamped(old(self).list, len as nat),
    {
        selection::clamp_selection(&mut self.list, len);
    }
}

/// How a variable's value is shown: hidden when secret, marked when empty.
pub open spec fn shown_text(environment: Environment, entry: Entry) -> Seq<char> {
    if environment.secret(entry.name@) {
        "<secret>"@
    } else if entry.value@.len() == 0 {
        "<empty>"@
    } else {
        entry.value@
    }
}

/// The value of `entry` as the environments pane shows it.
pub fn shown_value(environment: &Environment, entry: &Entry) -> (r: String)
    ensures
        r@ == shown_text(*environment, *entry),
{
    if environment.is_secret(entry.name.as_str()) {
        "<secret>".to_string()
    } else if entry.value.as_str().is_empty() {
        "<empty>".to_string()
    } else {
        entry.value.clone()
    }
}

} // verus!
