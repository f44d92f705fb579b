//! The missing-variable prompt: values for unresolved variables are asked for one at
//! a time, in the order they were found.
use vstd::prelude::*;

use crate::interpolate::MissingVar;
use crate::text::{decimal, pop_char, push_char, push_decimal, push_str};

verus! {

/// Modal state for collecting values of variables that are missing at send time. The
/// queue is consumed one variable at a time.
#[derive(Debug)]
pub struct State {
    pub queue: Vec<MissingVar>,
    pub index: usize,
    pub input: String,
}

impl State {
    /// A prompt for each variable of `queue`, starting at the first, with empty input.
    pub fn new(queue: Vec<MissingVar>) -> (r: Self)
        ensures
            r.queue == queue,
            r.index == 0,
            r.input@ == Seq::<char>::empty(),
    {
        State { queue, index: 0, input: String::new() }
    }

    /// The variable being asked for; `None` once every variable was answered.
    pub fn current(&self) -> (r: Option<&MissingVar>)
        ensures
            self.index < self.queue@.len() ==> (r matches Some(m) && *m == self.queue@[self.index as int]),
            self.index >= self.queue@.len() ==> r is None,
    {
        if self.index < self.queue.len() {
            Some(&self.queue[self.index])
        } else {
            None
        }
    }

    /// Type one char of the answer.
    pub fn push(&mut self, ch: char)
        ensures
            final(self).input@ == old(self).input@.push(ch),
            final(self).queue == old(self).queue,
            final(self).index == old(self).index,
    {
        push_char(&mut self.input, ch);
    }

    /// Erase the last char of the answer, if any.
    pub fn backspace(&mut self)
        ensures
            final(self).input@ == (if old(self).input@.len() > 0 {
                old(self).input@.drop_last()
            } else {
                old(self).input@
            }),
            final(self).queue == old(self).queue,
            final(self).index == old(self).index,
    {
        let _ = pop_char(&mut self.input);
    }

    /// Advance to the next variable, returning the just-entered (name, value) and
    /// clearing the input. Returns `None`, and changes nothing, when the queue is
    /// exhausted.
    pub fn take_current(&mut self) -> (r: Option<(String, String)>)
        ensures
            final(self).queue == old(self).queue,
            old(self).index < old(self).queue@.len() ==> {
                &&& r matches Some((name, value))
                &&& name@ == old(self).queue@[old(self).index as int].name@
                &&& value@ == old(self).input@
                &&& final(self).index == old(self).index + 1
                &&& final(self).input@ == Seq::<char>::empty()
            },
            old(self).index >= old(self).queue@.len() ==> {
                &&& r is None
                &&& final(self).index == old(self).index
                &&& final(self).input@ == old(self).input@
            },
    {
        if self.index >= self.queue.len() {
            return None;
        }
        let name = self.queue[self.index].name.clone();
        let mut value = String::new();
        std::mem::swap(&mut value, &mut self.input);
        self.index = self.index + 1;
        Some((name, value))
    }

    /// Every variable was answered.
    pub fn is_done(&self) -> (r: bool)
        ensures
            r == (self.index >= self.queue@.len()),
    {
        self.index >= self.queue.len()
    }

    /// The prompt's title: which variable of how many is asked for.
    pub fn title(&self) -> (r: String)
        requires
            self.index < self.queue@.len(),
        ensures
            r@ == " Missing variable "@ + decimal((self.index + 1) as nat) + "/"@ + decimal(
                self.queue@.len(),
            ) + " "@,
    {
        let mut title = String::new();
        push_str(&mut title, " Missing variable ");
        push_decimal(&mut title, self.index as u128 + 1);
        push_str(&mut title, "/");
        push_decimal(&mut title, self.queue.len() as u128);
        push_str(&mut title, " ");
        title
    }

    /// The typed answer as shown: one `*` per char for a secret variable.
    pub fn shown_input(&self) -> (r: String)
        ensures
            (self.index < self.queue@.len() && self.queue@[self.index as int].secret) ==> r@
                == Seq::new(self.input@.len(), |i: int| '*'),
            !(self.index < self.queue@.len() && self.queue@[self.index as int].secret) ==> r@
                == self.input@,
    {
        let secret = self.index < self.queue.len() && self.queue[self.index].secret;
        if !secret {
            return self.input.clone();
        }
        let cs = crate::text::chars_of(self.input.as_str());
        let mut shown = String::new();
        let mut i: usize = 0;
        while i < cs.len()
            invariant
                0 <= i <= cs@.len(),
                cs@ == self.input@,
                shown@ == Seq::new(i as nat, |k: int| '*'),
            decreases cs@.len() - i,
        {
            push_char(&mut shown, '*');
            i += 1;
            assert(shown@ =~= Seq::new(i as nat, |k: int| '*'));
        }
        shown
    }
}

} // verus!
