//! The response pane: scroll position and whether headers are shown.
use vstd::prelude::*;

verus! {

/// View state for the response pane.
#[derive(Debug)]
pub struct State {
    pub scroll: u16,
    pub show_headers: bool,
}

impl Default for State {
    fn default() -> (r: Self)
        ensures
            r.scroll == 0,
            !r.show_headers,
    {
        State { scroll: 0, show_headers: false }
    }
}

/// `a + b`, or `u16::MAX` where that does not fit.
pub open spec fn add_capped(a: u16, b: u16) -> u16 {
    if a + b > u16::MAX {
        u16::MAX
    } else {
        (a + b) as u16
    }
}

/// `a - b`, or 0 where that is negative.
pub open spec fn sub_floored(a: u16, b: u16) -> u16 {
    if a < b {
        0
    } else {
        (a - b) as u16
    }
}

impl State {
    /// Back to the top.
    pub fn reset(&mut self)
        ensures
            final(self).scroll == 0,
            final(self).show_headers == old(self).show_headers,
    {
        self.scroll = 0;
    }

    /// Scroll down by `lines`, stopping at the largest position.
    pub fn scroll_down(&mut self, lines: u16)
        ensures
            final(self).scroll == add_capped(old(self).scroll, lines),
            final(self).show_headers == old(self).show_headers,
    {
        self.scroll = self.scroll.saturating_add(lines);
    }

    /// Scroll up by `lines`, stopping at the top.
    pub fn scroll_up(&mut self, lines: u16)
        ensures
            final(self).scroll == sub_floored(old(self).scroll, lines),
            final(self).show_headers == old(self).show_headers,
    {
        self.scroll = self.scroll.saturating_sub(lines);
    }

    /// Show the headers if hidden, hide them if shown.
    pub fn toggle_headers(&mut self)
        ensures
            final(self).show_headers == !old(self).show_headers,
            final(self).scroll == old(self).scroll,
    {
        self.show_headers = !self.show_headers;
    }
}

/// Scrolling down and then up by the same amount returns to the same position unless
/// the bottom stop was hit; scrolling up never goes above the top.
pub proof fn lemma_scroll_round_trip(scroll: u16, lines: u16)
    ensures
        scroll + lines <= u16::MAX ==> sub_floored(add_capped(scroll, lines), lines) == scroll,
        sub_floored(scroll, lines) <= scroll,
        add_capped(scroll, lines) >= scroll,
{
}

} // verus!
