//! Moving a list selection: the selected row, if any, of a list of `len` rows.
use vstd::prelude::*;

verus! {

/// The selection after cycling `offset` rows forward from `selected` (no selection
/// counts as row 0) in a list of `len` rows; no selection in an empty list.
pub open spec fn cycled(selected: Option<usize>, len: nat, offset: nat) -> Option<usize> {
    if len == 0 {
        None
    } else {
        let start: int = match selected {
            Some(i) => i as int,
            None => 0,
        };
        Some(((start + offset) % (len as int)) as usize)
    }
}

/// The selection that `clamp_selection` leaves.
pub open spec fn clamped(selected: Option<usize>, len: nat) -> Option<usize> {
    if len == 0 {
        None
    } else {
        match selected {
            Some(i) => Some(if i < len { i } else { (len - 1) as usize }),
            None => Some(0),
        }
    }
}

/// The row one step below (`offset` 1) or above (`offset` `len - 1`) the selection,
/// wrapping around at either end.
pub fn cycled_index(selected: Option<usize>, len: usize, offset: usize) -> (r: Option<usize>)
    ensures
        r == cycled(selected, len as nat, offset as nat),
        r matches Some(i) ==> i < len,
{
    if len == 0 {
        return None;
    }
    let start: usize = match selected {
        Some(i) => i,
        None => 0,
    };
    let a = start % len;
    let b = offset % len;
    let sum = if a >= len - b {
        a - (len - b)
    } else {
        a + b
    };
    proof {
        let s = start as int;
        let o = offset as int;
        let n = len as int;
        assert(a as int == s % n);
        assert(b as int == o % n);
        vstd::arithmetic::div_mod::lemma_add_mod_noop(s, o, n);
        if a >= len - b {
            vstd::arithmetic::div_mod::lemma_mod_add_multiples_vanish(a + b - n, n);
            assert((a + b - n + n) % n == (a + b - n) % n);
            vstd::arithmetic::div_mod::lemma_small_mod((a + b - n) as nat, n as nat);
        } else {
            vstd::arithmetic::div_mod::lemma_small_mod((a + b) as nat, n as nat);
        }
    }
    Some(sum)
}

/// Select the first row when the list has any, else nothing.
pub fn select_first_when_present(state: &mut Option<usize>, len: usize)
    ensures
        *final(state) == (if len > 0 {
            Some(0usize)
        } else {
            None
        }),
{
    *state = if len > 0 {
        Some(0)
    } else {
        None
    };
}

/// Keep the selection inside a list of `len` rows: nothing when the list is empty,
/// the last row when the selection is past its end, the first row when nothing was
/// selected.
pub fn clamp_selection(state: &mut Option<usize>, len: usize)
    ensures
        *final(state) == clamped(*old(state), len as nat),
{
    *state = if len == 0 {
        None
    } else {
        match *state {
            Some(index) => Some(if index < len {
                index
            } else {
                len - 1
            }),
            None => Some(0),
        }
    };
}

/// Select the next row, wrapping from the last to the first.
pub fn next(state: &mut Option<usize>, len: usize)
    ensures
        *final(state) == cycled(*old(state), len as nat, 1),
        *final(state) matches Some(i) ==> i < len,
{
    *state = cycled_index(*state, len, 1);
}

/// Select the previous row, wrapping from the first to the last.
pub fn previous(state: &mut Option<usize>, len: usize)
    ensures
        *final(state) == cycled(
            *old(state),
            len as nat,
            (if len > 0 {
                len - 1
            } else {
                0
            }) as nat,
        ),
        *final(state) matches Some(i) ==> i < len,
{
    *state = cycled_index(*state, len, len.saturating_sub(1));
}

/// Moving down and then up (or up and then down) comes back to the selected row.
pub proof fn lemma_next_previous_inverse(i: usize, len: usize)
    requires
        i < len,
    ensures
        cycled(cycled(Some(i), len as nat, 1), len as nat, (len - 1) as nat) == Some(i),
        cycled(cycled(Some(i), len as nat, (len - 1) as nat), len as nat, 1) == Some(i),
{
    let n = len as int;
    if i + 1 < n {
        vstd::arithmetic::div_mod::lemma_small_mod((i + 1) as nat, n as nat);
        assert(cycled(Some(i), len as nat, 1) == Some((i + 1) as usize));
        vstd::arithmetic::div_mod::lemma_mod_add_multiples_vanish(i as int, n);
        vstd::arithmetic::div_mod::lemma_small_mod(i as nat, n as nat);
        assert((i + 1 + (n - 1)) % n == i);
    } else {
        vstd::arithmetic::div_mod::lemma_mod_self_0(n);
        assert(cycled(Some(i), len as nat, 1) == Some(0usize));
        vstd::arithmetic::div_mod::lemma_small_mod((n - 1) as nat, n as nat);
        assert((0 + (n - 1)) % n == i);
    }
    if i == 0 {
        vstd::arithmetic::div_mod::lemma_small_mod((n - 1) as nat, n as nat);
        assert(cycled(Some(i), len as nat, (len - 1) as nat) == Some((len - 1) as usize));
        vstd::arithmetic::div_mod::lemma_mod_self_0(n);
        assert((n - 1 + 1) % n == 0);
    } else {
        vstd::arithmetic::div_mod::lemma_mod_add_multiples_vanish(i - 1, n);
        vstd::arithmetic::div_mod::lemma_small_mod((i - 1) as nat, n as nat);
        assert((i + (n - 1)) % n == i - 1);
        assert(cycled(Some(i), len as nat, (len - 1) as nat) == Some((i - 1) as usize));
        vstd::arithmetic::div_mod::lemma_small_mod(i as nat, n as nat);
        assert((i - 1 + 1) % n == i);
    }
}

} // verus!
