//! Position arithmetic for the single selection of a result list of
//! `n_items` rows, whose selected position may be out of range (a list
//! widget reports "no selection" as an out-of-range position).

use vstd::prelude::*;

verus! {

/// The position to act on: the selected one when it is in range, else the
/// first row; none for an empty list.
pub open spec fn current_position(n_items: u32, selected: u32) -> Option<u32> {
    if n_items == 0 {
        None
    } else if selected < n_items {
        Some(selected)
    } else {
        Some(0u32)
    }
}

/// The selected row if it is in range, else the first row; none for an
/// empty list.
pub fn selected_or_first(n_items: u32, selected: u32) -> (r: Option<u32>)
    ensures
        r == current_position(n_items, selected),
        r matches Some(p) ==> p < n_items,
{
    if n_items == 0 {
        return None;
    }
    if selected < n_items {
        Some(selected)
    } else {
        Some(0)
    }
}

/// The row to select when moving up: the one above the current row, the
/// first row staying put; none for an empty list.
pub fn select_prev(n_items: u32, selected: u32) -> (r: Option<u32>)
    ensures
        r == match current_position(n_items, selected) {
            Some(p) => Some(if p == 0 {
                0u32
            } else {
                (p - 1) as u32
            }),
            None => None,
        },
        r matches Some(p) ==> p < n_items,
{
    match selected_or_first(n_items, selected) {
        Some(current) => Some(
            if current == 0 {
                0
            } else {
                current - 1
            },
        ),
        None => None,
    }
}

/// The row to select when moving down: the one below the current row, the
/// last row staying put; none for an empty list.
pub fn select_next(n_items: u32, selected: u32) -> (r: Option<u32>)
    ensures
        r == match current_position(n_items, selected) {
            Some(p) => Some(if p + 1 < n_items {
                (p + 1) as u32
            } else {
                (n_items - 1) as u32
            }),
            None => None,
        },
        r matches Some(p) ==> p < n_items,
{
    match selected_or_first(n_items, selected) {
        Some(current) => {
            let next = current + 1;
            Some(
                if next < n_items {
                    next
                } else {
                    n_items - 1
                },
            )
        },
        None => None,
    }
}

} // verus!
