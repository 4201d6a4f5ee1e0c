//! List-navigation arithmetic for the selection screens: moving a selection
//! with wrap-around, and keeping it inside the visible window.

use vstd::prelude::*;

verus! {

/// Where a selection lands after moving by `delta` in a list of `len`
/// entries: past either end it wraps to the other.
pub open spec fn spec_wrap_index(current: int, delta: int, len: int) -> int {
    if len == 0 {
        0
    } else if current + delta < 0 {
        len - 1
    } else if current + delta >= len {
        0
    } else {
        current + delta
    }
}

/// Moves a selection index by `delta`, wrapping around the list.
pub fn wrap_index(current: usize, delta: i32, len: usize) -> (r: usize)
    requires
        current <= i32::MAX,
        len <= i32::MAX,
    ensures
        r == spec_wrap_index(current as int, delta as int, len as int),
{
    if len == 0 {
        return 0;
    }
    let new: i64 = current as i64 + delta as i64;
    if new < 0 {
        len - 1
    } else if new >= len as i64 {
        0
    } else {
        new as usize
    }
}

/// The scroll offset that keeps `selected` visible in a window of `height`
/// rows starting at `offset`: pulled up to the selection when it lies above,
/// pushed down just far enough when it lies below.
pub open spec fn spec_scrolled(offset: int, selected: int, visible_height: int) -> int {
    let pulled = if selected < offset {
        selected
    } else {
        offset
    };
    let height = if visible_height >= 1 {
        visible_height
    } else {
        1
    };
    if selected >= pulled + height {
        selected - (height - 1)
    } else {
        pulled
    }
}

/// Adjusts the scroll offset so the selected row stays within the window.
pub fn ensure_scroll(scroll_offset: &mut usize, selected: usize, visible_height: usize)
    ensures
        *final(scroll_offset) == spec_scrolled(
            *old(scroll_offset) as int,
            selected as int,
            visible_height as int,
        ),
{
    if selected < *scroll_offset {
        *scroll_offset = selected;
    }
    let height = if visible_height >= 1 {
        visible_height
    } else {
        1
    };
    if selected >= *scroll_offset && selected - *scroll_offset >= height {
        *scroll_offset = selected - (height - 1);
    }
}

} // verus!
