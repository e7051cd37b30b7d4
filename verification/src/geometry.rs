//! Where the paste window and the toast appear: next to the cursor or the
//! tray icon, always kept inside the monitor's work area.

use vstd::prelude::*;

verus! {

/// A window's top-left corner in physical pixels.
#[derive(Clone, Copy, PartialEq, Eq, Structural, Debug)]
pub struct WindowPosition {
    pub x: i32,
    pub y: i32,
}

pub open spec fn fits_i32(v: int) -> bool {
    i32::MIN <= v <= i32::MAX
}

/// `v.clamp(lo, hi)` for `lo <= hi`.
pub open spec fn clamp(v: int, lo: int, hi: int) -> int {
    if v < lo {
        lo
    } else if v > hi {
        hi
    } else {
        v
    }
}

pub open spec fn max_int(a: int, b: int) -> int {
    if a >= b {
        a
    } else {
        b
    }
}

fn clamp_i64(v: i64, lo: i64, hi: i64) -> (r: i64)
    requires
        lo <= hi,
    ensures
        r == clamp(v as int, lo as int, hi as int),
{
    if v < lo {
        lo
    } else if v > hi {
        hi
    } else {
        v
    }
}

fn max_i64(a: i64, b: i64) -> (r: i64)
    ensures
        r == max_int(a as int, b as int),
{
    if a >= b {
        a
    } else {
        b
    }
}

// ---------------------------------------------------------------------------
// Paste window next to the cursor
// ---------------------------------------------------------------------------

/// Every intermediate value of the paste-window placement fits in `i32`.
pub open spec fn history_inputs_fit(
    cursor_x: int,
    cursor_y: int,
    work_x: int,
    work_y: int,
    work_width: int,
    work_height: int,
    window_width: int,
    window_height: int,
) -> bool {
    &&& work_width <= i32::MAX && work_height <= i32::MAX
    &&& window_width <= i32::MAX && window_height <= i32::MAX
    &&& fits_i32(work_x + 8) && fits_i32(work_y + 8)
    &&& fits_i32(work_x + work_width) && fits_i32(work_x + work_width - window_width)
    &&& fits_i32(work_x + work_width - window_width - 8)
    &&& fits_i32(work_y + work_height) && fits_i32(work_y + work_height - window_height)
    &&& fits_i32(work_y + work_height - window_height - 8)
    &&& fits_i32(cursor_x - window_width / 2)
    &&& fits_i32(cursor_y + 12) && fits_i32(cursor_y - window_height)
    &&& fits_i32(cursor_y - window_height - 12)
}

/// The paste window centred under the cursor, moved above it when there is
/// no room below, and clamped into the work area less an 8-pixel margin.
pub open spec fn history_position_of(
    cursor_x: int,
    cursor_y: int,
    work_x: int,
    work_y: int,
    work_width: int,
    work_height: int,
    window_width: int,
    window_height: int,
) -> (int, int) {
    let min_x = work_x + 8;
    let min_y = work_y + 8;
    let max_x = max_int(work_x + work_width - window_width - 8, min_x);
    let max_y = max_int(work_y + work_height - window_height - 8, min_y);
    let below = cursor_y + 12;
    let preferred_y = if below <= max_y {
        below
    } else {
        cursor_y - window_height - 12
    };
    (clamp(cursor_x - window_width / 2, min_x, max_x), clamp(preferred_y, min_y, max_y))
}

/// Where the paste window opens. When the
/// window fits into the work area with its margins, it lies entirely inside.
pub fn calculate_history_position(
    cursor_x: i32,
    cursor_y: i32,
    work_x: i32,
    work_y: i32,
    work_width: u32,
    work_height: u32,
    window_width: u32,
    window_height: u32,
) -> (p: WindowPosition)
    requires
        history_inputs_fit(
            cursor_x as int,
            cursor_y as int,
            work_x as int,
            work_y as int,
            work_width as int,
            work_height as int,
            window_width as int,
            window_height as int,
        ),
    ensures
        (p.x as int, p.y as int) == history_position_of(
            cursor_x as int,
            cursor_y as int,
            work_x as int,
            work_y as int,
            work_width as int,
            work_height as int,
            window_width as int,
            window_height as int,
        ),
        p.x >= work_x + 8,
        p.y >= work_y + 8,
        window_width + 16 <= work_width ==> p.x + window_width <= work_x + work_width - 8,
        window_height + 16 <= work_height ==> p.y + window_height <= work_y + work_height - 8,
{
    let width = window_width as i64;
    let height = window_height as i64;
    let wx = work_x as i64;
    let wy = work_y as i64;
    let min_x = wx + 8;
    let min_y = wy + 8;
    let max_x = max_i64(wx + work_width as i64 - width - 8, min_x);
    let max_y = max_i64(wy + work_height as i64 - height - 8, min_y);
    let x = clamp_i64(cursor_x as i64 - width / 2, min_x, max_x);
    let below = cursor_y as i64 + 12;
    let preferred_y = if below <= max_y {
        below
    } else {
        cursor_y as i64 - height - 12
    };
    let y = clamp_i64(preferred_y, min_y, max_y);
    WindowPosition { x: x as i32, y: y as i32 }
}

// ---------------------------------------------------------------------------
// Toast next to the tray icon
// ---------------------------------------------------------------------------

/// Every intermediate value of the toast placement fits in `i32`.
pub open spec fn toast_inputs_fit(
    tray_x: int,
    tray_y: int,
    tray_width: int,
    tray_height: int,
    work_x: int,
    work_y: int,
    work_width: int,
    work_height: int,
    window_width: int,
    window_height: int,
) -> bool {
    &&& tray_width <= i32::MAX && tray_height <= i32::MAX
    &&& work_width <= i32::MAX && work_height <= i32::MAX
    &&& window_width <= i32::MAX && window_height <= i32::MAX
    &&& fits_i32(work_x + work_width) && fits_i32(work_y + work_height)
    &&& fits_i32(tray_x + tray_width) && fits_i32(tray_y + tray_height)
    &&& fits_i32(tray_x + tray_width / 2) && fits_i32(tray_x + tray_width / 2 - window_width / 2)
    &&& fits_i32(tray_y + tray_height / 2) && fits_i32(tray_y + tray_height / 2 - window_height / 2)
    &&& fits_i32(work_y + work_height - 4) && fits_i32(work_y + 4)
    &&& fits_i32(work_x + work_width - 4) && fits_i32(work_x + 4)
    &&& fits_i32(tray_y - window_height) && fits_i32(tray_y - window_height - 8)
    &&& fits_i32(tray_y + tray_height + 8)
    &&& fits_i32(tray_x - window_width) && fits_i32(tray_x - window_width - 8)
    &&& fits_i32(tray_x + tray_width + 8)
    &&& fits_i32(work_x + work_width - window_width) && fits_i32(work_x + work_width - window_width - 8)
    &&& fits_i32(work_x + 8)
    &&& fits_i32(work_y + work_height - window_height) && fits_i32(work_y + work_height - window_height - 8)
    &&& fits_i32(work_y + 8)
}

/// The toast beside the tray: above a bottom tray, below a top tray, left of
/// a right tray, right of a left tray (above it otherwise), then clamped into
/// the work area less an 8-pixel margin.
pub open spec fn toast_position_of(
    tray_x: int,
    tray_y: int,
    tray_width: int,
    tray_height: int,
    work_x: int,
    work_y: int,
    work_width: int,
    work_height: int,
    window_width: int,
    window_height: int,
) -> (int, int) {
    let work_right = work_x + work_width;
    let work_bottom = work_y + work_height;
    let tray_right = tray_x + tray_width;
    let tray_bottom = tray_y + tray_height;
    let centered_x = tray_x + tray_width / 2 - window_width / 2;
    let centered_y = tray_y + tray_height / 2 - window_height / 2;
    let (x, y) = if tray_y >= work_bottom - 4 {
        (centered_x, tray_y - window_height - 8)
    } else if tray_bottom <= work_y + 4 {
        (centered_x, tray_bottom + 8)
    } else if tray_x >= work_right - 4 {
        (tray_x - window_width - 8, centered_y)
    } else if tray_right <= work_x + 4 {
        (tray_right + 8, centered_y)
    } else {
        (centered_x, tray_y - window_height - 8)
    };
    let max_x = max_int(work_right - window_width - 8, work_x + 8);
    let max_y = max_int(work_bottom - window_height - 8, work_y + 8);
    (clamp(x, work_x + 8, max_x), clamp(y, work_y + 8, max_y))
}

/// Where the tray toast opens. When the toast
/// fits into the work area with its margins, it lies entirely inside.
pub fn calculate_toast_position(
    tray_x: i32,
    tray_y: i32,
    tray_width: u32,
    tray_height: u32,
    work_x: i32,
    work_y: i32,
    work_width: u32,
    work_height: u32,
    window_width: u32,
    window_height: u32,
) -> (p: WindowPosition)
    requires
        toast_inputs_fit(
            tray_x as int,
            tray_y as int,
            tray_width as int,
            tray_height as int,
            work_x as int,
            work_y as int,
            work_width as int,
            work_height as int,
            window_width as int,
            window_height as int,
        ),
    ensures
        (p.x as int, p.y as int) == toast_position_of(
            tray_x as int,
            tray_y as int,
            tray_width as int,
            tray_height as int,
            work_x as int,
            work_y as int,
            work_width as int,
            work_height as int,
            window_width as int,
            window_height as int,
        ),
        p.x >= work_x + 8,
        p.y >= work_y + 8,
        window_width + 16 <= work_width ==> p.x + window_width <= work_x + work_width - 8,
        window_height + 16 <= work_height ==> p.y + window_height <= work_y + work_height - 8,
{
    let tw = tray_width as i64;
    let th = tray_height as i64;
    let ww = window_width as i64;
    let wh = window_height as i64;
    let tx = tray_x as i64;
    let ty = tray_y as i64;
    let wx = work_x as i64;
    let wy = work_y as i64;
    let work_right = wx + work_width as i64;
    let work_bottom = wy + work_height as i64;
    let tray_right = tx + tw;
    let tray_bottom = ty + th;
    let centered_x = tx + tw / 2 - ww / 2;
    let centered_y = ty + th / 2 - wh / 2;
    let (x, y) = if ty >= work_bottom - 4 {
        (centered_x, ty - wh - 8)
    } else if tray_bottom <= wy + 4 {
        (centered_x, tray_bottom + 8)
    } else if tx >= work_right - 4 {
        (tx - ww - 8, centered_y)
    } else if tray_right <= wx + 4 {
        (tray_right + 8, centered_y)
    } else {
        (centered_x, ty - wh - 8)
    };
    let max_x = max_i64(work_right - ww - 8, wx + 8);
    let max_y = max_i64(work_bottom - wh - 8, wy + 8);
    let cx = clamp_i64(x, wx + 8, max_x);
    let cy = clamp_i64(y, wy + 8, max_y);
    WindowPosition { x: cx as i32, y: cy as i32 }
}

} // verus!

verus! {

// ---------------------------------------------------------------------------
// Focus and polling guards
// ---------------------------------------------------------------------------

/// How long the quick-paste window ignores losing focus after a drag starts.
pub const DRAG_FOCUS_GRACE_MS: u64 = 5000;

/// Until when a loss of focus of the quick-paste window is ignored: a drag
/// moves the focus around, and hiding the window then would end the drag.
pub struct PasteDragFocus {
    pub deadline_ms: Option<u64>,
}

impl PasteDragFocus {
    pub fn new() -> (g: PasteDragFocus)
        ensures
            g.deadline_ms is None,
    {
        PasteDragFocus { deadline_ms: None }
    }

    /// A window started a drag at `now_ms`: the
    /// quick-paste window gets the grace period, another window changes
    /// nothing.
    pub fn drag_started(&mut self, is_paste_window: bool, now_ms: u64)
        ensures
            is_paste_window ==> final(self).deadline_ms == Some(
                if now_ms + DRAG_FOCUS_GRACE_MS <= u64::MAX { (now_ms + DRAG_FOCUS_GRACE_MS) as u64 } else { u64::MAX },
            ),
            !is_paste_window ==> final(self).deadline_ms == old(self).deadline_ms,
    {
        if is_paste_window {
            self.deadline_ms = Some(now_ms.saturating_add(DRAG_FOCUS_GRACE_MS));
        }
    }

    /// The drag could not start, or the window got the focus back: nothing
    /// is ignored any more.
    pub fn clear(&mut self)
        ensures
            final(self).deadline_ms is None,
    {
        self.deadline_ms = None;
    }

    /// Whether a loss of focus at `now_ms` is ignored:
    /// only within the grace period; a
    /// period that is over is forgotten.
    pub fn ignores_focus_loss(&mut self, now_ms: u64) -> (ignore: bool)
        ensures
            ignore == (old(self).deadline_ms matches Some(d) && now_ms <= d),
            ignore ==> final(self).deadline_ms == old(self).deadline_ms,
            !ignore ==> final(self).deadline_ms is None,
    {
        match self.deadline_ms {
            Some(d) => {
                if now_ms <= d {
                    true
                } else {
                    self.deadline_ms = None;
                    false
                }
            },
            None => false,
        }
    }
}

/// A poll that reads sequence number `current` after `last`: skipped when
/// the clipboard did not change (zero means the number is unavailable, so
/// the poll runs); a poll that runs remembers the number.
pub open spec fn poll_step(last: u32, current: u32) -> (bool, u32) {
    if current != 0 && current == last {
        (true, last)
    } else {
        (false, current)
    }
}

/// The clipboard sequence number seen by the last poll.
pub struct ClipboardPollGate {
    pub sequence: u32,
}

impl ClipboardPollGate {
    pub fn new() -> (g: ClipboardPollGate)
        ensures
            g.sequence == 0,
    {
        ClipboardPollGate { sequence: 0 }
    }

    /// Whether a poll that reads sequence number `current` can be skipped.
    pub fn should_skip(&mut self, current: u32) -> (skip: bool)
        ensures
            (skip, final(self).sequence) == poll_step(old(self).sequence, current),
    {
        if current != 0 && current == self.sequence {
            return true;
        }
        self.sequence = current;
        false
    }
}

/// An unchanged clipboard is read once: once a poll ran, the next poll
/// that sees the same sequence number is skipped.
pub proof fn law_unchanged_clipboard_is_read_once(last: u32, current: u32)
    requires
        current != 0,
    ensures
        poll_step(poll_step(last, current).1, current).0,
{
}

} // verus!
