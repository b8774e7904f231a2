//! Where a small window (the radial picker, the color readout) goes next to
//! the cursor: below-right of it, flipped to the other side when there is no
//! room, and clamped so it stays on the cursor's monitor.

use vstd::prelude::*;

verus! {

/// A monitor's top-left corner and size, in physical pixels.
#[derive(Clone, Copy, Debug)]
pub struct MonitorArea {
    pub x: i32,
    pub y: i32,
    pub width: u32,
    pub height: u32,
}

pub open spec fn fits_i32(v: int) -> bool {
    i32::MIN <= v <= i32::MAX
}

pub open spec fn clamp_int(v: int, lo: int, hi: int) -> int {
    if v < lo {
        lo
    } else if v > hi {
        hi
    } else {
        v
    }
}

pub open spec fn max_int(a: int, b: int) -> int {
    if a >= b {
        a
    } else {
        b
    }
}

/// One axis of the placement: `c + offset`, flipped to `c - offset - len`
/// when it would run past `hi`, then clamped into `[lo, max(hi - len, lo)]`.
pub open spec fn place_axis(c: int, len: int, offset: int, lo: int, hi: int) -> int {
    let p = if c + offset + len > hi {
        c - offset - len
    } else {
        c + offset
    };
    clamp_int(p, lo, max_int(hi - len, lo))
}

/// The window's top-left corner for a cursor at `(cx, cy)`: below-right by
/// `offset`; with a monitor, adjusted on each axis by [`place_axis`].
pub open spec fn spec_place(cx: int, cy: int, w: int, h: int, offset: int, mon: Option<
    MonitorArea,
>) -> (int, int) {
    match mon {
        Some(m) => (
            place_axis(cx, w, offset, m.x as int, m.x + (m.width as i32)),
            place_axis(cy, h, offset, m.y as int, m.y + (m.height as i32)),
        ),
        None => (cx + offset, cy + offset),
    }
}

/// The arithmetic stays within `i32` (where the computation would overflow,
/// it panics).
pub open spec fn placement_fits(cx: int, cy: int, w: int, h: int, offset: int, mon: Option<
    MonitorArea,
>) -> bool {
    &&& fits_i32(cx + offset) && fits_i32(cy + offset)
    &&& match mon {
        Some(m) => {
            let right = m.x + (m.width as i32);
            let bottom = m.y + (m.height as i32);
            &&& fits_i32(right) && fits_i32(bottom)
            &&& fits_i32(cx + offset + w) && fits_i32(cy + offset + h)
            &&& (cx + offset + w > right ==> fits_i32(cx - offset) && fits_i32(cx - offset - w))
            &&& (cy + offset + h > bottom ==> fits_i32(cy - offset) && fits_i32(cy - offset - h))
            &&& fits_i32(right - w) && fits_i32(bottom - h)
        },
        None => true,
    }
}

fn place_axis_exec(c: i32, len: i32, offset: i32, lo: i32, hi: i32) -> (p: i32)
    requires
        fits_i32(c + offset),
        fits_i32(c + offset + len),
        c + offset + len > hi ==> fits_i32(c - offset) && fits_i32(c - offset - len),
        fits_i32(hi - len),
    ensures
        p == place_axis(c as int, len as int, offset as int, lo as int, hi as int),
{
    let mut p = c + offset;
    if p + len > hi {
        p = c - offset - len;
    }
    let top = if hi - len >= lo {
        hi - len
    } else {
        lo
    };
    if p < lo {
        lo
    } else if p > top {
        top
    } else {
        p
    }
}

/// Places a `w`×`h` window next to the cursor (see [`spec_place`]).
pub fn place_near_cursor(cx: i32, cy: i32, w: i32, h: i32, offset: i32, mon: Option<MonitorArea>) -> (r: (
    i32,
    i32,
))
    requires
        placement_fits(cx as int, cy as int, w as int, h as int, offset as int, mon),
    ensures
        r.0 == spec_place(cx as int, cy as int, w as int, h as int, offset as int, mon).0,
        r.1 == spec_place(cx as int, cy as int, w as int, h as int, offset as int, mon).1,
{
    match mon {
        Some(m) => {
            let right = m.x + m.width as i32;
            let bottom = m.y + m.height as i32;
            (
                place_axis_exec(cx, w, offset, m.x, right),
                place_axis_exec(cy, h, offset, m.y, bottom),
            )
        },
        None => (cx + offset, cy + offset),
    }
}

/// A window no larger than its monitor is placed wholly on that monitor,
/// wherever the cursor is.
pub proof fn law_placement_stays_on_monitor(c: int, len: int, offset: int, lo: int, hi: int)
    requires
        0 <= len <= hi - lo,
    ensures
        lo <= place_axis(c, len, offset, lo, hi),
        place_axis(c, len, offset, lo, hi) + len <= hi,
{
}


/// `a / d` rounded toward zero, as integer division does.
pub open spec fn tdiv(a: int, d: int) -> int {
    if a >= 0 {
        a / d
    } else {
        -((-a) / d)
    }
}

/// The start of a `len`-long span placed in `[lo, lo + extent)` so that the
/// room left over is split `1 : d - 1` before and after it.
pub open spec fn centred(lo: int, extent: int, len: int, d: int) -> int {
    lo + tdiv(extent - len, d)
}

fn centred_axis(lo: i32, extent: u32, len: i32, d: u64) -> (p: i32)
    requires
        d == 2 || d == 3,
        fits_i32((extent as i32) - len),
        fits_i32(centred(lo as int, (extent as i32) as int, len as int, d as int)),
    ensures
        p == centred(lo as int, (extent as i32) as int, len as int, d as int),
{
    let room: i64 = (extent as i32) as i64 - len as i64;
    let q: i64 = if room >= 0 {
        ((room as u64) / d) as i64
    } else {
        -((((-room) as u64) / d) as i64)
    };
    (lo as i64 + q) as i32
}

/// Centring a window on a monitor stays within `i32`.
pub open spec fn centring_fits(m: MonitorArea, w: int, h: int, dy: int) -> bool {
    &&& fits_i32((m.width as i32) - w)
    &&& fits_i32((m.height as i32) - h)
    &&& fits_i32(centred(m.x as int, (m.width as i32) as int, w, 2))
    &&& fits_i32(centred(m.y as int, (m.height as i32) as int, h, dy))
}

/// Where a `w`×`h` window goes centred on monitor `m` (the radial picker's
/// place when the cursor cannot be read).
pub fn center_on_monitor(m: MonitorArea, w: i32, h: i32) -> (r: (i32, i32))
    requires
        centring_fits(m, w as int, h as int, 2),
    ensures
        r.0 == centred(m.x as int, (m.width as i32) as int, w as int, 2),
        r.1 == centred(m.y as int, (m.height as i32) as int, h as int, 2),
{
    (centred_axis(m.x, m.width, w, 2), centred_axis(m.y, m.height, h, 2))
}

/// Where the palette goes on monitor `m`: centred across, and a third of the
/// spare height from the top (it reads better high).
pub fn palette_position(m: MonitorArea, w: i32, h: i32) -> (r: (i32, i32))
    requires
        centring_fits(m, w as int, h as int, 3),
    ensures
        r.0 == centred(m.x as int, (m.width as i32) as int, w as int, 2),
        r.1 == centred(m.y as int, (m.height as i32) as int, h as int, 3),
{
    (centred_axis(m.x, m.width, w, 2), centred_axis(m.y, m.height, h, 3))
}

/// A window no larger than its monitor, centred on it, lies wholly on it.
pub proof fn law_centred_stays_on_monitor(lo: int, extent: int, len: int, d: int)
    requires
        0 <= len <= extent,
        d == 2 || d == 3,
    ensures
        lo <= centred(lo, extent, len, d),
        centred(lo, extent, len, d) + len <= lo + extent,
{
    assert((extent - len) / d <= extent - len) by (nonlinear_arith)
        requires
            extent - len >= 0,
            d >= 2,
    ;
}

} // verus!
