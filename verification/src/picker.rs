//! The screen color picker's data: a square grid of sampled pixels, the
//! events a picking session produces, and what the UI is told about them.

use vstd::prelude::*;

verus! {

/// A square of screen pixels centered on the cursor. `size` is odd; the
/// center entry is the color under the cursor. `rgb` holds row-major R,G,B
/// triples (`size * size * 3` bytes).
#[derive(Debug)]
pub struct GridSample {
    pub x: i32,
    pub y: i32,
    pub size: i32,
    pub rgb: Vec<u8>,
}

/// Byte offset of the middle pixel of a `size`×`size` grid.
pub open spec fn center_offset(size: int) -> int {
    (size * size) / 2 * 3
}

impl GridSample {
    /// The color of the middle pixel. The grid must hold that pixel, and its
    /// offset must fit in `i32` as the computation goes.
    pub fn center(&self) -> (c: (u8, u8, u8))
        requires
            0 <= self.size * self.size <= i32::MAX,
            center_offset(self.size as int) <= i32::MAX,
            center_offset(self.size as int) + 2 < self.rgb@.len(),
        ensures
            c == (
                self.rgb@[center_offset(self.size as int)],
                self.rgb@[center_offset(self.size as int) + 1],
                self.rgb@[center_offset(self.size as int) + 2],
            ),
    {
        let sq = self.size * self.size;
        let half = sq / 2;
        assert(half * 3 == center_offset(self.size as int));
        let i = (half * 3) as usize;
        (self.rgb[i], self.rgb[i + 1], self.rgb[i + 2])
    }
}

/// In a grid of odd size the middle offset is that of the pixel at the middle
/// row and middle column: the color under the cursor.
pub proof fn law_center_is_middle_pixel(size: int)
    requires
        size > 0,
        size % 2 == 1,
    ensures
        center_offset(size) == ((size / 2) * size + size / 2) * 3,
{
    let h = size / 2;
    assert(size == 2 * h + 1);
    assert(size * size == 2 * (h * size + h) + 1) by (nonlinear_arith)
        requires
            size == 2 * h + 1,
    ;
}

/// What a picking session reports.
#[derive(Debug)]
pub enum PickerEvent {
    /// Cursor moved (or first tick): live preview payload.
    Move(GridSample),
    /// Left click: final sample, taken at the click coordinates.
    Picked(GridSample),
    /// Esc or right click.
    Cancelled,
}

/// Live preview sent to the picker overlay.
#[derive(Clone, Debug)]
pub struct MovePayload {
    pub x: i32,
    pub y: i32,
    pub size: i32,
    pub rgb: Vec<u8>,
}

/// The picked color.
#[derive(Clone, Copy, Debug)]
pub struct PickedPayload {
    pub r: u8,
    pub g: u8,
    pub b: u8,
}

/// Where a pick's result is announced: in place (`color:picked` /
/// `color:cancelled`) or, for a pick the color hotkey started, on the Colors
/// page (`colors:open`, with or without a color).
pub open spec fn pick_event_name(picked: bool, to_colors: bool) -> Seq<char> {
    if to_colors {
        "colors:open"@
    } else if picked {
        "color:picked"@
    } else {
        "color:cancelled"@
    }
}

/// The event that announces a finished pick, and its color.
pub fn pick_outcome(picked: Option<(u8, u8, u8)>, to_colors: bool) -> (r: (&'static str, Option<
    PickedPayload,
>))
    ensures
        r.0@ == pick_event_name(picked is Some, to_colors),
        match picked {
            Some(c) => r.1 matches Some(p) && p.r == c.0 && p.g == c.1 && p.b == c.2,
            None => r.1 is None,
        },
{
    let payload = match picked {
        Some((r, g, b)) => Some(PickedPayload { r, g, b }),
        None => None,
    };
    let name = if to_colors {
        "colors:open"
    } else if picked.is_some() {
        "color:picked"
    } else {
        "color:cancelled"
    };
    (name, payload)
}

/// What the picker loop does with one event.
#[derive(Debug)]
pub enum PickerStep {
    /// Show this preview and keep going.
    Preview(MovePayload),
    /// The session is over, with the picked color if any.
    Finish(Option<(u8, u8, u8)>),
}

/// One step of the picker loop: a move previews its grid, a click finishes
/// with the grid's middle color, a cancel finishes with none.
pub fn picker_step(ev: PickerEvent) -> (s: PickerStep)
    requires
        ev matches PickerEvent::Picked(g) ==> 0 <= g.size * g.size <= i32::MAX && center_offset(
            g.size as int,
        ) <= i32::MAX && center_offset(g.size as int) + 2 < g.rgb@.len(),
    ensures
        match ev {
            PickerEvent::Move(g) => s matches PickerStep::Preview(p) && p.x == g.x && p.y == g.y
                && p.size == g.size && p.rgb@ == g.rgb@,
            PickerEvent::Picked(g) => s matches PickerStep::Finish(Some(c)) && c == (
                g.rgb@[center_offset(g.size as int)],
                g.rgb@[center_offset(g.size as int) + 1],
                g.rgb@[center_offset(g.size as int) + 2],
            ),
            PickerEvent::Cancelled => s matches PickerStep::Finish(None),
        },
{
    match ev {
        PickerEvent::Move(g) => PickerStep::Preview(
            MovePayload { x: g.x, y: g.y, size: g.size, rgb: g.rgb },
        ),
        PickerEvent::Picked(g) => PickerStep::Finish(Some(g.center())),
        PickerEvent::Cancelled => PickerStep::Finish(None),
    }
}


/// Pixel `k` of a BGRA buffer as R, G, B: the buffer's bytes `4k + 2`,
/// `4k + 1` and `4k`.
pub open spec fn is_rgb_of_bgra(rgb: Seq<u8>, bgra: Seq<u8>) -> bool {
    &&& rgb.len() == 3 * (bgra.len() / 4)
    &&& forall|k: int|
        0 <= k < bgra.len() / 4 ==> {
            &&& #[trigger] rgb[3 * k] == bgra[4 * k + 2]
            &&& rgb[3 * k + 1] == bgra[4 * k + 1]
            &&& rgb[3 * k + 2] == bgra[4 * k]
        }
}

/// The R, G, B triples of the whole pixels of a screen capture stored as
/// B, G, R, A bytes (a trailing partial pixel is ignored).
pub fn bgra_to_rgb(bgra: &Vec<u8>) -> (rgb: Vec<u8>)
    ensures
        is_rgb_of_bgra(rgb@, bgra@),
{
    let n = bgra.len() / 4;
    let mut rgb: Vec<u8> = Vec::new();
    let mut k: usize = 0;
    while k < n
        invariant
            n == bgra@.len() / 4,
            bgra@.len() <= usize::MAX,
            k <= n,
            rgb@.len() == 3 * k,
            forall|j: int|
                0 <= j < k ==> {
                    &&& #[trigger] rgb@[3 * j] == bgra@[4 * j + 2]
                    &&& rgb@[3 * j + 1] == bgra@[4 * j + 1]
                    &&& rgb@[3 * j + 2] == bgra@[4 * j]
                },
        decreases n - k,
    {
        let ghost before = rgb@;
        assert(4 * k + 3 < bgra@.len()) by (nonlinear_arith)
            requires
                k < n,
                n == bgra@.len() / 4,
        ;
        rgb.push(bgra[4 * k + 2]);
        rgb.push(bgra[4 * k + 1]);
        rgb.push(bgra[4 * k]);
        assert forall|j: int| 0 <= j < k + 1 implies {
            &&& #[trigger] rgb@[3 * j] == bgra@[4 * j + 2]
            &&& rgb@[3 * j + 1] == bgra@[4 * j + 1]
            &&& rgb@[3 * j + 2] == bgra@[4 * j]
        } by {
            if j < k {
                assert(rgb@[3 * j] == before[3 * j]);
                assert(rgb@[3 * j + 1] == before[3 * j + 1]);
                assert(rgb@[3 * j + 2] == before[3 * j + 2]);
            }
        }
        k += 1;
    }
    assert(rgb@.len() == 3 * (bgra@.len() / 4));
    rgb
}

} // verus!
