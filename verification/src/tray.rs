//! The tray icon of the background daemon: what a click on its menu does,
//! and the icon itself, a small solid cloud-blue circle drawn pixel by
//! pixel so there is no image to ship.

use vstd::prelude::*;

verus! {

/// What a menu click asks for.
#[derive(Debug, Clone, Copy, PartialEq, Eq, Structural)]
pub enum MenuAction {
    SyncNow,
    TogglePause,
    OpenWindow,
    Quit,
    /// A click on no entry of this menu.
    Nothing,
}

/// The identifiers the toolkit gave the four menu entries.
#[derive(Debug, Clone)]
pub struct MenuIds {
    pub sync_now: String,
    pub pause: String,
    pub open: String,
    pub quit: String,
}

impl MenuIds {
    /// The entry a click with identifier `id` landed on, the first that
    /// matches in menu order.
    pub fn action(&self, id: &str) -> (r: MenuAction)
        ensures
            r == (if id@ == self.sync_now@ {
                MenuAction::SyncNow
            } else if id@ == self.pause@ {
                MenuAction::TogglePause
            } else if id@ == self.open@ {
                MenuAction::OpenWindow
            } else if id@ == self.quit@ {
                MenuAction::Quit
            } else {
                MenuAction::Nothing
            }),
    {
        let id = id.to_owned();
        if id == self.sync_now {
            MenuAction::SyncNow
        } else if id == self.pause {
            MenuAction::TogglePause
        } else if id == self.open {
            MenuAction::OpenWindow
        } else if id == self.quit {
            MenuAction::Quit
        } else {
            MenuAction::Nothing
        }
    }
}

// ---------------------------------------------------------------------------
// The icon
// ---------------------------------------------------------------------------

/// Width and height of the icon, in pixels.
pub const ICON_SIZE: u32 = 32;

/// Whether the centre of pixel (`x`, `y`) lies within the circle of radius
/// 14 about the icon's centre: `(x + 1/2 - 16)² + (y + 1/2 - 16)² <= 14²`,
/// here multiplied by four to stay in integers.
pub open spec fn inside_circle(x: int, y: int) -> bool {
    (2 * x - 31) * (2 * x - 31) + (2 * y - 31) * (2 * y - 31) <= 784
}

/// Byte `k` of the icon's RGBA buffer (rows top to bottom, four bytes per
/// pixel): the cloud blue, opaque, inside the circle, transparent black
/// outside it.
pub open spec fn icon_byte(k: int) -> u8 {
    let p = k / 4;
    if inside_circle(p % 32, p / 32) {
        let c = k % 4;
        if c == 0 {
            70u8
        } else if c == 1 {
            140u8
        } else if c == 2 {
            220u8
        } else {
            255u8
        }
    } else {
        0u8
    }
}

fn inside_circle_exec(x: u32, y: u32) -> (r: bool)
    requires
        x < 32,
        y < 32,
    ensures
        r == inside_circle(x as int, y as int),
{
    let dx: i64 = 2 * (x as i64) - 31;
    let dy: i64 = 2 * (y as i64) - 31;
    assert(0 <= dx * dx <= 961 && 0 <= dy * dy <= 961) by (nonlinear_arith)
        requires
            -31 <= dx <= 31,
            -31 <= dy <= 31,
    ;
    dx * dx + dy * dy <= 784
}

/// The icon's pixels, 32 by 32, as RGBA bytes.
pub fn icon_rgba() -> (r: Vec<u8>)
    ensures
        r@.len() == 4096,
        forall|k: int| 0 <= k < 4096 ==> #[trigger] r@[k] == icon_byte(k),
{
    let mut rgba: Vec<u8> = Vec::new();
    let mut y: u32 = 0;
    while y < ICON_SIZE
        invariant
            y <= 32,
            rgba@.len() == 128 * y,
            forall|k: int| 0 <= k < rgba@.len() ==> #[trigger] rgba@[k] == icon_byte(k),
        decreases 32 - y,
    {
        let mut x: u32 = 0;
        while x < ICON_SIZE
            invariant
                y < 32,
                x <= 32,
                rgba@.len() == 128 * y + 4 * x,
                forall|k: int| 0 <= k < rgba@.len() ==> #[trigger] rgba@[k] == icon_byte(k),
            decreases 32 - x,
        {
            let inside = inside_circle_exec(x, y);
            let ghost base: int = 128 * y + 4 * x;
            assert(forall|c: int| 0 <= c < 4 ==> #[trigger] ((base + c) / 4) == 32 * y + x && (base + c) % 4 == c)
                by (nonlinear_arith)
                requires
                    base == 128 * y + 4 * x,
            ;
            assert((32 * y + x) % 32 == x && (32 * y + x) / 32 == y) by (nonlinear_arith)
                requires
                    x < 32,
            ;
            if inside {
                rgba.push(70);
                rgba.push(140);
                rgba.push(220);
                rgba.push(255);
            } else {
                rgba.push(0);
                rgba.push(0);
                rgba.push(0);
                rgba.push(0);
            }
            assert forall|k: int| 0 <= k < rgba@.len() implies #[trigger] rgba@[k] == icon_byte(k) by {
                if k >= base {
                    assert((k / 4) == 32 * y + x && k % 4 == k - base);
                }
            }
            x = x + 1;
        }
        y = y + 1;
    }
    rgba
}

} // verus!
