//! The size of the window at the start.

use vstd::prelude::*;

verus! {

/// The width of a screen whose size is not known.
pub const DEFAULT_WINDOW_WIDTH: u32 = 1920;

/// The height of a screen whose size is not known.
pub const DEFAULT_WINDOW_HEIGHT: u32 = 1080;

/// The least width of the window, where the screen allows it.
pub const MIN_WINDOW_WIDTH: u32 = 640;

/// The least height of the window, where the screen allows it.
pub const MIN_WINDOW_HEIGHT: u32 = 360;

/// Half of a length, to the nearest whole number; of two that are equally near, the larger one.
pub open spec fn half_of(n: nat) -> nat {
    (n + 1) / 2
}

/// Nine tenths of a length, to the nearest whole number; of two that are equally near, the larger
/// one.
pub open spec fn nine_tenths_of(n: nat) -> nat {
    (9 * n + 5) / 10
}

/// The height to a width at sixteen to nine, to the nearest whole number; of two that are equally
/// near, the larger one.
pub open spec fn height_to(width: nat) -> nat {
    (9 * width + 8) / 16
}

/// The width to a height at sixteen to nine, to the nearest whole number.
pub open spec fn width_to(height: nat) -> nat {
    (16 * height + 4) / 9
}

/// The width of the window before its height is limited: nine tenths of an upright screen, half
/// of any other.
pub open spec fn wanted_width(monitor_width: nat, monitor_height: nat) -> nat {
    if monitor_width < monitor_height {
        nine_tenths_of(monitor_width)
    } else {
        half_of(monitor_width)
    }
}

/// The most that the window is high: nine tenths of the screen, and at least one.
pub open spec fn height_limit(monitor_height: nat) -> nat {
    let h = nine_tenths_of(monitor_height);
    if h < 1 {
        1
    } else {
        h
    }
}

/// At least one.
pub open spec fn positive(n: nat) -> nat {
    if n < 1 {
        1
    } else {
        n
    }
}

/// The width and the height of the window: sixteen to nine, as large as the width of the screen
/// suggests and its height allows.
pub open spec fn window_size(monitor_width: nat, monitor_height: nat) -> (nat, nat) {
    let width = wanted_width(monitor_width, monitor_height);
    let height = height_to(width);
    let limit = height_limit(monitor_height);
    if height > limit {
        (positive(width_to(limit)), positive(limit))
    } else {
        (positive(width), positive(height))
    }
}

/// The width and the height of a window.
#[derive(Clone, Copy, Debug, PartialEq, Eq, Structural)]
pub struct WindowSize {
    pub width: u32,
    pub height: u32,
}

/// The width and the height of the window on a screen.
pub fn initial_window_size(monitor_width: u32, monitor_height: u32) -> (r: WindowSize)
    ensures
        (r.width as nat, r.height as nat) == window_size(
            monitor_width as nat,
            monitor_height as nat,
        ),
{
    let width: u64 = if monitor_width < monitor_height {
        (9 * monitor_width as u64 + 5) / 10
    } else {
        (monitor_width as u64 + 1) / 2
    };
    let height: u64 = (9 * width + 8) / 16;
    let most: u64 = (9 * monitor_height as u64 + 5) / 10;
    let limit: u64 = if most < 1 {
        1
    } else {
        most
    };
    if height > limit {
        let narrow: u64 = (16 * limit + 4) / 9;
        assert(narrow <= width);
        WindowSize {
            width: if narrow < 1 {
                1
            } else {
                narrow as u32
            },
            height: limit as u32,
        }
    } else {
        WindowSize {
            width: if width < 1 {
                1
            } else {
                width as u32
            },
            height: if height < 1 {
                1
            } else {
                height as u32
            },
        }
    }
}

/// A side of the window, at least `min` long and at most as long as that of the screen, which
/// counts as at least one; where the two disagree, the screen decides.
pub open spec fn clamped(value: u32, min: u32, monitor_max: u32) -> u32 {
    let max = if monitor_max < 1 {
        1
    } else {
        monitor_max
    };
    if value > max {
        max
    } else if value < min {
        if min < max {
            min
        } else {
            max
        }
    } else {
        value
    }
}

/// A side of the window within its limits.
pub fn clamp_window_dimension(value: u32, min: u32, monitor_max: u32) -> (r: u32)
    ensures
        r == clamped(value, min, monitor_max),
{
    let max: u32 = if monitor_max < 1 {
        1
    } else {
        monitor_max
    };
    let low: u32 = if min < max {
        min
    } else {
        max
    };
    let raised: u32 = if value < low {
        low
    } else {
        value
    };
    if raised > max {
        max
    } else {
        raised
    }
}

/// The size of the window at the start, on a screen whose size may not be known.
pub open spec fn startup_size(monitor: Option<(u32, u32)>) -> WindowSize {
    let (w, h) = match monitor {
        Some(size) => size,
        None => (DEFAULT_WINDOW_WIDTH, DEFAULT_WINDOW_HEIGHT),
    };
    let (width, height) = window_size(w as nat, h as nat);
    WindowSize {
        width: clamped(width as u32, MIN_WINDOW_WIDTH, w),
        height: clamped(height as u32, MIN_WINDOW_HEIGHT, h),
    }
}

/// The size of the window at the start.
pub fn startup_window_size(monitor: Option<(u32, u32)>) -> (r: WindowSize)
    ensures
        r == startup_size(monitor),
{
    let (w, h) = match monitor {
        Some(size) => size,
        None => (DEFAULT_WINDOW_WIDTH, DEFAULT_WINDOW_HEIGHT),
    };
    let size = initial_window_size(w, h);
    WindowSize {
        width: clamp_window_dimension(size.width, MIN_WINDOW_WIDTH, w),
        height: clamp_window_dimension(size.height, MIN_WINDOW_HEIGHT, h),
    }
}

/// The window is not empty, and not larger than a screen that is not; and it is at least 640 wide and 360
/// high, where the screen is; and no larger than that on a screen on which it would have been smaller.
pub proof fn law_window_fits_screen(width: u32, height: u32)
    ensures
        ({
            let size = startup_size(Some((width, height)));
            &&& size.width >= 1 && size.height >= 1
            &&& width >= 1 ==> size.width <= width
            &&& height >= 1 ==> size.height <= height
            &&& width >= 640 ==> size.width >= 640
            &&& height >= 360 ==> size.height >= 360
            &&& size.width <= 640 || 10 * size.width <= 9 * width + 5
            &&& size.height <= 360 || 10 * size.height <= 9 * height + 5
        }),
{
}

/// The window is sixteen to nine, to the nearest whole number. It is half as wide as a screen that is not
/// upright, or nine tenths as wide as one that is; unless it would be higher than nine tenths of the
/// screen, and then it is that high.
pub proof fn law_window_is_sixteen_to_nine(monitor_width: u32, monitor_height: u32)
    requires
        monitor_width >= 16,
        monitor_height >= 16,
    ensures
        ({
            let (w, h) = window_size(monitor_width as nat, monitor_height as nat);
            &&& -16 <= 16 * h - 9 * w <= 16
            &&& 10 * h <= 9 * monitor_height + 5
            &&& (if monitor_width < monitor_height {
                -5 <= 10 * w - 9 * monitor_width <= 5
            } else {
                0 <= 2 * w - monitor_width <= 1
            }) || -5 <= 10 * h - 9 * monitor_height <= 5
            &&& (if monitor_width < monitor_height {
                10 * w <= 9 * monitor_width + 5
            } else {
                2 * w <= monitor_width + 1
            })
        }),
{
}

/// On a screen whose size is not known, the window is as on one of 1920 by 1080.
pub proof fn law_unknown_screen_is_a_usual_one()
    ensures
        startup_size(None) == startup_size(Some((1920, 1080))),
{
}

/// A side of the window is the one that was asked for, where that is not less than the least one and not
/// more than the screen allows.
pub proof fn law_side_is_kept_where_it_fits(value: u32, min: u32, monitor_max: u32)
    ensures
        min <= value <= monitor_max && monitor_max >= 1 ==> clamped(value, min, monitor_max) == value,
        value < min <= monitor_max && monitor_max >= 1 ==> clamped(value, min, monitor_max) == min,
        value > monitor_max >= 1 ==> clamped(value, min, monitor_max) == monitor_max,
{
}

} // verus!
