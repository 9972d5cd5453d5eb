//! Choices for presenting images: which of the modes, formats and extents
//! that a surface offers a swapchain is made with. The values are the raw
//! codes and sizes as the driver reports them.

use vstd::prelude::*;

verus! {

/// Raw code of the present mode that shows an image at once.
pub const PRESENT_MODE_IMMEDIATE: i32 = 0;

/// Raw code of the present mode that keeps the newest image for the next
/// refresh.
pub const PRESENT_MODE_MAILBOX: i32 = 1;

/// Raw code of the present mode that queues images; every surface offers it.
pub const PRESENT_MODE_FIFO: i32 = 2;

/// Raw code of the undefined image format.
pub const FORMAT_UNDEFINED: i32 = 0;

/// Raw code of the image format with eight bits each of blue, green and red.
pub const FORMAT_B8G8R8_UNORM: i32 = 30;

/// Bit of the surface transform that leaves the image as it is.
pub const SURFACE_TRANSFORM_IDENTITY: u32 = 1;

/// The width that a surface reports when the swapchain decides the extent.
pub const EXTENT_UNDECIDED: u32 = 0xFFFF_FFFF;

/// A format of a surface: the raw codes of the image format and of the
/// color space.
#[derive(Debug, Copy, Clone, PartialEq, Eq, Structural)]
pub struct SurfaceFormat {
    pub format: i32,
    pub color_space: i32,
}

/// A size in pixels.
#[derive(Debug, Copy, Clone, PartialEq, Eq, Structural)]
pub struct Extent {
    pub width: u32,
    pub height: u32,
}

/// The mode to present with: mailbox if it is offered, else immediate if
/// that is offered, else the queue.
pub open spec fn chosen_mode(available: Seq<i32>) -> i32 {
    if available.contains(PRESENT_MODE_MAILBOX) {
        PRESENT_MODE_MAILBOX
    } else if available.contains(PRESENT_MODE_IMMEDIATE) {
        PRESENT_MODE_IMMEDIATE
    } else {
        PRESENT_MODE_FIFO
    }
}

/// `num` brought into the range from `low` to `high`; `low` wins where the
/// range is empty.
pub open spec fn clamped(num: u32, low: u32, high: u32) -> u32 {
    if num > high {
        if high > low {
            high
        } else {
            low
        }
    } else if num < low {
        low
    } else {
        num
    }
}

/// The extent of the images: the one that the surface has, or, where the
/// surface leaves it open, the size of the window brought into the range
/// that the surface allows.
pub open spec fn chosen_extent(current: Extent, min: Extent, max: Extent, window: Extent) -> Extent {
    if current.width != EXTENT_UNDECIDED {
        current
    } else {
        Extent {
            width: clamped(window.width, min.width, max.width),
            height: clamped(window.height, min.height, max.height),
        }
    }
}

/// The number of images to ask for: one more than the least, but not more
/// than the most, where `most` is zero if there is no limit.
pub open spec fn chosen_image_count(least: u32, most: u32) -> int {
    if most > 0 && least + 1 > most {
        most as int
    } else {
        least + 1
    }
}

/// Chooses the mode to present with.
pub fn choose_mode(available: &[i32]) -> (r: i32)
    ensures
        r == chosen_mode(available@),
{
    let mut res = PRESENT_MODE_FIFO;
    let mut i: usize = 0;
    while i < available.len()
        invariant
            i <= available.len(),
            !available@.take(i as int).contains(PRESENT_MODE_MAILBOX),
            res == if available@.take(i as int).contains(PRESENT_MODE_IMMEDIATE) {
                PRESENT_MODE_IMMEDIATE
            } else {
                PRESENT_MODE_FIFO
            },
        decreases available.len() - i,
    {
        let mode = available[i];
        proof {
            let before = available@.take(i as int);
            let after = available@.take(i as int + 1);
            assert(after =~= before.push(mode));
            assert forall|m: i32| after.contains(m) <==> (before.contains(m) || m == mode) by {
                if before.contains(m) {
                    let k = choose|k: int| 0 <= k < before.len() && before[k] == m;
                    assert(after[k] == m);
                }
                if m == mode {
                    assert(after[i as int] == m);
                }
            }
        }
        if mode == PRESENT_MODE_MAILBOX {
            assert(available@[i as int] == PRESENT_MODE_MAILBOX);
            return mode;
        } else if mode == PRESENT_MODE_IMMEDIATE {
            res = mode;
        }
        i += 1;
    }
    assert(available@.take(i as int) =~= available@);
    res
}

/// Chooses the format of the images: the first that the surface offers,
/// with the undefined image format replaced by a definite one. `None` if
/// the surface offers no format.
pub fn choose_format(available: &[SurfaceFormat]) -> (r: Option<SurfaceFormat>)
    ensures
        available@.len() == 0 ==> r is None,
        available@.len() > 0 ==> r == Some(
            if available@[0].format == FORMAT_UNDEFINED {
                SurfaceFormat { format: FORMAT_B8G8R8_UNORM, color_space: available@[0].color_space }
            } else {
                available@[0]
            },
        ),
{
    if available.len() == 0 {
        None
    } else if available[0].format == FORMAT_UNDEFINED {
        Some(SurfaceFormat { format: FORMAT_B8G8R8_UNORM, color_space: available[0].color_space })
    } else {
        Some(available[0])
    }
}

/// Brings `num` into the range from `low` to `high`.
pub fn clamp(num: u32, low: u32, high: u32) -> (r: u32)
    ensures
        r == clamped(num, low, high),
        low <= high ==> low <= r <= high,
{
    let capped = if high < num {
        high
    } else {
        num
    };
    if low > capped {
        low
    } else {
        capped
    }
}

/// Chooses the extent of the images.
pub fn choose_extent(current: Extent, min: Extent, max: Extent, window: Extent) -> (r: Extent)
    ensures
        r == chosen_extent(current, min, max, window),
{
    if current.width != EXTENT_UNDECIDED {
        current
    } else {
        Extent {
            width: clamp(window.width, min.width, max.width),
            height: clamp(window.height, min.height, max.height),
        }
    }
}

/// Chooses the number of images to ask for.
pub fn choose_image_count(least: u32, most: u32) -> (r: u32)
    requires
        least < u32::MAX,
    ensures
        r == chosen_image_count(least, most),
{
    let desired = least + 1;
    if most > 0 && desired > most {
        most
    } else {
        desired
    }
}

/// Chooses the transform of the images: none if the surface supports
/// that, else the one that the surface has.
pub fn choose_transform(supported: u32, current: u32) -> (r: u32)
    ensures
        r == if supported & SURFACE_TRANSFORM_IDENTITY != 0 {
            SURFACE_TRANSFORM_IDENTITY
        } else {
            current
        },
{
    if supported & SURFACE_TRANSFORM_IDENTITY != 0 {
        SURFACE_TRANSFORM_IDENTITY
    } else {
        current
    }
}

} // verus!
