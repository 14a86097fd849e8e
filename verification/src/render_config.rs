//! Swapchain configuration decisions, separated from the graphics backend.
//!
//! A rendering backend queries its surface for capabilities and hands the
//! plain values here; these functions make the choices (present mode, surface
//! format, image extent, image count, device suitability) and the backend
//! applies them through its graphics API.

use vstd::prelude::*;

verus! {

/// Presentation modes a surface can offer, in the engine's preference order.
#[derive(Clone, Copy, Debug, PartialEq, Eq, Structural)]
pub enum PresentMode {
    /// Triple-buffered, lowest latency without tearing.
    Mailbox,
    /// Unsynchronized, may tear.
    Immediate,
    /// Plain vsync; every surface supports it.
    Fifo,
}

/// Picks the present mode: mailbox when offered, else immediate when
/// offered, else fifo.
pub fn choose_swap_present_mode(mailbox: bool, immediate: bool) -> (m: PresentMode)
    ensures
        m == (if mailbox {
            PresentMode::Mailbox
        } else if immediate {
            PresentMode::Immediate
        } else {
            PresentMode::Fifo
        }),
{
    if mailbox {
        PresentMode::Mailbox
    } else if immediate {
        PresentMode::Immediate
    } else {
        PresentMode::Fifo
    }
}

/// Picks the surface format, each format a backend-specific pair of format
/// and color-space codes: the preferred pair when the surface offers it, else
/// the surface's first offer.
pub fn choose_swap_surface_format(formats: &Vec<(u32, u32)>, preferred: (u32, u32)) -> (r: (
    u32,
    u32,
))
    requires
        formats@.len() > 0,
    ensures
        formats@.contains(preferred) ==> r == preferred,
        !formats@.contains(preferred) ==> r == formats@[0],
{
    let mut i: usize = 0;
    while i < formats.len()
        invariant
            i <= formats@.len(),
            forall|j: int| 0 <= j < i ==> formats@[j] != preferred,
        decreases formats@.len() - i,
    {
        let f = formats[i];
        if f.0 == preferred.0 && f.1 == preferred.1 {
            proof {
                assert(formats@[i as int] == preferred);
            }
            return f;
        }
        i = i + 1;
    }
    proof {
        assert(forall|j: int| 0 <= j < formats@.len() ==> formats@[j] != preferred);
    }
    formats[0]
}

/// One extent coordinate clamped into the surface's supported range, the
/// lower bound applied first: when the range is empty the upper bound wins,
/// as the graphics API demands.
pub open spec fn spec_clamped(preferred: u32, min: u32, max: u32) -> u32 {
    let raised = if preferred > min {
        preferred
    } else {
        min
    };
    if raised < max {
        raised
    } else {
        max
    }
}

/// Clamps one extent coordinate into the surface's supported range.
fn clamp_extent_coord(preferred: u32, min: u32, max: u32) -> (r: u32)
    ensures
        r == spec_clamped(preferred, min, max),
{
    let lower = if preferred > min {
        preferred
    } else {
        min
    };
    if lower < max {
        lower
    } else {
        max
    }
}

/// Picks the swap extent: the surface's current extent when it reports one,
/// else the preferred extent clamped coordinate-wise into the supported
/// range.
pub fn choose_swap_extent(
    current: Option<(u32, u32)>,
    preferred: (u32, u32),
    min: (u32, u32),
    max: (u32, u32),
) -> (r: (u32, u32))
    ensures
        current is Some ==> r == current->0,
        current is None ==> r == (
            spec_clamped(preferred.0, min.0, max.0),
            spec_clamped(preferred.1, min.1, max.1),
        ),
{
    match current {
        Some(e) => e,
        None => (
            clamp_extent_coord(preferred.0, min.0, max.0),
            clamp_extent_coord(preferred.1, min.1, max.1),
        ),
    }
}

/// Picks the swapchain image count: one above the surface's minimum, capped
/// at its maximum when the surface reports one.
pub fn choose_image_count(min_count: u32, max_count: Option<u32>) -> (n: u32)
    requires
        min_count < u32::MAX,
    ensures
        n == (match max_count {
            Some(mx) => if min_count + 1 > mx {
                mx
            } else {
                (min_count + 1) as u32
            },
            None => (min_count + 1) as u32,
        }),
{
    let wanted = min_count + 1;
    match max_count {
        Some(mx) => if wanted > mx {
            mx
        } else {
            wanted
        },
        None => wanted,
    }
}

/// Whether a physical device can drive the renderer: a queue family that
/// supports both graphics and the surface, the required device extensions,
/// and a surface with at least one format and one present mode.
pub fn device_suitable(
    queue_ok: bool,
    extensions_ok: bool,
    has_format: bool,
    has_present_mode: bool,
) -> (r: bool)
    ensures
        r == (queue_ok && extensions_ok && has_format && has_present_mode),
{
    queue_ok && extensions_ok && has_format && has_present_mode
}

} // verus!
