//! Viewport virtualization: which line indices must be rendered for the
//! current scroll position, plus spacer heights that keep the scrollable
//! area's total height stable.

use vstd::prelude::*;

verus! {

/// Extra lines rendered beyond the strictly visible area so that small scroll
/// deltas do not expose blank edges or force constant recomputation.
pub const OVERSCAN_LINES: u64 = 20;

/// The half-open range of line indices to render for one frame, with the
/// pixel heights of the empty spacer regions above and below it.
#[derive(Clone, Copy, Debug, PartialEq, Eq, Structural)]
pub struct ViewportWindow {
    pub start: u64,
    pub end: u64,
    pub leading_padding: u64,
    pub trailing_padding: u64,
}

/// Number of lines that fit in the viewport: `viewport_height / line_height`,
/// rounded up.
pub open spec fn lines_that_fit(viewport_height: u64, line_height: u64) -> int
    recommends
        line_height > 0,
{
    (viewport_height + line_height - 1) / (line_height as int)
}

/// First line index whose pixel band contains `scroll_top`.
pub open spec fn first_visible_line(scroll_top: u64, line_height: u64) -> int
    recommends
        line_height > 0,
{
    scroll_top as int / line_height as int
}

/// Computes the half-open range `[start, end)` of lines to render and the
/// spacer heights above and below it.  Pure viewport geometry: safe to call
/// on every frame, no side effects.  When the document is scrolled past its
/// end, `start` may exceed `end` and the range is empty.
pub fn visible_range(scroll_top: u64, viewport_height: u64, line_height: u64, total_lines: u64) -> (w:
    ViewportWindow)
    requires
        line_height > 0,
        total_lines * line_height <= u64::MAX,
        viewport_height + line_height <= u64::MAX,
    ensures
        total_lines == 0 ==> w == (ViewportWindow {
            start: 0,
            end: 0,
            leading_padding: 0,
            trailing_padding: 0,
        }),
        total_lines > 0 ==> {
            &&& w.start == first_visible_line(scroll_top, line_height)
            &&& w.end == vstd::math::min(
                w.start + lines_that_fit(viewport_height, line_height) + OVERSCAN_LINES,
                total_lines as int,
            )
            &&& w.leading_padding == w.start * line_height
            &&& w.trailing_padding == (total_lines - w.end) * line_height
        },
        w.end <= total_lines,
        // the spacers keep the scrollable area's total height exact
        w.start <= w.end ==> w.leading_padding + (w.end - w.start) * line_height
            + w.trailing_padding == total_lines * line_height,
{
    if total_lines == 0 {
        return ViewportWindow { start: 0, end: 0, leading_padding: 0, trailing_padding: 0 };
    }
    let start: u64 = scroll_top / line_height;
    let fit: u64 = (viewport_height + line_height - 1) / line_height;
    proof {
        assert(start * line_height <= scroll_top) by (nonlinear_arith)
            requires
                line_height > 0,
                start == scroll_top as int / line_height as int,
        ;
    }
    let reach: u64 = start.checked_add(fit).unwrap_or(u64::MAX).checked_add(
        OVERSCAN_LINES,
    ).unwrap_or(u64::MAX);
    let end: u64 = if reach < total_lines {
        reach
    } else {
        total_lines
    };
    proof {
        assert((total_lines - end) * line_height <= total_lines * line_height) by (
        nonlinear_arith)
            requires
                0 <= end <= total_lines,
        ;
    }
    proof {
        if start <= end {
            assert(start * line_height + (end - start) * line_height + (total_lines - end)
                * line_height == total_lines * line_height) by (nonlinear_arith)
                requires
                    0 <= start <= end <= total_lines,
            ;
        }
    }
    ViewportWindow {
        start,
        end,
        leading_padding: start * line_height,
        trailing_padding: (total_lines - end) * line_height,
    }
}

} // verus!
