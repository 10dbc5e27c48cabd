//! The pixels of styled lines and circles, as `embedded_graphics`
//! rasterizes them.

use crate::geometry::{Pixel, Style};
use embedded_graphics::pixelcolor::raw::RawU16;
use embedded_graphics::pixelcolor::{IntoStorage, Rgb565};
use embedded_graphics::primitives::{Circle, Line, PrimitiveStyle, Styled};
use vstd::prelude::*;

verus! {

/// The farthest from the origin, along either axis, that the end of a line
/// may lie.
pub const LINE_REACH: i32 = 0x4000_0000;

/// The farthest from the origin, along either axis, that the corner of a
/// circle's bounding box may lie.
pub const CIRCLE_REACH: i32 = 0x2000_0000;

/// The largest sum of a circle's diameter and its stroke width.
pub const CIRCLE_SPAN: u32 = 32767;

/// The pixels of the line from `(x0, y0)` to `(x1, y1)` stroked with
/// `stroke_color` at `stroke_width`, in the order in which
/// `embedded_graphics` yields them.
pub uninterp spec fn line_pixels(
    x0: int,
    y0: int,
    x1: int,
    y1: int,
    stroke_color: Option<u16>,
    stroke_width: int,
) -> Seq<Pixel>;

/// The pixels of the circle whose bounding box has its top left corner at
/// `(x, y)` and the side `diameter`, filled and stroked as given, in the
/// order in which `embedded_graphics` yields them.
pub uninterp spec fn circle_pixels(
    x: int,
    y: int,
    diameter: int,
    fill_color: Option<u16>,
    stroke_color: Option<u16>,
    stroke_width: int,
) -> Seq<Pixel>;

/// The line can be rasterized in 32-bit arithmetic: its ends lie within
/// `LINE_REACH` of the origin, and four times the square of its stroke
/// width plus one, times its squared length plus one, fits.
pub open spec fn line_in_range(x0: int, y0: int, x1: int, y1: int, stroke_width: int) -> bool {
    &&& -LINE_REACH <= x0 <= LINE_REACH
    &&& -LINE_REACH <= y0 <= LINE_REACH
    &&& -LINE_REACH <= x1 <= LINE_REACH
    &&& -LINE_REACH <= y1 <= LINE_REACH
    &&& 0 <= stroke_width
    &&& 4 * (stroke_width + 1) * (stroke_width + 1) * ((x1 - x0) * (x1 - x0) + (y1 - y0) * (y1
        - y0) + 1) <= i32::MAX
}

/// The circle can be rasterized in 32-bit arithmetic: its corner lies
/// within `CIRCLE_REACH` of the origin, and its diameter and stroke width
/// together stay within `CIRCLE_SPAN`.
pub open spec fn circle_in_range(x: int, y: int, diameter: int, stroke_width: int) -> bool {
    &&& -CIRCLE_REACH <= x <= CIRCLE_REACH
    &&& -CIRCLE_REACH <= y <= CIRCLE_REACH
    &&& 0 <= diameter
    &&& 0 <= stroke_width
    &&& diameter + stroke_width <= CIRCLE_SPAN
}

/// The pixels of a styled line: `embedded_graphics::primitives::Styled::pixels`
/// on a `Line` with a `PrimitiveStyle` that has the stroke of `style`, each
/// pixel with its position and the 16 bits of its `Rgb565` colour. Believed
/// of it: the result is a function of the ends and of the stroke alone.
/// Which pixels it holds is not stated. The line must be in range, else the
/// rasterizer's 32-bit arithmetic may overflow.
#[verifier::external_body]
pub(crate) fn styled_line_pixels(x0: i32, y0: i32, x1: i32, y1: i32, style: &Style) -> (r: Vec<
    Pixel,
>)
    requires
        line_in_range(x0 as int, y0 as int, x1 as int, y1 as int, style.stroke_width as int),
    ensures
        r@ == line_pixels(
            x0 as int,
            y0 as int,
            x1 as int,
            y1 as int,
            style.stroke_color,
            style.stroke_width as int,
        ),
{
    let mut s = PrimitiveStyle::<Rgb565>::new();
    s.stroke_color = style.stroke_color.map(|c| Rgb565::from(RawU16::new(c)));
    s.stroke_width = style.stroke_width;
    let start = embedded_graphics::geometry::Point::new(x0, y0);
    let end = embedded_graphics::geometry::Point::new(x1, y1);
    Styled::new(Line::new(start, end), s).pixels().map(
        |p| Pixel { x: p.0.x, y: p.0.y, color: p.1.into_storage() },
    ).collect()
}

/// The pixels of a styled circle: `embedded_graphics::primitives::Styled::pixels`
/// on a `Circle` with a `PrimitiveStyle` that has the fill and the stroke of
/// `style`, each pixel with its position and the 16 bits of its `Rgb565`
/// colour. Believed of it: the result is a function of the corner, the
/// diameter and the style alone. Which pixels it holds is not stated. The
/// circle must be in range, else the rasterizer's 32-bit arithmetic may
/// overflow.
#[verifier::external_body]
pub(crate) fn styled_circle_pixels(x: i32, y: i32, diameter: u32, style: &Style) -> (r: Vec<Pixel>)
    requires
        circle_in_range(x as int, y as int, diameter as int, style.stroke_width as int),
    ensures
        r@ == circle_pixels(
            x as int,
            y as int,
            diameter as int,
            style.fill_color,
            style.stroke_color,
            style.stroke_width as int,
        ),
{
    let mut s = PrimitiveStyle::<Rgb565>::new();
    s.fill_color = style.fill_color.map(|c| Rgb565::from(RawU16::new(c)));
    s.stroke_color = style.stroke_color.map(|c| Rgb565::from(RawU16::new(c)));
    s.stroke_width = style.stroke_width;
    let corner = embedded_graphics::geometry::Point::new(x, y);
    Styled::new(Circle::new(corner, diameter), s).pixels().map(
        |p| Pixel { x: p.0.x, y: p.0.y, color: p.1.into_storage() },
    ).collect()
}

} // verus!
