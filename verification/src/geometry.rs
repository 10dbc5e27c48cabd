//! Plain geometry and pixel values, and the surface that pixels are drawn on.

use vstd::prelude::*;

verus! {

/// A position on a surface, in pixels.
#[derive(Clone, Copy, Debug, PartialEq, Eq, Structural)]
pub struct Point {
    pub x: i32,
    pub y: i32,
}

/// A width and a height, in pixels.
#[derive(Clone, Copy, Debug, PartialEq, Eq, Structural)]
pub struct Size {
    pub width: u32,
    pub height: u32,
}

/// An axis-aligned rectangle.
#[derive(Clone, Copy, Debug, PartialEq, Eq, Structural)]
pub struct Rectangle {
    pub top_left: Point,
    pub size: Size,
}

/// One pixel: a position and a colour, packed as 16 bits with 5, 6 and 5
/// bits for red, green and blue.
#[derive(Clone, Copy, Debug, PartialEq, Eq, Structural)]
pub struct Pixel {
    pub x: i32,
    pub y: i32,
    pub color: u16,
}

/// How a shape is drawn: an optional fill colour, and an optional stroke
/// colour with the stroke's width in pixels.
#[derive(Clone, Copy, Debug, PartialEq, Eq)]
pub struct Style {
    pub fill_color: Option<u16>,
    pub stroke_color: Option<u16>,
    pub stroke_width: u32,
}

/// A surface that pixels can be plotted on.
pub trait DrawSurface {
    /// What the surface holds, as a mathematical value.
    type Model;

    /// What the surface holds.
    spec fn model(&self) -> Self::Model;

    /// The surface is in a state in which it can be drawn on.
    spec fn usable(&self) -> bool;

    /// What a surface holds after the pixel `p` was plotted on one that
    /// held `m`.
    spec fn plotted(m: Self::Model, p: Pixel) -> Self::Model;

    /// The extent of a surface that holds `m`.
    spec fn extent(m: Self::Model) -> Rectangle;

    /// Plots one pixel. A position outside the surface is not an error.
    fn plot(&mut self, x: i32, y: i32, color: u16)
        requires
            old(self).usable(),
        ensures
            final(self).usable(),
            final(self).model() == Self::plotted(old(self).model(), Pixel { x, y, color }),
    ;

    /// The extent of the surface.
    fn bounds(&self) -> (r: Rectangle)
        requires
            self.usable(),
        ensures
            r == Self::extent(self.model()),
    ;
}

/// What a surface holds after the pixels `ps` were plotted, in order, on one
/// that held `m`.
pub open spec fn plotted_all<D: DrawSurface>(m: D::Model, ps: Seq<Pixel>) -> D::Model
    decreases ps.len(),
{
    if ps.len() == 0 {
        m
    } else {
        D::plotted(plotted_all::<D>(m, ps.drop_last()), ps.last())
    }
}

/// Plotting two runs of pixels one after the other is plotting their
/// concatenation.
pub proof fn lemma_plotted_all_concat<D: DrawSurface>(m: D::Model, a: Seq<Pixel>, b: Seq<Pixel>)
    ensures
        plotted_all::<D>(plotted_all::<D>(m, a), b) == plotted_all::<D>(m, a + b),
    decreases b.len(),
{
    if b.len() == 0 {
        assert(a + b =~= a);
    } else {
        lemma_plotted_all_concat::<D>(m, a, b.drop_last());
        assert((a + b).drop_last() =~= a + b.drop_last());
        assert((a + b).last() == b.last());
    }
}

/// Plots the pixels of `pixels` on `target`, in order.
pub fn draw_pixels<D: DrawSurface>(target: &mut D, pixels: &Vec<Pixel>)
    requires
        old(target).usable(),
    ensures
        final(target).usable(),
        final(target).model() == plotted_all::<D>(old(target).model(), pixels@),
{
    let ghost start = target.model();
    let mut i: usize = 0;
    while i < pixels.len()
        invariant
            i <= pixels@.len(),
            target.usable(),
            target.model() == plotted_all::<D>(start, pixels@.take(i as int)),
        decreases pixels@.len() - i,
    {
        let p = pixels[i];
        proof {
            let next = pixels@.take(i + 1);
            assert(next.drop_last() =~= pixels@.take(i as int));
            assert(next.last() == p);
        }
        target.plot(p.x, p.y, p.color);
        i += 1;
    }
    proof {
        assert(pixels@.take(i as int) =~= pixels@);
    }
}

} // verus!
