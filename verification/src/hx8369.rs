//! The framebuffer of the display: a pixel array with a dirty row range,
//! flushed to the panel in chunks of a bounded number of rows.

use crate::arith::{lemma_row_major, lemma_row_major_injective, lemma_rows_in_range};
use crate::geometry::{DrawSurface, Pixel, Point, Rectangle, Size};
use vstd::prelude::*;

verus! {

/// The most rows that one transfer to the panel may carry. The panel takes
/// about 100 000 bytes at once; 60 rows of 800 pixels of 2 bytes stay below.
pub const LINES: usize = 60;

/// One transfer to the panel: the rows `y_start..y_end` of the columns
/// `x_start..x_end`, both upper bounds exclusive.
#[derive(Clone, Copy, Debug, PartialEq, Eq, Structural)]
pub struct Transfer {
    pub x_start: i32,
    pub y_start: i32,
    pub x_end: i32,
    pub y_end: i32,
}

/// The mathematical model of the framebuffer: its dimensions, its pixels
/// in row-major order, and the dirty row range `min_dirty_y..=max_dirty_y`,
/// which is empty where `min_dirty_y > max_dirty_y`.
pub struct Screen {
    pub width: nat,
    pub height: nat,
    pub pixels: Seq<u16>,
    pub min_dirty_y: nat,
    pub max_dirty_y: nat,
}

impl Screen {
    /// The screen has one pixel per position, its dimensions fit the
    /// panel's coordinates, and the dirty range ends on the screen.
    pub open spec fn wf(self) -> bool {
        &&& self.pixels.len() == self.width * self.height
        &&& self.width <= i32::MAX
        &&& self.height <= i32::MAX
        &&& self.width * self.height <= usize::MAX
        &&& self.max_dirty_y <= self.height
    }

    pub open spec fn in_bounds(self, x: int, y: int) -> bool {
        0 <= x < self.width && 0 <= y < self.height
    }

    /// The colour at `(x, y)`.
    pub open spec fn pixel(self, x: int, y: int) -> u16 {
        self.pixels[y * self.width + x]
    }

    /// No row is dirty.
    pub open spec fn dirty_is_empty(self) -> bool {
        self.min_dirty_y > self.max_dirty_y
    }

    /// Row `y` lies in the dirty range.
    pub open spec fn is_dirty_row(self, y: int) -> bool {
        self.min_dirty_y <= y <= self.max_dirty_y
    }

    /// The dirty range with which a screen of this height holds no dirty
    /// row.
    pub open spec fn clean_min(self) -> nat {
        if self.height == 0 {
            1
        } else {
            self.height
        }
    }

    /// A black screen with nothing dirty.
    pub open spec fn blank(width: nat, height: nat) -> Screen {
        Screen {
            width,
            height,
            pixels: Seq::new(width * height, |i: int| 0u16),
            min_dirty_y: if height == 0 {
                1
            } else {
                height
            },
            max_dirty_y: 0,
        }
    }

    /// The screen after a write of `p`: a position outside the screen
    /// changes nothing; one inside sets the pixel and widens the dirty
    /// range to hold its row.
    pub open spec fn plot(self, p: Pixel) -> Screen {
        if self.in_bounds(p.x as int, p.y as int) {
            Screen {
                width: self.width,
                height: self.height,
                pixels: self.pixels.update(p.y * self.width + p.x, p.color),
                min_dirty_y: if self.min_dirty_y > p.y {
                    p.y as nat
                } else {
                    self.min_dirty_y
                },
                max_dirty_y: if self.max_dirty_y < p.y {
                    p.y as nat
                } else {
                    self.max_dirty_y
                },
            }
        } else {
            self
        }
    }

    /// The screen after the writes of `ps`, in order.
    pub open spec fn plot_all(self, ps: Seq<Pixel>) -> Screen
        decreases ps.len(),
    {
        if ps.len() == 0 {
            self
        } else {
            self.plot_all(ps.drop_last()).plot(ps.last())
        }
    }

    /// The screen with every row marked dirty.
    pub open spec fn invalidated(self) -> Screen {
        Screen { min_dirty_y: 0, max_dirty_y: self.height, ..self }
    }

    /// The screen with no row marked dirty.
    pub open spec fn flushed(self) -> Screen {
        Screen { min_dirty_y: self.clean_min(), max_dirty_y: 0, ..self }
    }

    /// The screen with every pixel set to `color` and nothing dirty.
    pub open spec fn filled(self, color: u16) -> Screen {
        Screen {
            width: self.width,
            height: self.height,
            pixels: Seq::new(self.pixels.len(), |i: int| color),
            min_dirty_y: self.clean_min(),
            max_dirty_y: 0,
        }
    }

    /// The row after the last one that a flush sends: the end of the
    /// dirty range, clamped to the screen.
    pub open spec fn flush_end(self) -> int {
        if self.max_dirty_y + 1 < self.height {
            (self.max_dirty_y + 1) as int
        } else {
            self.height as int
        }
    }

    /// The number of transfers that a flush makes.
    pub open spec fn chunk_count(self) -> nat {
        if self.dirty_is_empty() || self.flush_end() <= self.min_dirty_y {
            0
        } else {
            ((self.flush_end() - self.min_dirty_y + LINES - 1) / (LINES as int)) as nat
        }
    }

    /// The `k`-th transfer of a flush: `LINES` rows from the start of the
    /// dirty range on, the last one cut where the flush ends; all columns.
    pub open spec fn chunk(self, k: int) -> Transfer {
        Transfer {
            x_start: 0,
            y_start: (self.min_dirty_y + k * LINES) as i32,
            x_end: self.width as i32,
            y_end: (if self.min_dirty_y + (k + 1) * LINES < self.flush_end() {
                self.min_dirty_y + (k + 1) * LINES
            } else {
                self.flush_end()
            }) as i32,
        }
    }

    /// The transfers that a flush makes, in order.
    pub open spec fn flush_plan(self) -> Seq<Transfer> {
        Seq::new(self.chunk_count(), |k: int| self.chunk(k))
    }

    /// The pixels of the rows `y_start..y_end`.
    pub open spec fn rows(self, y_start: int, y_end: int) -> Seq<u16> {
        self.pixels.subrange(y_start * self.width, y_end * self.width)
    }
}

/// The framebuffer of the display.
#[derive(Debug)]
pub struct HX8369 {
    width: usize,
    height: usize,
    buffer: Vec<u16>,
    min_dirty_y: usize,
    max_dirty_y: usize,
}

impl View for HX8369 {
    type V = Screen;

    closed spec fn view(&self) -> Screen {
        Screen {
            width: self.width as nat,
            height: self.height as nat,
            pixels: self.buffer@,
            min_dirty_y: self.min_dirty_y as nat,
            max_dirty_y: self.max_dirty_y as nat,
        }
    }
}

impl HX8369 {
    /// The framebuffer holds a well-formed screen.
    pub open spec fn wf(&self) -> bool {
        self@.wf()
    }

    /// A black framebuffer of the given dimensions with nothing dirty.
    pub fn new(width: usize, height: usize) -> (fb: Self)
        requires
            width <= i32::MAX,
            height <= i32::MAX,
            width * height <= usize::MAX,
        ensures
            fb.wf(),
            fb@ == Screen::blank(width as nat, height as nat),
    {
        let total: usize = width * height;
        let mut buffer: Vec<u16> = Vec::with_capacity(total);
        let mut i: usize = 0;
        while i < total
            invariant
                i <= total,
                buffer@.len() == i,
                forall|k: int| 0 <= k < i ==> buffer@[k] == 0u16,
            decreases total - i,
        {
            buffer.push(0);
            i += 1;
        }
        let fb = Self {
            width,
            height,
            buffer,
            min_dirty_y: if height == 0 {
                1
            } else {
                height
            },
            max_dirty_y: 0,
        };
        proof {
            assert(fb@.pixels =~= Screen::blank(width as nat, height as nat).pixels);
        }
        fb
    }

    pub fn get_width(&self) -> (w: u32)
        requires
            self.wf(),
        ensures
            w == self@.width,
    {
        self.width as u32
    }

    pub fn get_height(&self) -> (h: u32)
        requires
            self.wf(),
        ensures
            h == self@.height,
    {
        self.height as u32
    }

    /// Marks every row dirty.
    pub fn invalidate(&mut self)
        requires
            old(self).wf(),
        ensures
            final(self).wf(),
            final(self)@ == old(self)@.invalidated(),
    {
        self.min_dirty_y = 0;
        self.max_dirty_y = self.height;
    }

    /// The colour at `(x, y)`; black outside the screen.
    pub fn get_pixel(&self, x: usize, y: usize) -> (c: u16)
        requires
            self.wf(),
        ensures
            c == if self@.in_bounds(x as int, y as int) {
                self@.pixel(x as int, y as int)
            } else {
                0u16
            },
    {
        if x >= self.width || y >= self.height {
            return 0;
        }
        proof {
            lemma_row_major(self.width as int, self.height as int, x as int, y as int);
        }
        self.buffer[y * self.width + x]
    }

    /// The whole pixel array, in row-major order.
    pub fn get_raw_buffer(&self) -> (r: &[u16])
        ensures
            r@ == self@.pixels,
    {
        self.buffer.as_slice()
    }

    /// The whole pixel array, in row-major order, to write to. Writes
    /// through it do not widen the dirty range: mark the rows with
    /// `invalidate`.
    pub fn get_raw_buffer_mut(&mut self) -> (r: &mut [u16])
        requires
            old(self).wf(),
        ensures
            r@ == old(self)@.pixels,
            final(self)@ == (Screen { pixels: final(r)@, ..old(self)@ }),
    {
        self.buffer.as_mut_slice()
    }

    /// The extent of the screen: from the origin, its width and height.
    pub fn bounding_box(&self) -> (r: Rectangle)
        requires
            self.wf(),
        ensures
            r == (Rectangle {
                top_left: Point { x: 0, y: 0 },
                size: Size { width: self@.width as u32, height: self@.height as u32 },
            }),
    {
        Rectangle {
            top_left: Point { x: 0, y: 0 },
            size: Size { width: self.width as u32, height: self.height as u32 },
        }
    }

    /// Writes the pixels of `pixels`, in order. A pixel outside the screen
    /// is passed over; each one inside widens the dirty range to its row.
    pub fn draw_iter(&mut self, pixels: &Vec<Pixel>)
        requires
            old(self).wf(),
        ensures
            final(self).wf(),
            final(self)@ == old(self)@.plot_all(pixels@),
    {
        let ghost start = self@;
        let mut i: usize = 0;
        while i < pixels.len()
            invariant
                i <= pixels@.len(),
                self.wf(),
                self@ == start.plot_all(pixels@.take(i as int)),
            decreases pixels@.len() - i,
        {
            let p = pixels[i];
            proof {
                let next = pixels@.take(i + 1);
                assert(next.drop_last() =~= pixels@.take(i as int));
                assert(next.last() == p);
            }
            self.write(p.x, p.y, p.color);
            i += 1;
        }
        proof {
            assert(pixels@.take(i as int) =~= pixels@);
        }
    }

    /// Writes one pixel, or nothing where `(x, y)` lies outside the screen.
    pub fn write(&mut self, x: i32, y: i32, color: u16)
        requires
            old(self).wf(),
        ensures
            final(self).wf(),
            final(self)@ == old(self)@.plot(Pixel { x, y, color }),
    {
        if x < 0 || y < 0 {
            return ;
        }
        let x = x as usize;
        let y = y as usize;
        if x >= self.width || y >= self.height {
            return ;
        }
        if self.min_dirty_y > y {
            self.min_dirty_y = y;
        }
        if self.max_dirty_y < y {
            self.max_dirty_y = y;
        }
        proof {
            lemma_row_major(self.width as int, self.height as int, x as int, y as int);
        }
        let w = self.width;
        self.buffer[y * w + x] = color;
    }

    /// Hands out the transfers that bring the panel up to date, and marks
    /// the framebuffer clean: nothing where no row is dirty; else the dirty
    /// rows that lie on the screen, in chunks of at most `LINES` rows.
    pub fn flush(&mut self) -> (plan: Vec<Transfer>)
        requires
            old(self).wf(),
        ensures
            final(self).wf(),
            plan@ == old(self)@.flush_plan(),
            final(self)@ == old(self)@.flushed(),
    {
        let ghost start = self@;
        let mut plan: Vec<Transfer> = Vec::new();
        if self.min_dirty_y <= self.max_dirty_y {
            let end: usize = if self.max_dirty_y + 1 < self.height {
                self.max_dirty_y + 1
            } else {
                self.height
            };
            let mut i: usize = self.min_dirty_y;
            let ghost mut k: int = 0;
            while i < end
                invariant
                    self@ == start,
                    start.wf(),
                    !start.dirty_is_empty(),
                    end == start.flush_end(),
                    0 <= k,
                    i == start.min_dirty_y + k * LINES,
                    k <= start.chunk_count(),
                    i >= end ==> k == start.chunk_count(),
                    plan@.len() == k,
                    forall|j: int| 0 <= j < k ==> plan@[j] == start.chunk(j),
                decreases end + LINES - i,
            {
                let y_end: usize = if i + LINES < end {
                    i + LINES
                } else {
                    end
                };
                plan.push(
                    Transfer {
                        x_start: 0,
                        y_start: i as i32,
                        x_end: self.width as i32,
                        y_end: y_end as i32,
                    },
                );
                i += LINES;
                proof {
                    k = k + 1;
                }
            }
        }
        self.min_dirty_y = if self.height == 0 {
            1
        } else {
            self.height
        };
        self.max_dirty_y = 0;
        proof {
            assert(plan@ =~= start.flush_plan());
        }
        plan
    }

    /// Sets every pixel to `color` and flushes the whole screen.
    pub fn fill(&mut self, color: u16) -> (plan: Vec<Transfer>)
        requires
            old(self).wf(),
        ensures
            final(self).wf(),
            plan@ == old(self)@.filled(color).invalidated().flush_plan(),
            final(self)@ == old(self)@.filled(color),
    {
        self.min_dirty_y = 0;
        self.max_dirty_y = self.height;
        let n = self.buffer.len();
        let mut i: usize = 0;
        while i < n
            invariant
                i <= n,
                n == self.buffer@.len(),
                self.width == old(self).width,
                self.height == old(self).height,
                self.min_dirty_y == 0,
                self.max_dirty_y == self.height,
                old(self).wf(),
                forall|k: int| 0 <= k < i ==> self.buffer@[k] == color,
            decreases n - i,
        {
            self.buffer[i] = color;
            i += 1;
        }
        proof {
            assert(self@.pixels =~= old(self)@.filled(color).pixels);
            assert(self@ == old(self)@.filled(color).invalidated());
        }
        self.flush()
    }
    /// The pixels that the transfer `t` carries: the rows `t.y_start..t.y_end`
    /// of the framebuffer, borrowed; `None` where those rows are not rows
    /// of the screen.
    pub fn transfer_pixels(&self, t: &Transfer) -> (r: Option<&[u16]>)
        requires
            self.wf(),
        ensures
            r.is_some() == (0 <= t.y_start <= t.y_end <= self@.height),
            r.is_some() ==> r.unwrap()@ == self@.rows(t.y_start as int, t.y_end as int),
    {
        if t.y_start < 0 || t.y_end < t.y_start {
            return None;
        }
        let y_start = t.y_start as usize;
        let y_end = t.y_end as usize;
        if y_end > self.height {
            return None;
        }
        proof {
            lemma_rows_in_range(
                self.width as int,
                self.height as int,
                y_start as int,
                y_end as int,
            );
        }
        let from: usize = y_start * self.width;
        let to: usize = y_end * self.width;
        Some(vstd::slice::slice_subrange(self.buffer.as_slice(), from, to))
    }
}

impl DrawSurface for HX8369 {
    type Model = Screen;

    open spec fn model(&self) -> Screen {
        self@
    }

    open spec fn usable(&self) -> bool {
        self.wf()
    }

    open spec fn plotted(m: Screen, p: Pixel) -> Screen {
        m.plot(p)
    }

    open spec fn extent(m: Screen) -> Rectangle {
        Rectangle {
            top_left: Point { x: 0, y: 0 },
            size: Size { width: m.width as u32, height: m.height as u32 },
        }
    }

    fn plot(&mut self, x: i32, y: i32, color: u16) {
        self.write(x, y, color)
    }

    fn bounds(&self) -> (r: Rectangle) {
        self.bounding_box()
    }
}

/// Writes keep the screen well-formed and its dimensions, and they only
/// widen the dirty range.
pub proof fn lemma_plot_all(s: Screen, ps: Seq<Pixel>)
    requires
        s.wf(),
    ensures
        s.plot_all(ps).wf(),
        s.plot_all(ps).width == s.width,
        s.plot_all(ps).height == s.height,
        s.plot_all(ps).min_dirty_y <= s.min_dirty_y,
        s.plot_all(ps).max_dirty_y >= s.max_dirty_y,
    decreases ps.len(),
{
    if ps.len() > 0 {
        lemma_plot_all(s, ps.drop_last());
        let t = s.plot_all(ps.drop_last());
        let p = ps.last();
        if t.in_bounds(p.x as int, p.y as int) {
            lemma_row_major(t.width as int, t.height as int, p.x as int, p.y as int);
        }
    }
}

/// The dirty range never misses a write: after any run of writes, the row
/// of every write that fell on the screen lies in the dirty range; and
/// after a flush the dirty range is empty.
pub proof fn law_dirty_range_holds_writes(s: Screen, ps: Seq<Pixel>, i: int)
    requires
        s.wf(),
        0 <= i < ps.len(),
        s.in_bounds(ps[i].x as int, ps[i].y as int),
    ensures
        s.plot_all(ps).is_dirty_row(ps[i].y as int),
        s.plot_all(ps).flushed().dirty_is_empty(),
    decreases ps.len(),
{
    lemma_plot_all(s, ps.drop_last());
    let t = s.plot_all(ps.drop_last());
    if i < ps.len() - 1 {
        assert(ps.drop_last()[i] == ps[i]);
        law_dirty_range_holds_writes(s, ps.drop_last(), i);
    }
}

/// The write `p` goes to the position `(x, y)`.
pub open spec fn writes_to(p: Pixel, x: int, y: int) -> bool {
    p.x == x && p.y == y
}

/// The last write wins: after a run of writes a pixel of the screen has
/// the colour of the last write to its position, or the colour it had
/// where there was none.
pub proof fn law_last_write_wins(s: Screen, ps: Seq<Pixel>, x: int, y: int)
    requires
        s.wf(),
        s.in_bounds(x, y),
    ensures
        (forall|i: int| 0 <= i < ps.len() ==> !writes_to(#[trigger] ps[i], x, y)) ==> s.plot_all(
            ps,
        ).pixel(x, y) == s.pixel(x, y),
        forall|i: int|
            0 <= i < ps.len() && writes_to(#[trigger] ps[i], x, y) && (forall|j: int|
                i < j < ps.len() ==> !writes_to(#[trigger] ps[j], x, y)) ==> s.plot_all(ps).pixel(
                x,
                y,
            ) == ps[i].color,
    decreases ps.len(),
{
    if ps.len() > 0 {
        let front = ps.drop_last();
        let p = ps.last();
        let t = s.plot_all(front);
        law_last_write_wins(s, front, x, y);
        lemma_plot_all(s, front);
        lemma_row_major(s.width as int, s.height as int, x, y);
        if t.in_bounds(p.x as int, p.y as int) {
            lemma_row_major(s.width as int, s.height as int, p.x as int, p.y as int);
            if !writes_to(p, x, y) && y * s.width + x == p.y * s.width + p.x {
                lemma_row_major_injective(s.width as int, x, y, p.x as int, p.y as int);
            }
        }
        assert forall|i: int|
            0 <= i < ps.len() && writes_to(#[trigger] ps[i], x, y) && (forall|j: int|
                i < j < ps.len() ==> !writes_to(#[trigger] ps[j], x, y)) implies s.plot_all(
            ps,
        ).pixel(x, y) == ps[i].color by {
            if i < front.len() {
                assert(front[i] == ps[i]);
                assert(!writes_to(ps[ps.len() - 1], x, y));
                assert forall|j: int| i < j < front.len() implies !writes_to(
                    #[trigger] front[j],
                    x,
                    y,
                ) by {
                    assert(front[j] == ps[j]);
                }
            }
        }
        if forall|i: int| 0 <= i < ps.len() ==> !writes_to(#[trigger] ps[i], x, y) {
            assert(!writes_to(ps[ps.len() - 1], x, y));
            assert forall|i: int| 0 <= i < front.len() implies !writes_to(
                #[trigger] front[i],
                x,
                y,
            ) by {
                assert(front[i] == ps[i]);
            }
        }
    }
}

/// The dirty range is no wider than the writes make it: after a run of
/// writes each of its ends is where it was, or is the row of a write that
/// fell on the screen.
pub proof fn law_dirty_range_is_tight(s: Screen, ps: Seq<Pixel>)
    requires
        s.wf(),
    ensures
        s.plot_all(ps).min_dirty_y == s.min_dirty_y || exists|i: int|
            0 <= i < ps.len() && s.in_bounds((#[trigger] ps[i]).x as int, ps[i].y as int)
                && s.plot_all(ps).min_dirty_y == ps[i].y,
        s.plot_all(ps).max_dirty_y == s.max_dirty_y || exists|i: int|
            0 <= i < ps.len() && s.in_bounds((#[trigger] ps[i]).x as int, ps[i].y as int)
                && s.plot_all(ps).max_dirty_y == ps[i].y,
    decreases ps.len(),
{
    if ps.len() > 0 {
        let front = ps.drop_last();
        let t = s.plot_all(front);
        let r = s.plot_all(ps);
        law_dirty_range_is_tight(s, front);
        lemma_plot_all(s, front);
        if r.min_dirty_y != s.min_dirty_y {
            if r.min_dirty_y == t.min_dirty_y {
                let i = choose|i: int|
                    0 <= i < front.len() && s.in_bounds(
                        (#[trigger] front[i]).x as int,
                        front[i].y as int,
                    ) && t.min_dirty_y == front[i].y;
                assert(ps[i] == front[i]);
            } else {
                assert(r.min_dirty_y == ps[ps.len() - 1].y);
            }
        }
        if r.max_dirty_y != s.max_dirty_y {
            if r.max_dirty_y == t.max_dirty_y {
                let i = choose|i: int|
                    0 <= i < front.len() && s.in_bounds(
                        (#[trigger] front[i]).x as int,
                        front[i].y as int,
                    ) && t.max_dirty_y == front[i].y;
                assert(ps[i] == front[i]);
            } else {
                assert(r.max_dirty_y == ps[ps.len() - 1].y);
            }
        }
    }
}

/// A flush sends every dirty row of the screen: each lies in one of its
/// transfers.
pub proof fn law_flush_sends_dirty_rows(s: Screen, y: int)
    requires
        s.wf(),
        s.is_dirty_row(y),
        0 <= y < s.height,
    ensures
        exists|k: int|
            0 <= k < s.flush_plan().len() && (#[trigger] s.flush_plan()[k]).y_start <= y
                < s.flush_plan()[k].y_end,
{
    let k = (y - s.min_dirty_y) / (LINES as int);
    assert(0 <= k < s.flush_plan().len());
    assert(s.flush_plan()[k] == s.chunk(k));
    assert(s.flush_plan()[k].y_start <= y < s.flush_plan()[k].y_end);
}

/// The shape of a flush: each transfer spans all columns and between one
/// and `LINES` rows of the screen, it starts in the dirty range, and the
/// next one starts where it ends.
pub proof fn law_flush_chunks(s: Screen, k: int)
    requires
        s.wf(),
        0 <= k < s.flush_plan().len(),
    ensures
        s.flush_plan()[k].x_start == 0,
        s.flush_plan()[k].x_end == s.width,
        s.min_dirty_y <= s.flush_plan()[k].y_start < s.flush_plan()[k].y_end <= s.height,
        s.flush_plan()[k].y_end <= s.max_dirty_y + 1,
        s.flush_plan()[k].y_end - s.flush_plan()[k].y_start <= LINES,
        k + 1 < s.flush_plan().len() ==> s.flush_plan()[k + 1].y_start == s.flush_plan()[k].y_end,
{
    assert(s.flush_plan()[k] == s.chunk(k));
    if k + 1 < s.flush_plan().len() {
        assert(s.flush_plan()[k + 1] == s.chunk(k + 1));
    }
}

/// A second flush with no write in between sends nothing and changes
/// nothing.
pub proof fn law_flush_twice(s: Screen)
    requires
        s.wf(),
    ensures
        s.flushed().wf(),
        s.flushed().flush_plan() == Seq::<Transfer>::empty(),
        s.flushed().flushed() == s.flushed(),
{
    assert(s.flushed().flush_plan() =~= Seq::<Transfer>::empty());
}

} // verus!
