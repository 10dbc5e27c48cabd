use embedded_graphics::pixelcolor::raw::RawU16;
use embedded_graphics::pixelcolor::{IntoStorage, Rgb565};
use embedded_graphics::primitives::{Circle, Line, PrimitiveStyleBuilder, Styled};
use touch_maze::geometry::{draw_pixels, DrawSurface, Pixel, Point, Rectangle, Size, Style};
use touch_maze::maze::Maze;
use touch_maze::maze_painter::MazePainter;

/// A surface that keeps every plot, in order.
struct Recorder {
    plots: Vec<Pixel>,
}

impl DrawSurface for Recorder {
    type Model = Vec<Pixel>;

    fn model(&self) -> Vec<Pixel> {
        self.plots.clone()
    }

    fn usable(&self) -> bool {
        true
    }

    fn plotted(m: Vec<Pixel>, p: Pixel) -> Vec<Pixel> {
        let mut m = m;
        m.push(p);
        m
    }

    fn extent(_: Vec<Pixel>) -> Rectangle {
        Rectangle { top_left: Point { x: 0, y: 0 }, size: Size { width: 0, height: 0 } }
    }

    fn plot(&mut self, x: i32, y: i32, color: u16) {
        self.plots.push(Pixel { x, y, color });
    }

    fn bounds(&self) -> Rectangle {
        Self::extent(self.model())
    }
}

const WHITE: u16 = 0xFFFF;
const YELLOW: u16 = 0xFFE0;
const GREEN: u16 = 0x07E0;

fn colour(raw: u16) -> Rgb565 {
    Rgb565::from(RawU16::new(raw))
}

/// The pixels of a line as the graphics library yields them.
fn line(from: (i32, i32), to: (i32, i32), stroke: u16, width: u32) -> Vec<Pixel> {
    let style = PrimitiveStyleBuilder::new().stroke_color(colour(stroke)).stroke_width(width).build();
    let start = embedded_graphics::geometry::Point::new(from.0, from.1);
    let end = embedded_graphics::geometry::Point::new(to.0, to.1);
    Styled::new(Line::new(start, end), style)
        .pixels()
        .map(|p| Pixel { x: p.0.x, y: p.0.y, color: p.1.into_storage() })
        .collect()
}

/// The pixels of a filled and stroked circle as the graphics library yields them.
fn circle(corner: (i32, i32), diameter: u32, fill: u16, stroke: u16, width: u32) -> Vec<Pixel> {
    let style = PrimitiveStyleBuilder::new()
        .fill_color(colour(fill))
        .stroke_color(colour(stroke))
        .stroke_width(width)
        .build();
    let corner = embedded_graphics::geometry::Point::new(corner.0, corner.1);
    Styled::new(Circle::new(corner, diameter), style)
        .pixels()
        .map(|p| Pixel { x: p.0.x, y: p.0.y, color: p.1.into_storage() })
        .collect()
}

#[test]
fn draw_pixels_plots_in_order() {
    let mut recorder = Recorder { plots: Vec::new() };
    let pixels = vec![
        Pixel { x: 1, y: 2, color: 3 },
        Pixel { x: -4, y: 5, color: 6 },
        Pixel { x: 1, y: 2, color: 7 },
    ];
    draw_pixels(&mut recorder, &pixels);
    assert_eq!(recorder.plots, pixels);
}

#[test]
fn draw_plots_walls_cell_by_cell_then_the_markers() {
    // Two cells side by side with the wall between them open.
    let mut maze = Maze::new(2, 1);
    maze.connect(0, 0, 1, 0);
    let style = Style { fill_color: Some(YELLOW), stroke_color: Some(WHITE), stroke_width: 1 };
    let painter =
        MazePainter::new(maze, style, Size { width: 20, height: 10 }, Point { x: 25, y: 20 });
    let mut recorder = Recorder { plots: Vec::new() };
    painter.draw(&mut recorder);

    let mut expected = Vec::new();
    // (0, 0): north, south, west; its east wall is open.
    expected.extend(line((25, 20), (45, 20), WHITE, 1));
    expected.extend(line((25, 30), (45, 30), WHITE, 1));
    expected.extend(line((25, 20), (25, 30), WHITE, 1));
    // (1, 0): north, south, east; its west wall is open.
    expected.extend(line((45, 20), (65, 20), WHITE, 1));
    expected.extend(line((45, 30), (65, 30), WHITE, 1));
    expected.extend(line((65, 20), (65, 30), WHITE, 1));
    // The markers of the start and of the goal: the lesser side of a cell less three.
    expected.extend(circle((27, 22), 7, YELLOW, WHITE, 1));
    expected.extend(circle((47, 22), 7, YELLOW, WHITE, 1));
    assert_eq!(recorder.plots, expected);
    assert!(!recorder.plots.is_empty());
}

#[test]
fn a_move_plots_a_line_to_each_visited_neighbour_in_order() {
    let mut maze = Maze::new(3, 3);
    maze.connect(1, 1, 0, 1);
    maze.connect(1, 1, 2, 1);
    maze.connect(1, 1, 1, 0);
    maze.connect(1, 1, 1, 2);
    maze.mark_visited(1, 2);
    maze.mark_visited(0, 1);
    let style = Style { fill_color: None, stroke_color: Some(WHITE), stroke_width: 1 };
    let mut painter =
        MazePainter::new(maze, style, Size { width: 20, height: 20 }, Point { x: 5, y: 7 });
    let trail = Style { fill_color: None, stroke_color: Some(GREEN), stroke_width: 3 };
    let mut recorder = Recorder { plots: Vec::new() };
    assert!(painter.apply_move((1, 1), &trail, &mut recorder));

    // West before south; east and north are not visited.
    let mut expected = line((35, 37), (15, 37), GREEN, 3);
    expected.extend(line((35, 37), (35, 57), GREEN, 3));
    assert_eq!(recorder.plots, expected);
    assert!(painter.maze.at(1, 1).visited);
}

#[test]
fn draw_marker_plots_the_circle() {
    let painter = MazePainter::new(
        Maze::new(2, 2),
        Style { fill_color: None, stroke_color: None, stroke_width: 0 },
        Size { width: 12, height: 30 },
        Point { x: -3, y: 4 },
    );
    let style = Style { fill_color: Some(GREEN), stroke_color: Some(WHITE), stroke_width: 2 };
    let mut recorder = Recorder { plots: Vec::new() };
    painter.draw_marker(1, 1, &style, &mut recorder);
    assert_eq!(recorder.plots, circle((11, 36), 9, GREEN, WHITE, 2));
    assert!(recorder.plots.iter().any(|p| p.color == GREEN));
    assert!(recorder.plots.iter().any(|p| p.color == WHITE));
}
