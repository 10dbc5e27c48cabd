use touch_maze::geometry::{Point, Size, Style};
use touch_maze::hx8369::{Transfer, HX8369};
use touch_maze::maze::{Direction, Maze};
use touch_maze::maze_painter::{dist_sq, dist_sq_wide, MazePainter, CLICK_APPROXIMATION};

const WHITE: u16 = 0xFFFF;
const GREEN: u16 = 0x07E0;
const YELLOW: u16 = 0xFFE0;

fn stroke(color: u16, width: u32) -> Style {
    Style { fill_color: None, stroke_color: Some(color), stroke_width: width }
}

fn painter(maze: Maze, cell: u32, offset: (i32, i32)) -> MazePainter {
    MazePainter::new(
        maze,
        stroke(WHITE, 1),
        Size { width: cell, height: cell },
        Point { x: offset.0, y: offset.1 },
    )
}

/// A 3 x 3 maze in which the start has passages to (1, 0) and to (0, 1).
fn corner_maze() -> Maze {
    let mut maze = Maze::new(3, 3);
    maze.connect(0, 0, 1, 0);
    maze.connect(0, 0, 0, 1);
    maze
}

/// A 2 x 2 maze with the passages (0, 0)-(1, 0) and (1, 0)-(1, 1).
fn hook_maze() -> Maze {
    let mut maze = Maze::new(2, 2);
    maze.connect(0, 0, 1, 0);
    maze.connect(1, 0, 1, 1);
    maze
}

fn visited(p: &MazePainter) -> Vec<(usize, usize)> {
    let mut cells = Vec::new();
    for y in 0..p.maze.height {
        for x in 0..p.maze.width {
            if p.maze.at(x, y).visited {
                cells.push((x, y));
            }
        }
    }
    cells
}

#[test]
fn click_approximation_is_twenty_pixels() {
    assert_eq!(CLICK_APPROXIMATION, 20);
}

#[test]
fn new_marks_the_start() {
    let p = painter(Maze::new(3, 3), 20, (0, 0));
    assert_eq!(visited(&p), vec![(0, 0)]);
    assert_eq!(p.cell_size, Size { width: 20, height: 20 });
    assert_eq!(p.offset, Point { x: 0, y: 0 });
    assert_eq!(p.style, stroke(WHITE, 1));
}

#[test]
fn dist_sq_is_the_squared_distance() {
    assert_eq!(dist_sq((3, 4), (0, 0)), 25);
    assert_eq!(dist_sq((-2, 7), (1, 3)), 25);
    assert_eq!(dist_sq((5, 5), (5, 5)), 0);
    assert_eq!(dist_sq((0, 0), (46340, 0)), 2_147_395_600);
    assert_eq!(dist_sq_wide((3, 4), (0, 0)), 25);
    assert_eq!(
        dist_sq_wide((i32::MIN, i32::MIN), (i32::MAX, i32::MAX)),
        2 * (u32::MAX as u128) * (u32::MAX as u128)
    );
}

#[test]
fn central_point_is_the_middle_of_the_cell() {
    let p = MazePainter::new(
        Maze::new(4, 3),
        stroke(WHITE, 1),
        Size { width: 20, height: 10 },
        Point { x: 25, y: 20 },
    );
    assert_eq!(p.get_cell_central_point(0, 0), (35, 25));
    assert_eq!(p.get_cell_central_point(2, 1), (75, 35));
    let odd = painter(Maze::new(2, 2), 5, (-3, 0));
    assert_eq!(odd.get_cell_central_point(1, 1), (4, 7));
}

#[test]
fn point_to_cell_divides_after_the_offset() {
    let p = painter(Maze::new(3, 3), 20, (25, 20));
    assert_eq!(p.point_to_cell(25, 20), Some((0, 0)));
    assert_eq!(p.point_to_cell(44, 39), Some((0, 0)));
    assert_eq!(p.point_to_cell(45, 40), Some((1, 1)));
    assert_eq!(p.point_to_cell(84, 79), Some((2, 2)));
    assert_eq!(p.point_to_cell(85, 20), None);
    assert_eq!(p.point_to_cell(25, 80), None);
    assert_eq!(p.point_to_cell(i32::MAX, i32::MAX), None);
}

#[test]
fn point_to_cell_clamps_before_the_grid() {
    let p = painter(Maze::new(3, 3), 20, (25, 20));
    assert_eq!(p.point_to_cell(0, 0), Some((0, 0)));
    assert_eq!(p.point_to_cell(-100, 45), Some((0, 1)));
    assert_eq!(p.point_to_cell(50, i32::MIN), Some((1, 0)));
}

#[test]
fn cell_neighbors_follow_open_walls() {
    let mut maze = Maze::new(3, 3);
    maze.connect(1, 1, 2, 1);
    maze.connect(1, 1, 1, 0);
    maze.open_side(0, 0, Direction::West);
    maze.open_side(0, 0, Direction::North);
    let p = painter(maze, 20, (0, 0));
    assert_eq!(p.get_cell_neighbors(1, 1), vec![(2, 1), (1, 0)]);
    assert_eq!(p.get_cell_neighbors(2, 1), vec![(1, 1)]);
    assert_eq!(p.get_cell_neighbors(0, 0), vec![]);
    assert_eq!(p.get_cell_neighbors(2, 2), vec![]);
}

#[test]
fn clickable_needs_a_passage_to_a_visited_cell() {
    let mut maze = Maze::new(3, 3);
    maze.connect(0, 0, 1, 0);
    let p = painter(maze, 20, (0, 0));
    assert!(p.is_cell_clickable(1, 0));
    // Next to the start, but the wall between them stands.
    assert!(!p.is_cell_clickable(0, 1));
    // Visited.
    assert!(!p.is_cell_clickable(0, 0));
    assert!(!p.is_cell_clickable(2, 2));
    assert!(!p.is_cell_clickable(3, 0));
    assert!(!p.is_cell_clickable(0, 3));
}

#[test]
fn hit_test_reaches_a_clickable_cell_within_tolerance() {
    let p = painter(corner_maze(), 20, (0, 0));
    // Under the tap is (2, 0), which touches nothing visited; (1, 0) is one cell away.
    assert_eq!(p.point_to_cell(41, 10), Some((2, 0)));
    assert!(!p.is_cell_clickable(2, 0));
    assert_eq!(p.get_closest_clickable_cell(41, 10, 20), Some((1, 0)));
    assert_eq!(p.get_closest_clickable_cell(10, 41, 20), Some((0, 1)));
}

#[test]
fn hit_test_finds_nothing_beyond_tolerance() {
    let p = painter(corner_maze(), 20, (0, 0));
    assert_eq!(p.get_closest_clickable_cell(50, 50, 20), None);
    assert_eq!(p.get_closest_clickable_cell(41, 10, 19), None);
    assert_eq!(p.get_closest_clickable_cell(41, 10, 0), None);
    assert_eq!(p.get_closest_clickable_cell(30, 10, 0), Some((1, 0)));
}

#[test]
fn hit_test_fails_on_a_visited_cell() {
    let p = painter(corner_maze(), 20, (0, 0));
    assert_eq!(p.get_closest_clickable_cell(5, 5, 20), None);
    assert_eq!(p.get_closest_clickable_cell(19, 19, 200), None);
}

#[test]
fn hit_test_fails_outside_the_grid() {
    let p = painter(corner_maze(), 20, (0, 0));
    assert_eq!(p.get_closest_clickable_cell(60, 10, 20), None);
    assert_eq!(p.get_closest_clickable_cell(10, 60, 20), None);
}

#[test]
fn hit_test_picks_the_nearest_centre() {
    let p = painter(corner_maze(), 20, (0, 0));
    assert_eq!(p.get_closest_clickable_cell(29, 31, 20), Some((0, 1)));
    assert_eq!(p.get_closest_clickable_cell(31, 29, 20), Some((1, 0)));
}

#[test]
fn hit_test_breaks_ties_row_by_row() {
    let p = painter(corner_maze(), 20, (0, 0));
    // (1, 0) and (0, 1) are both 400 away; (1, 0) lies in the earlier row.
    assert_eq!(p.get_closest_clickable_cell(30, 30, 20), Some((1, 0)));
}

#[test]
fn hit_test_clamps_a_tap_before_the_grid() {
    let p = painter(corner_maze(), 20, (0, 0));
    assert_eq!(p.get_closest_clickable_cell(-5, 25, 20), Some((0, 1)));
    assert_eq!(p.get_closest_clickable_cell(i32::MIN, 25, 20), Some((0, 1)));
}

#[test]
fn covered_cells_come_row_by_row() {
    let mut maze = Maze::new(3, 3);
    maze.connect(1, 1, 0, 1);
    maze.connect(1, 1, 2, 1);
    maze.connect(1, 1, 1, 0);
    maze.connect(1, 1, 1, 2);
    let mut p = painter(maze, 20, (0, 0));
    p.maze.cells[0].visited = false;
    p.maze.mark_visited(1, 1);
    assert_eq!(
        p.get_covered_cells_with_approximation(30, 30, 20),
        vec![(1, 0), (0, 1), (2, 1), (1, 2)]
    );
    assert_eq!(p.get_covered_cells_with_approximation(10, 10, 20), vec![(1, 0), (0, 1)]);
    assert_eq!(p.get_covered_cells_with_approximation(10, 10, 0), vec![]);
    assert_eq!(p.get_covered_cells_with_approximation(70, 30, 20), vec![(2, 1)]);
    assert_eq!(p.get_covered_cells_with_approximation(90, 30, 20), vec![]);
}

#[test]
fn end_to_end_two_taps() {
    let mut fb = HX8369::new(200, 200);
    let mut p = painter(hook_maze(), 50, (0, 0));
    assert_eq!(visited(&p), vec![(0, 0)]);
    let walls_before: Vec<_> =
        p.maze.cells.iter().map(|c| (c.north, c.south, c.east, c.west)).collect();

    assert_eq!(p.get_closest_clickable_cell(75, 25, CLICK_APPROXIMATION), Some((1, 0)));
    assert!(p.on_click(75, 25, stroke(GREEN, 3), &mut fb));
    assert_eq!(visited(&p), vec![(0, 0), (1, 0)]);
    let walls_after: Vec<_> =
        p.maze.cells.iter().map(|c| (c.north, c.south, c.east, c.west)).collect();
    assert_eq!(walls_before, walls_after);

    // (0, 1) is next to the start, but the wall between them stands.
    assert!(!p.is_cell_clickable(0, 1));
    assert_eq!(p.get_closest_clickable_cell(25, 75, CLICK_APPROXIMATION), None);
    assert!(!p.on_click(25, 75, stroke(GREEN, 3), &mut fb));
    assert!(!p.apply_move((0, 1), &stroke(GREEN, 3), &mut fb));
    assert_eq!(visited(&p), vec![(0, 0), (1, 0)]);
}

#[test]
fn a_move_draws_the_line_between_the_centres() {
    let mut fb = HX8369::new(200, 200);
    let mut p = painter(hook_maze(), 50, (0, 0));
    assert!(p.on_click(75, 25, stroke(GREEN, 3), &mut fb));
    for x in 25..=75 {
        for y in 24..=26 {
            assert_eq!(fb.get_pixel(x, y), GREEN);
        }
    }
    assert_eq!(fb.get_pixel(50, 23), 0);
    assert_eq!(fb.get_pixel(50, 27), 0);
    assert_eq!(fb.get_pixel(24, 25), 0);
    assert_eq!(fb.get_pixel(76, 25), 0);
    assert_eq!(fb.flush(), vec![Transfer { x_start: 0, y_start: 24, x_end: 200, y_end: 27 }]);
}

#[test]
fn a_move_is_drawn_at_the_offset() {
    let mut fb = HX8369::new(200, 200);
    let mut p = painter(hook_maze(), 50, (25, 20));
    assert!(p.on_click(100, 45, stroke(GREEN, 1), &mut fb));
    for x in 50..=100 {
        assert_eq!(fb.get_pixel(x, 45), GREEN);
    }
    assert_eq!(fb.get_raw_buffer().iter().filter(|&&c| c != 0).count(), 51);
}

#[test]
fn a_failed_tap_changes_nothing() {
    let mut fb = HX8369::new(100, 100);
    let mut p = painter(corner_maze(), 20, (0, 0));
    assert!(!p.on_click(50, 50, stroke(GREEN, 3), &mut fb));
    assert!(!p.on_click(5, 5, stroke(GREEN, 3), &mut fb));
    assert_eq!(visited(&p), vec![(0, 0)]);
    assert!(fb.get_raw_buffer().iter().all(|&c| c == 0));
    assert_eq!(fb.flush(), vec![]);
}

#[test]
fn apply_move_outside_the_grid_changes_nothing() {
    let mut fb = HX8369::new(100, 100);
    let mut p = painter(corner_maze(), 20, (0, 0));
    assert!(!p.apply_move((3, 0), &stroke(GREEN, 3), &mut fb));
    assert!(!p.apply_move((0, 3), &stroke(GREEN, 3), &mut fb));
    assert_eq!(visited(&p), vec![(0, 0)]);
    assert!(fb.get_raw_buffer().iter().all(|&c| c == 0));
}

#[test]
fn apply_move_joins_every_visited_neighbour() {
    let mut maze = Maze::new(3, 3);
    maze.connect(1, 1, 0, 1);
    maze.connect(1, 1, 2, 1);
    maze.connect(1, 1, 1, 0);
    maze.mark_visited(0, 1);
    maze.mark_visited(2, 1);
    let mut fb = HX8369::new(100, 100);
    let mut p = painter(maze, 20, (0, 0));
    assert!(p.apply_move((1, 1), &stroke(GREEN, 1), &mut fb));
    assert_eq!(visited(&p), vec![(0, 0), (0, 1), (1, 1), (2, 1)]);
    // Lines to (0, 1) and to (2, 1); none to (1, 0), which is not visited.
    for x in 10..=50 {
        assert_eq!(fb.get_pixel(x, 30), GREEN);
    }
    assert_eq!(fb.get_pixel(30, 20), 0);
    assert_eq!(fb.get_raw_buffer().iter().filter(|&&c| c != 0).count(), 41);
}

#[test]
fn apply_move_opens_the_wall_pair() {
    let mut maze = Maze::new(2, 1);
    // Only the side of (1, 0) is open: the pair does not agree.
    maze.open_side(1, 0, Direction::West);
    let mut fb = HX8369::new(100, 100);
    let mut p = painter(maze, 20, (0, 0));
    assert!(!p.maze.at(0, 0).east);
    assert!(p.apply_move((1, 0), &stroke(GREEN, 1), &mut fb));
    assert!(p.maze.at(0, 0).east);
    assert!(p.maze.at(1, 0).west);
    assert_eq!(visited(&p), vec![(0, 0), (1, 0)]);
}

#[test]
fn moves_keep_the_walls_in_agreement() {
    let mut maze = Maze::new(6, 5);
    maze.generate(0, 0);
    let mut fb = HX8369::new(200, 200);
    let mut p = painter(maze, 20, (0, 0));
    let walls_before: Vec<_> =
        p.maze.cells.iter().map(|c| (c.north, c.south, c.east, c.west)).collect();
    let mut played = 1;
    for _ in 0..30 {
        for y in 0..5 {
            for x in 0..6 {
                if p.is_cell_clickable(x, y) {
                    let centre = p.get_cell_central_point(x, y);
                    assert!(p.on_click(centre.0, centre.1, stroke(GREEN, 3), &mut fb));
                    played += 1;
                }
            }
        }
    }
    // A perfect maze can be played to the end.
    assert_eq!(played, 30);
    assert_eq!(visited(&p).len(), 30);
    let walls_after: Vec<_> =
        p.maze.cells.iter().map(|c| (c.north, c.south, c.east, c.west)).collect();
    assert_eq!(walls_before, walls_after);
    for y in 0..5 {
        for x in 0..6 {
            let cell = p.maze.at(x, y);
            if x + 1 < 6 {
                assert_eq!(cell.east, p.maze.at(x + 1, y).west);
            }
            if y + 1 < 5 {
                assert_eq!(cell.south, p.maze.at(x, y + 1).north);
            }
        }
    }
}

#[test]
fn draw_paints_the_standing_walls() {
    let mut fb = HX8369::new(40, 40);
    let p = painter(Maze::new(1, 1), 20, (5, 5));
    p.draw(&mut fb);
    for k in 5..=25 {
        assert_eq!(fb.get_pixel(k, 5), WHITE);
        assert_eq!(fb.get_pixel(k, 25), WHITE);
        assert_eq!(fb.get_pixel(5, k), WHITE);
        assert_eq!(fb.get_pixel(25, k), WHITE);
    }
    assert_eq!(fb.get_pixel(4, 5), 0);
    assert_eq!(fb.get_pixel(26, 5), 0);
    assert_eq!(fb.get_pixel(15, 4), 0);
    assert_eq!(fb.get_pixel(15, 6), 0);
    assert_eq!(fb.get_pixel(15, 26), 0);
    assert_eq!(fb.flush(), vec![Transfer { x_start: 0, y_start: 5, x_end: 40, y_end: 26 }]);
}

#[test]
fn draw_leaves_open_walls_out() {
    let mut maze = Maze::new(2, 1);
    maze.connect(0, 0, 1, 0);
    let mut fb = HX8369::new(60, 40);
    let p = painter(maze, 20, (0, 0));
    p.draw(&mut fb);
    // The wall between the two cells is open: only its ends, on the outer walls, are set.
    assert_eq!(fb.get_pixel(20, 0), WHITE);
    assert_eq!(fb.get_pixel(20, 20), WHITE);
    assert_eq!(fb.get_pixel(20, 1), 0);
    assert_eq!(fb.get_pixel(20, 19), 0);
    // The outer walls stand.
    assert_eq!(fb.get_pixel(0, 10), WHITE);
    assert_eq!(fb.get_pixel(40, 10), WHITE);
    assert_eq!(fb.get_pixel(30, 0), WHITE);
    assert_eq!(fb.get_pixel(30, 20), WHITE);
}

#[test]
fn draw_marks_the_start_and_the_goal() {
    let mut fb = HX8369::new(80, 60);
    let p = MazePainter::new(
        Maze::new(3, 2),
        Style { fill_color: Some(YELLOW), stroke_color: Some(WHITE), stroke_width: 1 },
        Size { width: 20, height: 20 },
        Point { x: 0, y: 0 },
    );
    p.draw(&mut fb);
    // Circles of diameter 17 with their corners at (2, 2) and (42, 22).
    assert_eq!(fb.get_pixel(10, 10), YELLOW);
    assert_eq!(fb.get_pixel(50, 30), YELLOW);
    assert_eq!(fb.get_pixel(10, 2), WHITE);
    assert_eq!(fb.get_pixel(50, 22), WHITE);
    assert_eq!(fb.get_pixel(2, 2), 0);
    // No marker in the cells between.
    assert_eq!(fb.get_pixel(30, 10), 0);
    assert_eq!(fb.get_pixel(10, 30), 0);
}

#[test]
fn draw_marker_draws_a_circle() {
    let mut fb = HX8369::new(40, 40);
    let p = painter(Maze::new(2, 2), 10, (3, 4));
    let style = Style { fill_color: Some(GREEN), stroke_color: None, stroke_width: 0 };
    p.draw_marker(1, 1, &style, &mut fb);
    // A circle of diameter 7 with its corner at (15, 16).
    assert_eq!(fb.get_pixel(18, 19), GREEN);
    assert_eq!(fb.get_pixel(15, 19), GREEN);
    assert_eq!(fb.get_pixel(21, 19), GREEN);
    assert_eq!(fb.get_pixel(18, 16), GREEN);
    assert_eq!(fb.get_pixel(18, 22), GREEN);
    assert_eq!(fb.get_pixel(15, 16), 0);
    assert_eq!(fb.get_pixel(14, 19), 0);
    assert_eq!(fb.get_pixel(22, 19), 0);
    assert_eq!(fb.flush(), vec![Transfer { x_start: 0, y_start: 16, x_end: 40, y_end: 23 }]);
}

#[test]
fn a_stroke_without_colour_draws_nothing() {
    let mut fb = HX8369::new(40, 40);
    let mut p = painter(Maze::new(1, 1), 20, (5, 5));
    p.style = Style { fill_color: None, stroke_color: None, stroke_width: 1 };
    p.draw(&mut fb);
    assert!(fb.get_raw_buffer().iter().all(|&c| c == 0));
    p.style = Style { fill_color: None, stroke_color: Some(WHITE), stroke_width: 0 };
    let mut dark = HX8369::new(40, 40);
    let nothing = Style { fill_color: None, stroke_color: None, stroke_width: 0 };
    p.draw_marker(0, 0, &nothing, &mut dark);
    assert!(dark.get_raw_buffer().iter().all(|&c| c == 0));
}

#[test]
fn drawing_off_the_screen_is_clipped() {
    let mut fb = HX8369::new(10, 10);
    let p = painter(Maze::new(2, 2), 20, (-15, -15));
    p.draw(&mut fb);
    // The grid spans -15..=25: of its lines only those at 5 cross the screen.
    for k in 0..10 {
        assert_eq!(fb.get_pixel(5, k), WHITE);
        assert_eq!(fb.get_pixel(k, 5), WHITE);
    }
}
