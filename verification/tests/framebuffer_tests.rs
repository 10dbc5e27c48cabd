use touch_maze::geometry::{draw_pixels, DrawSurface, Pixel, Point, Rectangle, Size};
use touch_maze::hx8369::{Transfer, HX8369, LINES};

fn rows(y_start: i32, y_end: i32, width: i32) -> Transfer {
    Transfer { x_start: 0, y_start, x_end: width, y_end }
}

fn pixel(x: i32, y: i32, color: u16) -> Pixel {
    Pixel { x, y, color }
}

#[test]
fn lines_stay_below_the_transfer_ceiling() {
    assert_eq!(LINES, 60);
    assert!(LINES * 800 * 2 < 100_000);
}

#[test]
fn new_framebuffer_is_black_and_clean() {
    let mut fb = HX8369::new(8, 4);
    assert_eq!(fb.get_width(), 8);
    assert_eq!(fb.get_height(), 4);
    assert_eq!(fb.get_raw_buffer(), &[0u16; 32][..]);
    assert_eq!(fb.flush(), vec![]);
}

#[test]
fn bounding_box_starts_at_the_origin() {
    let fb = HX8369::new(800, 480);
    let expected =
        Rectangle { top_left: Point { x: 0, y: 0 }, size: Size { width: 800, height: 480 } };
    assert_eq!(fb.bounding_box(), expected);
    assert_eq!(fb.bounds(), expected);
}

#[test]
fn writes_outside_the_screen_are_clipped() {
    let mut fb = HX8369::new(4, 3);
    fb.draw_iter(&vec![
        pixel(-1, 0, 7),
        pixel(0, -1, 7),
        pixel(4, 0, 7),
        pixel(0, 3, 7),
        pixel(i32::MIN, i32::MAX, 7),
    ]);
    assert_eq!(fb.get_raw_buffer(), &[0u16; 12][..]);
    assert_eq!(fb.flush(), vec![]);
}

#[test]
fn a_write_sets_the_pixel_and_dirties_its_row() {
    let mut fb = HX8369::new(4, 3);
    fb.write(2, 1, 0xF800);
    assert_eq!(fb.get_pixel(2, 1), 0xF800);
    assert_eq!(fb.get_raw_buffer()[1 * 4 + 2], 0xF800);
    assert_eq!(fb.get_raw_buffer().iter().filter(|&&p| p != 0).count(), 1);
    assert_eq!(fb.flush(), vec![rows(1, 2, 4)]);
}

#[test]
fn get_pixel_is_black_outside_the_screen() {
    let mut fb = HX8369::new(4, 3);
    fb.fill(0xFFFF);
    assert_eq!(fb.get_pixel(3, 2), 0xFFFF);
    assert_eq!(fb.get_pixel(4, 0), 0);
    assert_eq!(fb.get_pixel(0, 3), 0);
}

#[test]
fn later_writes_win() {
    let mut fb = HX8369::new(4, 3);
    fb.draw_iter(&vec![pixel(1, 1, 5), pixel(1, 1, 9)]);
    assert_eq!(fb.get_pixel(1, 1), 9);
}

#[test]
fn flush_sends_the_dirty_rows_in_chunks() {
    let mut fb = HX8369::new(800, 480);
    fb.draw_iter(&vec![pixel(3, 130, 1), pixel(700, 5, 2), pixel(10, 70, 3)]);
    assert_eq!(fb.flush(), vec![rows(5, 65, 800), rows(65, 125, 800), rows(125, 131, 800)]);
}

#[test]
fn flush_sends_a_single_dirty_row() {
    let mut fb = HX8369::new(800, 480);
    fb.write(0, 479, 1);
    assert_eq!(fb.flush(), vec![rows(479, 480, 800)]);
    fb.write(0, 0, 1);
    assert_eq!(fb.flush(), vec![rows(0, 1, 800)]);
}

#[test]
fn flush_sends_a_range_that_is_a_multiple_of_a_chunk() {
    let mut fb = HX8369::new(10, 200);
    fb.draw_iter(&vec![pixel(0, 0, 1), pixel(0, 60, 1)]);
    assert_eq!(fb.flush(), vec![rows(0, 60, 10), rows(60, 61, 10)]);
    fb.draw_iter(&vec![pixel(0, 10, 1), pixel(0, 69, 1)]);
    assert_eq!(fb.flush(), vec![rows(10, 70, 10)]);
}

#[test]
fn flush_twice_sends_once() {
    let mut fb = HX8369::new(16, 16);
    fb.write(3, 3, 1);
    assert_eq!(fb.flush().len(), 1);
    assert_eq!(fb.flush(), vec![]);
    assert_eq!(fb.get_pixel(3, 3), 1);
}

#[test]
fn dirty_range_holds_every_write() {
    let mut fb = HX8369::new(20, 300);
    let writes = vec![pixel(1, 250, 1), pixel(2, 17, 1), pixel(3, 100, 1), pixel(19, 299, 1)];
    fb.draw_iter(&writes);
    let plan = fb.flush();
    for p in &writes {
        assert_eq!(plan.iter().filter(|t| t.y_start <= p.y && p.y < t.y_end).count(), 1);
    }
    for t in &plan {
        assert!(0 <= t.y_start && t.y_start < t.y_end && t.y_end <= 300);
        assert!(t.y_end - t.y_start <= 60);
        assert_eq!((t.x_start, t.x_end), (0, 20));
    }
    for pair in plan.windows(2) {
        assert_eq!(pair[0].y_end, pair[1].y_start);
    }
    assert_eq!(plan.first().unwrap().y_start, 17);
    assert_eq!(plan.last().unwrap().y_end, 300);
    assert_eq!(fb.flush(), vec![]);
}

#[test]
fn invalidate_dirties_the_whole_screen() {
    let mut fb = HX8369::new(800, 480);
    fb.invalidate();
    let plan = fb.flush();
    assert_eq!(plan.len(), 8);
    for (k, t) in plan.iter().enumerate() {
        assert_eq!(*t, rows(60 * k as i32, 60 * (k as i32 + 1), 800));
    }
    assert_eq!(fb.flush(), vec![]);
}

#[test]
fn invalidate_clamps_the_last_chunk() {
    let mut fb = HX8369::new(3, 100);
    fb.invalidate();
    assert_eq!(fb.flush(), vec![rows(0, 60, 3), rows(60, 100, 3)]);
}

#[test]
fn fill_writes_every_pixel_and_flushes_the_screen() {
    let mut fb = HX8369::new(5, 130);
    fb.write(1, 1, 3);
    let plan = fb.fill(0x07E0);
    assert_eq!(plan, vec![rows(0, 60, 5), rows(60, 120, 5), rows(120, 130, 5)]);
    assert!(fb.get_raw_buffer().iter().all(|&p| p == 0x07E0));
    assert_eq!(fb.get_raw_buffer().len(), 5 * 130);
    assert_eq!(fb.flush(), vec![]);
}

#[test]
fn empty_screens_never_transfer() {
    let mut fb = HX8369::new(10, 0);
    assert_eq!(fb.flush(), vec![]);
    fb.write(0, 0, 1);
    fb.invalidate();
    assert_eq!(fb.flush(), vec![]);
    assert_eq!(fb.fill(1), vec![]);
    let mut narrow = HX8369::new(0, 10);
    narrow.write(0, 0, 1);
    assert_eq!(narrow.flush(), vec![]);
}

#[test]
fn transfer_pixels_borrows_the_rows() {
    let mut fb = HX8369::new(3, 4);
    fb.draw_iter(&vec![pixel(0, 1, 10), pixel(2, 1, 12), pixel(1, 2, 21)]);
    let plan = fb.flush();
    assert_eq!(plan, vec![rows(1, 3, 3)]);
    assert_eq!(fb.transfer_pixels(&plan[0]), Some(&[10u16, 0, 12, 0, 21, 0][..]));
    assert_eq!(fb.transfer_pixels(&rows(4, 4, 3)), Some(&[][..]));
    assert_eq!(fb.transfer_pixels(&rows(0, 5, 3)), None);
    assert_eq!(fb.transfer_pixels(&rows(-1, 2, 3)), None);
    assert_eq!(fb.transfer_pixels(&rows(3, 2, 3)), None);
}

#[test]
fn plot_and_draw_pixels_go_through_the_surface() {
    let mut fb = HX8369::new(4, 4);
    fb.plot(1, 2, 6);
    draw_pixels(&mut fb, &vec![pixel(3, 3, 8), pixel(9, 9, 8)]);
    assert_eq!(fb.get_pixel(1, 2), 6);
    assert_eq!(fb.get_pixel(3, 3), 8);
    assert_eq!(fb.flush(), vec![rows(2, 4, 4)]);
}

#[test]
fn raw_writes_do_not_dirty_rows() {
    let mut fb = HX8369::new(4, 2);
    fb.get_raw_buffer_mut()[5] = 0x1234;
    assert_eq!(fb.get_pixel(1, 1), 0x1234);
    assert_eq!(fb.get_raw_buffer_mut().len(), 8);
    assert_eq!(fb.flush(), vec![]);
    fb.invalidate();
    assert_eq!(fb.flush(), vec![rows(0, 2, 4)]);
}
