use claar::colorers::{coloring_func, uv_as_rg, AttributeColorer, UvColorer};
use claar::framebuffer::{blend_tiles, FrameBuffer, Tile};
use claar::primatives::{Point, Triangle, SUBPIXEL};
use claar::RasterError;

fn background() -> Tile {
    Tile::new(0, 0, 0, 255)
}

fn white() -> Tile {
    Tile::new(255, 255, 255, 255)
}

/// The corner of pixel `(x, y)`.
fn px(x: i32, y: i32) -> Point {
    Point::new(x * SUBPIXEL, y * SUBPIXEL)
}

fn plain(a: Point, b: Point, c: Point) -> Triangle<UvColorer> {
    Triangle::<UvColorer>::new((a, None), (b, None), (c, None), None).unwrap()
}

fn cells(fb: &FrameBuffer) -> Vec<Vec<Tile>> {
    let mut rows = Vec::new();
    for y in 0..fb.get_height() {
        let mut row = Vec::new();
        for x in 0..fb.get_width() {
            row.push(fb.get_tile(x, y).unwrap());
        }
        rows.push(row);
    }
    rows
}

#[test]
fn new_buffer_is_background() {
    let fb = FrameBuffer::new(4, 3);
    assert_eq!((fb.get_width(), fb.get_height()), (4, 3));
    for row in cells(&fb) {
        assert_eq!(row.len(), 4);
        for t in row {
            assert_eq!(t, background());
        }
    }
    assert_eq!(fb.get_tile(4, 0), None);
    assert_eq!(fb.get_tile(0, 3), None);
}

#[test]
fn display_rows_put_the_top_row_first() {
    let mut fb = FrameBuffer::new(3, 2);
    fb.draw_point(&px(2, 1), Tile::new(7, 8, 9, 255));
    fb.draw_point(&px(0, 0), Tile::new(1, 2, 3, 255));
    let rows = fb.display_rows();
    assert_eq!(rows, vec![
        vec![(0, 0, 0), (0, 0, 0), (7, 8, 9)],
        vec![(1, 2, 3), (0, 0, 0), (0, 0, 0)],
    ]);
}

#[test]
fn default_tile_is_transparent_black() {
    assert_eq!(Tile::default(), Tile::new(0, 0, 0, 0));
}

#[test]
fn display_size_sets_dimensions() {
    let fb = FrameBuffer::from_display_size(Some((80, 24))).ok().unwrap();
    assert_eq!((fb.get_width(), fb.get_height()), (38, 20));
    let fb = FrameBuffer::from_display_size(Some((3, 2))).ok().unwrap();
    assert_eq!((fb.get_width(), fb.get_height()), (0, 0));
}

#[test]
fn unknown_display_size_is_an_error() {
    assert_eq!(FrameBuffer::from_display_size(None).err(), Some(RasterError::DisplaySinkUnavailable));
}

#[test]
fn blending_mixes_channels() {
    let r = blend_tiles(Tile::new(10, 20, 30, 255), Tile::new(200, 100, 50, 51));
    assert_eq!(r, Tile::new(48, 36, 34, 51));
}

#[test]
fn opaque_point_replaces_destination() {
    let mut fb = FrameBuffer::new(3, 3);
    let src = Tile::new(12, 34, 56, 255);
    fb.draw_point(&px(1, 1), Tile::new(200, 100, 50, 128));
    fb.draw_point(&px(1, 1), src);
    assert_eq!(fb.get_tile(1, 1), Some(src));
    fb.draw_point(&px(0, 2), src);
    assert_eq!(fb.get_tile(0, 2), Some(src));
}

#[test]
fn transparent_point_keeps_colour_of_painted_destination() {
    let mut fb = FrameBuffer::new(3, 3);
    fb.draw_point(&px(2, 0), Tile::new(10, 20, 30, 255));
    fb.draw_point(&px(2, 0), Tile::new(200, 100, 50, 0));
    assert_eq!(fb.get_tile(2, 0), Some(Tile::new(10, 20, 30, 0)));
}

#[test]
fn transparent_point_on_black_canvas_keeps_black() {
    let mut fb = FrameBuffer::new(3, 3);
    fb.draw_point(&px(1, 2), Tile::new(200, 100, 50, 0));
    assert_eq!(fb.get_tile(1, 2), Some(Tile::new(0, 0, 0, 0)));
    fb.draw_point(&px(0, 0), Tile::new(0, 0, 0, 0));
    assert_eq!(fb.get_tile(0, 0), Some(Tile::new(0, 0, 0, 0)));
}

#[test]
fn points_inside_a_pixel_draw_that_pixel() {
    let mut fb = FrameBuffer::new(3, 3);
    fb.draw_point(&Point::new(31, 17), Tile::new(5, 6, 7, 255));
    assert_eq!(fb.get_tile(1, 1), Some(Tile::new(5, 6, 7, 255)));
    fb.draw_point(&Point::new(47, 0), Tile::new(8, 9, 10, 255));
    assert_eq!(fb.get_tile(2, 0), Some(Tile::new(8, 9, 10, 255)));
    fb.draw_point(&Point::new(48, 0), white());
    fb.draw_point(&Point::new(-1, 0), white());
    assert_eq!(fb.get_tile(0, 0), Some(background()));
}

#[test]
fn points_outside_the_grid_are_ignored() {
    let mut fb = FrameBuffer::new(3, 2);
    let before = cells(&fb);
    fb.draw_point(&px(-1, 0), white());
    fb.draw_point(&px(0, -1), white());
    fb.draw_point(&px(3, 0), white());
    fb.draw_point(&px(0, 2), white());
    assert_eq!(cells(&fb), before);
}

#[test]
fn clear_restores_background() {
    let mut fb = FrameBuffer::new(6, 5);
    fb.draw_point(&px(1, 1), Tile::new(1, 2, 3, 4));
    let t = plain(px(0, 0), px(5, 0), px(0, 4));
    fb.draw_triangle(&t).unwrap();
    fb.clear_buffer();
    let grid = cells(&fb);
    assert_eq!(grid.len(), 5);
    for row in grid {
        assert_eq!(row.len(), 6);
        for t in row {
            assert_eq!(t, background());
        }
    }
}

#[test]
fn offscreen_triangle_draws_nothing() {
    let mut fb = FrameBuffer::new(5, 5);
    let before = cells(&fb);
    let far = plain(px(20, 20), px(30, 20), px(20, 30));
    assert_eq!(fb.draw_triangle(&far), Ok(()));
    let behind = plain(px(-10, -10), px(-5, -10), px(-10, -5));
    assert_eq!(fb.draw_triangle(&behind), Ok(()));
    let left = plain(px(-10, 0), px(-1, 2), px(-4, 4));
    assert_eq!(fb.draw_triangle(&left), Ok(()));
    assert_eq!(cells(&fb), before);
}

#[test]
fn right_triangle_single_sample_draws_fifteen_pixels() {
    let mut fb = FrameBuffer::new(5, 5);
    let t = plain(px(0, 0), px(4, 0), px(0, 4));
    assert_eq!(fb.draw_triangle_sampled(&t, 1), Ok(()));
    let mut drawn = 0;
    for y in 0..5usize {
        for x in 0..5usize {
            let tile = fb.get_tile(x, y).unwrap();
            if x + y <= 4 {
                assert_eq!(tile, white());
                drawn += 1;
            } else {
                assert_eq!(tile, background());
            }
        }
    }
    assert_eq!(drawn, 15);
}

#[test]
fn edge_pixels_get_partial_alpha() {
    let mut fb = FrameBuffer::new(5, 5);
    let t = plain(px(0, 0), px(4, 0), px(0, 4));
    assert_eq!(fb.draw_triangle(&t), Ok(()));
    assert_eq!(fb.get_tile(1, 1), Some(white()));
    assert_eq!(fb.get_tile(2, 1), Some(Tile::new(255, 255, 255, 207)));
    assert_eq!(fb.get_tile(3, 1), Some(Tile::new(255, 255, 255, 15)));
    assert_eq!(fb.get_tile(4, 0), Some(Tile::new(255, 255, 255, 15)));
    assert_eq!(fb.get_tile(4, 1), Some(background()));
}

#[test]
fn triangles_sharing_an_edge_leave_no_gap() {
    let mut fb = FrameBuffer::new(10, 10);
    fb.clear_buffer();
    let lower = plain(px(0, 0), px(8, 0), px(0, 8));
    let upper = plain(px(8, 0), px(8, 8), px(0, 8));
    assert_eq!(fb.draw_triangle(&lower), Ok(()));
    assert_eq!(fb.draw_triangle(&upper), Ok(()));
    for y in 0..8usize {
        for x in 0..8usize {
            assert_ne!(fb.get_tile(x, y).unwrap(), background(), "gap at ({}, {})", x, y);
        }
    }
    assert_eq!(fb.get_tile(9, 9), Some(background()));
}

#[test]
fn sub_pixel_vertices_shift_coverage() {
    let mut fb = FrameBuffer::new(5, 5);
    let t = plain(Point::new(8, 8), Point::new(72, 8), Point::new(8, 72));
    assert_eq!(fb.draw_triangle_sampled(&t, 1), Ok(()));
    assert_eq!(fb.get_tile(0, 0), Some(background()));
    assert_eq!(fb.get_tile(1, 1), Some(white()));
    assert_eq!(fb.get_tile(3, 1), Some(white()));
    assert_eq!(fb.get_tile(4, 1), Some(white()));
    assert_eq!(fb.get_tile(4, 2), Some(background()));
}

#[test]
fn collinear_triangle_is_degenerate_and_draws_nothing() {
    let mut fb = FrameBuffer::new(5, 5);
    let before = cells(&fb);
    let t = plain(px(0, 0), px(2, 2), px(4, 4));
    assert_eq!(fb.draw_triangle(&t), Err(RasterError::DegenerateTriangle));
    assert_eq!(cells(&fb), before);
}

#[test]
fn attribute_colorer_uses_interpolated_attributes() {
    let mut fb = FrameBuffer::new(5, 5);
    let t = Triangle::new(
        (px(0, 0), Some(vec![255, 0, 0])),
        (px(4, 0), Some(vec![0, 255, 0])),
        (px(0, 4), Some(vec![0, 0, 255])),
        Some(AttributeColorer),
    )
    .unwrap();
    assert_eq!(fb.draw_triangle_sampled(&t, 1), Ok(()));
    assert_eq!(fb.get_tile(0, 0), Some(Tile::new(191, 31, 31, 255)));
    assert_eq!(fb.get_tile(4, 4), Some(background()));
}

#[test]
fn uv_colorer_uses_bounding_box_position() {
    let mut fb = FrameBuffer::new(5, 5);
    let t = Triangle::new(
        (px(0, 0), None),
        (px(4, 0), None),
        (px(0, 4), None),
        Some(UvColorer),
    )
    .unwrap();
    assert_eq!(fb.draw_triangle_sampled(&t, 1), Ok(()));
    assert_eq!(fb.get_tile(2, 1), Some(Tile::new(127, 63, 0, 255)));
    assert_eq!(fb.get_tile(0, 4), Some(Tile::new(0, 255, 0, 255)));
}

#[test]
fn colorer_functions() {
    assert_eq!(coloring_func(Point::new(0, 0), &[300, -5, 7]), Tile::new(255, 0, 7, 255));
    assert_eq!(coloring_func(Point::new(0, 0), &[9]), Tile::new(9, 0, 0, 255));
    assert_eq!(uv_as_rg(Point::new(40, 255), &[]), Tile::new(40, 255, 0, 255));
}
