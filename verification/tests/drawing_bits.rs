use astray::controls::{Controls, Keys, Rebuild};
use astray::grid::Grid;
use astray::kinds::{Layer, Shape};
use astray::line::bresenham;
use astray::polyline::{close_ring, pack_rgb, segment_pairs};
use astray::walls::Walls;
use astray::scene::{blocked_cells, border_cell, diagonal_goal, diagonal_start, in_any_wall, scene_blocked};

fn no_keys() -> Keys {
    Keys { c: false, d: false, w: false, l: false, m: false, s: false }
}

#[test]
fn shape_and_layer_names() {
    assert_eq!(Shape::Rect.name(), "rect");
    assert_eq!(Shape::Circle.name(), "circle");
    assert_eq!(Shape::Hexagon.name(), "hex");
    assert_eq!(Shape::Star.name(), "star");
    assert_eq!(Shape::Donut.name(), "donut");
    assert_eq!(Shape::Diamond.name(), "diamond");
    assert_eq!(Shape::Heart.name(), "heart");
    assert_eq!(Layer::Cut.dxf_name(), "CUT");
    assert_eq!(Layer::Engrave.dxf_name(), "ENGRAVE");
    assert_eq!(Layer::Link.dxf_name(), "LINK");
    assert_eq!(Layer::Marker.dxf_name(), "MARKER");
    assert_eq!(Layer::Cut.dxf_color_index(), 1);
    assert_eq!(Layer::Engrave.dxf_color_index(), 5);
    assert_eq!(Layer::Link.dxf_color_index(), 2);
    assert_eq!(Layer::Marker.dxf_color_index(), 3);
}

#[test]
fn bresenham_shallow_line() {
    assert_eq!(bresenham(0, 0, 3, 1), vec![(0, 0), (1, 0), (2, 1), (3, 1)]);
}

#[test]
fn bresenham_steep_and_backwards() {
    assert_eq!(bresenham(2, 3, 2, 0), vec![(2, 3), (2, 2), (2, 1), (2, 0)]);
    assert_eq!(bresenham(3, 3, 0, 0), vec![(3, 3), (2, 2), (1, 1), (0, 0)]);
    assert_eq!(bresenham(5, 5, 5, 5), vec![(5, 5)]);
}

#[test]
fn bresenham_skips_negative_points() {
    assert_eq!(bresenham(-1, 0, 1, 0), vec![(0, 0), (1, 0)]);
    assert_eq!(bresenham(-3, -3, -1, -1), vec![]);
}

#[test]
fn walls_and_border() {
    let walls = vec![(0, 0, 4, 0), (2, 1, 2, 3)];
    assert!(in_any_wall(&walls, 3, 0));
    assert!(in_any_wall(&walls, 2, 2));
    assert!(!in_any_wall(&walls, 1, 1));
    assert!(!in_any_wall(&vec![], 0, 0));
    assert!(border_cell(5, 4, 0, 2));
    assert!(border_cell(5, 4, 4, 2));
    assert!(border_cell(5, 4, 2, 3));
    assert!(!border_cell(5, 4, 2, 2));
}

#[test]
fn scene_blocked_rules() {
    let none = vec![];
    // Rect without walls: the border blocks.
    assert!(scene_blocked(false, &none, Shape::Rect, 5, 5, 0, 3, false));
    assert!(!scene_blocked(false, &none, Shape::Rect, 5, 5, 2, 2, false));
    // Rect with walls: only the walls.
    let walls = vec![(1, 1, 1, 3)];
    assert!(!scene_blocked(false, &walls, Shape::Rect, 5, 5, 0, 3, false));
    assert!(scene_blocked(false, &walls, Shape::Rect, 5, 5, 1, 2, false));
    // Other shapes: the outside test decides; painted cells always block.
    assert!(scene_blocked(false, &none, Shape::Circle, 5, 5, 2, 2, true));
    assert!(!scene_blocked(false, &none, Shape::Circle, 5, 5, 0, 0, false));
    assert!(scene_blocked(true, &none, Shape::Heart, 5, 5, 2, 2, false));
}

#[test]
fn diagonal_defaults() {
    let rows: Vec<Vec<bool>> = (0..6).map(|y| (0..6).map(|x| x == 0 || y == 0 || x == 5 || y == 5).collect()).collect();
    let g = Grid::new(6, 6, rows).unwrap();
    assert_eq!(diagonal_start(&g), (2, 2));
    assert_eq!(diagonal_goal(&g), (4, 4));
    let closed = Grid::new(4, 4, vec![vec![true; 4]; 4]).unwrap();
    assert_eq!(diagonal_start(&closed), (1, 1));
    assert_eq!(diagonal_goal(&closed), (2, 2));
}

#[test]
fn blocked_cells_row_major() {
    let rows = vec![vec![false, true, false], vec![true, false, true]];
    let g = Grid::new(3, 2, rows).unwrap();
    assert_eq!(blocked_cells(&g), vec![(1, 0), (0, 1), (2, 1)]);
}

#[test]
fn polyline_helpers() {
    let mut ring = vec![1, 2, 3];
    close_ring(&mut ring);
    assert_eq!(ring, vec![1, 2, 3, 1]);
    let mut empty: Vec<i32> = vec![];
    close_ring(&mut empty);
    assert!(empty.is_empty());
    assert_eq!(segment_pairs(&vec![1, 2, 3]), vec![(1, 2), (2, 3)]);
    assert!(segment_pairs(&vec![7]).is_empty());
}

#[test]
fn held_key_toggles_once() {
    let mut c = Controls::new((1, 1), (2, 2));
    let w = Keys { w: true, ..no_keys() };
    c.on_keys(w, None);
    assert!(!c.show_walls);
    c.on_keys(w, None);
    assert!(!c.show_walls);
    c.on_keys(no_keys(), None);
    c.on_keys(w, None);
    assert!(c.show_walls);
    let r = c.on_keys(Keys { c: true, d: true, s: true, ..no_keys() }, None);
    assert!(r.clear_painted && r.toggle_cardinal && r.export);
    assert_eq!(r.rebuild, Rebuild::Full);
    assert!(c.take_dirty());
    assert!(!c.take_dirty());
}

#[test]
fn shape_key_resets_markers() {
    let mut c = Controls::new((1, 1), (2, 2));
    c.on_right(true, Some((3, 3)));
    assert!(!c.click_sets_start);
    let r = c.on_keys(no_keys(), Some((Shape::Star, (4, 4), (5, 5))));
    assert_eq!(r.shape, Some(Shape::Star));
    assert!(r.clear_painted);
    assert_eq!((c.start, c.goal, c.click_sets_start), ((4, 4), (5, 5), true));
}

#[test]
fn right_clicks_alternate() {
    let mut c = Controls::new((1, 1), (2, 2));
    assert_eq!(c.on_right(true, Some((3, 3))), Rebuild::Full);
    assert_eq!(c.on_right(true, Some((4, 4))), Rebuild::Keep);
    c.on_right(false, None);
    c.on_right(true, Some((4, 4)));
    assert_eq!((c.start, c.goal), ((3, 3), (4, 4)));
    c.on_right(false, None);
    assert_eq!(c.on_right(true, None), Rebuild::Keep);
    assert!(c.click_sets_start);
}

fn painted_cells(w: &Walls, upto: usize) -> Vec<(usize, usize)> {
    let mut v = Vec::new();
    for y in 0..upto {
        for x in 0..upto {
            if w.contains((x, y)) {
                v.push((x, y));
            }
        }
    }
    v
}

#[test]
fn drag_paints_line_and_click_toggles() {
    let mut c = Controls::new((1, 1), (2, 2));
    let mut w = Walls::new();
    let r1 = c.on_left(&mut w, true, true, Some((0, 0)), false, false);
    assert!(r1.record_press);
    let r2 = c.on_left(&mut w, true, true, Some((3, 1)), false, true);
    assert_eq!(painted_cells(&w, 5), vec![(0, 0), (1, 0), (2, 1), (3, 1)]);
    assert_eq!(r2.rebuild, Rebuild::WallsOnly);
    // Same line again: nothing to redraw.
    let r3 = c.on_left(&mut w, true, true, Some((3, 1)), false, false);
    assert_eq!(r3.rebuild, Rebuild::Keep);
    let r4 = c.on_left(&mut w, false, true, Some((3, 1)), false, false);
    assert!(r4.forget_press);
    assert_eq!(r4.rebuild, Rebuild::Full);
    assert_eq!(painted_cells(&w, 5), vec![(0, 0), (1, 0), (2, 1), (3, 1)]);
    // A click without moving toggles the pressed cell.
    c.on_left(&mut w, true, true, Some((2, 2)), false, false);
    let r5 = c.on_left(&mut w, false, true, Some((2, 2)), false, false);
    assert_eq!(r5.rebuild, Rebuild::Full);
    assert!(w.contains((2, 2)));
    c.on_left(&mut w, true, true, Some((2, 2)), false, false);
    c.on_left(&mut w, false, true, Some((2, 2)), false, false);
    assert!(!w.contains((2, 2)));
}

#[test]
fn ctrl_drag_erases_line() {
    let mut c = Controls::new((1, 1), (2, 2));
    let mut w = Walls::new();
    for y in 0..3 {
        w.insert((0, y));
        w.insert((1, y));
    }
    c.on_left(&mut w, true, true, Some((0, 0)), true, false);
    c.on_left(&mut w, true, true, Some((0, 2)), true, true);
    let r3 = c.on_left(&mut w, false, true, None, true, false);
    assert_eq!(r3.rebuild, Rebuild::Full);
    assert_eq!(painted_cells(&w, 5), vec![(1, 0), (1, 1), (1, 2)]);
}

#[test]
fn drag_keeps_walls_crossed_by_earlier_previews() {
    // A wall at (1, 0) is painted before the drag; the first preview crosses
    // it, the final line does not. Drawing only adds the final line.
    let mut c = Controls::new((1, 1), (2, 2));
    let mut w = Walls::new();
    w.insert((1, 0));
    c.on_left(&mut w, true, true, Some((0, 0)), false, false);
    c.on_left(&mut w, true, true, Some((2, 0)), false, true);
    assert_eq!(painted_cells(&w, 5), vec![(0, 0), (1, 0), (2, 0)]);
    c.on_left(&mut w, true, true, Some((0, 2)), false, false);
    c.on_left(&mut w, false, true, None, false, false);
    assert_eq!(painted_cells(&w, 5), vec![(0, 0), (1, 0), (0, 1), (0, 2)]);
}

#[test]
fn erase_drag_restores_earlier_previews() {
    // Erasing: cells under an earlier preview come back; only the final line is erased.
    let mut c = Controls::new((1, 1), (2, 2));
    let mut w = Walls::new();
    for x in 0..3 {
        w.insert((x, 0));
    }
    w.insert((0, 1));
    c.on_left(&mut w, true, true, Some((0, 0)), true, false);
    c.on_left(&mut w, true, true, Some((2, 0)), true, true);
    assert_eq!(painted_cells(&w, 5), vec![(0, 1)]);
    c.on_left(&mut w, true, true, Some((0, 1)), true, false);
    c.on_left(&mut w, false, true, None, true, false);
    assert_eq!(painted_cells(&w, 5), vec![(1, 0), (2, 0)]);
}

#[test]
fn walls_set_operations() {
    let mut w = Walls::new();
    assert!(w.insert((3, 4)));
    assert!(!w.insert((3, 4)));
    assert!(w.contains((3, 4)));
    assert!(w.remove((3, 4)));
    assert!(!w.remove((3, 4)));
    assert!(!w.contains((3, 4)));
    w.insert((1, 1));
    w.clear();
    assert!(!w.contains((1, 1)));
}

#[test]
fn layer_visibility_and_pixel_packing() {
    assert!(Layer::Cut.shown(false, false, false));
    assert!(Layer::Engrave.shown(true, false, false) && !Layer::Engrave.shown(false, true, true));
    assert!(Layer::Link.shown(false, true, false) && !Layer::Link.shown(true, false, true));
    assert!(Layer::Marker.shown(false, false, true) && !Layer::Marker.shown(true, true, false));
    assert_eq!(pack_rgb(0x12, 0x34, 0x56), 0x123456);
    assert_eq!(pack_rgb(255, 255, 255), 0xFFFFFF);
}
