use astray::grid::{Cell, Grid};
use astray::longest::{add_link_segments, find_longest_path, PathSegment};
use astray::explore::find_nearest_unvisited;
use astray::moves::{grid_neighbors, manhattan_estimate, pick_furthest, squared_distance};
use astray::route::find_path;
use astray::kinds::Layer;
use std::collections::HashSet;

fn open_grid(w: usize, h: usize) -> Grid {
    Grid::new(w, h, vec![vec![false; w]; h]).unwrap()
}

fn grid_from(rows: &[&str]) -> Grid {
    let h = rows.len();
    let w = rows[0].len();
    let cells = rows.iter().map(|r| r.chars().map(|c| c == '#').collect()).collect();
    Grid::new(w, h, cells).unwrap()
}

fn touching(a: Cell, b: Cell) -> bool {
    let dx = a.0 as i64 - b.0 as i64;
    let dy = a.1 as i64 - b.1 as i64;
    dx.abs() <= 1 && dy.abs() <= 1 && (dx, dy) != (0, 0)
}

#[test]
fn grid_new_rejects_bad_shapes() {
    assert!(Grid::new(2, 2, vec![vec![false; 2]; 2]).is_some());
    assert!(Grid::new(2, 2, vec![vec![false; 2]; 3]).is_none());
    assert!(Grid::new(2, 2, vec![vec![false; 2], vec![false; 3]]).is_none());
    assert!(Grid::new(20000, 0, vec![]).is_none());
}

#[test]
fn neighbors_in_direction_order_with_costs() {
    let g = open_grid(3, 3);
    let n = grid_neighbors(&g, 1, 1, false);
    assert_eq!(
        n,
        vec![
            ((0, 0), 14),
            ((0, 1), 10),
            ((0, 2), 14),
            ((1, 0), 10),
            ((1, 2), 10),
            ((2, 0), 14),
            ((2, 1), 10),
            ((2, 2), 14)
        ]
    );
}

#[test]
fn neighbors_cardinal_only() {
    let g = open_grid(3, 3);
    let n = grid_neighbors(&g, 1, 1, true);
    assert_eq!(n, vec![((0, 1), 10), ((1, 0), 10), ((1, 2), 10), ((2, 1), 10)]);
}

#[test]
fn neighbors_no_corner_cutting() {
    let g = grid_from(&[".#.", "...", "..."]);
    let n = grid_neighbors(&g, 1, 1, false);
    // (1,0) is blocked: it and both diagonals beside it are gone.
    assert_eq!(n, vec![((0, 1), 10), ((0, 2), 14), ((1, 2), 10), ((2, 1), 10), ((2, 2), 14)]);
    // At the corner of the grid only in-bounds cells count.
    let c = grid_neighbors(&open_grid(3, 3), 0, 0, false);
    assert_eq!(c, vec![((0, 1), 10), ((1, 0), 10), ((1, 1), 14)]);
}

#[test]
fn estimate_and_distance_formulas() {
    assert_eq!(manhattan_estimate((1, 2), (4, 0)), 50);
    assert_eq!(manhattan_estimate((4, 0), (4, 0)), 0);
    assert_eq!(squared_distance((1, 2), (4, 0)), 13);
    assert_eq!(squared_distance((0, 0), (0, 0)), 0);
}

#[test]
fn pick_furthest_takes_first_of_ties() {
    let cells = vec![(1, 1), (3, 0), (0, 3), (2, 2)];
    // (3,0) and (0,3) are both at squared distance 9 from (0,0).
    assert_eq!(pick_furthest(&cells, (0, 0)), 1);
    assert_eq!(pick_furthest(&vec![(5, 5)], (0, 0)), 0);
}

#[test]
fn find_path_walks_legal_steps() {
    let g = open_grid(5, 5);
    let p = find_path(&g, (0, 0), (4, 3), false).unwrap();
    assert_eq!(p[0], (0, 0));
    assert_eq!(*p.last().unwrap(), (4, 3));
    assert!(p.len() >= 5);
    for w in p.windows(2) {
        assert!(touching(w[0], w[1]));
    }
    let distinct: HashSet<Cell> = p.iter().copied().collect();
    assert_eq!(distinct.len(), p.len());
}

#[test]
fn find_path_same_cell() {
    let g = open_grid(3, 3);
    assert_eq!(find_path(&g, (1, 1), (1, 1), false), Some(vec![(1, 1)]));
}

#[test]
fn find_path_none_when_walled_off() {
    let g = grid_from(&["..#..", "..#..", "..#.."]);
    assert_eq!(find_path(&g, (0, 0), (4, 2), false), None);
    // A diagonal gap between two blocked cells cannot be squeezed through.
    let g2 = grid_from(&[".#", "#."]);
    assert_eq!(find_path(&g2, (0, 0), (1, 1), false), None);
}

#[test]
fn find_path_cardinal_only_is_shortest() {
    // Around a wall: the straight-step route takes the fewest cells.
    let g = grid_from(&["....", ".##.", "...."]);
    let p = find_path(&g, (0, 1), (3, 1), true).unwrap();
    assert_eq!(p.len(), 6);
    assert_eq!(p[0], (0, 1));
    assert_eq!(p[5], (3, 1));
}

#[test]
fn find_path_cardinal_only_moves_straight() {
    let g = open_grid(4, 4);
    let p = find_path(&g, (0, 0), (3, 3), true).unwrap();
    assert_eq!(p.len(), 7);
    for w in p.windows(2) {
        assert!(w[0].0 == w[1].0 || w[0].1 == w[1].1);
    }
}

#[test]
fn link_segments_strip_visited_cells() {
    let path = vec![(0, 0), (1, 0), (2, 0), (3, 0), (4, 0), (5, 0), (6, 0)];
    let mut visited = vec![vec![false; 7]; 1];
    visited[0][2] = true;
    visited[0][5] = true;
    let mut segs: Vec<PathSegment> = Vec::new();
    add_link_segments(&path, &visited, &mut segs);
    assert_eq!(segs.len(), 2);
    assert_eq!(segs[0].points, vec![(0, 0), (1, 0)]);
    assert_eq!(segs[1].points, vec![(3, 0), (4, 0)]);
    assert!(segs.iter().all(|s| s.is_link));
    assert_eq!(segs[0].layer(), Layer::Link);
}

#[test]
fn link_segments_keep_trailing_run() {
    let path = vec![(0, 0), (1, 0), (2, 0)];
    let mut visited = vec![vec![false; 3]; 1];
    visited[0][0] = true;
    let mut segs: Vec<PathSegment> = vec![PathSegment { points: vec![(9, 9), (8, 8)], is_link: false }];
    add_link_segments(&path, &visited, &mut segs);
    assert_eq!(segs.len(), 2);
    assert_eq!(segs[0].layer(), Layer::Cut);
    assert_eq!(segs[1].points, vec![(1, 0), (2, 0)]);
}

#[test]
fn nearest_unvisited_prefers_far_from_goal() {
    let g = open_grid(4, 1);
    let mut visited = vec![vec![false; 4]; 1];
    visited[0][1] = true;
    visited[0][2] = true;
    // From (1,0) the search passes through visited cells and finds (0,0) and (3,0).
    let (t, path) = find_nearest_unvisited(&g, (1, 0), (3, 0), &visited, false).unwrap();
    assert_eq!(t, (0, 0));
    assert_eq!(path, vec![(1, 0), (0, 0)]);
    let (t2, path2) = find_nearest_unvisited(&g, (1, 0), (0, 0), &visited, false).unwrap();
    assert_eq!(t2, (3, 0));
    assert_eq!(path2, vec![(1, 0), (2, 0), (3, 0)]);
}

#[test]
fn nearest_unvisited_walk_is_shortest() {
    let g = open_grid(3, 3);
    let mut visited = vec![vec![true; 3]; 3];
    visited[2][2] = false;
    let (t, path) = find_nearest_unvisited(&g, (0, 0), (0, 0), &visited, false).unwrap();
    assert_eq!(t, (2, 2));
    assert_eq!(path, vec![(0, 0), (1, 1), (2, 2)]);
    let (t2, path2) = find_nearest_unvisited(&g, (0, 0), (0, 0), &visited, true).unwrap();
    assert_eq!(t2, (2, 2));
    assert_eq!(path2, vec![(0, 0), (0, 1), (0, 2), (1, 2), (2, 2)]);
}

#[test]
fn nearest_unvisited_none_when_all_visited() {
    let g = open_grid(3, 1);
    let visited = vec![vec![true; 3]; 1];
    assert!(find_nearest_unvisited(&g, (0, 0), (2, 0), &visited, false).is_none());
    // Unvisited cells behind a blocked cell are not reached.
    let g2 = grid_from(&["..#."]);
    let mut v2 = vec![vec![false; 4]; 1];
    v2[0][0] = true;
    v2[0][1] = true;
    assert!(find_nearest_unvisited(&g2, (0, 0), (0, 0), &v2, false).is_none());
}

fn check_longest(g: &Grid, start: Cell, goal: Cell, cardinal: bool) -> Vec<PathSegment> {
    let segs = find_longest_path(g, start, goal, cardinal).unwrap();
    let mut seen: HashSet<Cell> = HashSet::new();
    let mut diag: Vec<((usize, usize), bool)> = Vec::new();
    let mut link_cells: HashSet<Cell> = HashSet::new();
    let all_greedy: HashSet<Cell> = segs.iter().filter(|s| !s.is_link).flat_map(|s| s.points.iter().copied()).collect();
    for s in &segs {
        assert!(s.points.len() >= 2);
        for c in &s.points {
            assert!(c.0 < g.width && c.1 < g.height);
            assert!(*c == start || !g.blocked(c.0, c.1));
        }
        for w in s.points.windows(2) {
            assert!(touching(w[0], w[1]));
            assert!(!g.blocked(w[1].0, w[1].1));
            if cardinal {
                assert!(w[0].0 == w[1].0 || w[0].1 == w[1].1);
            }
            if w[0].0 != w[1].0 && w[0].1 != w[1].1 {
                assert!(!g.blocked(w[0].0, w[1].1) && !g.blocked(w[1].0, w[0].1), "corner cut");
            }
        }
        if s.is_link {
            for c in &s.points {
                assert!(link_cells.insert(*c), "link cell repeated");
                assert!(!all_greedy.contains(c), "link cell on the greedy walk");
            }
        }
        if s.is_link {
            for c in &s.points {
                assert!(!seen.contains(c), "link crosses the greedy walk before it");
            }
        } else {
            for c in &s.points {
                assert!(seen.insert(*c), "greedy cell repeated");
            }
            for w in s.points.windows(2) {
                if w[0].0 != w[1].0 && w[0].1 != w[1].1 {
                    let b = (w[0].0.min(w[1].0), w[0].1.min(w[1].1));
                    let back = (w[1].0 > w[0].0) == (w[1].1 > w[0].1);
                    assert!(!diag.contains(&(b, !back)), "diagonals cross");
                    diag.push((b, back));
                }
            }
        }
    }
    segs
}

#[test]
fn longest_path_open_square() {
    let g = open_grid(6, 6);
    let segs = check_longest(&g, (1, 1), (4, 4), false);
    assert!(!segs.is_empty());
    assert_eq!(segs[0].points[0], (1, 1));
}

#[test]
fn longest_path_cardinal_with_walls() {
    let g = grid_from(&["......", ".##...", "...#..", "...#..", "......"]);
    check_longest(&g, (0, 0), (5, 4), true);
    check_longest(&g, (0, 0), (5, 4), false);
}

#[test]
fn longest_path_start_at_goal_is_empty() {
    let g = open_grid(3, 3);
    let segs = find_longest_path(&g, (1, 1), (1, 1), false).unwrap();
    assert!(segs.is_empty());
}

#[test]
fn longest_path_unreachable_goal() {
    let g = grid_from(&["..#..", "..#..", "..#.."]);
    let segs = check_longest(&g, (0, 0), (4, 2), false);
    // Everything on the left side is walked; nothing reaches the goal side.
    let cells: HashSet<Cell> = segs.iter().flat_map(|s| s.points.iter().copied()).collect();
    assert!(cells.iter().all(|c| c.0 < 2));
}

#[test]
fn nearest_unvisited_ties_go_to_the_first_found() {
    // (0, 0) and (2, 0) are equally far from the goal (1, 2) and one step from
    // (1, 0); the search meets (0, 0) first (column offset -1 comes first).
    let g = open_grid(3, 3);
    let mut visited = vec![vec![true; 3]; 3];
    visited[0][0] = false;
    visited[0][2] = false;
    let (t, path) = find_nearest_unvisited(&g, (1, 0), (1, 2), &visited, true).unwrap();
    assert_eq!(t, (0, 0));
    assert_eq!(path, vec![(1, 0), (0, 0)]);
}
