use streamchat::grid::{generate_grid, parse_dims, Grid};
use streamchat::path::{find_max_path, find_min_path, Node, PathResult};

fn sample() -> Grid {
    Grid { width: 3, height: 2, cells: vec![0x00, 0x10, 0x20, 0x30, 0x40, 0xFF] }
}

#[test]
fn grid_index_and_get() {
    let g = sample();
    assert_eq!(g.index(0, 0), 0);
    assert_eq!(g.index(2, 1), 5);
    assert_eq!(g.index(1, 1), 4);
    assert_eq!(g.get(1, 0), 0x10);
    assert_eq!(g.get(0, 1), 0x30);
    assert_eq!(g.get(2, 1), 0xFF);
}

#[test]
fn grid_neighbors_in_order() {
    let g = sample();
    assert_eq!(g.neighbors(0, 0), vec![(1, 0), (0, 1)]);
    assert_eq!(g.neighbors(1, 0), vec![(0, 0), (2, 0), (1, 1)]);
    assert_eq!(g.neighbors(2, 1), vec![(1, 1), (2, 0)]);
}

#[test]
fn grid_neighbors_of_single_cell() {
    let g = Grid { width: 1, height: 1, cells: vec![0] };
    assert!(g.neighbors(0, 0).is_empty());
}

#[test]
fn parse_dims_accepts_w_by_h() {
    assert_eq!(parse_dims("8x4"), Ok((8, 4)));
    assert_eq!(parse_dims("10x10"), Ok((10, 10)));
    assert_eq!(parse_dims("+3x007"), Ok((3, 7)));
}

#[test]
fn parse_dims_rejects_bad_shapes() {
    assert_eq!(parse_dims("8"), Err("expected format WxH".to_string()));
    assert_eq!(parse_dims("8x4x2"), Err("expected format WxH".to_string()));
    assert_eq!(parse_dims("ax4"), Err("invalid width".to_string()));
    assert_eq!(parse_dims("x4"), Err("invalid width".to_string()));
    assert_eq!(parse_dims("-1x4"), Err("invalid width".to_string()));
    assert_eq!(parse_dims("4x"), Err("invalid height".to_string()));
    assert_eq!(parse_dims("4x 5"), Err("invalid height".to_string()));
    assert_eq!(parse_dims("4x99999999999999999999999"), Err("invalid height".to_string()));
    assert_eq!(parse_dims("0x4"), Err("width and height must be > 0".to_string()));
    assert_eq!(parse_dims("4x0"), Err("width and height must be > 0".to_string()));
}

fn coords(p: &PathResult) -> Vec<(usize, usize)> {
    p.nodes.iter().map(|n| (n.x, n.y)).collect()
}

#[test]
fn min_path_on_small_grid() {
    let p = find_min_path(&sample()).unwrap();
    assert_eq!(coords(&p), vec![(0, 0), (1, 0), (2, 0), (2, 1)]);
    assert_eq!(p.total_cost, 0x10 + 0x20 + 0xFF);
}

#[test]
fn max_path_on_small_grid() {
    let p = find_max_path(&sample()).unwrap();
    assert_eq!(coords(&p), vec![(0, 0), (0, 1), (1, 1), (2, 1)]);
    assert_eq!(p.total_cost, 0x30 + 0x40 + 0xFF);
}

#[test]
fn equal_cost_paths_prefer_larger_row_first() {
    let g = Grid { width: 2, height: 2, cells: vec![0x00, 0x00, 0x00, 0xFF] };
    let p = find_min_path(&g).unwrap();
    assert_eq!(coords(&p), vec![(0, 0), (0, 1), (1, 1)]);
    assert_eq!(p.total_cost, 0xFF);
}

#[test]
fn single_cell_grid_path_is_the_start() {
    let g = Grid { width: 1, height: 1, cells: vec![0x00] };
    let p = find_min_path(&g).unwrap();
    assert_eq!(p.nodes, vec![Node { x: 0, y: 0 }]);
    assert_eq!(p.total_cost, 0);
}

#[test]
fn min_path_avoids_expensive_column() {
    let g = Grid {
        width: 3,
        height: 3,
        cells: vec![0x00, 0x01, 0x01, 0xF0, 0xF0, 0x01, 0xF0, 0xF0, 0xFF],
    };
    let p = find_min_path(&g).unwrap();
    assert_eq!(coords(&p), vec![(0, 0), (1, 0), (2, 0), (2, 1), (2, 2)]);
    assert_eq!(p.total_cost, 1 + 1 + 1 + 0xFF);
}

#[test]
fn generated_grid_has_fixed_endpoints() {
    let g = generate_grid(8, 4);
    assert_eq!(g.width, 8);
    assert_eq!(g.height, 4);
    assert_eq!(g.cells.len(), 32);
    assert_eq!(g.get(0, 0), 0x00);
    assert_eq!(g.get(7, 3), 0xFF);
    let p = find_min_path(&g).unwrap();
    assert_eq!(p.nodes.first(), Some(&Node { x: 0, y: 0 }));
    assert_eq!(p.nodes.last(), Some(&Node { x: 7, y: 3 }));
}

#[test]
fn generated_single_cell_grid_is_the_end_cell() {
    let g = generate_grid(1, 1);
    assert_eq!(g.cells, vec![0xFF]);
}
