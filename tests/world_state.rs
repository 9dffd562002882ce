use brians_brain::{CellState, Vertex, WorldState};

fn count(ws: &WorldState, c: CellState) -> usize {
    let glyph = c.symbol();
    ws.to_text().chars().filter(|&g| g == glyph).count()
}

const ALIVE_COLOR: [f32; 3] = [1.0, 0.0, 0.0];
const DYING_COLOR: [f32; 3] = [0.5, 0.0, 0.0];

/// The position in normalised device coordinates and the colour of a vertex.
fn as_gpu(v: &Vertex, side: u16) -> ([f32; 2], [f32; 3]) {
    let w = 2.0 / side as f32;
    let position = [-1.0 + w * v.x as f32, -1.0 + w * v.y as f32];
    let color = match v.state {
        CellState::Alive => ALIVE_COLOR,
        _ => DYING_COLOR,
    };
    (position, color)
}

fn contains(cells: &[Vertex], side: u16, position: [f32; 2], color: [f32; 3]) -> bool {
    cells.iter().any(|v| as_gpu(v, side) == (position, color))
}

#[test]
fn test_randomize_for_rate_equal_one() {
    let mut ws = WorldState::new(100).unwrap();
    ws.randomize(1, 1).unwrap();
    assert_eq!(count(&ws, CellState::Alive), 10_000);
}

#[test]
fn test_randomize_for_rate_equal_zero() {
    let mut ws = WorldState::new(100).unwrap();
    ws.randomize(0, 1).unwrap();
    assert_eq!(count(&ws, CellState::Dead), 10_000);
}

#[test]
fn test_randomize_for_rate_equal_one_point_five() {
    let mut ws = WorldState::new(100).unwrap();
    ws.randomize(1, 2).unwrap();
    assert_eq!(count(&ws, CellState::Dead), 5_000);
    assert_eq!(count(&ws, CellState::Alive), 5_000);
}

#[test]
fn test_get_neighbours_top_left_corner() {
    let ws = WorldState::new(10).unwrap();
    assert_eq!(ws.neighbours(0), &vec![1, 10, 11]);
}

#[test]
fn test_get_neighbours_top_right_corner() {
    let ws = WorldState::new(10).unwrap();
    assert_eq!(ws.neighbours(9), &vec![8, 18, 19]);
}

#[test]
fn test_get_neighbours_bottom_left_corner() {
    let ws = WorldState::new(10).unwrap();
    assert_eq!(ws.neighbours(90), &vec![80, 81, 91]);
}

#[test]
fn test_get_neighbours_bottom_right_corner() {
    let ws = WorldState::new(10).unwrap();
    assert_eq!(ws.neighbours(99), &vec![88, 89, 98]);
}

#[test]
fn test_get_neighbours_top_edge() {
    let ws = WorldState::new(10).unwrap();
    assert_eq!(ws.neighbours(4), &vec![3, 5, 13, 14, 15]);
}

#[test]
fn test_get_neighbours_bottom_edge() {
    let ws = WorldState::new(10).unwrap();
    assert_eq!(ws.neighbours(94), &vec![83, 84, 85, 93, 95]);
}

#[test]
fn test_get_neighbours_left_edge() {
    let ws = WorldState::new(10).unwrap();
    assert_eq!(ws.neighbours(50), &vec![40, 41, 51, 60, 61]);
}

#[test]
fn test_get_neighbours_right_edge() {
    let ws = WorldState::new(10).unwrap();
    assert_eq!(ws.neighbours(59), &vec![48, 49, 58, 68, 69]);
}

#[test]
fn test_get_neighbours_general_case() {
    let ws = WorldState::new(10).unwrap();
    assert_eq!(ws.neighbours(55), &vec![44, 45, 46, 54, 56, 64, 65, 66]);
}

#[test]
fn test_as_vertices_for_one_cell_world() {
    // declare a world with just one cell.
    let mut ws = WorldState::new(1).unwrap();
    // set the cell to On state.
    ws.randomize(1, 1).unwrap();
    let cells = ws.as_vertices();
    assert_eq!(cells.len(), 6);
    // advance to next iteration: the cell must be in dying mode.
    ws.next();
    let cells = ws.as_vertices();
    assert_eq!(cells.len(), 6);

    // advance to next iteration: the cell must be dead.
    ws.next();
    let cells = ws.as_vertices();
    assert_eq!(cells.len(), 0);
}

#[test]
fn test_as_vertices_good_coordinates_for_one_cell_world() {
    let mut ws = WorldState::new(1).unwrap();
    ws.randomize(1, 1).unwrap();
    let cells = ws.as_vertices();
    assert!(contains(&cells, 1, [-1.0, -1.0], ALIVE_COLOR));
    assert!(contains(&cells, 1, [-1.0, 1.0], ALIVE_COLOR));
    assert!(contains(&cells, 1, [1.0, -1.0], ALIVE_COLOR));
    assert!(contains(&cells, 1, [1.0, 1.0], ALIVE_COLOR));
    ws.next();
    let cells = ws.as_vertices();
    assert!(contains(&cells, 1, [-1.0, -1.0], DYING_COLOR));
    assert!(contains(&cells, 1, [-1.0, 1.0], DYING_COLOR));
    assert!(contains(&cells, 1, [1.0, -1.0], DYING_COLOR));
    assert!(contains(&cells, 1, [1.0, 1.0], DYING_COLOR));
}

#[test]
fn test_spawn_osc3() {
    let mut ws = WorldState::new(4).unwrap();
    ws.spawn_osc3(0, 0).unwrap();
    let init_ws = ws.clone();

    assert_eq!(init_ws, ws); // initially worlds are equal
    ws.next();
    assert_ne!(init_ws, ws); // iter #1 worlds are different
    ws.next();
    assert_ne!(init_ws, ws); // iter #2 worlds are different
    ws.next();
    assert_eq!(init_ws, ws); // iter #3 worlds are equal again
}
