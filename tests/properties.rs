use brians_brain::{neighbours_of, CellState, NeighbourTable, Vertex, WorldError, WorldState};

fn count(ws: &WorldState, c: CellState) -> usize {
    let glyph = c.symbol();
    ws.to_text().chars().filter(|&g| g == glyph).count()
}

#[test]
fn new_refuses_a_zero_side() {
    assert_eq!(WorldState::new(0), Err(WorldError::InvalidArgument));
}

#[test]
fn new_world_is_all_dead() {
    let ws = WorldState::new(3).unwrap();
    assert_eq!(ws.size(), 3);
    assert_eq!(ws.to_text(), "...\n...\n...\n");
    assert_eq!(ws.as_vertices().len(), 0);
}

#[test]
fn neighbour_table_is_symmetric() {
    for side in 1u16..=6 {
        let ws = WorldState::new(side).unwrap();
        let n = (side as usize) * (side as usize);
        for c in 0..n {
            for m in 0..n {
                assert_eq!(ws.neighbours(c).contains(&m), ws.neighbours(m).contains(&c));
            }
            assert!(!ws.neighbours(c).contains(&c));
        }
    }
}

#[test]
fn neighbour_counts_follow_position() {
    let ws = WorldState::new(1).unwrap();
    assert!(ws.neighbours(0).is_empty());
    let ws = WorldState::new(2).unwrap();
    for i in 0..4 {
        assert_eq!(ws.neighbours(i).len(), 3);
    }
    let ws = WorldState::new(5).unwrap();
    for y in 0..5usize {
        for x in 0..5usize {
            let on_x_edge = x == 0 || x == 4;
            let on_y_edge = y == 0 || y == 4;
            let expected = if on_x_edge && on_y_edge {
                3
            } else if on_x_edge || on_y_edge {
                5
            } else {
                8
            };
            assert_eq!(ws.neighbours(y * 5 + x).len(), expected);
        }
    }
}

#[test]
fn neighbours_do_not_wrap() {
    assert_eq!(neighbours_of(10, 10), vec![0, 1, 11, 20, 21]);
    assert_eq!(neighbours_of(10, 19), vec![8, 9, 18, 28, 29]);
    assert_eq!(neighbours_of(3, 4), vec![0, 1, 2, 3, 5, 6, 7, 8]);
}

#[test]
fn randomize_rejects_rates_outside_unit_interval() {
    let mut ws = WorldState::new(4).unwrap();
    assert_eq!(ws.randomize(3, 2), Err(WorldError::InvalidArgument));
    assert_eq!(ws.randomize(1, 0), Err(WorldError::InvalidArgument));
    assert_eq!(count(&ws, CellState::Dead), 16);
}

#[test]
fn randomize_rate_one_leaves_nothing_else() {
    let mut ws = WorldState::new(7).unwrap();
    ws.randomize(5, 5).unwrap();
    assert_eq!(count(&ws, CellState::Alive), 49);
    assert_eq!(count(&ws, CellState::Dying), 0);
    assert_eq!(count(&ws, CellState::Dead), 0);
}

#[test]
fn randomize_takes_the_floor_of_the_rate() {
    let mut ws = WorldState::new(3).unwrap();
    ws.randomize(1, 2).unwrap();
    assert_eq!(count(&ws, CellState::Alive), 4);
    assert_eq!(count(&ws, CellState::Dead), 5);
    let mut ws = WorldState::new(10).unwrap();
    ws.randomize(1, 3).unwrap();
    assert_eq!(count(&ws, CellState::Alive), 33);
}

#[test]
fn randomize_draws_a_shuffled_selection() {
    let mut ws = WorldState::new(100).unwrap();
    ws.randomize(1, 2).unwrap();
    let prefix_alive = (0..5000).all(|i| ws.cell(i) == CellState::Alive);
    assert!(!prefix_alive);
}

#[test]
fn set_alive_marks_the_chosen_prefix() {
    let mut ws = WorldState::new(3).unwrap();
    ws.set_alive(&vec![4, 0, 8], 2);
    assert_eq!(ws.to_text(), "O..\n.O.\n...\n");
}

#[test]
fn single_cell_world_fades_in_two_steps() {
    let mut ws = WorldState::new(1).unwrap();
    ws.randomize(1, 1).unwrap();
    ws.next();
    assert_eq!(ws.cell(0), CellState::Dying);
    assert_eq!(ws.as_vertices().len(), 6);
    ws.next();
    assert_eq!(ws.cell(0), CellState::Dead);
    assert_eq!(ws.as_vertices().len(), 0);
}

#[test]
fn birth_needs_exactly_two_alive_neighbours() {
    for (alive, born) in [(vec![0], false), (vec![0, 2], true), (vec![0, 2, 6], false)] {
        let mut ws = WorldState::new(3).unwrap();
        ws.set_alive(&alive, alive.len());
        ws.next();
        let expected = if born { CellState::Alive } else { CellState::Dead };
        assert_eq!(ws.cell(4), expected);
        for &i in &alive {
            assert_eq!(ws.cell(i), CellState::Dying);
        }
    }
}

#[test]
fn dying_cells_die_whatever_their_neighbours() {
    let mut ws = WorldState::new(4).unwrap();
    ws.spawn_glider4_upward(0, 0).unwrap();
    ws.next();
    assert_eq!(ws.to_text(), "XX..\n....\n....\n....\n");
}

#[test]
fn oscillator_has_period_three_on_a_larger_grid() {
    let mut ws = WorldState::new(7).unwrap();
    ws.spawn_osc3(0, 0).unwrap();
    let start = ws.clone();
    ws.next();
    assert_ne!(ws, start);
    ws.next();
    assert_ne!(ws, start);
    ws.next();
    assert_eq!(ws, start);
}

#[test]
fn oscillator_stamp_layout() {
    let mut ws = WorldState::new(4).unwrap();
    ws.spawn_osc3(0, 0).unwrap();
    assert_eq!(ws.to_text(), ".O..\n.XXO\nOXX.\n..O.\n");
    ws.next();
    assert_eq!(ws.to_text(), ".XO.\nO..X\nX..O\n.OX.\n");
}

#[test]
fn glider_stamps_land_at_their_offsets() {
    let mut ws = WorldState::new(5).unwrap();
    ws.spawn_glider4_downward(1, 2).unwrap();
    assert_eq!(ws.cell(11), CellState::Dying);
    assert_eq!(ws.cell(12), CellState::Dying);
    assert_eq!(ws.cell(16), CellState::Alive);
    assert_eq!(ws.cell(17), CellState::Alive);
    let mut ws = WorldState::new(3).unwrap();
    ws.spawn_glider4_leftward(0, 1).unwrap();
    assert_eq!(ws.to_text(), "...\nOX.\nOX.\n");
    let mut ws = WorldState::new(3).unwrap();
    ws.spawn_wick3(0, 0).unwrap();
    assert_eq!(ws.to_text(), "OOO\nO.O\n.X.\n");
}

#[test]
fn stamps_that_do_not_fit_are_refused() {
    let mut ws = WorldState::new(5).unwrap();
    assert_eq!(ws.spawn_glider4_upward(4, 0), Err(WorldError::IndexOutOfBounds));
    assert_eq!(ws.spawn_glider4_downward(0, 4), Err(WorldError::IndexOutOfBounds));
    assert_eq!(ws.spawn_glider4_leftward(4, 4), Err(WorldError::IndexOutOfBounds));
    assert_eq!(ws.spawn_osc3(2, 0), Err(WorldError::IndexOutOfBounds));
    assert_eq!(ws.spawn_wick3(0, 3), Err(WorldError::IndexOutOfBounds));
    assert_eq!(count(&ws, CellState::Dead), 25);
    assert_eq!(ws.spawn_osc3(1, 1), Ok(()));
}

#[test]
fn presets_hold_their_patterns() {
    let ws = WorldState::example1();
    assert_eq!(ws.size(), 14);
    assert_eq!(count(&ws, CellState::Alive), 20);
    assert_eq!(count(&ws, CellState::Dying), 20);
    let ws = WorldState::example2();
    assert_eq!(ws.size(), 100);
    assert_eq!(count(&ws, CellState::Alive), 18);
    assert_eq!(count(&ws, CellState::Dying), 18);
    let ws = WorldState::example3();
    assert_eq!(ws.size(), 100);
    assert_eq!(count(&ws, CellState::Alive), 5);
    assert_eq!(count(&ws, CellState::Dying), 1);
    assert_eq!(ws.cell(50 * 100 + 50), CellState::Alive);
    assert_eq!(ws.cell(52 * 100 + 51), CellState::Dying);
}

#[test]
fn projection_has_six_vertices_per_live_cell() {
    let mut ws = WorldState::new(4).unwrap();
    ws.spawn_osc3(0, 0).unwrap();
    assert_eq!(ws.as_vertices().len(), 6 * 8);
    ws.next();
    assert_eq!(ws.as_vertices().len(), 6 * 8);
}

#[test]
fn projection_covers_the_cell_with_two_triangles() {
    let mut ws = WorldState::new(2).unwrap();
    ws.set_alive(&vec![3], 1);
    let v = |x: usize, y: usize| Vertex { x, y, state: CellState::Alive };
    assert_eq!(ws.as_vertices(), vec![v(1, 1), v(1, 2), v(2, 2), v(1, 1), v(2, 1), v(2, 2)]);
}

#[test]
fn symbols_of_states() {
    assert_eq!(CellState::Alive.symbol(), 'O');
    assert_eq!(CellState::Dying.symbol(), 'X');
    assert_eq!(CellState::Dead.symbol(), '.');
}

#[test]
fn table_build_refuses_a_zero_side() {
    assert_eq!(NeighbourTable::build(0), Err(WorldError::InvalidArgument));
    let t = NeighbourTable::build(10).unwrap();
    assert_eq!(t.neighbours(99), &vec![88, 89, 98]);
    assert_eq!(t.neighbours(0), &vec![1, 10, 11]);
}

#[test]
fn step_with_a_shared_table_matches_next() {
    let table = NeighbourTable::build(4).unwrap();
    let mut a = WorldState::new(4).unwrap();
    a.spawn_osc3(0, 0).unwrap();
    let mut b = a.clone();
    for _ in 0..4 {
        a.next();
        assert_eq!(b.step(&table), Ok(()));
        assert_eq!(a.to_text(), b.to_text());
    }
}

#[test]
fn step_refuses_a_table_of_another_side() {
    let table = NeighbourTable::build(5).unwrap();
    let mut ws = WorldState::new(4).unwrap();
    ws.spawn_osc3(0, 0).unwrap();
    let before = ws.clone();
    assert_eq!(ws.step(&table), Err(WorldError::SizeMismatch));
    assert_eq!(ws, before);
}
