use life::field::{Field, OutOfBounds};

fn alive(field: &Field, coord: (usize, usize)) -> bool {
    field.is_alive_at(coord.0, coord.1).unwrap()
}

fn count(field: &Field, coord: (usize, usize)) -> i8 {
    field.cell_at(coord.0, coord.1).unwrap().num_neighbors
}

#[test]
fn can_create_field() {
    let _field: Field = Field::new(5, &[]).unwrap();
}

#[test]
fn can_update_num_neighbors() {
    let coord_alive_cells = [(2, 2), (3, 1)];
    let mut field: Field = Field::new(6, &coord_alive_cells).unwrap();

    field.update_num_neighbors();

    let coord_one_neigh = [
        (1, 1),
        (1, 2),
        (1, 3),
        (2, 2),
        (2, 3),
        (3, 1),
        (3, 3),
        (4, 1),
        (4, 2),
    ];
    let coord_two_neigh = [(2, 1), (3, 2)];

    for coord in coord_one_neigh {
        assert_eq!(1, count(&field, coord));
    }

    for coord in coord_two_neigh {
        assert_eq!(2, count(&field, coord));
    }
}

#[test]
fn can_update_field() {
    let coord_alive_cells = [(1, 2), (2, 1), (2, 2), (2, 4)];

    let mut field: Field = Field::new(7, &coord_alive_cells).unwrap();

    field.update();

    let coord_alive_cells = [(1, 1), (1, 2), (2, 1), (2, 2), (2, 3)];
    for coord in coord_alive_cells {
        assert!(alive(&field, coord));
    }

    let coord_new_dead_cells = [(2, 4)];
    for coord in coord_new_dead_cells {
        assert!(!alive(&field, coord));
    }
}

#[test]
fn can_return_coord_alive_cells() {
    let coord_alive_cells = vec![(1, 2), (2, 1), (2, 2), (2, 4)];
    let field: Field = Field::new(7, &coord_alive_cells).unwrap();

    let expected_coord = coord_alive_cells;
    let coord_returned = field.coord_alive_cells();

    assert_eq!(expected_coord, coord_returned);
}

#[test]
fn field_aircraft_carrier() {
    let coord_alive_cells: Vec<(usize, usize)> =
        vec![(1, 1), (1, 2), (2, 1), (2, 4), (3, 3), (3, 4)];
    let mut coord_space: Vec<(usize, usize)> = Vec::new();
    for a in 0..=5 {
        for b in 0..=5 {
            if a != b {
                coord_space.push((a, b));
            }
        }
    }

    let mut coord_dead_cells = coord_space.clone();
    coord_dead_cells.retain(|coord| !coord_alive_cells.contains(coord));

    let mut field: Field = Field::new(6, &coord_alive_cells).unwrap();

    field.update();
    field.update();

    for coord in coord_alive_cells {
        assert!(alive(&field, coord));
    }

    for coord in coord_dead_cells {
        assert!(!alive(&field, coord));
    }
}

#[test]
fn seeds_are_listed_sorted_without_repeats() {
    let seeds = [(3, 1), (0, 4), (3, 1), (1, 2), (0, 0), (1, 2)];
    let field = Field::new(5, &seeds).unwrap();
    assert_eq!(vec![(0, 0), (0, 4), (1, 2), (3, 1)], field.coord_alive_cells());
}

#[test]
fn empty_seed_list_gives_no_live_cells() {
    let field = Field::new(4, &[]).unwrap();
    assert_eq!(Vec::<(usize, usize)>::new(), field.coord_alive_cells());
    assert_eq!(4, field.size());
}

#[test]
fn border_cells_die_after_a_step() {
    let mut seeds = Vec::new();
    for i in 0..5 {
        for j in 0..5 {
            seeds.push((i, j));
        }
    }
    let mut field = Field::new(5, &seeds).unwrap();
    field.update();
    for i in 0..5 {
        for j in 0..5 {
            if i == 0 || j == 0 || i == 4 || j == 4 {
                assert!(!alive(&field, (i, j)), "border cell ({}, {})", i, j);
            }
        }
    }
}

#[test]
fn border_blinker_is_truncated() {
    // A bar along the top border: the border row dies, and only the cell
    // below its centre, with three live neighbours, is born.
    let mut field = Field::new(5, &[(0, 1), (0, 2), (0, 3)]).unwrap();
    field.update();
    assert_eq!(vec![(1, 2)], field.coord_alive_cells());
}

#[test]
fn small_fields_die_every_step() {
    for size in 1..=2 {
        let mut seeds = Vec::new();
        for i in 0..size {
            for j in 0..size {
                seeds.push((i, j));
            }
        }
        let mut field = Field::new(size, &seeds).unwrap();
        assert_eq!(size * size, field.coord_alive_cells().len());
        field.update();
        assert!(field.coord_alive_cells().is_empty());
    }
}

#[test]
fn out_of_bounds_seed_is_rejected() {
    assert_eq!(Some(OutOfBounds { row: 6, column: 0 }), Field::new(6, &[(1, 1), (6, 0), (0, 9)]).err());
    assert_eq!(Some(OutOfBounds { row: 0, column: 6 }), Field::new(6, &[(0, 6)]).err());
}

#[test]
fn out_of_bounds_query_is_rejected() {
    let mut field = Field::new(6, &[(1, 1)]).unwrap();
    assert_eq!(Err(OutOfBounds { row: 6, column: 0 }), field.is_alive_at(6, 0));
    assert_eq!(Err(OutOfBounds { row: 0, column: 6 }), field.is_alive_at(0, 6));
    assert_eq!(Err(OutOfBounds { row: 6, column: 0 }), field.bring_to_life_at(6, 0));
    assert_eq!(Err(OutOfBounds { row: 0, column: 6 }), field.bring_to_life_at(0, 6));
    assert!(field.cell_at(6, 6).is_err());
    assert_eq!(vec![(1, 1)], field.coord_alive_cells());
}

#[test]
fn bring_to_life_at_sets_one_cell() {
    let mut field = Field::new(4, &[(1, 1)]).unwrap();
    assert_eq!(Ok(false), field.is_alive_at(2, 3));
    assert_eq!(Ok(()), field.bring_to_life_at(2, 3));
    assert_eq!(Ok(true), field.is_alive_at(2, 3));
    assert_eq!(Ok(()), field.bring_to_life_at(1, 1));
    assert_eq!(vec![(1, 1), (2, 3)], field.coord_alive_cells());
}

#[test]
fn counting_reads_the_previous_generation() {
    // A blinker's counts come from the old state: the ends of the coming
    // horizontal bar see three live neighbours, its centre two.
    let mut field = Field::new(5, &[(1, 2), (2, 2), (3, 2)]).unwrap();
    field.update_num_neighbors();
    assert_eq!(3, count(&field, (2, 1)));
    assert_eq!(2, count(&field, (2, 2)));
    assert_eq!(3, count(&field, (2, 3)));
    assert_eq!(1, count(&field, (1, 2)));
    assert_eq!(0, count(&field, (0, 2)));
    assert_eq!(vec![(1, 2), (2, 2), (3, 2)], field.coord_alive_cells());
}
