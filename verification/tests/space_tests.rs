use rule_search::cell::Cell;
use rule_search::cell::CellValue;
use rule_search::delta::DeltaCoordinate;
use rule_search::space::Space;

#[test]
fn test_generate_combinations() {
    println!("asd");
    let v = Space::generate_combinations(1);
    assert_eq!(
        v,
        vec![
            vec![DeltaCoordinate::SameCoordinate],
            vec![DeltaCoordinate::Positive],
            vec![DeltaCoordinate::Negative],
        ]
    );

    let v2 = Space::generate_combinations(2);
    assert_eq!(
        v2,
        vec![
            vec![DeltaCoordinate::SameCoordinate, DeltaCoordinate::SameCoordinate],
            vec![DeltaCoordinate::Positive, DeltaCoordinate::SameCoordinate],
            vec![DeltaCoordinate::Negative, DeltaCoordinate::SameCoordinate],
            vec![DeltaCoordinate::SameCoordinate, DeltaCoordinate::Positive],
            vec![DeltaCoordinate::Positive, DeltaCoordinate::Positive],
            vec![DeltaCoordinate::Negative, DeltaCoordinate::Positive],
            vec![DeltaCoordinate::SameCoordinate, DeltaCoordinate::Negative],
            vec![DeltaCoordinate::Positive, DeltaCoordinate::Negative],
            vec![DeltaCoordinate::Negative, DeltaCoordinate::Negative],
        ]
    );

    let v3 = Space::generate_combinations(3);
    assert_eq!(
        v3,
        vec![
            vec![
                DeltaCoordinate::SameCoordinate,
                DeltaCoordinate::SameCoordinate,
                DeltaCoordinate::SameCoordinate
            ],
            vec![
                DeltaCoordinate::Positive,
                DeltaCoordinate::SameCoordinate,
                DeltaCoordinate::SameCoordinate
            ],
            vec![
                DeltaCoordinate::Negative,
                DeltaCoordinate::SameCoordinate,
                DeltaCoordinate::SameCoordinate
            ],
            vec![
                DeltaCoordinate::SameCoordinate,
                DeltaCoordinate::Positive,
                DeltaCoordinate::SameCoordinate
            ],
            vec![
                DeltaCoordinate::Positive,
                DeltaCoordinate::Positive,
                DeltaCoordinate::SameCoordinate
            ],
            vec![
                DeltaCoordinate::Negative,
                DeltaCoordinate::Positive,
                DeltaCoordinate::SameCoordinate
            ],
            vec![
                DeltaCoordinate::SameCoordinate,
                DeltaCoordinate::Negative,
                DeltaCoordinate::SameCoordinate
            ],
            vec![
                DeltaCoordinate::Positive,
                DeltaCoordinate::Negative,
                DeltaCoordinate::SameCoordinate
            ],
            vec![
                DeltaCoordinate::Negative,
                DeltaCoordinate::Negative,
                DeltaCoordinate::SameCoordinate
            ],
            vec![
                DeltaCoordinate::SameCoordinate,
                DeltaCoordinate::SameCoordinate,
                DeltaCoordinate::Positive
            ],
            vec![
                DeltaCoordinate::Positive,
                DeltaCoordinate::SameCoordinate,
                DeltaCoordinate::Positive
            ],
            vec![
                DeltaCoordinate::Negative,
                DeltaCoordinate::SameCoordinate,
                DeltaCoordinate::Positive
            ],
            vec![
                DeltaCoordinate::SameCoordinate,
                DeltaCoordinate::Positive,
                DeltaCoordinate::Positive
            ],
            vec![DeltaCoordinate::Positive, DeltaCoordinate::Positive, DeltaCoordinate::Positive],
            vec![DeltaCoordinate::Negative, DeltaCoordinate::Positive, DeltaCoordinate::Positive],
            vec![
                DeltaCoordinate::SameCoordinate,
                DeltaCoordinate::Negative,
                DeltaCoordinate::Positive
            ],
            vec![DeltaCoordinate::Positive, DeltaCoordinate::Negative, DeltaCoordinate::Positive],
            vec![DeltaCoordinate::Negative, DeltaCoordinate::Negative, DeltaCoordinate::Positive],
            vec![
                DeltaCoordinate::SameCoordinate,
                DeltaCoordinate::SameCoordinate,
                DeltaCoordinate::Negative
            ],
            vec![
                DeltaCoordinate::Positive,
                DeltaCoordinate::SameCoordinate,
                DeltaCoordinate::Negative
            ],
            vec![
                DeltaCoordinate::Negative,
                DeltaCoordinate::SameCoordinate,
                DeltaCoordinate::Negative
            ],
            vec![
                DeltaCoordinate::SameCoordinate,
                DeltaCoordinate::Positive,
                DeltaCoordinate::Negative
            ],
            vec![DeltaCoordinate::Positive, DeltaCoordinate::Positive, DeltaCoordinate::Negative],
            vec![DeltaCoordinate::Negative, DeltaCoordinate::Positive, DeltaCoordinate::Negative],
            vec![
                DeltaCoordinate::SameCoordinate,
                DeltaCoordinate::Negative,
                DeltaCoordinate::Negative
            ],
            vec![DeltaCoordinate::Positive, DeltaCoordinate::Negative, DeltaCoordinate::Negative],
            vec![DeltaCoordinate::Negative, DeltaCoordinate::Negative, DeltaCoordinate::Negative],
        ]
    );
}

#[test]
fn test_push_cell_2d() {
    let mut space: Space = Space::new(2);
    let mut cell: Cell = Cell::new(2);
    cell.set();

    space.push_cell(&cell);

    assert_eq!(space.len(), 9);
    assert_eq!(space.find_number_of_cells(CellValue::Inactive), 8);

    space.push_cell(&cell);
    assert_eq!(space.find_number_of_cells(CellValue::Inactive), 8);
    assert_eq!(space.find_number_of_cells(CellValue::Active), 1);

    cell = space.search_cells(&vec![1, 1]).unwrap().clone();
    cell.set();

    assert_eq!(space.find_number_of_cells(CellValue::Inactive), 8);
    assert_eq!(space.find_number_of_cells(CellValue::Active), 1);
    space.push_cell(&cell);

    assert_eq!(space.find_number_of_cells(CellValue::Inactive), 12);
    assert_eq!(space.find_number_of_cells(CellValue::Active), 2);
}

#[test]
fn test_generate_cell_2d_case1() {
    let mut space: Space = Space::new(2);

    let mut cell: Cell = Cell::new(2);
    cell.set();
    space.push_cell(&cell);

    assert_ne!(space.search_cells(&vec![0, 0]), None);
    assert_ne!(space.search_cells(&vec![0, 1]), None);
    assert_ne!(space.search_cells(&vec![1, 0]), None);
    assert_ne!(space.search_cells(&vec![1, 1]), None);
    assert_ne!(space.search_cells(&vec![-1, 0]), None);
    assert_ne!(space.search_cells(&vec![0, -1]), None);
    assert_ne!(space.search_cells(&vec![-1, -1]), None);
    assert_ne!(space.search_cells(&vec![1, -1]), None);
    assert_ne!(space.search_cells(&vec![-1, 1]), None);

    assert_eq!(space.search_cells(&vec![2, 0]), None);

    assert_eq!(space.len(), 9);
}

#[test]
fn test_generate_cell_2d_case2() {
    let mut space: Space = Space::new(2);

    let mut cell: Cell = Cell::new(2);
    cell.set_ith_coordinate(0, 3);
    cell.set_ith_coordinate(1, 3);
    cell.set();
    space.push_cell(&cell);

    assert_ne!(space.search_cells(&vec![3, 3]), None);
    assert_ne!(space.search_cells(&vec![3, 4]), None);
    assert_ne!(space.search_cells(&vec![4, 3]), None);
    assert_ne!(space.search_cells(&vec![4, 4]), None);
    assert_ne!(space.search_cells(&vec![2, 3]), None);
    assert_ne!(space.search_cells(&vec![3, 2]), None);
    assert_ne!(space.search_cells(&vec![2, 2]), None);
    assert_ne!(space.search_cells(&vec![3, 2]), None);
    assert_ne!(space.search_cells(&vec![2, 3]), None);

    assert_eq!(space.search_cells(&vec![0, 0]), None);

    assert_eq!(space.len(), 9);
}

#[test]
fn test_generate_cell_3d() {
    let mut space: Space = Space::new(3);

    let mut cell: Cell = Cell::new(3);
    cell.set();
    space.push_cell(&cell);

    assert_ne!(space.search_cells(&vec![0, 0, 0]), None);
    assert_ne!(space.search_cells(&vec![0, 0, 1]), None);
    assert_ne!(space.search_cells(&vec![0, 1, 0]), None);
    assert_ne!(space.search_cells(&vec![1, 0, 0]), None);
    assert_ne!(space.search_cells(&vec![0, 0, -1]), None);
    assert_ne!(space.search_cells(&vec![0, -1, 0]), None);
    assert_ne!(space.search_cells(&vec![-1, 0, 0]), None);

    assert_eq!(space.search_cells(&vec![1, 2, 1]), None);

    assert_eq!(space.len(), 27);
}

#[test]
fn test_search_cell_exist() {
    let mut space: Space = Space::new(2);

    let mut cell1: Cell = Cell::new(2);
    cell1.set_ith_coordinate(0, 1);

    space.push_cell(&cell1);

    let mut cell2: Cell = Cell::new(2);
    cell2.set_ith_coordinate(1, 2);

    space.push_cell(&cell2);

    let found_cell = space.search_cells(&vec![1, 0]);
    assert_eq!(*found_cell.unwrap(), cell1);

    let found_cell2 = space.search_cells(&vec![0, 2]);
    assert_eq!(*found_cell2.unwrap(), cell2);
}

#[test]
fn test_search_cell_not_exist() {
    let mut space: Space = Space::new(2);

    let mut cell1: Cell = Cell::new(2);
    cell1.set_ith_coordinate(0, 1);

    space.push_cell(&cell1);

    let mut cell2: Cell = Cell::new(2);
    cell2.set_ith_coordinate(1, 2);

    space.push_cell(&cell2);

    let found_cell = space.search_cells(&vec![2, 3]);
    assert_eq!(found_cell, None);
}

#[test]
fn test_pop_cell_removes_newest() {
    let mut space: Space = Space::new(1);
    let mut cell: Cell = Cell::new(1);
    cell.set();
    space.push_cell(&cell);
    assert_eq!(space.len(), 3);

    space.pop_cell();
    assert_eq!(space.len(), 2);

    space.pop_cell();
    space.pop_cell();
    assert_eq!(space.len(), 0);
    space.pop_cell();
    assert_eq!(space.len(), 0);
}
