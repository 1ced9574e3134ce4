use rule_search::cell::Cell;
use rule_search::cell::CellValue;

#[test]
fn test_new() {
    let cell: Cell = Cell::new(10);

    assert_eq!(cell.get_value(), CellValue::Inactive);
    assert_eq!(cell.get_coordinates().len(), 10);

    for it in cell.get_coordinates().iter() {
        assert_eq!(*it, 0);
    }
}

#[test]
fn test_set_unset_flip() {
    let mut cell: Cell = Cell::new(10);

    cell.set();
    assert_eq!(cell.get_value(), CellValue::Active);

    cell.set();
    assert_eq!(cell.get_value(), CellValue::Active);

    cell.unset();
    assert_eq!(cell.get_value(), CellValue::Inactive);

    cell.unset();
    assert_eq!(cell.get_value(), CellValue::Inactive);

    cell.flip();
    assert_eq!(cell.get_value(), CellValue::Active);
}

#[test]
fn test_generate_cell_combinations() {
    let mut cell = Cell::new(1);

    assert_eq!(*cell.get_coordinates(), vec![0]);
    assert_eq!(cell.has_unexplored_nearby_cell(), true);
    cell.generate_next_unexplored_nearby_cell();
    assert_eq!(*cell.get_coordinates(), vec![0]);
    assert_eq!(cell.get_nearby_coordinate(), vec![1]);
    assert_eq!(cell.has_unexplored_nearby_cell(), true);
    cell.generate_next_unexplored_nearby_cell();
    assert_eq!(*cell.get_coordinates(), vec![0]);
    assert_eq!(cell.get_nearby_coordinate(), vec![-1]);
    assert_eq!(cell.has_unexplored_nearby_cell(), false);

    let mut two_d_cell = Cell::new(2);
    assert_eq!(*two_d_cell.get_coordinates(), vec![0, 0]);
    assert_eq!(two_d_cell.has_unexplored_nearby_cell(), true);
    two_d_cell.generate_next_unexplored_nearby_cell();
    assert_eq!(*two_d_cell.get_coordinates(), vec![0, 0]);
    assert_eq!(two_d_cell.get_nearby_coordinate(), vec![1, 0]);
    assert_eq!(two_d_cell.has_unexplored_nearby_cell(), true);
    two_d_cell.generate_next_unexplored_nearby_cell();
    assert_eq!(*two_d_cell.get_coordinates(), vec![0, 0]);
    assert_eq!(two_d_cell.get_nearby_coordinate(), vec![-1, 0]);
    assert_eq!(two_d_cell.has_unexplored_nearby_cell(), true);
    two_d_cell.generate_next_unexplored_nearby_cell();
    assert_eq!(*two_d_cell.get_coordinates(), vec![0, 0]);
    assert_eq!(two_d_cell.get_nearby_coordinate(), vec![0, 1]);
    assert_eq!(two_d_cell.has_unexplored_nearby_cell(), true);
    two_d_cell.generate_next_unexplored_nearby_cell();
    assert_eq!(*two_d_cell.get_coordinates(), vec![0, 0]);
    assert_eq!(two_d_cell.get_nearby_coordinate(), vec![1, 1]);
    assert_eq!(two_d_cell.has_unexplored_nearby_cell(), true);
    two_d_cell.generate_next_unexplored_nearby_cell();
    assert_eq!(*two_d_cell.get_coordinates(), vec![0, 0]);
    assert_eq!(two_d_cell.get_nearby_coordinate(), vec![-1, 1]);
    assert_eq!(two_d_cell.has_unexplored_nearby_cell(), true);
    two_d_cell.generate_next_unexplored_nearby_cell();
    assert_eq!(*two_d_cell.get_coordinates(), vec![0, 0]);
    assert_eq!(two_d_cell.get_nearby_coordinate(), vec![0, -1]);
    assert_eq!(two_d_cell.has_unexplored_nearby_cell(), true);
    two_d_cell.generate_next_unexplored_nearby_cell();
    assert_eq!(*two_d_cell.get_coordinates(), vec![0, 0]);
    assert_eq!(two_d_cell.get_nearby_coordinate(), vec![1, -1]);
    assert_eq!(two_d_cell.has_unexplored_nearby_cell(), true);
    two_d_cell.generate_next_unexplored_nearby_cell();
    assert_eq!(*two_d_cell.get_coordinates(), vec![0, 0]);
    assert_eq!(two_d_cell.get_nearby_coordinate(), vec![-1, -1]);
}

#[test]
fn test_hash_depends_on_coordinates_alone() {
    let mut a = Cell::new(3);
    let mut b = Cell::new(3);
    a.set();
    assert_eq!(a.get_hash(), b.get_hash());

    a.set_ith_coordinate(1, -7);
    assert_ne!(a.get_hash(), b.get_hash());
    b.set_ith_coordinate(1, -7);
    assert_eq!(a.get_hash(), b.get_hash());
}
