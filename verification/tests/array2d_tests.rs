use wave_function_collapse::Array2D;
use wave_function_collapse::coords_to_index;
use wave_function_collapse::index_to_coords;

#[test]
fn index_coords_round_trip() {
    assert_eq!(index_to_coords(5, 13), (3, 2));
    assert_eq!(coords_to_index(5, (3, 2)), 13);
    assert_eq!(index_to_coords(4, 0), (0, 0));
    assert_eq!(coords_to_index(4, (0, 0)), 0);
    assert_eq!(coords_to_index(7, (6, 3)), 27);
    assert_eq!(index_to_coords(7, 27), (6, 3));
}

#[test]
fn filled_builds_full_rectangle() {
    let a: Array2D<u32> = Array2D::filled(3, 2, 7);
    assert_eq!(a.len(), 6);
    assert!(!a.is_empty());
    assert_eq!(a.size(), (3, 2));
    let inner = a.to_inner();
    assert_eq!(inner, vec![7, 7, 7, 7, 7, 7]);
}

#[test]
fn add_element_grows_row_major() {
    let mut a: Array2D<i32> = Array2D::new(2);
    assert!(a.is_empty());
    a.add_element(1);
    a.add_element(2);
    a.add_element(3);
    assert_eq!(a.len(), 3);
    assert_eq!(*a.get(0, 0), 1);
    assert_eq!(*a.get(1, 0), 2);
    assert_eq!(*a.get(0, 1), 3);
}

#[test]
fn remove_shifts_later_cells_left() {
    let mut a: Array2D<i32> = Array2D::new(2);
    a.add_element(10);
    a.add_element(20);
    a.add_element(30);
    a.add_element(40);
    let taken = a.remove((1, 0));
    assert_eq!(taken, 20);
    assert_eq!(a.len(), 3);
    assert_eq!(*a.get(1, 0), 30);
    assert_eq!(*a.get(0, 1), 40);
}

#[test]
fn contains_finds_a_matching_element() {
    let mut a: Array2D<i32> = Array2D::new(3);
    a.add_element(4);
    a.add_element(8);
    a.add_element(15);
    assert!(a.contains(|x: &i32| *x == 8));
    assert!(!a.contains(|x: &i32| *x > 100));
}

#[test]
fn size_rounds_partial_rows_up() {
    let mut a: Array2D<u8> = Array2D::new(4);
    assert_eq!(a.size(), (4, 0));
    for _ in 0..5 {
        a.add_element(0);
    }
    assert_eq!(a.size(), (4, 2));
    for _ in 0..3 {
        a.add_element(0);
    }
    assert_eq!(a.size(), (4, 2));
    a.add_element(0);
    assert_eq!(a.size(), (4, 3));
}

#[test]
fn get_mut_writes_in_place() {
    let mut a: Array2D<i32> = Array2D::filled(2, 2, 0);
    *a.get_mut(1, 1) = 9;
    assert_eq!(*a.get(1, 1), 9);
    assert_eq!(*a.get(0, 0), 0);
}
