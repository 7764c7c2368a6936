use grid::iter::Iter;
use grid::iter_mut::IterMut;
use grid::{Area, Grid};

const GRID_SIZE: usize = 10;
const ARRAY_LEN: usize = GRID_SIZE * GRID_SIZE;

fn count<T>(mut it: Iter<'_, T>) -> usize {
    let mut count = 0;
    while it.next().is_some() {
        count += 1;
    }
    count
}

fn count_mut<T>(mut it: IterMut<'_, T>) -> usize {
    let mut count = 0;
    while it.next().is_some() {
        count += 1;
    }
    count
}

fn sum(mut it: Iter<'_, i32>) -> i32 {
    let mut sum = 0;
    while let Some(value) = it.next() {
        sum += *value;
    }
    sum
}

#[test]
fn getters() {
    let mut array = Vec::with_capacity(ARRAY_LEN);
    for value in 0..ARRAY_LEN {
        array.push(value)
    }

    let mut grid = Grid::try_from_vec(array, GRID_SIZE).unwrap();
    assert_eq!(grid.get(5, 6), Some(&65));
    assert_eq!(grid.get_at_index(65), Some(&65));
    assert_eq!(grid.get_mut(5, 7), Some(&mut 75));
    assert_eq!(grid.get_at_index_mut(75), Some(&mut 75));

    *grid.get_mut(9, 9).unwrap() = 0;
    assert_eq!(grid.get(9, 9), Some(&0))
}

#[test]
fn grid_test_iter() {
    let grid = Grid::new_square_filled(GRID_SIZE, 2);

    assert_eq!(count(grid.iter()), ARRAY_LEN);
    let mut it = grid.iter();
    while let Some(val) = it.next() {
        assert_eq!(val, &2);
    }
    assert_eq!(sum(grid.iter()), 200);
}

#[test]
fn grid_test_iter_over() {
    let grid = Grid::new_square_filled(GRID_SIZE, 0);

    assert_eq!(count(grid.iter_over(Area::new(0, 0, 0, 0))), 1);
    assert_eq!(count(grid.iter_over(Area::new(0, 0, 1, 1))), 4);
    assert_eq!(count(grid.iter_over(Area::new(1, 1, 2, 2))), 4);
    assert_eq!(count(grid.iter_over(Area::new(0, 0, 9, 9))), 100);
    assert_eq!(count(grid.iter_over(Area::new(10, 10, 11, 11))), 0);
    assert_eq!(count(grid.iter_over(Area::new(9, 9, 9, 9))), 1);
    assert_eq!(count(grid.iter_over(Area::new(5, 6, 6, 6))), 2);
    assert_eq!(count(grid.iter_over(Area::new(9, 9, 10, 9))), 1);

    let mut array = Vec::with_capacity(ARRAY_LEN);
    for value in 0..ARRAY_LEN {
        array.push(value)
    }

    let grid = Grid::try_from_vec(array, GRID_SIZE).unwrap();
    let expected = [11, 12, 13, 21, 22, 23, 31, 32, 33];
    let mut it = grid.iter_over(Area::new(1, 1, 3, 3));
    let mut index = 0;
    while let Some(value) = it.next() {
        assert_eq!(*value, expected[index]);
        index += 1;
    }
    assert_eq!(index, expected.len());
}

#[test]
fn grid_test_iter_mut() {
    let mut grid = Grid::new_square_filled(GRID_SIZE, 0);

    assert_eq!(count_mut(grid.iter_mut()), ARRAY_LEN);
    assert_eq!(sum(grid.iter()), 0);

    let mut it = grid.iter_mut();
    while let Some(val) = it.next() {
        *val = 10;
    }
    assert_eq!(sum(grid.iter()), 1000);

    let mut it = grid.iter_mut();
    let mut index = 0;
    while let Some(val) = it.next() {
        *val = index as i32;
        index += 1;
    }

    for index in 0..ARRAY_LEN {
        assert_eq!(grid.get_at_index(index), Some(&(index as i32)))
    }
}

#[test]
fn grid_test_iter_mut_over() {
    let mut grid = Grid::new_square_filled(GRID_SIZE, 0);

    assert_eq!(count_mut(grid.iter_mut()), ARRAY_LEN);
    assert_eq!(sum(grid.iter()), 0);

    let mut it = grid.iter_over_mut(Area::new(0, 0, 10, 10));
    while let Some(val) = it.next() {
        *val = 10;
    }

    assert_eq!(sum(grid.iter()), 1000);
    assert_eq!(count_mut(grid.iter_over_mut(Area::new(10, 10, 20, 20))), 0);

    let mut array = Vec::with_capacity(ARRAY_LEN);
    for value in 0..ARRAY_LEN {
        array.push(value)
    }

    let mut grid = Grid::try_from_vec(array, GRID_SIZE).unwrap();
    let mut it = grid.iter_over_mut(Area::new(1, 1, 3, 3));
    while let Some(value) = it.next() {
        *value = 0;
    }

    let expected = [11, 12, 13, 21, 22, 23, 31, 32, 33];
    for index in 0..ARRAY_LEN {
        if expected.contains(&index) {
            assert_eq!(grid.get_at_index(index), Some(&0))
        } else {
            assert_eq!(grid.get_at_index(index), Some(&index))
        }
    }
}

#[test]
fn try_from_vec_checks_the_shape() {
    let grid = Grid::try_from_vec(vec![0u8; 100], 10).unwrap();
    assert_eq!(grid.count(), 100);
    assert!(grid.get(9, 9).is_some());
    assert!(grid.get(0, 10).is_none());
    assert!(Grid::try_from_vec(vec![0u8; 99], 10).is_none());
    assert!(Grid::try_from_vec(vec![0u8; 10], 0).is_none());

    let tall = Grid::try_from_vec((0..12).collect::<Vec<u32>>(), 3).unwrap();
    assert_eq!(tall.count(), 12);
    assert_eq!(tall.get(2, 3), Some(&11));
    assert_eq!(tall.get(0, 4), None);
    assert_eq!(tall.coords_from_index(7), (1, 2));
    assert_eq!(tall.index_from_coord(1, 2), 7);
}

#[test]
fn get_rejects_out_of_range_coordinates() {
    let grid = Grid::try_from_vec((0..20).collect::<Vec<u32>>(), 5).unwrap();
    assert_eq!(grid.get(4, 3), Some(&19));
    assert_eq!(grid.get(2, 1), Some(&7));
    assert_eq!(grid.get(7, 1), None);
    assert_eq!(grid.get(5, 0), None);
    assert_eq!(grid.get(0, 4), None);
    assert_eq!(grid.get(20, 0), None);
    assert_eq!(grid.get(usize::MAX, usize::MAX), None);
    assert_eq!(grid.get(usize::MAX, 1), None);
    assert_eq!(grid.get_at_index(20), None);

    let mut square = Grid::new_square_filled(10, 0u8);
    assert_eq!(square.get(10, 0), None);
    assert!(square.get_mut(10, 0).is_none());
    assert!(square.get_mut(0, 10).is_none());
    assert!(square.get_mut(9, 9).is_some());
}

#[test]
fn get_mut_out_of_range_leaves_the_grid() {
    let mut grid = Grid::new_filled(4, 3, 7u16);
    assert!(grid.get_mut(0, 3).is_none());
    assert!(grid.get_mut(usize::MAX, 0).is_none());
    assert!(grid.get_mut(4, 0).is_none());
    assert!(grid.get_at_index_mut(12).is_none());
    *grid.get_at_index_mut(11).unwrap() = 1;
    assert_eq!(grid.get(3, 2), Some(&1));
    assert_eq!(count(grid.iter()), 12);
}

#[test]
fn iter_over_clamps_to_the_grid() {
    let grid = Grid::try_from_vec((0..100).collect::<Vec<u32>>(), 10).unwrap();
    let mut it = grid.iter_over(Area::new(9, 9, 10, 10));
    assert_eq!(it.next(), Some(&99));
    assert_eq!(it.next(), None);

    let mut it = grid.iter_over(Area::new(0, 8, 1, 12));
    let mut values = Vec::new();
    while let Some(value) = it.next() {
        values.push(*value);
    }
    assert_eq!(values, vec![8, 9, 18, 19]);
}

#[test]
fn iter_mut_over_clamps_to_the_grid() {
    let mut grid = Grid::try_from_vec((0..100).collect::<Vec<u32>>(), 10).unwrap();
    let mut it = grid.iter_over_mut(Area::new(9, 9, 10, 10));
    assert_eq!(it.len(), 1);
    let mut count = 0;
    while let Some(value) = it.next() {
        assert_eq!(*value, 99);
        *value = 0;
        count += 1;
    }
    assert_eq!(count, 1);
    assert_eq!(grid.get(9, 9), Some(&0));
    assert_eq!(grid.get(8, 9), Some(&98));
}

#[test]
fn empty_grids_iterate_nothing() {
    let mut grid: Grid<u8> = Grid::new_with_default(0, 5);
    assert_eq!(grid.count(), 0);
    assert_eq!(count(grid.iter()), 0);
    assert_eq!(count(grid.iter_over(Area::new(0, 0, 3, 3))), 0);
    assert_eq!(count_mut(grid.iter_mut()), 0);
    assert_eq!(count_mut(grid.iter_over_mut(Area::new(0, 0, 3, 3))), 0);
    assert!(grid.get(0, 0).is_none());
}

#[test]
fn square_constructors() {
    let grid: Grid<i64> = Grid::new_square_with_default(6);
    assert_eq!(grid.count(), 36);
    assert_eq!(grid.get(5, 5), Some(&0));
    let grid = Grid::new_square_filled(3, 'x');
    assert_eq!(grid.count(), 9);
    assert_eq!(grid.get(2, 2), Some(&'x'));
}

#[test]
fn zero_sized_elements_over_an_area() {
    let mut grid = Grid::new_filled(8, 6, ());
    let mut it = grid.iter_over_mut(Area::new(1, 2, 4, 5));
    assert_eq!(it.len(), 16);
    let mut visited = 0;
    while it.next().is_some() {
        visited += 1;
        assert_eq!(it.len(), 16 - visited);
    }
    assert_eq!(visited, 16);
    assert_eq!(count_mut(grid.iter_mut()), 48);
}

#[test]
fn default_grid_holds_default_values() {
    let grid: Grid<i32> = Grid::new_with_default(10, 5);
    for y in 0..5 {
        for x in 0..10 {
            assert_eq!(grid.get(x, y), Some(&0));
        }
    }
    assert_eq!(grid.get_at_index(50), None);
}

#[test]
fn fill_over_sets_exactly_the_area() {
    let mut grid = Grid::try_from_vec((0..100).collect::<Vec<u32>>(), 10).unwrap();
    grid.fill_over(Area::new(2, 7, 4, 12), 0);
    for y in 0..10 {
        for x in 0..10 {
            let expected = if (7..=9).contains(&x) && (2..=4).contains(&y) { 0 } else { (y * 10 + x) as u32 };
            assert_eq!(grid.get(x, y), Some(&expected));
        }
    }
    grid.fill_over(Area::new(10, 0, 12, 3), 1);
    assert_eq!(grid.get(0, 9), Some(&90));
    assert_eq!(count(grid.iter()), 100);
}

#[test]
fn update_over_maps_exactly_the_area() {
    let mut grid = Grid::try_from_vec((0..100).collect::<Vec<u32>>(), 10).unwrap();
    grid.update_over(Area::new(1, 1, 3, 3), |v| v * 2 + 1);
    let inside = [11, 12, 13, 21, 22, 23, 31, 32, 33];
    for index in 0..100u32 {
        let expected = if inside.contains(&index) { index * 2 + 1 } else { index };
        assert_eq!(grid.get_at_index(index as usize), Some(&expected));
    }
    grid.update_over(Area::new(10, 10, 20, 20), |v| v + 1000);
    assert_eq!(grid.get(9, 9), Some(&99));
}
