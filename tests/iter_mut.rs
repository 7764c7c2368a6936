use grid::iter_mut::IterMut;
use grid::Area;

const GRID_SIDE_LEN: usize = 10;
const ARRAY_LEN: usize = GRID_SIDE_LEN * GRID_SIDE_LEN;

fn count<T>(mut it: IterMut<'_, T>) -> usize {
    let mut count = 0;
    while it.next().is_some() {
        count += 1;
    }
    count
}

#[test]
fn iter_mut() {
    let mut array = vec![0; ARRAY_LEN];
    let area = Area::new(0, 0, 9, 9);

    let it = IterMut::new(&mut array, GRID_SIDE_LEN, area);
    assert_eq!(count(it), ARRAY_LEN);

    let mut it = IterMut::new(&mut array, GRID_SIDE_LEN, area);
    let mut idx = 0;
    while let Some(value) = it.next() {
        *value = idx;
        idx += 1;
    }
    array.iter().enumerate().for_each(|(idx, value)| {
        assert_eq!(idx, *value);
    })
}

#[test]
fn iter_over_mut() {
    let mut array = vec![0; ARRAY_LEN];
    let area = Area::new(5, 5, 6, 6);

    let it = IterMut::new(&mut array, GRID_SIDE_LEN, area);
    assert_eq!(count(it), 4);

    let mut it = IterMut::new(&mut array, GRID_SIDE_LEN, area);
    while let Some(value) = it.next() {
        *value = 1;
    }

    let expected = [55, 56, 65, 66];
    array.iter().enumerate().for_each(|(idx, value)| {
        if expected.contains(&idx) {
            assert_eq!(*value, 1)
        }
    })
}

#[test]
fn iter_mut_iter() {
    let mut vec = (0..ARRAY_LEN).collect::<Vec<usize>>();
    let area = Area::new(0, 0, 9, 9);

    let mut iter = IterMut::new(&mut vec, GRID_SIDE_LEN, area);
    while let Some(item) = iter.next() {
        println!("{}", item);
    }

    let mut iter = IterMut::new(&mut vec, GRID_SIDE_LEN, Area::new(8, 8, 9, 9));
    while let Some(item) = iter.next() {
        println!("{}", item);
    }
}

#[test]
fn iter_mut_yields_the_area_in_row_major_order() {
    let mut vec = (0..ARRAY_LEN).collect::<Vec<usize>>();
    let mut iter = IterMut::new(&mut vec, GRID_SIDE_LEN, Area::new(2, 7, 4, 9));
    let mut seen = Vec::new();
    while let Some(item) = iter.next() {
        seen.push(*item);
        *item = 0;
    }
    assert_eq!(seen, vec![27, 28, 29, 37, 38, 39, 47, 48, 49]);
    for (idx, value) in vec.iter().enumerate() {
        if seen.contains(&idx) {
            assert_eq!(*value, 0);
        } else {
            assert_eq!(*value, idx);
        }
    }
}

#[test]
fn iter_mut_reports_exact_length() {
    let mut vec = vec![0u8; ARRAY_LEN];
    let mut iter = IterMut::new(&mut vec, GRID_SIDE_LEN, Area::new(1, 1, 3, 4));
    let mut left = 12;
    assert_eq!(iter.len(), left);
    while iter.next().is_some() {
        left -= 1;
        assert_eq!(iter.len(), left);
    }
    assert_eq!(left, 0);
    assert!(iter.is_empty());
    assert!(iter.next().is_none());
}

#[test]
fn iter_mut_over_zero_sized_elements() {
    let mut vec = vec![(); ARRAY_LEN];
    let mut iter = IterMut::new(&mut vec, GRID_SIDE_LEN, Area::new(3, 2, 7, 5));
    assert_eq!(iter.len(), 20);
    let mut visited = 0;
    while let Some(unit) = iter.next() {
        *unit = ();
        visited += 1;
        assert_eq!(iter.len(), 20 - visited);
    }
    assert_eq!(visited, 20);
    assert!(iter.next().is_none());
}

#[test]
fn empty_iter_mut_yields_nothing() {
    let mut vec = vec![1, 2, 3];
    let mut iter = IterMut::empty(&mut vec);
    assert_eq!(iter.len(), 0);
    assert!(iter.next().is_none());
    assert_eq!(vec, vec![1, 2, 3]);
}
