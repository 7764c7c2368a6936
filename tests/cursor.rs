use grid::cursor::Cursor;
use grid::Area;

const GRID_SIZE: usize = 1000;

#[test]
fn new_cursor() {
    let area = Area::new(0, 0, 0, 0);
    let cursor = Cursor::new(GRID_SIZE, area);
    assert_eq!(cursor.position(), (0, 0));

    let area = Area::new(0, 1, 0, 0);
    let cursor = Cursor::new(GRID_SIZE, area);
    assert_eq!(cursor.position(), (0, 0));

    let area = Area::new(0, 1, 0, 1);
    let cursor = Cursor::new(GRID_SIZE, area);
    assert_eq!(cursor.position(), (1, 0));

    let area = Area::new(959, 489, 964, 759);
    let cursor = Cursor::new(GRID_SIZE, area);
    assert_eq!(cursor.position(), (489, 959));
}

#[test]
fn cursor_iter() {
    let area = Area::new(0, 0, 0, 0);
    let mut cursor = Cursor::new(GRID_SIZE, area);
    assert_eq!(cursor.next(), Some(0));
    assert_eq!(cursor.next(), None);

    let area = Area::new(0, 0, 1, 1);
    let mut cursor = Cursor::new(GRID_SIZE, area);
    let mut count = 0;
    while cursor.next().is_some() {
        count += 1;
    }
    assert_eq!(count, 4);

    let area = Area::new(1, 1, 2, 2);
    let mut cursor = Cursor::new(GRID_SIZE, area);
    let witness = [1001, 1002, 2001, 2002];
    let mut idx = 0;
    while let Some(index) = cursor.next() {
        assert_eq!(index, witness[idx]);
        idx += 1;
    }
    assert_eq!(idx, witness.len());
}

#[test]
fn cursor_index_stops_after_last_cell() {
    let mut cursor = Cursor::new(10, Area::new(2, 3, 2, 4));
    assert_eq!(cursor.index(), Some(23));
    assert_eq!(cursor.index_unchecked(), 23);
    assert_eq!(cursor.next(), Some(23));
    assert_eq!(cursor.index(), Some(24));
    assert_eq!(cursor.next(), Some(24));
    assert_eq!(cursor.index(), None);
    assert_eq!(cursor.next(), None);
    assert_eq!(cursor.next(), None);
}
