use rlife::Grid;

#[test]
fn test_toroidal_load_file() {
    let text: Vec<u8> = b"#Toroidal Life\n#R 23/3\n#S 5 5\n1 2\n2 2\n3 2\n".to_vec();
    let grid = Grid::load_life(&text).unwrap();

    // Check the `Grid` is correct
    assert_eq!("#Toroidal Life", grid.get_format());
    assert_eq!(true, grid.is_toroidal());
    assert_eq!(vec![2, 3], grid.get_survival());
    assert_eq!(vec![3], grid.get_birth());
    assert_eq!(5, grid.get_width());
    assert_eq!(5, grid.get_height());

    assert_eq!(0, grid.get_cell_state(0, 0));
    assert_eq!(0, grid.get_cell_state(0, 1));
    assert_eq!(0, grid.get_cell_state(0, 2));
    assert_eq!(0, grid.get_cell_state(0, 3));
    assert_eq!(0, grid.get_cell_state(0, 4));
    assert_eq!(0, grid.get_cell_state(1, 0));
    assert_eq!(0, grid.get_cell_state(1, 1));
    assert_eq!(0, grid.get_cell_state(1, 2));
    assert_eq!(0, grid.get_cell_state(1, 3));
    assert_eq!(0, grid.get_cell_state(1, 4));
    assert_eq!(0, grid.get_cell_state(2, 0));
    assert_eq!(255, grid.get_cell_state(2, 1));
    assert_eq!(255, grid.get_cell_state(2, 2));
    assert_eq!(255, grid.get_cell_state(2, 3));
    assert_eq!(0, grid.get_cell_state(2, 4));
    assert_eq!(0, grid.get_cell_state(3, 0));
    assert_eq!(0, grid.get_cell_state(3, 1));
    assert_eq!(0, grid.get_cell_state(3, 2));
    assert_eq!(0, grid.get_cell_state(3, 3));
    assert_eq!(0, grid.get_cell_state(3, 4));
    assert_eq!(0, grid.get_cell_state(4, 0));
    assert_eq!(0, grid.get_cell_state(4, 1));
    assert_eq!(0, grid.get_cell_state(4, 2));
    assert_eq!(0, grid.get_cell_state(4, 3));
    assert_eq!(0, grid.get_cell_state(4, 4));
}

#[test]
fn test_toroidal_next_gen() {
    let text: Vec<u8> = b"#Toroidal Life\n#R 23/3\n#S 5 5\n1 2\n2 2\n3 2\n".to_vec();
    let mut grid = Grid::load_life(&text).unwrap();

    grid.next_gen();

    // Check the new `Grid` is correct
    assert_eq!("#Toroidal Life", grid.get_format());
    assert_eq!(true, grid.is_toroidal());
    assert_eq!(vec![2, 3], grid.get_survival());
    assert_eq!(vec![3], grid.get_birth());
    assert_eq!(5, grid.get_width());
    assert_eq!(5, grid.get_height());

    assert_eq!(0, grid.get_cell_state(0, 0));
    assert_eq!(0, grid.get_cell_state(0, 1));
    assert_eq!(0, grid.get_cell_state(0, 2));
    assert_eq!(0, grid.get_cell_state(0, 3));
    assert_eq!(0, grid.get_cell_state(0, 4));
    assert_eq!(0, grid.get_cell_state(1, 0));
    assert_eq!(0, grid.get_cell_state(1, 1));
    assert_eq!(255, grid.get_cell_state(1, 2));
    assert_eq!(0, grid.get_cell_state(1, 3));
    assert_eq!(0, grid.get_cell_state(1, 4));
    assert_eq!(0, grid.get_cell_state(2, 0));
    assert_eq!(0, grid.get_cell_state(2, 1));
    assert_eq!(255, grid.get_cell_state(2, 2));
    assert_eq!(0, grid.get_cell_state(2, 3));
    assert_eq!(0, grid.get_cell_state(2, 4));
    assert_eq!(0, grid.get_cell_state(3, 0));
    assert_eq!(0, grid.get_cell_state(3, 1));
    assert_eq!(255, grid.get_cell_state(3, 2));
    assert_eq!(0, grid.get_cell_state(3, 3));
    assert_eq!(0, grid.get_cell_state(3, 4));
    assert_eq!(0, grid.get_cell_state(4, 0));
    assert_eq!(0, grid.get_cell_state(4, 1));
    assert_eq!(0, grid.get_cell_state(4, 2));
    assert_eq!(0, grid.get_cell_state(4, 3));
    assert_eq!(0, grid.get_cell_state(4, 4));
}

#[test]
fn test_toroidal_save_text() {
    let text: Vec<u8> = b"#Toroidal Life\n#R 23/3\n#S 5 5\n1 2\n2 2\n3 2\n".to_vec();
    let grid = Grid::load_life(&text).unwrap();

    // A canonical toroidal file round-trips byte for byte.
    assert_eq!(text, grid.save_life_text());

    // After one generation the blinker flips; the saved text lists the new
    // cells in row-major order.
    let mut stepped = Grid::load_life(&text).unwrap();
    stepped.next_gen();
    let expected: Vec<u8> = b"#Toroidal Life\n#R 23/3\n#S 5 5\n2 1\n2 2\n2 3\n".to_vec();
    assert_eq!(expected, stepped.save_life_text());
}

#[test]
fn resizable_load_and_next_gen() {
    // A vertical blinker in column 1: the grid is sized one past the largest
    // row and column.
    let text: Vec<u8> = b"#Resizable Life\n#N\n0 1\n1 1\n2 1\n".to_vec();
    let mut grid = Grid::load_life(&text).unwrap();

    assert_eq!("#Resizable Life", grid.get_format());
    assert_eq!(false, grid.is_toroidal());
    assert_eq!(vec![2, 3], grid.get_survival());
    assert_eq!(vec![3], grid.get_birth());
    assert_eq!(2, grid.get_width());
    assert_eq!(3, grid.get_height());
    assert_eq!(255, grid.get_cell_state(1, 0));
    assert_eq!(255, grid.get_cell_state(1, 1));
    assert_eq!(255, grid.get_cell_state(1, 2));
    assert_eq!(0, grid.get_cell_state(0, 0));
    assert_eq!(0, grid.get_cell_state(0, 1));
    assert_eq!(0, grid.get_cell_state(0, 2));

    grid.next_gen();

    // The grid was recentered to the 1-by-3 pattern plus a one-cell border,
    // and the blinker flipped to a horizontal line in the middle row.
    assert_eq!(3, grid.get_width());
    assert_eq!(5, grid.get_height());
    for y in 0..5i64 {
        for x in 0..3i64 {
            let expected = if y == 2 { 255 } else { 0 };
            assert_eq!(expected, grid.get_cell_state(x, y));
        }
    }
}

#[test]
fn resizable_save_recenters() {
    // The pattern sits away from the origin; saving recenters it, so the
    // round trip is identical only after that normalization.
    let text: Vec<u8> = b"#Resizable Life\n#R 23/3\n2 3\n2 4\n3 3\n3 4\n".to_vec();
    let grid = Grid::load_life(&text).unwrap();
    let saved = grid.save_life_text();
    let expected: Vec<u8> = b"#Resizable Life\n#R 23/3\n0 0\n0 1\n1 0\n1 1\n".to_vec();
    assert_eq!(expected, saved);

    // The normalized text now round-trips byte for byte.
    let again = Grid::load_life(&saved).unwrap();
    assert_eq!(saved, again.save_life_text());
}
