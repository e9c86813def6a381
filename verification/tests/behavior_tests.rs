use rlife::error::{FileParsingErrorKind, GridErrorKind};
use rlife::file::{
    clean_lines, guess_pattern_size, load_resizable_life, load_toroidal_life, valid_life_file,
    valid_resizable_life, valid_toroidal_life,
};
use rlife::view::GridView;
use rlife::Grid;

fn empty_grid(toroidal: bool, w: usize, h: usize) -> Grid {
    Grid::new(&String::from(if toroidal {
        "#Toroidal Life"
    } else {
        "#Resizable Life"
    }), toroidal, &vec![2, 3], &vec![3], w, h)
}

#[test]
fn set_then_get_round_trip() {
    let mut g = empty_grid(true, 4, 7);
    for y in 0..7usize {
        for x in 0..4usize {
            let s = ((x * 7 + y) % 251) as u8;
            g.set_cell_state(x, y, s).unwrap();
            assert_eq!(s, g.get_cell_state(x as i64, y as i64));
        }
    }
}

#[test]
fn set_cell_fails_iff_out_of_bounds() {
    let mut g = empty_grid(false, 3, 2);
    assert_eq!(Ok(()), g.set_cell_state(2, 1, 255));
    assert_eq!(Err(GridErrorKind::OutOfBoundCoords), g.set_cell_state(3, 1, 255));
    assert_eq!(Err(GridErrorKind::OutOfBoundCoords), g.set_cell_state(2, 2, 255));
    assert_eq!(Err(GridErrorKind::OutOfBoundCoords), g.set_cell_state(7, 9, 255));
    // The failed writes changed nothing.
    assert_eq!(255, g.get_cell_state(2, 1));
    assert_eq!(0, g.get_cell_state(0, 0));
}

#[test]
fn toroidal_wraparound_edges() {
    let mut g = empty_grid(true, 4, 3);
    g.set_cell_state(0, 0, 255).unwrap();
    g.set_cell_state(3, 2, 9).unwrap();
    for x in 0..4i64 {
        assert_eq!(g.get_cell_state(x, -1), g.get_cell_state(x, 2));
        assert_eq!(g.get_cell_state(x, 3), g.get_cell_state(x, 0));
    }
    for y in 0..3i64 {
        assert_eq!(g.get_cell_state(-1, y), g.get_cell_state(3, y));
        assert_eq!(g.get_cell_state(4, y), g.get_cell_state(0, y));
    }
    // Floor-modulo reaches arbitrarily far out.
    assert_eq!(255, g.get_cell_state(-4, -3));
    assert_eq!(255, g.get_cell_state(8, 6));
    assert_eq!(9, g.get_cell_state(-1, -1));
}

#[test]
fn bounded_out_of_range_reads_dead() {
    let mut g = empty_grid(false, 3, 3);
    for y in 0..3usize {
        for x in 0..3usize {
            g.set_cell_state(x, y, 255).unwrap();
        }
    }
    assert_eq!(0, g.get_cell_state(-1, 0));
    assert_eq!(0, g.get_cell_state(0, -1));
    assert_eq!(0, g.get_cell_state(3, 0));
    assert_eq!(0, g.get_cell_state(0, 3));
    assert_eq!(0, g.get_cell_state(-1000000, 1000000));
    assert_eq!(0, g.get_cell_state(i64::MIN, i64::MAX));
    assert_eq!(255, g.get_cell_state(1, 1));
}

#[test]
fn neighbor_count_stays_in_range() {
    let mut full = empty_grid(true, 3, 3);
    for y in 0..3usize {
        for x in 0..3usize {
            full.set_cell_state(x, y, 255).unwrap();
        }
    }
    for y in 0..3i64 {
        for x in 0..3i64 {
            assert_eq!(8, full.neighbor_count(x, y));
        }
    }
    let empty = empty_grid(true, 3, 3);
    assert_eq!(0, empty.neighbor_count(1, 1));

    let mut corner = empty_grid(false, 3, 3);
    corner.set_cell_state(0, 0, 255).unwrap();
    corner.set_cell_state(1, 0, 255).unwrap();
    corner.set_cell_state(0, 1, 255).unwrap();
    // Out-of-range neighbors of a bounded grid are dead.
    assert_eq!(1, corner.neighbor_count(-1, -1));
    assert_eq!(3, corner.neighbor_count(1, 1));
    assert_eq!(2, corner.neighbor_count(0, 0));
}

#[test]
fn block_is_a_still_life() {
    let mut g = empty_grid(true, 5, 5);
    g.set_cell_state(1, 1, 255).unwrap();
    g.set_cell_state(2, 1, 255).unwrap();
    g.set_cell_state(1, 2, 255).unwrap();
    g.set_cell_state(2, 2, 255).unwrap();
    let before: Vec<u8> = g.cells.clone();
    g.next_gen();
    assert_eq!(before, g.cells);
    assert_eq!(5, g.get_width());
    assert_eq!(5, g.get_height());
}

#[test]
fn glider_translates_after_four_generations() {
    // The glider cells, given as (row, col).
    let glider = [(1usize, 2usize), (2, 3), (3, 1), (3, 2), (3, 3)];
    let mut g = empty_grid(true, 5, 5);
    for &(row, col) in glider.iter() {
        g.set_cell_state(col, row, 255).unwrap();
    }
    for _ in 0..4 {
        g.next_gen();
    }
    for row in 0..5usize {
        for col in 0..5usize {
            let expected = if glider.iter().any(|&(r, c)| (r + 1) % 5 == row && (c + 1) % 5 == col)
            {
                255
            } else {
                0
            };
            assert_eq!(expected, g.get_cell_state(col as i64, row as i64));
        }
    }
}

#[test]
fn bounded_step_sizes_to_pattern_plus_border() {
    // A vertical blinker: pattern box 1 wide, 3 tall.
    let mut g = empty_grid(false, 7, 9);
    g.set_cell_state(4, 3, 255).unwrap();
    g.set_cell_state(4, 4, 255).unwrap();
    g.set_cell_state(4, 5, 255).unwrap();
    g.next_gen();
    // New size: the old pattern box plus a one-cell border on every side.
    assert_eq!(1 + 2, g.get_width());
    assert_eq!(3 + 2, g.get_height());
    g.next_gen();
    // The blinker is horizontal now: box 3 wide, 1 tall.
    assert_eq!(3 + 2, g.get_width());
    assert_eq!(1 + 2, g.get_height());
}

#[test]
fn pattern_analysis() {
    let mut g = empty_grid(false, 6, 5);
    assert_eq!((None, None, None, None), g.compute_pattern_boundaries());
    assert_eq!((0, 0), g.guess_pattern_origin());
    assert_eq!((0, 0), g.guess_pattern_size());

    g.set_cell_state(2, 1, 255).unwrap();
    g.set_cell_state(4, 3, 255).unwrap();
    g.set_cell_state(3, 2, 17).unwrap(); // not alive: only 255 counts
    assert_eq!((Some(2), Some(4), Some(1), Some(3)), g.compute_pattern_boundaries());
    assert_eq!((2, 1), g.guess_pattern_origin());
    assert_eq!((3, 3), g.guess_pattern_size());
}

#[test]
fn free_guess_pattern_size() {
    let coords: Vec<(usize, usize)> = vec![(0, 0), (2, 5), (1, 3)];
    assert_eq!((3, 6), guess_pattern_size(&coords));
    let empty: Vec<(usize, usize)> = Vec::new();
    assert_eq!((1, 1), guess_pattern_size(&empty));
}

#[test]
fn load_error_kinds() {
    let load = |t: &[u8]| Grid::load_life(&t.to_vec());
    assert_eq!(Err(FileParsingErrorKind::IncompleteFile), load(b"").map(|_| ()));
    assert_eq!(Err(FileParsingErrorKind::IncompleteFile), load(b"  \n\n  ").map(|_| ()));
    assert_eq!(Err(FileParsingErrorKind::UnknownFormat), load(b"#Life 1.06\n1 2\n").map(|_| ()));
    assert_eq!(
        Err(FileParsingErrorKind::IncompleteFile),
        load(b"#Toroidal Life\n").map(|_| ())
    );
    assert_eq!(
        Err(FileParsingErrorKind::IncompleteFile),
        load(b"#Resizable Life\n#D all description\n").map(|_| ())
    );
    assert_eq!(
        Err(FileParsingErrorKind::RuleParsingError),
        load(b"#Toroidal Life\n#R 29/3\n#S 5 5\n1 1\n").map(|_| ())
    );
    assert_eq!(
        Err(FileParsingErrorKind::RuleParsingError),
        load(b"#Resizable Life\n#R 23-3\n1 1\n").map(|_| ())
    );
    assert_eq!(
        Err(FileParsingErrorKind::CoordParsingError),
        load(b"#Toroidal Life\n#N\n#X 5 5\n1 1\n").map(|_| ())
    );
    assert_eq!(
        Err(FileParsingErrorKind::CoordParsingError),
        load(b"#Toroidal Life\n#N\n#S 5 five\n1 1\n").map(|_| ())
    );
    assert_eq!(
        Err(FileParsingErrorKind::IncompleteFile),
        load(b"#Toroidal Life\n#N\n#S 5 5\n").map(|_| ())
    );
    assert_eq!(
        Err(FileParsingErrorKind::CoordParsingError),
        load(b"#Resizable Life\n#N\n1 x\n").map(|_| ())
    );
    assert_eq!(
        Err(FileParsingErrorKind::CoordParsingError),
        load(b"#Resizable Life\n#N\n1 2 3\n").map(|_| ())
    );
    assert_eq!(
        Err(FileParsingErrorKind::OutOfBoundCoords(GridErrorKind::OutOfBoundCoords)),
        load(b"#Toroidal Life\n#N\n#S 3 3\n5 1\n").map(|_| ())
    );
}

#[test]
fn load_accepts_descriptions_defaults_and_dedup() {
    let text: Vec<u8> =
        b"#Toroidal Life\n#D a glider\n#D another line\n#N\n#S 4 4\n0 0\n".to_vec();
    let g = Grid::load_life(&text).unwrap();
    assert_eq!(vec![2, 3], g.get_survival());
    assert_eq!(vec![3], g.get_birth());
    assert_eq!(255, g.get_cell_state(0, 0));

    // Rule digits are deduplicated and sorted on load.
    let text2: Vec<u8> = b"#Resizable Life\n#R 332/81\n+1 +2\n".to_vec();
    let g2 = Grid::load_life(&text2).unwrap();
    assert_eq!(vec![2, 3], g2.get_survival());
    assert_eq!(vec![1, 8], g2.get_birth());
    assert_eq!(255, g2.get_cell_state(2, 1));

    // An empty survival side is accepted.
    let text3: Vec<u8> = b"#Resizable Life\n#R /3\n0 0\n".to_vec();
    let g3 = Grid::load_life(&text3).unwrap();
    assert_eq!(Vec::<u32>::new(), g3.get_survival());
    assert_eq!(vec![3], g3.get_birth());
}

#[test]
fn validators_report_like_the_loaders() {
    let ok_toroidal = clean_lines(&b"#R 23/3\n#S 5 5\n1 2\n".to_vec());
    assert_eq!(Ok(()), valid_toroidal_life(&ok_toroidal));
    let bad_rule = clean_lines(&b"#R 9/3\n#S 5 5\n1 2\n".to_vec());
    assert_eq!(Err(FileParsingErrorKind::RuleParsingError), valid_toroidal_life(&bad_rule));
    let ok_resizable = clean_lines(&b"#N\n0 0\n".to_vec());
    assert_eq!(Ok(()), valid_resizable_life(&ok_resizable));
    let no_coords = clean_lines(&b"#N\n".to_vec());
    assert_eq!(Err(FileParsingErrorKind::IncompleteFile), valid_resizable_life(&no_coords));

    let whole = clean_lines(&b"#Toroidal Life\n#R 23/3\n#S 5 5\n1 2\n".to_vec());
    assert_eq!(Ok(()), valid_life_file(&whole));
    let unknown = clean_lines(&b"#Strange Life\n#N\n0 0\n".to_vec());
    assert_eq!(Err(FileParsingErrorKind::UnknownFormat), valid_life_file(&unknown));

    // The standalone loaders take the lines after the header too.
    assert!(load_toroidal_life(&ok_toroidal).is_ok());
    assert!(load_resizable_life(&ok_resizable).is_ok());
}

#[test]
fn clean_lines_trims_and_drops_blanks() {
    let lines = clean_lines(&b"  #N  \r\n\n\t\n 1 2 \r\n".to_vec());
    assert_eq!(2, lines.len());
    assert_eq!(b"#N".to_vec(), lines[0]);
    assert_eq!(b"1 2".to_vec(), lines[1]);
}

#[test]
fn randomize_makes_plain_states() {
    let mut g = empty_grid(true, 8, 8);
    g.randomize();
    assert_eq!(8, g.get_width());
    assert_eq!(8, g.get_height());
    assert_eq!(64, g.cells.len());
    for y in 0..8i64 {
        for x in 0..8i64 {
            let s = g.get_cell_state(x, y);
            assert!(s == 0 || s == 255);
        }
    }
    let r = Grid::new_random(&String::from("#Toroidal Life"), true, &vec![2, 3], &vec![3], 4, 4);
    assert_eq!(16, r.cells.len());
    for i in 0..16usize {
        assert!(r.cells[i] == 0 || r.cells[i] == 255);
    }
}

#[test]
fn ascii_rendering() {
    let mut g = empty_grid(true, 3, 2);
    g.set_cell_state(0, 0, 255).unwrap();
    g.set_cell_state(2, 1, 255).unwrap();
    assert_eq!(b"*..\n..*\n".to_vec(), g.to_ascii());
}

#[test]
fn view_accessors_and_render() {
    let mut g = empty_grid(false, 4, 4);
    g.set_cell_state(1, 1, 255).unwrap();

    let mut v = GridView::new(&g);
    assert_eq!((0, 0), v.position());
    assert_eq!(4, v.width());
    assert_eq!(4, v.height());
    v.set_position(1, 1);
    v.set_width(2);
    v.set_height(2);
    assert_eq!((1, 1), v.position());

    // Rendering the 2-by-2 window at its own resolution copies the cells.
    let img = v.render(2, 2);
    assert_eq!(vec![255, 0, 0, 0], img);

    // Doubling the resolution repeats each cell in both directions.
    let img2 = v.render(4, 4);
    assert_eq!(
        vec![255, 255, 0, 0, 255, 255, 0, 0, 0, 0, 0, 0, 0, 0, 0, 0],
        img2
    );

    // A window reaching past the grid is cut down first.
    let v2 = GridView::new_positioned(&g, 3, 3, 10, 10);
    let img3 = v2.render(2, 2);
    assert_eq!(vec![0, 0, 0, 0], img3);
}

#[test]
fn error_descriptions() {
    assert_eq!("out of bound index", GridErrorKind::OutOfBoundCoords.description());
    assert_eq!("unknown file format", FileParsingErrorKind::UnknownFormat.description());
    assert_eq!("IO error", FileParsingErrorKind::IoError.description());
    assert_eq!("incomplete or empty file", FileParsingErrorKind::IncompleteFile.description());
    assert_eq!("invalid ruleset", FileParsingErrorKind::RuleParsingError.description());
    assert_eq!("invalid coordinates", FileParsingErrorKind::CoordParsingError.description());
    assert_eq!(
        "out of bound index",
        FileParsingErrorKind::OutOfBoundCoords(GridErrorKind::OutOfBoundCoords).description()
    );
}

#[test]
fn vk_init_returns_cleanly() {
    // Without a discrete GPU (or any Vulkan library) the backend is simply
    // unavailable; the call must return rather than fail.
    if let Some((_device, _queue)) = rlife::vulkan::vk_init() {
        // A machine with a discrete GPU opens it; nothing more to check here.
    }
}
