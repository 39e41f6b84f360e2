use game_of_life::{encode_goln, map_split_once_to_usize, parse_goln, random_grid, GridError};

#[test]
fn parse_sets_listed_cells_only() {
    let g = parse_goln("3x2\n0,0\n2,1").expect("valid input");
    assert_eq!(g.rows(), 2);
    assert_eq!(g.cols(), 3);
    assert!(g[(0, 0)]);
    assert!(g[(1, 2)]);
    assert!(!g[(0, 1)]);
    assert!(!g[(0, 2)]);
    assert!(!g[(1, 0)]);
    assert!(!g[(1, 1)]);
}

#[test]
fn parse_accepts_trailing_newline() {
    let g = parse_goln("3x2\n1,1\n").expect("valid input");
    assert!(g[(1, 1)]);
}

#[test]
fn parse_header_only_gives_all_dead_grid() {
    let g = parse_goln("4x3").expect("valid input");
    assert_eq!(g.rows(), 3);
    assert_eq!(g.cols(), 4);
    for y in 0..3 {
        for x in 0..4 {
            assert!(!g[(y, x)]);
        }
    }
}

#[test]
fn parse_rejects_out_of_bounds_coordinate() {
    assert_eq!(parse_goln("3x3\n0,0\n5,5"), Err(GridError::FormatError));
}

#[test]
fn parse_rejects_malformed_header() {
    assert_eq!(parse_goln(""), Err(GridError::FormatError));
    assert_eq!(parse_goln("abc"), Err(GridError::FormatError));
    assert_eq!(parse_goln("3x"), Err(GridError::FormatError));
    assert_eq!(parse_goln("x3"), Err(GridError::FormatError));
    assert_eq!(parse_goln("3y3"), Err(GridError::FormatError));
    assert_eq!(
        parse_goln("99999999999999999999999x3"),
        Err(GridError::FormatError)
    );
}

#[test]
fn parse_rejects_zero_dimensions() {
    assert_eq!(parse_goln("0x5"), Err(GridError::InvalidDimensions));
    assert_eq!(parse_goln("5x0"), Err(GridError::InvalidDimensions));
}

#[test]
fn parse_rejects_malformed_pairs() {
    assert_eq!(parse_goln("3x3\n1"), Err(GridError::FormatError));
    assert_eq!(parse_goln("3x3\na,b"), Err(GridError::FormatError));
    assert_eq!(parse_goln("3x3\n1,"), Err(GridError::FormatError));
    assert_eq!(parse_goln("3x3\n\n1,1"), Err(GridError::FormatError));
    // the semicolon-separated sub-format is not the canonical one
    assert_eq!(parse_goln("3x3\n0,0;1,1"), Err(GridError::FormatError));
}

#[test]
fn encode_all_dead_grid_is_header_only() {
    let g = parse_goln("2x2").expect("valid input");
    assert_eq!(encode_goln(&g), "2x2");
}

#[test]
fn encode_lists_live_cells_row_major() {
    let g = parse_goln("3x3\n2,2\n0,0\n1,0").expect("valid input");
    assert_eq!(encode_goln(&g), "3x3\n0,0\n1,0\n2,2");
}

#[test]
fn goln_round_trip_reproduces_grid() {
    let g = parse_goln("6x6\n1,0\n2,1\n0,2\n1,2\n2,2\n5,5").expect("valid input");
    let text = encode_goln(&g);
    let back = parse_goln(&text).expect("encoded form must parse");
    assert_eq!(back.rows(), g.rows());
    assert_eq!(back.cols(), g.cols());
    for y in 0..g.rows() {
        for x in 0..g.cols() {
            assert_eq!(back[(y, x)], g[(y, x)]);
        }
    }
}

#[test]
fn goln_round_trip_on_random_grid() {
    let g = random_grid(7, 5).expect("positive dimensions");
    let text = encode_goln(&g);
    let back = parse_goln(&text).expect("encoded form must parse");
    assert_eq!(back.rows(), g.rows());
    assert_eq!(back.cols(), g.cols());
    for y in 0..g.rows() {
        for x in 0..g.cols() {
            assert_eq!(back[(y, x)], g[(y, x)]);
        }
    }
}

#[test]
fn random_grid_has_requested_dimensions() {
    let g = random_grid(4, 7).expect("positive dimensions");
    assert_eq!(g.cols(), 4);
    assert_eq!(g.rows(), 7);
    let g1 = random_grid(1, 1).expect("positive dimensions");
    assert_eq!(g1.cols(), 1);
    assert_eq!(g1.rows(), 1);
}

#[test]
fn random_grid_rejects_zero_dimension() {
    assert!(matches!(random_grid(0, 5), Err(GridError::InvalidDimensions)));
    assert!(matches!(random_grid(5, 0), Err(GridError::InvalidDimensions)));
}

#[test]
fn map_split_once_to_usize_parses_both_sides() {
    assert_eq!(map_split_once_to_usize(("12", "34")), Some((12, 34)));
    assert_eq!(map_split_once_to_usize(("0", "007")), Some((0, 7)));
    assert_eq!(map_split_once_to_usize(("a", "3")), None);
    assert_eq!(map_split_once_to_usize(("", "3")), None);
    assert_eq!(map_split_once_to_usize(("3", "99999999999999999999999")), None);
}
