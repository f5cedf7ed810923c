use hexodsp::CellDir;

#[test]
fn cell_dir_flip_round_trip() {
    for e in 0..6 {
        let d = CellDir::from(e);
        assert_eq!(d.flip().flip(), d);
    }
}

#[test]
fn cell_dir_edges() {
    assert!(CellDir::TR.is_output());
    assert!(CellDir::BL.is_input());
    assert_eq!(CellDir::from(3), CellDir::BL);
    assert_eq!(CellDir::from(9), CellDir::C);
    assert_eq!(CellDir::C.flip(), CellDir::T);
    assert_eq!(CellDir::TR.as_edge(), 0);
}

#[test]
fn cell_dir_adjacency() {
    assert_eq!(CellDir::are_adjacent((1, 1), (1, 0)), Some(CellDir::T));
    assert_eq!(CellDir::are_adjacent((1, 1), (1, 2)), Some(CellDir::B));
    assert_eq!(CellDir::are_adjacent((1, 1), (3, 3)), None);
    assert_eq!(CellDir::T.offs_pos((1, 0)), None);
    assert_eq!(CellDir::B.offs_pos((1, 0)), Some((1, 1)));
}

#[test]
fn cell_dir_path() {
    let p = CellDir::path_from_to((0, 0), (0, 2));
    assert_eq!(p, vec![CellDir::B, CellDir::B]);
    assert!(CellDir::path_from_to((3, 3), (3, 3)).is_empty());
}

#[test]
fn offs_pos_steps_and_steps_back() {
    assert_eq!(CellDir::TR.offs_pos((4, 4)), Some((5, 3)));
    assert_eq!(CellDir::BL.offs_pos((5, 3)), Some((4, 4)));
    assert_eq!(CellDir::BR.offs_pos((5, 3)), Some((6, 4)));
    assert_eq!(CellDir::TL.offs_pos((6, 4)), Some((5, 3)));
    assert_eq!(CellDir::T.offs_pos((5, 2147483647)), Some((5, 2147483646)));
    assert_eq!(CellDir::T.offs_pos((5, 0)), None);
}
