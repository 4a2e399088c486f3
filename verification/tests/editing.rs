use l3x_ide::coords::Coord;
use l3x_ide::direction::Direction;
use l3x_ide::l3x::L3X;
use l3x_ide::matrix::L3XData;
use l3x_ide::matrix::Matrix;
use l3x_ide::matrix::MatrixAction;
use l3x_ide::matrix::Selection;

fn cell(m: &Matrix, x: i32, y: i32) -> Option<String> {
    m.instructions.get(Coord { x, y }).map(|i| i.to_string())
}

#[test]
fn reflect_h_swaps_and_flips() {
    let mut m = Matrix::new();
    m.set_dims(Coord { x: 3, y: 1 });
    m.instructions.insert(Coord { x: 0, y: 0 }, L3X::parse("2R").unwrap());
    m.instructions.insert(Coord { x: 2, y: 0 }, L3X::parse("%U").unwrap());
    let sel = Selection { starts: Coord { x: 0, y: 0 }, ends: Coord { x: 2, y: 0 } };
    m.apply(MatrixAction::ReflectH(sel));
    assert_eq!(cell(&m, 0, 0), Some("%U".to_string()));
    assert_eq!(cell(&m, 2, 0), Some("2L".to_string()));
    assert_eq!(cell(&m, 1, 0), None);
    m.undo();
    assert_eq!(cell(&m, 0, 0), Some("2R".to_string()));
    assert_eq!(cell(&m, 2, 0), Some("%U".to_string()));
}

#[test]
fn reflect_v_swaps_and_flips() {
    let mut m = Matrix::new();
    m.set_dims(Coord { x: 1, y: 2 });
    m.instructions.insert(Coord { x: 0, y: 0 }, L3X::parse("3D").unwrap());
    let sel = Selection { starts: Coord { x: 0, y: 0 }, ends: Coord { x: 0, y: 1 } };
    m.apply(MatrixAction::ReflectV(sel));
    assert_eq!(cell(&m, 0, 0), None);
    assert_eq!(cell(&m, 0, 1), Some("3U".to_string()));
    m.undo();
    assert_eq!(cell(&m, 0, 0), Some("3D".to_string()));
    assert_eq!(cell(&m, 0, 1), None);
}

#[test]
fn transpose_selection_mirrors_diagonal() {
    let mut m = Matrix::new();
    m.set_dims(Coord { x: 2, y: 2 });
    m.instructions.insert(Coord { x: 1, y: 0 }, L3X::parse("5D").unwrap());
    let sel = Selection { starts: Coord { x: 0, y: 0 }, ends: Coord { x: 1, y: 1 } };
    m.apply(MatrixAction::Transpose(sel));
    assert_eq!(cell(&m, 1, 0), None);
    // Down maps to Right across the diagonal
    assert_eq!(cell(&m, 0, 1), Some("5R".to_string()));
    m.undo();
    assert_eq!(cell(&m, 1, 0), Some("5D".to_string()));
    assert_eq!(cell(&m, 0, 1), None);
}

#[test]
fn swap_moves_a_region() {
    let mut m = Matrix::new();
    m.set_dims(Coord { x: 4, y: 1 });
    m.instructions.insert(Coord { x: 0, y: 0 }, L3X::parse("7R").unwrap());
    let sel = Selection { starts: Coord { x: 0, y: 0 }, ends: Coord { x: 0, y: 0 } };
    m.apply(MatrixAction::Swap(sel, Coord { x: 3, y: 0 }));
    assert_eq!(cell(&m, 0, 0), None);
    assert_eq!(cell(&m, 3, 0), Some("7R".to_string()));
}

#[test]
fn paste_overwrites_and_undo_restores() {
    let mut m = Matrix::new();
    m.set_dims(Coord { x: 2, y: 1 });
    m.instructions.insert(Coord { x: 0, y: 0 }, L3X::parse("2R").unwrap());
    let block = L3XData {
        data: vec![vec![Some(L3X::parse("9U").unwrap()), None]],
        dims: Coord { x: 2, y: 1 },
    };
    m.apply(MatrixAction::Paste(Coord { x: 0, y: 0 }, block));
    assert_eq!(cell(&m, 0, 0), Some("9U".to_string()));
    assert_eq!(cell(&m, 1, 0), None);
    m.undo();
    assert_eq!(cell(&m, 0, 0), Some("2R".to_string()));
    assert_eq!(cell(&m, 1, 0), None);
}

#[test]
fn resize_is_guarded() {
    let mut m = Matrix::new();
    m.set_dims(Coord { x: 3, y: 3 });
    assert_eq!(m.dims, Coord { x: 3, y: 3 });
    // below the minimum: refused
    m.set_dims(Coord { x: 0, y: 1 });
    assert_eq!(m.dims, Coord { x: 3, y: 3 });
    // while simulating: refused
    m.simulating = true;
    m.set_dims(Coord { x: 5, y: 5 });
    assert_eq!(m.dims, Coord { x: 3, y: 3 });
    m.simulating = false;
    m.apply(MatrixAction::Resize(Coord { x: 2, y: 2 }));
    assert_eq!(m.dims, Coord { x: 2, y: 2 });
    m.undo();
    assert_eq!(m.dims, Coord { x: 3, y: 3 });
}

#[test]
fn whole_grid_transpose_flips_everything() {
    let mut m = Matrix::new();
    m.set_dims(Coord { x: 3, y: 2 });
    m.instructions.insert(Coord { x: 2, y: 0 }, L3X::parse("4R").unwrap());
    m.transpose();
    assert_eq!(m.dims, Coord { x: 2, y: 3 });
    assert_eq!(cell(&m, 2, 0), None);
    // the whole-grid transpose turns each direction to its opposite
    assert_eq!(cell(&m, 0, 2), Some("4L".to_string()));
}

#[test]
fn snip_cuts_and_reports_contents() {
    let mut m = Matrix::new();
    m.set_dims(Coord { x: 2, y: 1 });
    m.instructions.insert(Coord { x: 0, y: 0 }, L3X::parse("2R").unwrap());
    let sel = Selection { starts: Coord { x: 0, y: 0 }, ends: Coord { x: 1, y: 0 } };
    let block = m.snip(sel);
    assert_eq!(block.dims, Coord { x: 2, y: 1 });
    assert_eq!(block.data.len(), 1);
    assert_eq!(block.data[0][0].as_ref().map(|i| i.to_string()), Some("2R".to_string()));
    assert!(block.data[0][1].is_none());
    assert_eq!(cell(&m, 0, 0), None);
}

#[test]
fn edit_selects_and_loads_text() {
    let mut m = Matrix::new();
    m.set_dims(Coord { x: 2, y: 2 });
    m.instructions.insert(Coord { x: 1, y: 1 }, L3X::parse("8L").unwrap());
    m.edit(Selection { starts: Coord { x: 1, y: 1 }, ends: Coord { x: 1, y: 1 } });
    assert_eq!(m.selecting, Some(Selection { starts: Coord { x: 1, y: 1 }, ends: Coord { x: 1, y: 1 } }));
    assert_eq!(m.selecting_text, "8L");
    // out of bounds: ignored
    m.edit(Selection { starts: Coord { x: 5, y: 5 }, ends: Coord { x: 5, y: 5 } });
    assert_eq!(m.selecting_text, "8L");
    m.stop_edit();
    assert_eq!(m.selecting, None);
}

#[test]
fn selection_helpers() {
    let sel = Selection { starts: Coord { x: 1, y: 2 }, ends: Coord { x: 3, y: 5 } };
    assert_eq!(sel.width(), 3);
    assert_eq!(sel.height(), 4);
    assert!(sel.contains(Coord { x: 2, y: 3 }));
    assert!(!sel.contains(Coord { x: 0, y: 3 }));
    let t = sel.transpose();
    assert_eq!(t.ends, Coord { x: 4, y: 4 });
    let moved = sel.to(Coord { x: 0, y: 0 });
    assert_eq!(moved.ends, Coord { x: 2, y: 3 });
}
