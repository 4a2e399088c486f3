use l3x_ide::const_vec::ConstVec;
use l3x_ide::coords::Coord;
use l3x_ide::l3x::L3X;
use l3x_ide::matrix::Matrix;
use l3x_ide::registers::Registers;
use l3x_ide::sound::pitch_from_str;
use l3x_ide::sound::TwelveTone;
use l3x_ide::sound::TwelveTonePitch;
use l3x_ide::swapbuffer::SwapBuffer;
use l3x_ide::traveler::Traveler;
use l3x_ide::direction::Direction;

#[test]
fn const_vec_test() {
    let a = ConstVec::<u64>::new();
    let b = a.push(0).push(1).push(2).push(3);
    let _ = b;
}

#[test]
fn const_vec_operations() {
    let v = ConstVec::<u64>::new().push(10).push(20).push(30);
    assert_eq!(*v.get(1), 20);
    let (v, taken) = v.take(0);
    assert_eq!(taken, 10);
    let v = v.insert(5, 0);
    let (v, last) = v.pop();
    assert_eq!(last, 30);
    assert_eq!(*v.get(0), 5);
    assert_eq!(*v.get(1), 20);
    assert_eq!(ConstVec::<u64>::new().drainToSumZero(), 0);
}

#[test]
fn swapbuffer_stages_and_commits() {
    let mut b: SwapBuffer<u32> = SwapBuffer::new();
    b.active.push(1);
    b.inactive.push(2);
    b.inactive.push(3);
    b.try_swap();
    assert_eq!(b.active, vec![2, 3]);
    assert!(b.inactive.is_empty());
    b.clear();
    assert!(b.active.is_empty());
}

#[test]
fn export_rows_renders_cells() {
    let mut m = Matrix::new();
    m.set_dims(Coord { x: 2, y: 2 });
    m.instructions.insert(Coord { x: 0, y: 0 }, L3X::parse("3L").unwrap());
    m.instructions.insert(Coord { x: 1, y: 1 }, L3X::parse("%D").unwrap());
    let rows = m.export_rows();
    assert_eq!(rows, vec![
        vec!["3L".to_string(), "".to_string()],
        vec!["".to_string(), "%D".to_string()],
    ]);
}

#[test]
fn import_rows_builds_grid_and_bounds() {
    let mut m = Matrix::new();
    let rows = vec![
        vec!["3L".to_string(), "".to_string()],
        vec!["".to_string(), "%D".to_string()],
    ];
    m.import_rows(&rows).unwrap();
    assert_eq!(m.dims, Coord { x: 2, y: 2 });
    assert_eq!(m.instructions.get(Coord { x: 0, y: 0 }).map(|i| i.to_string()), Some("3L".to_string()));
    assert_eq!(m.instructions.get(Coord { x: 1, y: 1 }).map(|i| i.to_string()), Some("%D".to_string()));
    assert!(m.instructions.get(Coord { x: 1, y: 0 }).is_none());
}

#[test]
fn import_rows_rejects_bad_cells_atomically() {
    let mut m = Matrix::new();
    m.instructions.insert(Coord { x: 0, y: 0 }, L3X::parse("7U").unwrap());
    let rows = vec![vec!["3L".to_string(), "junk".to_string()]];
    assert!(m.import_rows(&rows).is_err());
    // nothing changed
    assert_eq!(m.instructions.get(Coord { x: 0, y: 0 }).map(|i| i.to_string()), Some("7U".to_string()));
    assert_eq!(m.dims, Coord { x: 1, y: 1 });
}

#[test]
fn csv_round_trip_restores_grid() {
    let mut m = Matrix::new();
    m.set_dims(Coord { x: 3, y: 2 });
    m.instructions.insert(Coord { x: 0, y: 0 }, L3X::parse("12R").unwrap());
    m.instructions.insert(Coord { x: 2, y: 1 }, L3X::parse("&D").unwrap());
    let bytes = m.export_data();
    assert!(!bytes.is_empty());
    let mut back = Matrix::new();
    back.import_data(&bytes).unwrap();
    assert_eq!(back.dims, Coord { x: 3, y: 2 });
    assert_eq!(
        back.instructions.get(Coord { x: 0, y: 0 }).map(|i| i.to_string()),
        Some("12R".to_string())
    );
    assert_eq!(
        back.instructions.get(Coord { x: 2, y: 1 }).map(|i| i.to_string()),
        Some("&D".to_string())
    );
}

#[test]
fn import_data_rejects_oversize_tables() {
    // one row of 1,000,002 empty fields is wider than any grid
    let mut m = Matrix::new();
    m.instructions.insert(Coord { x: 0, y: 0 }, L3X::parse("7U").unwrap());
    let bytes: Vec<u8> = vec![b','; 1_000_001];
    assert!(m.import_data(&bytes).is_err());
    // nothing changed
    assert_eq!(m.instructions.get(Coord { x: 0, y: 0 }).map(|i| i.to_string()), Some("7U".to_string()));
}

#[test]
fn import_data_rejects_junk_bytes() {
    let mut m = Matrix::new();
    // an unclosed quote makes the bytes invalid CSV
    let bytes: Vec<u8> = b"\"3L,%D\n1".to_vec();
    assert!(m.import_data(&bytes).is_err());
}

#[test]
fn pitch_names_parse() {
    assert_eq!(TwelveTone::from_str("c"), Some(TwelveTone::CNat));
    assert_eq!(TwelveTone::from_str("C#"), Some(TwelveTone::CSharp));
    assert_eq!(TwelveTone::from_str("Bb"), Some(TwelveTone::ASharp));
    assert_eq!(TwelveTone::from_str("b#"), Some(TwelveTone::CNat));
    assert_eq!(TwelveTone::from_str("Fb"), Some(TwelveTone::ENat));
    assert_eq!(TwelveTone::from_str("x"), None);
    assert_eq!(TwelveTone::from_str(""), None);
    let p = pitch_from_str("g#", 4);
    assert_eq!(p, TwelveTonePitch { tone: TwelveTone::GSharp, octave: 4 });
    assert_eq!(TwelveTone::GSharp.semitone(), 8);
}

#[test]
fn traveler_pitches_follow_prime_factors() {
    let t = Traveler {
        value: Registers::factorize(12),
        location: Coord { x: 0, y: 0 },
        direction: Direction::Down,
    };
    let p = t.pitches();
    assert_eq!(p.len(), 2);
    assert_eq!(p[0], (TwelveTonePitch { tone: TwelveTone::CNat, octave: 4 }, 2));
    assert_eq!(p[1], (TwelveTonePitch { tone: TwelveTone::GNat, octave: 4 }, 1));
    let silent = Traveler {
        value: Registers::factorize(35),
        location: Coord { x: 0, y: 0 },
        direction: Direction::Down,
    };
    assert_eq!(silent.pitches().len(), 0);
}

#[test]
fn traveler_moves() {
    let t = Traveler {
        value: Registers::factorize(2),
        location: Coord { x: 3, y: 3 },
        direction: Direction::Down,
    };
    let t = t.step();
    assert_eq!(t.location, Coord { x: 3, y: 4 });
    let t = t.direct(Direction::Left);
    assert_eq!(t.location, Coord { x: 2, y: 4 });
    assert_eq!(t.direction, Direction::Left);
    let t = t.mul(&Registers::factorize(3));
    assert_eq!(t.value, Registers(vec![(2, 1), (3, 1)]));
    let t = t.value(Registers::one());
    assert!(t.value.is_one());
}
