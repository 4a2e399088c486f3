use l3x_ide::coord_map::CoordMap;
use l3x_ide::coords::Coord;
use l3x_ide::direction::Direction;
use l3x_ide::l3x::format_instruction;
use l3x_ide::l3x::parse_instruction;
use l3x_ide::l3x::L3XCommand;
use l3x_ide::l3x::L3XParseError;
use l3x_ide::l3x::Output;
use l3x_ide::l3x::L3X;
use l3x_ide::registers::Registers;

#[test]
fn l3_simple() {
    assert_eq!(
        L3X::parse("3L"),
        Ok(L3X {
            direction: Direction::Left,
            command: L3XCommand::Multiply(Registers([(3, 1)].into_iter().collect()))
        })
    )
}

#[test]
fn direction_involutions() {
    for d in [Direction::Up, Direction::Down, Direction::Left, Direction::Right] {
        assert_eq!(d.opposite().opposite(), d);
        assert_eq!(d.reflect_h().reflect_h(), d);
        assert_eq!(d.reflect_v().reflect_v(), d);
        assert_eq!(d.transpose().transpose(), d);
    }
    assert_eq!(Direction::Left.reflect_h(), Direction::Right);
    assert_eq!(Direction::Up.reflect_h(), Direction::Up);
    assert_eq!(Direction::Up.reflect_v(), Direction::Down);
    assert_eq!(Direction::Right.reflect_v(), Direction::Right);
}

#[test]
fn parse_directions_and_commands() {
    let x = L3X::parse("12R").unwrap();
    assert_eq!(x.direction, Direction::Right);
    assert_eq!(x.command, L3XCommand::Multiply(Registers(vec![(2, 2), (3, 1)])));
    assert_eq!(L3X::parse("%L").unwrap().command, L3XCommand::Duplicate);
    assert_eq!(L3X::parse("&D").unwrap().command, L3XCommand::Queue);
    assert_eq!(L3X::parse("~U").unwrap().command, L3XCommand::Annihilate);
    // alternate letters and casing
    assert_eq!(L3X::parse("1n").unwrap().direction, Direction::Up);
    assert_eq!(L3X::parse("1s").unwrap().direction, Direction::Down);
    assert_eq!(L3X::parse("1w").unwrap().direction, Direction::Left);
    assert_eq!(L3X::parse("1e").unwrap().direction, Direction::Right);
}

#[test]
fn parse_trims_whitespace() {
    assert_eq!(L3X::parse("  3L  "), L3X::parse("3L"));
    assert_eq!(parse_instruction("   ").unwrap(), None);
    assert_eq!(parse_instruction("").unwrap(), None);
    // the whole Unicode white-space set trims, not just ASCII
    assert_eq!(L3X::parse("\u{A0}3L\u{A0}"), L3X::parse("3L"));
    assert_eq!(L3X::parse("\u{3000}%U\u{2028}"), L3X::parse("%U"));
    assert_eq!(parse_instruction("\u{A0}\u{2003}").unwrap(), None);
}

#[test]
fn parse_errors() {
    assert_eq!(L3X::parse(""), Err(L3XParseError::Empty));
    assert_eq!(L3X::parse("3Z"), Err(L3XParseError::BadDirection));
    assert_eq!(L3X::parse("#D"), Err(L3XParseError::BadCommand));
    assert_eq!(L3X::parse("%%D"), Err(L3XParseError::BadCommand));
    assert_eq!(L3X::parse("0D"), Err(L3XParseError::ZeroCommand));
    assert_eq!(
        L3X::parse("99999999999999999999D"),
        Err(L3XParseError::NumberOverflow)
    );
    assert_eq!(L3X::parse("D"), Err(L3XParseError::WrongLength));
    assert_eq!(L3X::parse("abD"), Err(L3XParseError::UnaccountedCharacters));
    assert_eq!(L3X::parse("1aD"), Err(L3XParseError::UnaccountedCharacters));
}

#[test]
fn format_round_trip_canonicalizes() {
    let canon = |t: &str| format_instruction(&parse_instruction(t).unwrap().unwrap());
    assert_eq!(canon("3l"), "3L");
    assert_eq!(canon("003L"), "3L");
    assert_eq!(canon("12e"), "12R");
    assert_eq!(canon("%u"), "%U");
    assert_eq!(canon("&s"), "&D");
    assert_eq!(canon("~N"), "~U");
    assert_eq!(canon(" 42d "), "42D");
}

#[test]
fn parse_format_parse_is_stable() {
    for t in ["3L", "12R", "%U", "&D", "~U", "1048576L"] {
        let i = L3X::parse(t).unwrap();
        let s = format_instruction(&i);
        assert_eq!(s, t);
        assert_eq!(L3X::parse(&s), L3X::parse(t));
    }
}

#[test]
fn outputs_follow_command_shape() {
    let one_r = L3X::parse("1R").unwrap();
    assert_eq!(one_r.outputs(), vec![Output::Major(Direction::Right)]);
    let mul = L3X::parse("6U").unwrap();
    assert_eq!(
        mul.outputs(),
        vec![Output::Major(Direction::Up), Output::Minor(Direction::Down)]
    );
    let dup = L3X::parse("%L").unwrap();
    assert_eq!(
        dup.outputs(),
        vec![Output::Major(Direction::Left), Output::Major(Direction::Right)]
    );
    assert_eq!(L3X::parse("&D").unwrap().outputs(), vec![Output::Major(Direction::Down)]);
    assert_eq!(L3X::parse("~D").unwrap().outputs(), vec![Output::Major(Direction::Down)]);
    assert!(one_r.is_one());
    assert!(!mul.is_one());
}

#[test]
fn instruction_to_string_renders_value() {
    assert_eq!(L3X::parse("12R").unwrap().to_string(), "12R");
    assert_eq!(L3X::parse("%d").unwrap().to_string(), "%D");
}

#[test]
fn inputs_lists_feeding_neighbors() {
    let mut grid: CoordMap<L3X> = CoordMap::new();
    // the cell above points down into (1, 1); the cell left points right
    grid.insert(Coord { x: 1, y: 0 }, L3X::parse("2D").unwrap());
    grid.insert(Coord { x: 0, y: 1 }, L3X::parse("%R").unwrap());
    // the multiplier below points away, but its minor port points back up
    grid.insert(Coord { x: 1, y: 2 }, L3X::parse("3D").unwrap());
    let center = L3X::parse("5D").unwrap();
    let got = center.inputs(&grid, Coord { x: 3, y: 3 }, Coord { x: 1, y: 1 });
    assert_eq!(got, vec![Direction::Up, Direction::Down, Direction::Left]);
    // a pass-through below has no minor port, so it no longer feeds back
    grid.insert(Coord { x: 1, y: 2 }, L3X::parse("1D").unwrap());
    let got2 = center.inputs(&grid, Coord { x: 3, y: 3 }, Coord { x: 1, y: 1 });
    assert_eq!(got2, vec![Direction::Up, Direction::Left]);
}

#[test]
fn minor_port_activates_with_real_inputs() {
    let mut grid: CoordMap<L3X> = CoordMap::new();
    let mul = L3X::parse("6D").unwrap();
    grid.insert(Coord { x: 1, y: 1 }, mul);
    let center = grid.get(Coord { x: 1, y: 1 }).unwrap();
    // nothing feeds the multiplier, so only its major port is active
    let outs = center.active_outputs(&grid, Coord { x: 3, y: 3 }, Coord { x: 1, y: 1 }, 2);
    assert_eq!(outs, vec![Output::Major(Direction::Down)]);
    assert!(!center.minor_is_active(&grid, Coord { x: 3, y: 3 }, Coord { x: 1, y: 1 }, 2));
    // a feeder from the left wakes the minor port up
    let mut grid2: CoordMap<L3X> = CoordMap::new();
    grid2.insert(Coord { x: 1, y: 1 }, L3X::parse("6D").unwrap());
    grid2.insert(Coord { x: 0, y: 1 }, L3X::parse("2R").unwrap());
    let center2 = grid2.get(Coord { x: 1, y: 1 }).unwrap();
    let outs2 = center2.active_outputs(&grid2, Coord { x: 3, y: 3 }, Coord { x: 1, y: 1 }, 2);
    assert_eq!(outs2, vec![Output::Major(Direction::Down), Output::Minor(Direction::Up)]);
    let ins = center2.active_inputs(&grid2, Coord { x: 3, y: 3 }, Coord { x: 1, y: 1 }, 2);
    assert_eq!(ins, vec![Direction::Left]);
}
