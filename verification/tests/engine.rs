use l3x_ide::coords::Coord;
use l3x_ide::direction::Direction;
use l3x_ide::l3x::L3X;
use l3x_ide::matrix::Matrix;
use l3x_ide::matrix::MatrixMode;
use l3x_ide::matrix::StepError;
use l3x_ide::registers::Registers;
use l3x_ide::traveler::Traveler;

fn traveler(n: u64, x: i32, y: i32, d: Direction) -> Traveler {
    Traveler { value: Registers::factorize(n), location: Coord { x, y }, direction: d }
}

#[test]
fn single_input_reaches_output() {
    // a 1-by-2 empty grid: the seeded traveler passes through and lands on
    // the single-output port below the bottom-right cell
    let mut m = Matrix::new();
    m.set_dims(Coord { x: 1, y: 2 });
    m.set_single_input(Registers::factorize(3));
    assert!(m.init_simulation());
    assert_eq!(m.travelers.active.len(), 1);
    assert_eq!(m.travelers.active[0].location, Coord { x: 0, y: 0 });
    m.step().unwrap();
    assert_eq!(m.travelers.active.len(), 1);
    assert_eq!(m.travelers.active[0].location, Coord { x: 0, y: 1 });
    assert_eq!(m.output, None);
    m.step().unwrap();
    assert_eq!(m.output, Some(Registers(vec![(3, 1)])));
    assert_eq!(m.travelers.active.len(), 0);
}

#[test]
fn multiplier_multiplies_when_aligned() {
    let mut m = Matrix::new();
    m.set_dims(Coord { x: 1, y: 2 });
    m.instructions.insert(Coord { x: 0, y: 0 }, L3X::parse("5D").unwrap());
    m.set_single_input(Registers::factorize(3));
    assert!(m.init_simulation());
    m.step().unwrap();
    assert_eq!(m.travelers.active.len(), 1);
    assert_eq!(m.travelers.active[0].value, Registers(vec![(3, 1), (5, 1)]));
    m.step().unwrap();
    assert_eq!(m.output, Some(Registers(vec![(3, 1), (5, 1)])));
}

#[test]
fn multiplier_divides_or_bounces_when_unaligned() {
    // divisor hit: 15 enters a "5R" cell moving down, leaves right as 3
    let mut m = Matrix::new();
    m.set_dims(Coord { x: 2, y: 2 });
    m.instructions.insert(Coord { x: 0, y: 0 }, L3X::parse("5R").unwrap());
    m.travelers.active.push(traveler(15, 0, 0, Direction::Down));
    m.simulating = true;
    m.step().unwrap();
    assert_eq!(m.travelers.active.len(), 1);
    assert_eq!(m.travelers.active[0].value, Registers(vec![(3, 1)]));
    assert_eq!(m.travelers.active[0].location, Coord { x: 1, y: 0 });
    assert_eq!(m.travelers.active[0].direction, Direction::Right);

    // bounce: 7 is not divisible by 5, so it leaves leftward unchanged
    let mut b = Matrix::new();
    b.set_dims(Coord { x: 2, y: 2 });
    b.instructions.insert(Coord { x: 1, y: 0 }, L3X::parse("5R").unwrap());
    b.travelers.active.push(traveler(7, 1, 0, Direction::Down));
    b.simulating = true;
    b.step().unwrap();
    assert_eq!(b.travelers.active.len(), 1);
    assert_eq!(b.travelers.active[0].value, Registers(vec![(7, 1)]));
    assert_eq!(b.travelers.active[0].location, Coord { x: 0, y: 0 });
    assert_eq!(b.travelers.active[0].direction, Direction::Left);
}

#[test]
fn duplicate_conserves_value() {
    let mut m = Matrix::new();
    m.set_dims(Coord { x: 3, y: 3 });
    m.instructions.insert(Coord { x: 1, y: 1 }, L3X::parse("%R").unwrap());
    m.travelers.active.push(traveler(6, 1, 1, Direction::Down));
    m.step().unwrap();
    assert_eq!(m.travelers.active.len(), 2);
    for t in &m.travelers.active {
        assert_eq!(t.value, Registers(vec![(2, 1), (3, 1)]));
    }
    assert_eq!(m.travelers.active[0].location, Coord { x: 2, y: 1 });
    assert_eq!(m.travelers.active[1].location, Coord { x: 0, y: 1 });
}

#[test]
fn annihilate_resets_value() {
    let mut m = Matrix::new();
    m.set_dims(Coord { x: 2, y: 2 });
    m.instructions.insert(Coord { x: 0, y: 0 }, L3X::parse("~R").unwrap());
    m.travelers.active.push(traveler(42, 0, 0, Direction::Down));
    m.step().unwrap();
    assert_eq!(m.travelers.active.len(), 1);
    assert!(m.travelers.active[0].value.is_one());
    assert_eq!(m.travelers.active[0].location, Coord { x: 1, y: 0 });
}

#[test]
fn collision_abort_is_atomic() {
    let mut m = Matrix::new();
    m.set_dims(Coord { x: 3, y: 3 });
    m.travelers.active.push(traveler(2, 1, 1, Direction::Down));
    m.travelers.active.push(traveler(3, 1, 1, Direction::Up));
    let before_travelers = vec![
        (m.travelers.active[0].value.0.clone(), m.travelers.active[0].location),
        (m.travelers.active[1].value.0.clone(), m.travelers.active[1].location),
    ];
    assert_eq!(m.step(), Err(StepError::Collision));
    assert_eq!(m.travelers.active.len(), 2);
    for (i, t) in m.travelers.active.iter().enumerate() {
        assert_eq!(t.value.0, before_travelers[i].0);
        assert_eq!(t.location, before_travelers[i].1);
    }
    assert_eq!(m.output, None);
}

#[test]
fn queue_cell_exempts_mixed_alignment() {
    // one aligned and one unaligned traveler may share a queue cell
    let mut m = Matrix::new();
    m.set_dims(Coord { x: 3, y: 3 });
    m.instructions.insert(Coord { x: 1, y: 1 }, L3X::parse("&D").unwrap());
    m.travelers.active.push(traveler(2, 1, 1, Direction::Down));
    m.travelers.active.push(traveler(3, 1, 1, Direction::Right));
    assert!(m.collision_free());
    // two aligned travelers on the queue collide
    let mut c = Matrix::new();
    c.set_dims(Coord { x: 3, y: 3 });
    c.instructions.insert(Coord { x: 1, y: 1 }, L3X::parse("&D").unwrap());
    c.travelers.active.push(traveler(2, 1, 1, Direction::Down));
    c.travelers.active.push(traveler(3, 1, 1, Direction::Down));
    assert!(!c.collision_free());
}

#[test]
fn single_output_is_exclusive() {
    let mut m = Matrix::new();
    m.set_dims(Coord { x: 1, y: 1 });
    m.output = Some(Registers::factorize(7));
    // the single-output port of a 1-by-1 grid sits at (0, 1)
    m.travelers.active.push(traveler(3, 0, 1, Direction::Down));
    assert_eq!(m.step(), Err(StepError::OutputClaimed));
    assert_eq!(m.output, Some(Registers(vec![(7, 1)])));
    assert_eq!(m.travelers.active.len(), 1);
}

#[test]
fn off_grid_travelers_abort_the_tick() {
    let mut m = Matrix::new();
    m.set_dims(Coord { x: 2, y: 2 });
    m.travelers.active.push(traveler(3, 0, 0, Direction::Up));
    m.step().unwrap();
    assert_eq!(m.travelers.active[0].location, Coord { x: 0, y: -1 });
    assert_eq!(m.step(), Err(StepError::OffGrid));
}

#[test]
fn queue_rendezvous_dequeues_and_multiplies() {
    // stream input [2, 3] waits in the queue at (1, 0); a traveler carrying
    // 5 arrives unaligned, takes the 2, and proceeds as 10
    let mut m = Matrix::new();
    m.set_mode(MatrixMode::L3X);
    assert_eq!(m.dims, Coord { x: 2, y: 2 });
    m.instructions.insert(Coord { x: 0, y: 0 }, L3X::parse("1R").unwrap());
    m.set_single_input(Registers::factorize(5));
    m.set_stream_input(vec![Registers::factorize(2), Registers::factorize(3)]);
    assert!(m.init_simulation());
    let q = m.queues.get(Coord { x: 1, y: 0 }).unwrap();
    assert_eq!(q.len(), 2);
    assert_eq!(q[0], Registers(vec![(2, 1)]));
    // tick 1: the pass-through turns the traveler rightward onto the queue
    m.step().unwrap();
    assert_eq!(m.travelers.active.len(), 1);
    assert_eq!(m.travelers.active[0].location, Coord { x: 1, y: 0 });
    assert_eq!(m.travelers.active[0].direction, Direction::Right);
    // tick 2: unaligned arrival dequeues 2, multiplies, and moves down
    m.step().unwrap();
    assert_eq!(m.travelers.active.len(), 1);
    assert_eq!(m.travelers.active[0].value, Registers(vec![(2, 1), (5, 1)]));
    assert_eq!(m.travelers.active[0].location, Coord { x: 1, y: 1 });
    assert_eq!(m.travelers.active[0].direction, Direction::Down);
    assert_eq!(m.queues.get(Coord { x: 1, y: 0 }).unwrap().len(), 1);
}

#[test]
fn aligned_traveler_enqueues_and_is_consumed() {
    let mut m = Matrix::new();
    m.set_dims(Coord { x: 3, y: 3 });
    m.instructions.insert(Coord { x: 1, y: 1 }, L3X::parse("&D").unwrap());
    m.travelers.active.push(traveler(6, 1, 1, Direction::Down));
    m.step().unwrap();
    assert_eq!(m.travelers.active.len(), 0);
    assert_eq!(m.queues.get(Coord { x: 1, y: 1 }).unwrap()[0], Registers(vec![(2, 1), (3, 1)]));
}

#[test]
fn empty_queue_suspends_then_releases() {
    // the unaligned traveler suspends on the empty queue; when another
    // traveler later lands on that cell, the waiter absorbs its value
    let mut m = Matrix::new();
    m.set_dims(Coord { x: 3, y: 3 });
    m.instructions.insert(Coord { x: 1, y: 1 }, L3X::parse("&D").unwrap());
    m.travelers.active.push(traveler(5, 1, 1, Direction::Right));
    m.step().unwrap();
    assert_eq!(m.travelers.active.len(), 0);
    assert_eq!(m.waiting_for_queue.len(), 1);
    assert_eq!(m.waiting_for_queue[0].0.direction, Direction::Down);
    // a second traveler flows toward the queue cell
    m.travelers.active.push(traveler(7, 1, 0, Direction::Down));
    m.step().unwrap();
    assert_eq!(m.waiting_for_queue.len(), 0);
    assert_eq!(m.travelers.active.len(), 1);
    assert_eq!(m.travelers.active[0].value, Registers(vec![(5, 1), (7, 1)]));
    assert_eq!(m.travelers.active[0].location, Coord { x: 1, y: 2 });
}

#[test]
fn stream_output_collects_in_l3x() {
    let mut m = Matrix::new();
    m.set_mode(MatrixMode::L3X);
    // the stream-output port of a 2-by-2 grid sits at (0, 2)
    m.travelers.active.push(traveler(4, 0, 1, Direction::Down));
    m.simulating = true;
    m.step().unwrap();
    assert_eq!(m.travelers.active.len(), 0);
    assert_eq!(m.output_stream.len(), 1);
    assert_eq!(m.output_stream[0], Registers(vec![(2, 2)]));
}

#[test]
fn cleanup_clears_simulation_state() {
    let mut m = Matrix::new();
    m.set_dims(Coord { x: 1, y: 2 });
    m.set_single_input(Registers::factorize(3));
    assert!(m.init_simulation());
    m.step().unwrap();
    m.cleanup_simulation();
    assert!(!m.simulating);
    assert_eq!(m.travelers.active.len(), 0);
    assert_eq!(m.output, None);
    assert_eq!(m.output_stream.len(), 0);
    assert_eq!(m.waiting_for_queue.len(), 0);
}

#[test]
fn l3x_start_requires_queue() {
    let mut m = Matrix::new();
    m.set_mode(MatrixMode::L3X);
    // overwrite the forced queue with a multiplier: start must be refused
    m.instructions.insert(Coord { x: 1, y: 0 }, L3X::parse("2D").unwrap());
    assert!(!m.init_simulation());
    assert!(!m.simulating);
    // restore the queue: start succeeds
    m.force_queue_l3x();
    assert!(m.init_simulation());
    assert!(m.simulating);
}

#[test]
fn value_overflow_aborts_the_tick() {
    let mut m = Matrix::new();
    m.set_dims(Coord { x: 2, y: 2 });
    m.instructions.insert(Coord { x: 0, y: 0 }, L3X::parse("2D").unwrap());
    m.travelers.active.push(Traveler {
        value: Registers(vec![(2, u32::MAX)]),
        location: Coord { x: 0, y: 0 },
        direction: Direction::Down,
    });
    assert_eq!(m.step(), Err(StepError::ValueOverflow));
    assert_eq!(m.travelers.active.len(), 1);
}
