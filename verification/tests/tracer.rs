use converter::canny::{to_serializable_points, SPixelIndex, SerializebleComputation};
use converter::cnc::{encode, to_cnc, to_cnc_lines, split_lines, write_lines};
use converter::command::Command;
use converter::coordinate::Coordinate;
use converter::raster::Raster;
use converter::tracer::{PenDirection, Phase, Segment, Tracer};

fn script(lines: &[&str]) -> Vec<String> {
    lines.iter().map(|line| line.to_string()).collect()
}

fn number(text: &str) -> Coordinate {
    Coordinate::parse(text).unwrap()
}

fn segment(from: (usize, usize), to: (usize, usize)) -> Segment {
    Segment {
        from: (Coordinate::from_index(from.0), Coordinate::from_index(from.1)),
        to: (Coordinate::from_index(to.0), Coordinate::from_index(to.1)),
    }
}

fn position(tracer: &Tracer) -> (String, String) {
    let tip = tracer.current_tip();
    (tip.x().as_str().to_string(), tip.y().as_str().to_string())
}

fn step(tracer: &mut Tracer) -> Option<Command> {
    tracer.enable_execution();
    tracer.execute_next()
}

#[test]
fn a_session_starts_idle_at_home() {
    let tracer = Tracer::new(script(&["PEN DOWN", "END"]));
    assert!(!tracer.is_finished());
    assert_eq!(tracer.remaining(), 2);
    assert_eq!(position(&tracer), ("0".to_string(), "0".to_string()));
    assert_eq!(tracer.current_tip().pen(), PenDirection::UP);
    assert_eq!(tracer.previous_tip(), tracer.current_tip());
    assert!(tracer.segments().is_empty());
    assert_eq!(tracer.get_next_command(), None);
}

#[test]
fn an_empty_script_is_finished_at_once() {
    let mut tracer = Tracer::new(Vec::new());
    assert!(tracer.is_finished());
    tracer.enable_execution();
    assert_eq!(tracer.execute_next(), None);
    assert_eq!(tracer.next_command(), None);
    assert!(tracer.is_finished());
    tracer.run_to_end();
    assert!(tracer.is_finished());
}

#[test]
fn a_step_that_was_not_authorised_does_nothing() {
    let mut tracer = Tracer::new(script(&["PEN DOWN", "MOVE 1 1", "END"]));
    for _ in 0..5 {
        assert_eq!(tracer.execute_next(), None);
    }
    assert_eq!(tracer.remaining(), 3);
    assert_eq!(tracer.current_tip().pen(), PenDirection::UP);
    assert_eq!(tracer.next_command(), None);
    assert_eq!(tracer.remaining(), 3);
}

#[test]
fn one_authorisation_gives_one_step() {
    let mut tracer = Tracer::new(script(&["PEN DOWN", "MOVE 1 1", "MOVE 2 2", "END"]));
    tracer.enable_execution();
    assert_eq!(tracer.get_next_command(), Some("PEN DOWN".to_string()));
    assert_eq!(tracer.execute_next(), Some(Command::PenDown));
    for _ in 0..10 {
        assert_eq!(tracer.execute_next(), None);
    }
    assert_eq!(tracer.remaining(), 3);
    assert_eq!(tracer.current_tip().pen(), PenDirection::DOWN);
    assert_eq!(position(&tracer), ("0".to_string(), "0".to_string()));
    tracer.enable_execution();
    tracer.enable_execution();
    assert!(tracer.execute_next().is_some());
    assert_eq!(tracer.execute_next(), None);
    assert_eq!(tracer.remaining(), 2);
}

#[test]
fn six_lines_draw_one_segment() {
    let mut tracer =
        Tracer::new(script(&["PEN UP", "MOVE 1 1", "PEN DOWN", "MOVE 2 2", "PEN UP", "END"]));
    let expected = [
        Command::PenUp,
        Command::MoveTo(number("1"), number("1")),
        Command::PenDown,
        Command::MoveTo(number("2"), number("2")),
        Command::PenUp,
        Command::End,
    ];
    for (i, command) in expected.iter().enumerate() {
        assert!(!tracer.is_finished(), "finished before line {}", i + 1);
        assert_eq!(step(&mut tracer).as_ref(), Some(command));
    }
    assert!(tracer.is_finished());
    assert_eq!(tracer.segments(), &vec![segment((1, 1), (2, 2))]);
    assert_eq!(tracer.remaining(), 0);
    assert_eq!(step(&mut tracer), None);
    let drawn = &tracer.segments()[0];
    assert_eq!(drawn.from.0.as_str().parse::<f32>().unwrap(), 1.0);
    assert_eq!(drawn.from.1.as_str().parse::<f32>().unwrap(), 1.0);
    assert_eq!(drawn.to.0.as_str().parse::<f32>().unwrap(), 2.0);
    assert_eq!(drawn.to.1.as_str().parse::<f32>().unwrap(), 2.0);
}

#[test]
fn the_previous_tip_is_the_tip_before_the_last_command() {
    let mut tracer = Tracer::new(script(&["MOVE 3 4", "PEN DOWN", "MOVE 5.5 6", "END"]));
    step(&mut tracer);
    assert_eq!(position(&tracer), ("3".to_string(), "4".to_string()));
    assert_eq!(tracer.previous_tip().x().as_str(), "0");
    step(&mut tracer);
    assert_eq!(tracer.previous_tip().pen(), PenDirection::UP);
    assert_eq!(tracer.current_tip().pen(), PenDirection::DOWN);
    assert_eq!(tracer.previous_tip().x().as_str(), "3");
    assert!(tracer.segments().is_empty());
    step(&mut tracer);
    assert_eq!(position(&tracer), ("5.5".to_string(), "6".to_string()));
    assert_eq!(tracer.previous_tip().x().as_str(), "3");
    assert_eq!(tracer.previous_tip().y().as_str(), "4");
    assert_eq!(tracer.previous_tip().pen(), PenDirection::DOWN);
    assert_eq!(
        tracer.segments(),
        &vec![Segment { from: (number("3"), number("4")), to: (number("5.5"), number("6")) }]
    );
}

#[test]
fn a_move_with_the_pen_lifted_draws_nothing() {
    let mut tracer = Tracer::new(script(&["MOVE 1 1", "MOVE 2 2", "PEN DOWN", "PEN DOWN", "PEN UP", "MOVE 3 3"]));
    tracer.run_to_end();
    assert!(tracer.is_finished());
    assert!(tracer.segments().is_empty());
    assert_eq!(position(&tracer), ("3".to_string(), "3".to_string()));
}

#[test]
fn reset_brings_the_head_home_and_draws_nothing() {
    let mut tracer = Tracer::new(script(&["PEN DOWN", "MOVE 4 5", "RESET", "MOVE 1 1", "RESET", "END"]));
    step(&mut tracer);
    step(&mut tracer);
    assert_eq!(tracer.segments().len(), 1);
    assert_eq!(step(&mut tracer), Some(Command::Reset));
    assert_eq!(position(&tracer), ("0".to_string(), "0".to_string()));
    assert_eq!(tracer.current_tip().pen(), PenDirection::UP);
    assert_eq!(tracer.previous_tip().pen(), PenDirection::DOWN);
    assert_eq!(tracer.previous_tip().x().as_str(), "4");
    assert_eq!(tracer.segments().len(), 1);
    step(&mut tracer);
    assert_eq!(tracer.segments().len(), 1);
    step(&mut tracer);
    assert_eq!(position(&tracer), ("0".to_string(), "0".to_string()));
    assert_eq!(tracer.current_tip().pen(), PenDirection::UP);
    assert_eq!(tracer.segments().len(), 1);
    assert!(!tracer.is_finished());
}

#[test]
fn an_unknown_line_is_skipped_and_the_session_goes_on() {
    let mut tracer = Tracer::new(script(&["PEN DOWN", "MOVE 1 1", "MOVE abc 2", "MOVE 2 2", "END"]));
    step(&mut tracer);
    step(&mut tracer);
    let current = tracer.current_tip().clone();
    let previous = tracer.previous_tip().clone();
    let drawn = tracer.segments().clone();
    assert_eq!(step(&mut tracer), Some(Command::Unknown("MOVE abc 2".to_string())));
    assert_eq!(tracer.current_tip(), &current);
    assert_eq!(tracer.previous_tip(), &previous);
    assert_eq!(tracer.segments(), &drawn);
    assert!(!tracer.is_finished());
    assert_eq!(tracer.remaining(), 2);
    assert_eq!(step(&mut tracer), Some(Command::MoveTo(number("2"), number("2"))));
    assert_eq!(tracer.segments().len(), 2);
}

#[test]
fn end_finishes_the_session_even_with_lines_left() {
    let mut tracer = Tracer::new(script(&["PEN DOWN", "END", "MOVE 1 1"]));
    step(&mut tracer);
    assert_eq!(step(&mut tracer), Some(Command::End));
    assert!(tracer.is_finished());
    assert_eq!(tracer.remaining(), 1);
    assert_eq!(step(&mut tracer), None);
    assert_eq!(tracer.get_next_command(), None);
    assert_eq!(tracer.remaining(), 1);
    assert_eq!(tracer.current_tip().pen(), PenDirection::DOWN);
    assert!(tracer.segments().is_empty());
}

#[test]
fn a_script_that_runs_out_is_finished() {
    let mut tracer = Tracer::new(script(&["PEN DOWN", "MOVE 1 1"]));
    step(&mut tracer);
    assert!(!tracer.is_finished());
    step(&mut tracer);
    assert!(tracer.is_finished());
    assert_eq!(tracer.segments().len(), 1);
}

#[test]
fn taking_a_line_from_the_queue_does_not_apply_it() {
    let mut tracer = Tracer::new(script(&["PEN DOWN", "MOVE 1 1", "END"]));
    tracer.enable_execution();
    assert_eq!(tracer.next_command(), Some("PEN DOWN".to_string()));
    assert_eq!(tracer.current_tip().pen(), PenDirection::UP);
    assert_eq!(tracer.remaining(), 2);
    assert_eq!(tracer.get_next_command(), Some("MOVE 1 1".to_string()));
    assert_eq!(tracer.remaining(), 2);
}

#[test]
fn playing_the_script_of_strokes_draws_the_strokes() {
    let strokes = SerializebleComputation {
        edges: vec![
            vec![SPixelIndex { x: 1, y: 1 }, SPixelIndex { x: 4, y: 1 }, SPixelIndex { x: 4, y: 5 }],
            vec![SPixelIndex { x: 9, y: 9 }],
            vec![SPixelIndex { x: 20, y: 3 }, SPixelIndex { x: 17, y: 0 }],
        ],
        width: 30,
        height: 30,
        dx_skip: 1,
        dy_skip: 1,
        px_skip: 2,
    };
    let expected = vec![
        segment((1, 1), (4, 1)),
        segment((4, 1), (4, 5)),
        segment((20, 3), (17, 0)),
    ];
    for reset in [false, true] {
        let mut tracer = Tracer::new(write_lines(&encode(&strokes, reset)));
        tracer.run_to_end();
        assert!(tracer.is_finished());
        assert_eq!(tracer.remaining(), 0);
        assert_eq!(tracer.segments(), &expected);
        assert_eq!(tracer.current_tip().pen(), PenDirection::UP);
    }
    let mut tracer = Tracer::new(split_lines(&to_cnc(&strokes)));
    tracer.run_to_end();
    assert_eq!(tracer.segments(), &expected);
    let points: Vec<(usize, usize)> = tracer
        .segments()
        .iter()
        .map(|drawn| (drawn.to.0.to_index().unwrap(), drawn.to.1.to_index().unwrap()))
        .collect();
    assert_eq!(points, vec![(4, 1), (4, 5), (17, 0)]);
}

#[test]
fn a_vectorized_raster_is_drawn_edge_by_edge() {
    let mut pixels = vec![0u8; 8 * 8];
    for k in 0..8 {
        pixels[k * 8 + k] = 255;
        pixels[k] = 255;
    }
    let raster = Raster::new(8, 8, pixels).unwrap();
    let computed = to_serializable_points(&raster, 8, 8).unwrap();
    let mut expected = Vec::new();
    for edge in &computed.edges {
        for pair in edge.windows(2) {
            expected.push(segment((pair[0].x, pair[0].y), (pair[1].x, pair[1].y)));
        }
    }
    let mut tracer = Tracer::new(to_cnc_lines(&computed));
    tracer.run_to_end();
    assert_eq!(tracer.segments(), &expected);
    assert!(!expected.is_empty());
}

#[test]
fn simulating_a_record_returns_its_segments() {
    let strokes = SerializebleComputation {
        edges: vec![
            vec![SPixelIndex { x: 0, y: 0 }, SPixelIndex { x: 10, y: 0 }, SPixelIndex { x: 10, y: 10 }],
            vec![SPixelIndex { x: 3, y: 3 }],
        ],
        width: 11,
        height: 11,
        dx_skip: 5,
        dy_skip: 5,
        px_skip: 10,
    };
    assert_eq!(
        converter::replay::simulate(&strokes),
        vec![segment((0, 0), (10, 0)), segment((10, 0), (10, 10))]
    );
    let empty = SerializebleComputation { edges: Vec::new(), ..strokes.clone() };
    assert!(converter::replay::simulate(&empty).is_empty());
    assert_eq!(strokes.clone(), strokes);
}

#[test]
fn a_session_goes_from_idle_to_armed_and_ends_finished() {
    let mut tracer = Tracer::new(script(&["PEN DOWN", "END"]));
    assert_eq!(tracer.phase(), Phase::Idle);
    tracer.enable_execution();
    assert_eq!(tracer.phase(), Phase::Armed);
    tracer.execute_next();
    assert_eq!(tracer.phase(), Phase::Idle);
    tracer.execute_next();
    assert_eq!(tracer.phase(), Phase::Idle);
    tracer.enable_execution();
    tracer.execute_next();
    assert_eq!(tracer.phase(), Phase::Finished);
    tracer.enable_execution();
    assert_eq!(tracer.phase(), Phase::Finished);
    assert_eq!(Tracer::new(Vec::new()).phase(), Phase::Finished);
}

#[test]
fn authorising_arms_every_session_and_changes_nothing_else() {
    let mut tracer = Tracer::new(script(&["PEN DOWN", "MOVE 1 1", "END"]));
    assert!(!tracer.is_armed());
    tracer.enable_execution();
    assert!(tracer.is_armed());
    tracer.enable_execution();
    assert!(tracer.is_armed());
    assert_eq!(tracer.remaining(), 3);
    assert_eq!(tracer.execute_next(), Some(Command::PenDown));
    assert!(!tracer.is_armed());
    assert_eq!(tracer.execute_next(), None);

    let mut finished = Tracer::new(script(&["MOVE 2 3", "END", "PEN DOWN"]));
    finished.run_to_end();
    assert!(finished.is_finished());
    assert!(!finished.is_armed());
    let tip = finished.current_tip().clone();
    finished.enable_execution();
    assert!(finished.is_armed());
    assert!(finished.is_finished());
    assert_eq!(finished.phase(), Phase::Finished);
    assert_eq!(finished.remaining(), 1);
    assert_eq!(finished.current_tip(), &tip);
    assert!(finished.segments().is_empty());
    assert_eq!(finished.execute_next(), None);
    assert_eq!(finished.next_command(), None);
    assert_eq!(finished.get_next_command(), None);
    assert!(finished.is_armed());
    assert_eq!(finished.remaining(), 1);

    let mut empty = Tracer::new(Vec::new());
    empty.enable_execution();
    assert!(empty.is_armed());
    assert!(empty.is_finished());
    empty.run_to_end();
    assert!(empty.is_armed());
}

#[test]
fn running_to_the_end_stops_at_the_cycle_that_finishes() {
    let mut tracer = Tracer::new(script(&["PEN DOWN", "MOVE 1 1", "END", "MOVE 9 9"]));
    tracer.run_to_end();
    assert!(tracer.is_finished());
    assert!(!tracer.is_armed());
    assert_eq!(tracer.remaining(), 1);
    assert_eq!(position(&tracer), ("1".to_string(), "1".to_string()));
    assert_eq!(tracer.segments().len(), 1);
}
