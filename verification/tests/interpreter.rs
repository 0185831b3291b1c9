use morph::dsl::Command;
use morph::interpreter::{initial_pen, step, trace, Move, Pen};

#[test]
fn starting_pen() {
    assert_eq!(initial_pen(), Pen { heading: 0, width: 51, black: true });
}

#[test]
fn each_command_step() {
    let p = Pen { heading: 200, width: 10, black: false };
    assert_eq!(step(&p, &Command::NoOp(1, 2)), (p, None));
    assert_eq!(step(&p, &Command::Forward(9, 3)), (p, Some(Move::Stroke(p, 9))));
    assert_eq!(
        step(&p, &Command::Turn(100, 3)),
        (Pen { heading: 44, width: 10, black: false }, None)
    );
    assert_eq!(
        step(&p, &Command::SetAngle(7, 3)),
        (Pen { heading: 7, width: 10, black: false }, None)
    );
    assert_eq!(step(&p, &Command::MoveTo(4, 5)), (p, Some(Move::Jump(4, 5))));
    assert_eq!(
        step(&p, &Command::SetWidth(0, 5)),
        (Pen { heading: 200, width: 0, black: false }, None)
    );
    assert_eq!(
        step(&p, &Command::SetColor(128, 5)),
        (Pen { heading: 200, width: 10, black: true }, None)
    );
    assert_eq!(
        step(&p, &Command::SetColor(127, 5)),
        (Pen { heading: 200, width: 10, black: false }, None)
    );
}

#[test]
fn trace_of_a_program() {
    let prog = vec![
        Command::MoveTo(10, 20),
        Command::Forward(0, 0),
        Command::Turn(64, 0),
        Command::SetColor(0, 0),
        Command::SetWidth(255, 0),
        Command::Forward(255, 0),
        Command::NoOp(1, 1),
    ];
    let start = initial_pen();
    let (end, moves) = trace(&start, &prog);
    let turned = Pen { heading: 64, width: 255, black: false };
    assert_eq!(end, turned);
    assert_eq!(
        moves,
        vec![Move::Jump(10, 20), Move::Stroke(start, 0), Move::Stroke(turned, 255)]
    );
}

#[test]
fn empty_program_changes_nothing() {
    let p = Pen { heading: 3, width: 4, black: false };
    assert_eq!(trace(&p, &Vec::new()), (p, Vec::new()));
}

#[test]
fn noops_are_ignored() {
    let with = vec![
        Command::NoOp(9, 9),
        Command::Turn(10, 0),
        Command::NoOp(0, 0),
        Command::Forward(5, 0),
        Command::NoOp(4, 4),
    ];
    let without = vec![Command::Turn(10, 0), Command::Forward(5, 0)];
    assert_eq!(trace(&initial_pen(), &with), trace(&initial_pen(), &without));
}

#[test]
fn running_in_two_parts_is_running_the_whole() {
    let first = vec![Command::Turn(100, 0), Command::Forward(1, 0), Command::SetWidth(3, 0)];
    let second = vec![Command::Turn(200, 0), Command::MoveTo(1, 2), Command::Forward(2, 0)];
    let whole: Vec<Command> = first.iter().chain(second.iter()).cloned().collect();
    let (mid, mut moves) = trace(&initial_pen(), &first);
    let (end, rest) = trace(&mid, &second);
    moves.extend(rest);
    assert_eq!(trace(&initial_pen(), &whole), (end, moves));
}

#[test]
fn turns_add_around_the_circle() {
    let prog = vec![Command::Turn(200, 1), Command::Turn(100, 2)];
    let (end, _) = trace(&initial_pen(), &prog);
    assert_eq!(end.heading, 44);
    let (end2, _) = trace(&initial_pen(), &vec![Command::Turn(44, 0)]);
    assert_eq!(end, end2);
}

#[test]
fn set_angle_overrides_turns() {
    let prog = vec![Command::Turn(200, 1), Command::Turn(100, 2), Command::SetAngle(5, 0)];
    assert_eq!(trace(&initial_pen(), &prog).0.heading, 5);
}

#[test]
fn one_move_per_forward_or_move_to() {
    let prog = vec![
        Command::Forward(1, 0),
        Command::MoveTo(1, 1),
        Command::SetAngle(1, 1),
        Command::Forward(2, 0),
        Command::SetColor(1, 1),
    ];
    assert_eq!(trace(&initial_pen(), &prog).1.len(), 3);
}
