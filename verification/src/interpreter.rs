use vstd::prelude::*;

use crate::dsl::{Command, Program};

verus! {

/// The pen of the turtle, all but its position.
///
/// `heading` is the angle in 256ths of a full turn (degrees are
/// `heading * 360 / 256`); `width` is the `SetWidth` parameter, for a stroke
/// width of `1 + width * 15 / 255` pixels; `black` is the ink colour.
#[derive(Clone, Copy, Debug, PartialEq, Eq, Structural)]
pub struct Pen {
    pub heading: u8,
    pub width: u8,
    pub black: bool,
}

/// What a command does to the turtle's position.
///
/// `Jump(x, y)` moves it, without drawing, to pixel `(x, y)`; `Stroke(pen, p)`
/// draws with `pen` a straight line of `1 + p * 63 / 255` pixels from the
/// current position along the pen's heading, and moves to its end.
#[derive(Clone, Copy, Debug, PartialEq, Eq, Structural)]
pub enum Move {
    Jump(u8, u8),
    Stroke(Pen, u8),
}

/// The pen a turtle starts with: heading 0 (east), width parameter 51
/// (4 pixels), black ink.
pub open spec fn start_pen() -> Pen {
    Pen { heading: 0, width: 51, black: true }
}

/// The pen after one command.
pub open spec fn next_pen(pen: Pen, cmd: Command) -> Pen {
    match cmd {
        Command::Turn(p, _) => Pen { heading: ((pen.heading + p) % 256) as u8, ..pen },
        Command::SetAngle(p, _) => Pen { heading: p, ..pen },
        Command::SetWidth(p, _) => Pen { width: p, ..pen },
        Command::SetColor(p, _) => Pen { black: p >= 128, ..pen },
        _ => pen,
    }
}

/// The move of one command, made with the pen it finds.
pub open spec fn move_of(pen: Pen, cmd: Command) -> Option<Move> {
    match cmd {
        Command::Forward(p, _) => Some(Move::Stroke(pen, p)),
        Command::MoveTo(x, y) => Some(Move::Jump(x, y)),
        _ => None,
    }
}

/// The pen after running a sequence of commands from `pen`.
pub open spec fn run_pen(pen: Pen, s: Seq<Command>) -> Pen
    decreases s.len(),
{
    if s.len() == 0 {
        pen
    } else {
        next_pen(run_pen(pen, s.drop_last()), s.last())
    }
}

/// The moves made by running a sequence of commands from `pen`, in order.
pub open spec fn run_moves(pen: Pen, s: Seq<Command>) -> Seq<Move>
    decreases s.len(),
{
    if s.len() == 0 {
        Seq::empty()
    } else {
        let earlier = run_moves(pen, s.drop_last());
        match move_of(run_pen(pen, s.drop_last()), s.last()) {
            Some(m) => earlier.push(m),
            None => earlier,
        }
    }
}

/// The commands of a sequence that are not `NoOp`, in order.
pub open spec fn without_noops(s: Seq<Command>) -> Seq<Command>
    decreases s.len(),
{
    if s.len() == 0 {
        Seq::empty()
    } else if s.last() is NoOp {
        without_noops(s.drop_last())
    } else {
        without_noops(s.drop_last()).push(s.last())
    }
}

/// Number of commands of a sequence that move the turtle (`Forward`, `MoveTo`).
pub open spec fn moving_count(s: Seq<Command>) -> nat
    decreases s.len(),
{
    if s.len() == 0 {
        0
    } else {
        moving_count(s.drop_last()) + if s.last() is Forward || s.last() is MoveTo {
            1nat
        } else {
            0nat
        }
    }
}

/// What each command does, field by field: `Forward(p, _)` strokes `p` with
/// the current pen; `Turn(p, _)` adds `p` 256ths of a turn to the heading,
/// wrapping around; `SetAngle(p, _)` sets the heading to `p`; `MoveTo(x, y)`
/// jumps to `(x, y)`; `SetWidth(p, _)` sets the width parameter to `p`;
/// `SetColor(p, _)` inks black exactly when `p >= 128`; `NoOp` does nothing.
/// Every field a command does not name is kept.
pub open spec fn command_effect(pen: Pen, cmd: Command, after: Pen, mv: Option<Move>) -> bool {
    match cmd {
        Command::NoOp(_, _) => after == pen && mv is None,
        Command::Forward(p, _) => after == pen && mv == Some(Move::Stroke(pen, p)),
        Command::Turn(p, _) => {
            &&& (after.heading as int - pen.heading as int - p as int) % 256 == 0
            &&& after.width == pen.width
            &&& after.black == pen.black
            &&& mv is None
        },
        Command::SetAngle(p, _) => after.heading == p && after.width == pen.width && after.black
            == pen.black && mv is None,
        Command::MoveTo(x, y) => after == pen && mv == Some(Move::Jump(x, y)),
        Command::SetWidth(p, _) => after.width == p && after.heading == pen.heading && after.black
            == pen.black && mv is None,
        Command::SetColor(p, _) => after.black == (p >= 128) && after.heading == pen.heading
            && after.width == pen.width && mv is None,
    }
}

/// Every command has exactly the effect that `command_effect` spells out.
pub proof fn lemma_command_effects(pen: Pen, cmd: Command)
    ensures
        command_effect(pen, cmd, next_pen(pen, cmd), move_of(pen, cmd)),
{
    match cmd {
        Command::Turn(p, _) => {
            let s = pen.heading as int + p as int;
            vstd::arithmetic::div_mod::lemma_fundamental_div_mod(s, 256);
            assert(0 <= s < 512);
            assert(s / 256 == 0 || s / 256 == 1);
        },
        _ => {},
    }
}

/// The pen a turtle starts with: heading 0, width parameter 51, black ink.
pub fn initial_pen() -> (pen: Pen)
    ensures
        pen == start_pen(),
        pen.heading == 0 && pen.width == 51 && pen.black,
{
    Pen { heading: 0, width: 51, black: true }
}

/// Runs one command: the pen afterwards and the move it makes, if any.
pub fn step(pen: &Pen, cmd: &Command) -> (r: (Pen, Option<Move>))
    ensures
        r.0 == next_pen(*pen, *cmd),
        r.1 == move_of(*pen, *cmd),
        command_effect(*pen, *cmd, r.0, r.1),
{
    proof {
        lemma_command_effects(*pen, *cmd);
    }
    match *cmd {
        Command::NoOp(_, _) => (*pen, None),
        Command::Forward(p, _) => (*pen, Some(Move::Stroke(*pen, p))),
        Command::Turn(p, _) => {
            let h: u16 = (pen.heading as u16 + p as u16) % 256;
            (Pen { heading: h as u8, width: pen.width, black: pen.black }, None)
        },
        Command::SetAngle(p, _) => (Pen { heading: p, width: pen.width, black: pen.black }, None),
        Command::MoveTo(x, y) => (*pen, Some(Move::Jump(x, y))),
        Command::SetWidth(p, _) => (Pen { heading: pen.heading, width: p, black: pen.black }, None),
        Command::SetColor(p, _) => (
            Pen { heading: pen.heading, width: pen.width, black: p >= 128 },
            None,
        ),
    }
}

/// Runs a program from `pen`: the pen at the end and every move, in order.
pub fn trace(pen: &Pen, program: &Program) -> (r: (Pen, Vec<Move>))
    ensures
        r.0 == run_pen(*pen, program@),
        r.1@ == run_moves(*pen, program@),
{
    let mut cur: Pen = *pen;
    let mut moves: Vec<Move> = Vec::new();
    let mut i: usize = 0;
    while i < program.len()
        invariant
            i <= program.len(),
            cur == run_pen(*pen, program@.subrange(0, i as int)),
            moves@ == run_moves(*pen, program@.subrange(0, i as int)),
        decreases program.len() - i,
    {
        let ghost done = program@.subrange(0, i + 1);
        assert(done.drop_last() == program@.subrange(0, i as int));
        let (next, mv) = step(&cur, &program[i]);
        match mv {
            Some(m) => moves.push(m),
            None => {},
        }
        cur = next;
        i = i + 1;
    }
    assert(program@.subrange(0, program.len() as int) == program@);
    (cur, moves)
}

/// Running two programs one after the other is running their concatenation.
pub proof fn lemma_run_concat(pen: Pen, s: Seq<Command>, t: Seq<Command>)
    ensures
        run_pen(pen, s + t) == run_pen(run_pen(pen, s), t),
        run_moves(pen, s + t) == run_moves(pen, s) + run_moves(run_pen(pen, s), t),
    decreases t.len(),
{
    if t.len() == 0 {
        assert(s + t == s);
        assert(run_moves(pen, s) + Seq::<Move>::empty() == run_moves(pen, s));
    } else {
        assert((s + t).drop_last() == s + t.drop_last());
        assert((s + t).last() == t.last());
        lemma_run_concat(pen, s, t.drop_last());
        let mid = run_pen(pen, s);
        match move_of(run_pen(mid, t.drop_last()), t.last()) {
            Some(m) => {
                assert(run_moves(pen, s) + run_moves(mid, t.drop_last()).push(m) == (run_moves(
                    pen,
                    s,
                ) + run_moves(mid, t.drop_last())).push(m));
            },
            None => {},
        }
    }
}

/// `NoOp` commands change nothing: a program runs as the same program with
/// its `NoOp`s removed.
pub proof fn lemma_noops_ignored(pen: Pen, s: Seq<Command>)
    ensures
        run_pen(pen, without_noops(s)) == run_pen(pen, s),
        run_moves(pen, without_noops(s)) == run_moves(pen, s),
    decreases s.len(),
{
    if s.len() > 0 {
        lemma_noops_ignored(pen, s.drop_last());
        if !(s.last() is NoOp) {
            let w = without_noops(s.drop_last()).push(s.last());
            assert(w.drop_last() == without_noops(s.drop_last()));
        }
    }
}

/// Each `Forward` and each `MoveTo` makes exactly one move; nothing else moves.
pub proof fn lemma_one_move_per_moving_command(pen: Pen, s: Seq<Command>)
    ensures
        run_moves(pen, s).len() == moving_count(s),
    decreases s.len(),
{
    if s.len() > 0 {
        lemma_one_move_per_moving_command(pen, s.drop_last());
    }
}

/// Two turns add up around the circle: turning by `a` then by `b` is turning
/// by `(a + b) mod 256`.
pub proof fn lemma_turns_add(pen: Pen, a: u8, b: u8, c: u8, d: u8, e: u8)
    ensures
        next_pen(next_pen(pen, Command::Turn(a, c)), Command::Turn(b, d)) == next_pen(
            pen,
            Command::Turn(((a + b) % 256) as u8, e),
        ),
{
    let h = pen.heading as int;
    vstd::arithmetic::div_mod::lemma_add_mod_noop(h + a, b as int, 256);
    vstd::arithmetic::div_mod::lemma_add_mod_noop(h, a + b, 256);
    vstd::arithmetic::div_mod::lemma_mod_twice(h + a + b, 256);
    vstd::arithmetic::div_mod::lemma_small_mod(b as nat, 256);
    vstd::arithmetic::div_mod::lemma_mod_bound(a + b, 256);
    vstd::arithmetic::div_mod::lemma_mod_bound(h + a, 256);
}

/// `SetAngle` forgets every earlier turn.
pub proof fn lemma_set_angle_overrides(pen: Pen, s: Seq<Command>, p: u8, q: u8)
    ensures
        run_pen(pen, s.push(Command::SetAngle(p, q))).heading == p,
{
    assert(s.push(Command::SetAngle(p, q)).drop_last() == s);
}

} // verus!
