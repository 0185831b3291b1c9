use rand::rngs::StdRng;
use vstd::prelude::*;

use crate::random::{random_below, random_byte, random_offset, random_ratio};

verus! {

/// Number of commands in a program.
pub const PROGRAM_LEN: usize = 512;

/// Number of command kinds.
pub const N_COMMAND_TYPES: usize = 7;

/// One turtle command. Every command carries the same two `u8` parameters,
/// which makes the uniform full-random proposal symmetric: drawing a command
/// and drawing it back are equally likely.
#[derive(Clone, Copy, Debug, PartialEq, Eq, Structural)]
pub enum Command {
    NoOp(u8, u8),
    Forward(u8, u8),
    Turn(u8, u8),
    SetAngle(u8, u8),
    MoveTo(u8, u8),
    SetWidth(u8, u8),
    SetColor(u8, u8),
}

/// A turtle program.
pub type Program = Vec<Command>;

/// The kind of a command, in declaration order (`NoOp` is 0, `SetColor` is 6).
pub open spec fn kind_of(cmd: Command) -> nat {
    match cmd {
        Command::NoOp(_, _) => 0,
        Command::Forward(_, _) => 1,
        Command::Turn(_, _) => 2,
        Command::SetAngle(_, _) => 3,
        Command::MoveTo(_, _) => 4,
        Command::SetWidth(_, _) => 5,
        Command::SetColor(_, _) => 6,
    }
}

/// The two parameters of a command.
pub open spec fn params_of(cmd: Command) -> (u8, u8) {
    match cmd {
        Command::NoOp(a, b) => (a, b),
        Command::Forward(a, b) => (a, b),
        Command::Turn(a, b) => (a, b),
        Command::SetAngle(a, b) => (a, b),
        Command::MoveTo(a, b) => (a, b),
        Command::SetWidth(a, b) => (a, b),
        Command::SetColor(a, b) => (a, b),
    }
}

/// The command of the given kind with the given parameters; a kind past the
/// last one stands for `SetColor`.
pub open spec fn command_of(kind: int, a: u8, b: u8) -> Command {
    if kind == 0 {
        Command::NoOp(a, b)
    } else if kind == 1 {
        Command::Forward(a, b)
    } else if kind == 2 {
        Command::Turn(a, b)
    } else if kind == 3 {
        Command::SetAngle(a, b)
    } else if kind == 4 {
        Command::MoveTo(a, b)
    } else if kind == 5 {
        Command::SetWidth(a, b)
    } else {
        Command::SetColor(a, b)
    }
}

/// Whether a command does something (is not a `NoOp`).
pub open spec fn is_active(cmd: Command) -> bool {
    !(cmd is NoOp)
}

/// Number of active commands in a sequence.
pub open spec fn count_active(s: Seq<Command>) -> nat
    decreases s.len(),
{
    if s.len() == 0 {
        0
    } else {
        count_active(s.drop_last()) + if is_active(s.last()) {
            1nat
        } else {
            0nat
        }
    }
}

/// Builds the command of kind `kind` (`SetColor` for any kind from 6 on).
pub fn build(kind: usize, a: u8, b: u8) -> (cmd: Command)
    ensures
        cmd == command_of(kind as int, a, b),
        kind_of(cmd) == if kind < 6 {
            kind as nat
        } else {
            6nat
        },
        params_of(cmd) == (a, b),
{
    match kind {
        0 => Command::NoOp(a, b),
        1 => Command::Forward(a, b),
        2 => Command::Turn(a, b),
        3 => Command::SetAngle(a, b),
        4 => Command::MoveTo(a, b),
        5 => Command::SetWidth(a, b),
        _ => Command::SetColor(a, b),
    }
}

/// Number of commands of `prog` that are not `NoOp`.
pub fn active_len(prog: &Program) -> (n: usize)
    ensures
        n == count_active(prog@),
        n <= prog.len(),
{
    let mut n: usize = 0;
    let mut i: usize = 0;
    while i < prog.len()
        invariant
            i <= prog.len(),
            n == count_active(prog@.subrange(0, i as int)),
            n <= i,
        decreases prog.len() - i,
    {
        assert(prog@.subrange(0, i + 1).drop_last() == prog@.subrange(0, i as int));
        match prog[i] {
            Command::NoOp(_, _) => {},
            _ => {
                n = n + 1;
            },
        }
        i = i + 1;
    }
    assert(prog@.subrange(0, prog.len() as int) == prog@);
    n
}

/// A parameter moved by `delta` around the circle of the 256 byte values.
pub open spec fn shifted(p: u8, delta: int) -> u8 {
    ((p as int + delta) % 256) as u8
}

/// A command whose first parameter moved by `da` and, for `MoveTo` only,
/// whose second parameter moved by `db`, both around the byte circle.
pub open spec fn tuned(cmd: Command, da: int, db: int) -> Command {
    match cmd {
        Command::NoOp(a, b) => Command::NoOp(shifted(a, da), b),
        Command::Forward(a, b) => Command::Forward(shifted(a, da), b),
        Command::Turn(a, b) => Command::Turn(shifted(a, da), b),
        Command::SetAngle(a, b) => Command::SetAngle(shifted(a, da), b),
        Command::MoveTo(a, b) => Command::MoveTo(shifted(a, da), shifted(b, db)),
        Command::SetWidth(a, b) => Command::SetWidth(shifted(a, da), b),
        Command::SetColor(a, b) => Command::SetColor(shifted(a, da), b),
    }
}

/// The step bound that `tune_parameter` uses: `max_delta` clamped to `1..=127`,
/// below 128 so that no offset aliases another modulo 256.
pub open spec fn step_bound(max_delta: int) -> int {
    if max_delta < 1 {
        1
    } else if max_delta > 127 {
        127
    } else {
        max_delta
    }
}

/// Shifting by `delta` and then by `-delta` gives the parameter back.
pub proof fn lemma_shift_undone(p: u8, delta: int)
    ensures
        shifted(shifted(p, delta), -delta) == p,
{
    let s = p as int + delta;
    let q = s / 256;
    vstd::arithmetic::div_mod::lemma_fundamental_div_mod(s, 256);
    assert(0 <= s % 256 < 256);
    assert(shifted(p, delta) as int == s % 256);
    assert(s % 256 - delta == 256 * (-q) + p as int);
    vstd::arithmetic::div_mod::lemma_mod_multiples_vanish(-q, p as int, 256);
    vstd::arithmetic::div_mod::lemma_small_mod(p as nat, 256);
}

/// A shifted parameter differs from the parameter plus the offset by a
/// multiple of 256.
pub proof fn lemma_shift_is_sum(p: u8, delta: int)
    ensures
        (shifted(p, delta) as int - p as int - delta) % 256 == 0,
{
    let s = p as int + delta;
    vstd::arithmetic::div_mod::lemma_fundamental_div_mod(s, 256);
    vstd::arithmetic::div_mod::lemma_mod_bound(s, 256);
    let q = s / 256;
    assert(shifted(p, delta) as int - p as int - delta == 256 * (-q));
    vstd::arithmetic::div_mod::lemma_mod_multiples_vanish(-q, 0, 256);
}

/// Tuning is undone by tuning with the opposite offsets: the local proposal
/// can always step back to where it came from.
pub proof fn lemma_tune_undone(cmd: Command, da: int, db: int)
    ensures
        tuned(tuned(cmd, da, db), -da, -db) == cmd,
{
    let (a, b) = params_of(cmd);
    lemma_shift_undone(a, da);
    lemma_shift_undone(b, db);
}

/// Offsets below 128 in size never alias around the byte circle: two
/// different offsets move a parameter to two different values.
pub proof fn lemma_offsets_do_not_alias(p: u8, d1: int, d2: int)
    requires
        -127 <= d1 <= 127,
        -127 <= d2 <= 127,
        d1 != d2,
    ensures
        shifted(p, d1) != shifted(p, d2),
{
    let s1 = p as int + d1;
    let s2 = p as int + d2;
    vstd::arithmetic::div_mod::lemma_fundamental_div_mod(s1, 256);
    vstd::arithmetic::div_mod::lemma_fundamental_div_mod(s2, 256);
    vstd::arithmetic::div_mod::lemma_mod_bound(s1, 256);
    vstd::arithmetic::div_mod::lemma_mod_bound(s2, 256);
    if shifted(p, d1) == shifted(p, d2) {
        assert(s1 % 256 == s2 % 256);
        let q1 = s1 / 256;
        let q2 = s2 / 256;
        assert(s1 - s2 == 256 * (q1 - q2));
        assert(-127 <= s1 < 383);
        assert(-127 <= s2 < 383);
        assert(q1 - q2 == 0) by (nonlinear_arith)
            requires
                s1 - s2 == 256 * (q1 - q2),
                -254 <= s1 - s2 <= 254,
                s1 != s2,
        ;
    }
}

fn shift_param(p: u8, delta: i32) -> (r: u8)
    ensures
        r == shifted(p, delta as int),
{
    let s: i64 = p as i64 + delta as i64;
    if s >= 0 {
        let m: u64 = (s as u64) % 256;
        m as u8
    } else {
        let t: u64 = ((-s) as u64) % 256;
        proof {
            let n = -(s as int);
            vstd::arithmetic::div_mod::lemma_fundamental_div_mod(n, 256);
            let q = n / 256;
            assert(s as int == 256 * (-q) - (n % 256));
            if n % 256 == 0 {
                assert(s as int == 256 * (-q) + 0);
                vstd::arithmetic::div_mod::lemma_mod_multiples_vanish(-q, 0, 256);
            } else {
                assert(s as int == 256 * (-q - 1) + (256 - n % 256));
                vstd::arithmetic::div_mod::lemma_mod_multiples_vanish(-q - 1, 256 - n % 256, 256);
                vstd::arithmetic::div_mod::lemma_small_mod((256 - n % 256) as nat, 256);
            }
        }
        if t == 0 {
            0
        } else {
            (256 - t) as u8
        }
    }
}

/// Moves the first parameter of `cmd` by `da`, and for `MoveTo` also the second
/// by `db`, around the byte circle; the kind never changes.
pub fn tune_command(cmd: &Command, da: i32, db: i32) -> (r: Command)
    ensures
        r == tuned(*cmd, da as int, db as int),
        kind_of(r) == kind_of(*cmd),
        !(cmd is MoveTo) ==> params_of(r).1 == params_of(*cmd).1,
        (params_of(r).0 as int - params_of(*cmd).0 as int - da as int) % 256 == 0,
        cmd is MoveTo ==> (params_of(r).1 as int - params_of(*cmd).1 as int - db as int) % 256 == 0,
{
    proof {
        let (a, b) = params_of(*cmd);
        lemma_shift_is_sum(a, da as int);
        lemma_shift_is_sum(b, db as int);
    }
    match *cmd {
        Command::NoOp(a, b) => Command::NoOp(shift_param(a, da), b),
        Command::Forward(a, b) => Command::Forward(shift_param(a, da), b),
        Command::Turn(a, b) => Command::Turn(shift_param(a, da), b),
        Command::SetAngle(a, b) => Command::SetAngle(shift_param(a, da), b),
        Command::MoveTo(a, b) => Command::MoveTo(shift_param(a, da), shift_param(b, db)),
        Command::SetWidth(a, b) => Command::SetWidth(shift_param(a, da), b),
        Command::SetColor(a, b) => Command::SetColor(shift_param(a, da), b),
    }
}

/// A uniformly drawn command: two random bytes, then a random kind.
/// Every command can come back.
pub fn random_command(rng: &mut StdRng) -> (cmd: Command)
    ensures
        exists|kind: int, a: u8, b: u8| 0 <= kind < N_COMMAND_TYPES && cmd == command_of(kind, a, b),
{
    let a = random_byte(rng);
    let b = random_byte(rng);
    let kind = random_below(rng, N_COMMAND_TYPES);
    build(kind, a, b)
}

/// A uniformly drawn command that is not a `NoOp`.
pub fn random_active_command(rng: &mut StdRng) -> (cmd: Command)
    ensures
        is_active(cmd),
        !(cmd is NoOp),
        exists|kind: int, a: u8, b: u8| 1 <= kind < N_COMMAND_TYPES && cmd == command_of(kind, a, b),
{
    let a = random_byte(rng);
    let b = random_byte(rng);
    let kind = 1 + random_below(rng, N_COMMAND_TYPES - 1);
    build(kind, a, b)
}

/// A small random tweak of `cmd`: its first parameter (both, for `MoveTo`)
/// moves by an offset drawn from `-m..=m`, where `m` is `max_delta` clamped to
/// `1..=127`; the kind and, but for `MoveTo`, the second parameter stay.
pub fn tune_parameter(cmd: &Command, rng: &mut StdRng, max_delta: i32) -> (r: Command)
    ensures
        exists|da: int, db: int|
            -step_bound(max_delta as int) <= da <= step_bound(max_delta as int) && -step_bound(
                max_delta as int,
            ) <= db <= step_bound(max_delta as int) && r == tuned(*cmd, da, db),
        kind_of(r) == kind_of(*cmd),
        !(cmd is MoveTo) ==> params_of(r).1 == params_of(*cmd).1,
{
    let (da, db) = draw_offsets(cmd, rng, max_delta);
    let r = tune_command(cmd, da, db);
    assert(r == tuned(*cmd, da as int, db as int));
    r
}

/// Replacing one command changes the active count by the difference of the two.
pub proof fn lemma_count_active_update(s: Seq<Command>, i: int, c: Command)
    requires
        0 <= i < s.len(),
    ensures
        count_active(s.update(i, c)) + (if is_active(s[i]) {
            1int
        } else {
            0int
        }) == count_active(s) + (if is_active(c) {
            1int
        } else {
            0int
        }),
    decreases s.len(),
{
    let t = s.update(i, c);
    if i == s.len() - 1 {
        assert(t.drop_last() == s.drop_last());
    } else {
        assert(t.drop_last() == s.drop_last().update(i, c));
        lemma_count_active_update(s.drop_last(), i, c);
    }
}

/// A sequence with no active command has an active count of zero.
pub proof fn lemma_count_active_none(s: Seq<Command>)
    requires
        forall|i: int| 0 <= i < s.len() ==> #[trigger] s[i] is NoOp,
    ensures
        count_active(s) == 0,
    decreases s.len(),
{
    if s.len() > 0 {
        lemma_count_active_none(s.drop_last());
    }
}

/// A sequence without any `NoOp` has an active count equal to its length.
pub proof fn lemma_count_active_all(s: Seq<Command>)
    requires
        forall|i: int| 0 <= i < s.len() ==> !(#[trigger] s[i] is NoOp),
    ensures
        count_active(s) == s.len(),
    decreases s.len(),
{
    if s.len() > 0 {
        assert forall|i: int| 0 <= i < s.drop_last().len() implies !(#[trigger] s.drop_last()[i] is NoOp) by {
            assert(s.drop_last()[i] == s[i]);
        }
        lemma_count_active_all(s.drop_last());
        assert(!(s[s.len() - 1] is NoOp));
    }
}

/// The active count never exceeds the length.
pub proof fn lemma_count_active_bound(s: Seq<Command>)
    ensures
        count_active(s) <= s.len(),
    decreases s.len(),
{
    if s.len() > 0 {
        lemma_count_active_bound(s.drop_last());
    }
}

/// Puts `cmd` at position `idx` of `prog`, leaving every other command.
pub fn place(prog: &mut Program, idx: usize, cmd: Command)
    requires
        idx < old(prog).len(),
    ensures
        final(prog)@ == old(prog)@.update(idx as int, cmd),
{
    prog.set(idx, cmd);
}

/// The blank program: `PROGRAM_LEN` commands `NoOp(0, 0)`.
pub open spec fn blank_program() -> Seq<Command> {
    Seq::new(PROGRAM_LEN as nat, |i: int| Command::NoOp(0, 0))
}

/// The blank program after putting `cs[k]` at position `ps[k]`, for `k` in
/// order; a later command at a position replaces an earlier one.
pub open spec fn placed(ps: Seq<usize>, cs: Seq<Command>) -> Seq<Command>
    decreases ps.len(),
{
    if ps.len() == 0 {
        blank_program()
    } else {
        placed(ps.drop_last(), cs.drop_last()).update(ps.last() as int, cs.last())
    }
}

/// Number of distinct values in a sequence of positions.
pub open spec fn distinct_count(ps: Seq<usize>) -> nat
    decreases ps.len(),
{
    if ps.len() == 0 {
        0
    } else {
        distinct_count(ps.drop_last()) + if ps.drop_last().contains(ps.last()) {
            0nat
        } else {
            1nat
        }
    }
}

/// Whether the placements are well formed: as many positions as commands,
/// every position inside a program, every command active.
pub open spec fn active_placements(ps: Seq<usize>, cs: Seq<Command>) -> bool {
    &&& ps.len() == cs.len()
    &&& forall|k: int| 0 <= k < ps.len() ==> #[trigger] ps[k] < PROGRAM_LEN
    &&& forall|k: int| 0 <= k < cs.len() ==> is_active(#[trigger] cs[k])
}

/// A program built by placements keeps the program length.
pub proof fn lemma_placed_len(ps: Seq<usize>, cs: Seq<Command>)
    requires
        forall|k: int| 0 <= k < ps.len() ==> #[trigger] ps[k] < PROGRAM_LEN,
    ensures
        placed(ps, cs).len() == PROGRAM_LEN,
    decreases ps.len(),
{
    if ps.len() > 0 {
        let ps0 = ps.drop_last();
        assert forall|k: int| 0 <= k < ps0.len() implies #[trigger] ps0[k] < PROGRAM_LEN by {
            assert(ps0[k] == ps[k]);
        }
        lemma_placed_len(ps0, cs.drop_last());
        assert(ps[ps.len() - 1] < PROGRAM_LEN);
    }
}

/// The number of distinct positions lies between 1 (for a non-empty
/// sequence) and the length.
pub proof fn lemma_distinct_count_bounds(ps: Seq<usize>)
    ensures
        distinct_count(ps) <= ps.len(),
        ps.len() > 0 ==> distinct_count(ps) >= 1,
    decreases ps.len(),
{
    if ps.len() > 0 {
        lemma_distinct_count_bounds(ps.drop_last());
    }
}

/// Placing active commands over the blank program: a position holds an
/// active command exactly when it was drawn, every other one still holds
/// `NoOp(0, 0)`, and the active count is the number of distinct positions.
pub proof fn lemma_placed_active(ps: Seq<usize>, cs: Seq<Command>)
    requires
        active_placements(ps, cs),
    ensures
        count_active(placed(ps, cs)) == distinct_count(ps),
        forall|i: int|
            0 <= i < PROGRAM_LEN ==> (is_active(#[trigger] placed(ps, cs)[i]) <==> ps.contains(
                i as usize,
            )),
        forall|i: int|
            0 <= i < PROGRAM_LEN ==> #[trigger] placed(ps, cs)[i] == Command::NoOp(0, 0)
                || is_active(placed(ps, cs)[i]),
    decreases ps.len(),
{
    lemma_placed_len(ps, cs);
    if ps.len() == 0 {
        lemma_count_active_none(blank_program());
    } else {
        let ps0 = ps.drop_last();
        let cs0 = cs.drop_last();
        let p = ps.last();
        let c = cs.last();
        assert(active_placements(ps0, cs0)) by {
            assert forall|k: int| 0 <= k < ps0.len() implies #[trigger] ps0[k] < PROGRAM_LEN by {
                assert(ps0[k] == ps[k]);
            }
            assert forall|k: int| 0 <= k < cs0.len() implies is_active(#[trigger] cs0[k]) by {
                assert(cs0[k] == cs[k]);
            }
        }
        lemma_placed_active(ps0, cs0);
        lemma_placed_len(ps0, cs0);
        let before = placed(ps0, cs0);
        assert(p < PROGRAM_LEN) by {
            assert(ps[ps.len() - 1] < PROGRAM_LEN);
        }
        assert(is_active(c)) by {
            assert(is_active(cs[cs.len() - 1]));
        }
        lemma_count_active_update(before, p as int, c);
        assert forall|i: usize| #[trigger] ps.contains(i) <==> ps0.contains(i) || i == p by {
            if ps0.contains(i) {
                let k = choose|k: int| 0 <= k < ps0.len() && ps0[k] == i;
                assert(ps[k] == i);
            }
            if i == p {
                assert(ps[ps.len() - 1] == i);
            }
            if ps.contains(i) && i != p {
                let k = choose|k: int| 0 <= k < ps.len() && ps[k] == i;
                assert(k < ps.len() - 1);
                assert(ps0[k] == i);
            }
        }
        assert forall|i: int| 0 <= i < PROGRAM_LEN implies (is_active(
            #[trigger] placed(ps, cs)[i],
        ) <==> ps.contains(i as usize)) by {
            assert(ps.contains(i as usize) <==> ps0.contains(i as usize) || i as usize == p);
        }
    }
}

/// Builds a program from placements: the blank program with `commands[k]`
/// put at `positions[k]`, for `k` in order.
pub fn program_from_placements(positions: &Vec<usize>, commands: &Vec<Command>) -> (prog: Program)
    requires
        positions.len() == commands.len(),
        forall|k: int| 0 <= k < positions.len() ==> #[trigger] positions@[k] < PROGRAM_LEN,
    ensures
        prog@ == placed(positions@, commands@),
{
    let mut prog: Program = Vec::new();
    let mut i: usize = 0;
    while i < PROGRAM_LEN
        invariant
            i <= PROGRAM_LEN,
            prog@ == blank_program().subrange(0, i as int),
        decreases PROGRAM_LEN - i,
    {
        prog.push(Command::NoOp(0, 0));
        i = i + 1;
    }
    assert(prog@ == blank_program());
    let mut k: usize = 0;
    while k < positions.len()
        invariant
            k <= positions.len(),
            positions.len() == commands.len(),
            forall|j: int| 0 <= j < positions.len() ==> #[trigger] positions@[j] < PROGRAM_LEN,
            prog@ == placed(positions@.subrange(0, k as int), commands@.subrange(0, k as int)),
        decreases positions.len() - k,
    {
        let ghost ps = positions@.subrange(0, k + 1);
        let ghost cs = commands@.subrange(0, k + 1);
        assert(ps.drop_last() == positions@.subrange(0, k as int));
        assert(cs.drop_last() == commands@.subrange(0, k as int));
        proof {
            let ps0 = positions@.subrange(0, k as int);
            assert forall|j: int| 0 <= j < ps0.len() implies #[trigger] ps0[j] < PROGRAM_LEN by {
                assert(ps0[j] == positions@[j]);
            }
            lemma_placed_len(ps0, commands@.subrange(0, k as int));
        }
        place(&mut prog, positions[k], commands[k]);
        k = k + 1;
    }
    assert(positions@.subrange(0, positions.len() as int) == positions@);
    assert(commands@.subrange(0, commands.len() as int) == commands@);
    prog
}

/// A program of `PROGRAM_LEN` `NoOp(0, 0)` commands in which, for each of
/// `min(active, PROGRAM_LEN)` rounds, a random position (drawn with
/// repetition) receives a random active command. The active commands are
/// those of the distinct drawn positions; every other command is `NoOp(0, 0)`.
pub fn random_program(rng: &mut StdRng, active: usize) -> (prog: Program)
    ensures
        prog.len() == PROGRAM_LEN,
        exists|ps: Seq<usize>, cs: Seq<Command>|
            {
                &&& ps.len() == if active < PROGRAM_LEN {
                    active as int
                } else {
                    PROGRAM_LEN as int
                }
                &&& active_placements(ps, cs)
                &&& prog@ == #[trigger] placed(ps, cs)
                &&& count_active(prog@) == distinct_count(ps)
            },
        forall|i: int|
            0 <= i < PROGRAM_LEN ==> #[trigger] prog@[i] == Command::NoOp(0, 0) || is_active(
                prog@[i],
            ),
        count_active(prog@) <= active,
        count_active(prog@) <= PROGRAM_LEN,
        active > 0 ==> count_active(prog@) >= 1,
{
    let rounds: usize = if active < PROGRAM_LEN {
        active
    } else {
        PROGRAM_LEN
    };
    let mut positions: Vec<usize> = Vec::new();
    let mut commands: Vec<Command> = Vec::new();
    let mut k: usize = 0;
    while k < rounds
        invariant
            k <= rounds,
            positions.len() == k,
            active_placements(positions@, commands@),
        decreases rounds - k,
    {
        let idx = random_below(rng, PROGRAM_LEN);
        let cmd = random_active_command(rng);
        positions.push(idx);
        commands.push(cmd);
        assert(positions@[k as int] < PROGRAM_LEN);
        assert(is_active(commands@[k as int]));
        k = k + 1;
    }
    let prog = program_from_placements(&positions, &commands);
    proof {
        lemma_placed_len(positions@, commands@);
        lemma_placed_active(positions@, commands@);
        lemma_distinct_count_bounds(positions@);
    }
    prog
}

/// The offsets of a tweak: `da` drawn from `-m..=m`, and for `MoveTo` then
/// `db` from the same range, where `m` is `max_delta` clamped to `1..=127`;
/// `db` is 0 for every other kind.
fn draw_offsets(cmd: &Command, rng: &mut StdRng, max_delta: i32) -> (r: (i32, i32))
    ensures
        -step_bound(max_delta as int) <= r.0 <= step_bound(max_delta as int),
        -step_bound(max_delta as int) <= r.1 <= step_bound(max_delta as int),
        !(cmd is MoveTo) ==> r.1 == 0,
{
    let m: i32 = if max_delta < 1 {
        1
    } else if max_delta > 127 {
        127
    } else {
        max_delta
    };
    let da = random_offset(rng, -m, m);
    let db = match *cmd {
        Command::MoveTo(_, _) => random_offset(rng, -m, m),
        _ => 0,
    };
    (da, db)
}

/// The program after one proposal: `prog` with position `idx` replaced by the
/// tweak of its command by `(da, db)` when `local`, and by `fresh` otherwise.
pub open spec fn proposal(
    prog: Seq<Command>,
    idx: int,
    local: bool,
    da: int,
    db: int,
    fresh: Command,
) -> Seq<Command> {
    prog.update(
        idx,
        if local {
            tuned(prog[idx], da, db)
        } else {
            fresh
        },
    )
}

/// Makes the proposal chosen by the draws: position `idx` of a copy of `prog`
/// receives the tweak of its command by `(da, db)` when `local` holds, and
/// `fresh` otherwise.
pub fn mutate_with(prog: &Program, idx: usize, local: bool, da: i32, db: i32, fresh: Command) -> (next: Program)
    requires
        idx < prog.len(),
    ensures
        next@ == proposal(prog@, idx as int, local, da as int, db as int, fresh),
        next.len() == prog.len(),
        forall|i: int| 0 <= i < prog.len() && i != idx ==> #[trigger] next@[i] == prog@[i],
        !local ==> next@[idx as int] == fresh,
        local ==> kind_of(next@[idx as int]) == kind_of(prog@[idx as int]),
        local ==> (params_of(next@[idx as int]).0 as int - params_of(prog@[idx as int]).0 as int
            - da as int) % 256 == 0,
        local && prog@[idx as int] is MoveTo ==> (params_of(next@[idx as int]).1 as int
            - params_of(prog@[idx as int]).1 as int - db as int) % 256 == 0,
        local && !(prog@[idx as int] is MoveTo) ==> params_of(next@[idx as int]).1 == params_of(
            prog@[idx as int],
        ).1,
{
    let mut p: Program = Vec::new();
    let mut i: usize = 0;
    while i < prog.len()
        invariant
            i <= prog.len(),
            p@ == prog@.subrange(0, i as int),
        decreases prog.len() - i,
    {
        p.push(prog[i]);
        i = i + 1;
    }
    assert(p@ == prog@);
    let cmd = if local {
        tune_command(&prog[idx], da, db)
    } else {
        fresh
    };
    place(&mut p, idx, cmd);
    p
}

/// A proposal of the search: a random position is drawn, then a coin with
/// chance 7 in 10; on heads the command there is tweaked as `tune_parameter`
/// does with `max_delta`, on tails it is replaced by a fresh random command.
/// Every other position keeps its command.
pub fn mutate(prog: &Program, rng: &mut StdRng, max_delta: i32) -> (next: Program)
    requires
        prog.len() == PROGRAM_LEN,
    ensures
        next.len() == PROGRAM_LEN,
        exists|idx: int, local: bool, da: int, db: int, fresh: Command|
            {
                &&& 0 <= idx < PROGRAM_LEN
                &&& -step_bound(max_delta as int) <= da <= step_bound(max_delta as int)
                &&& -step_bound(max_delta as int) <= db <= step_bound(max_delta as int)
                &&& next@ == #[trigger] proposal(prog@, idx, local, da, db, fresh)
            },
{
    let idx = random_below(rng, PROGRAM_LEN);
    if random_ratio(rng, 7, 10) {
        let (da, db) = draw_offsets(&prog[idx], rng, max_delta);
        mutate_with(prog, idx, true, da, db, prog[idx])
    } else {
        let fresh = random_command(rng);
        mutate_with(prog, idx, false, 0, 0, fresh)
    }
}

} // verus!
