use morph::dsl::{
    active_len, build, mutate, mutate_with, place, program_from_placements,
    random_active_command, random_command, random_program, tune_command, tune_parameter,
    Command, PROGRAM_LEN,
};
use rand::rngs::StdRng;
use rand::SeedableRng;

fn kind(c: &Command) -> usize {
    match c {
        Command::NoOp(_, _) => 0,
        Command::Forward(_, _) => 1,
        Command::Turn(_, _) => 2,
        Command::SetAngle(_, _) => 3,
        Command::MoveTo(_, _) => 4,
        Command::SetWidth(_, _) => 5,
        Command::SetColor(_, _) => 6,
    }
}

fn params(c: &Command) -> (u8, u8) {
    match *c {
        Command::NoOp(a, b)
        | Command::Forward(a, b)
        | Command::Turn(a, b)
        | Command::SetAngle(a, b)
        | Command::MoveTo(a, b)
        | Command::SetWidth(a, b)
        | Command::SetColor(a, b) => (a, b),
    }
}

#[test]
fn build_every_kind() {
    assert_eq!(build(0, 1, 2), Command::NoOp(1, 2));
    assert_eq!(build(1, 1, 2), Command::Forward(1, 2));
    assert_eq!(build(2, 1, 2), Command::Turn(1, 2));
    assert_eq!(build(3, 1, 2), Command::SetAngle(1, 2));
    assert_eq!(build(4, 1, 2), Command::MoveTo(1, 2));
    assert_eq!(build(5, 1, 2), Command::SetWidth(1, 2));
    assert_eq!(build(6, 1, 2), Command::SetColor(1, 2));
    assert_eq!(build(7, 9, 8), Command::SetColor(9, 8));
    assert_eq!(build(usize::MAX, 0, 255), Command::SetColor(0, 255));
}

#[test]
fn active_len_counts_non_noops() {
    assert_eq!(active_len(&Vec::new()), 0);
    let prog = vec![
        Command::NoOp(3, 4),
        Command::Forward(1, 1),
        Command::NoOp(0, 0),
        Command::SetColor(200, 0),
        Command::MoveTo(5, 6),
    ];
    assert_eq!(active_len(&prog), 3);
    assert_eq!(active_len(&vec![Command::NoOp(0, 0); PROGRAM_LEN]), 0);
}

#[test]
fn tune_command_wraps_around() {
    assert_eq!(tune_command(&Command::Forward(250, 7), 10, 99), Command::Forward(4, 7));
    assert_eq!(tune_command(&Command::Turn(3, 7), -5, 0), Command::Turn(254, 7));
    assert_eq!(tune_command(&Command::MoveTo(0, 255), -1, 1), Command::MoveTo(255, 0));
    assert_eq!(tune_command(&Command::NoOp(10, 20), 0, 5), Command::NoOp(10, 20));
    assert_eq!(tune_command(&Command::SetWidth(0, 0), i32::MIN, 0), Command::SetWidth(0, 0));
    assert_eq!(tune_command(&Command::SetWidth(0, 0), i32::MAX, 0), Command::SetWidth(255, 0));
}

#[test]
fn tune_command_is_undone_by_opposite_offsets() {
    let cmds = [
        Command::MoveTo(17, 240),
        Command::SetAngle(0, 9),
        Command::SetColor(255, 1),
    ];
    for c in cmds.iter() {
        for (da, db) in [(5, -7), (127, -127), (-100, 30)] {
            let t = tune_command(c, da, db);
            assert_eq!(tune_command(&t, -da, -db), *c);
        }
    }
}

#[test]
fn random_commands_cover_all_kinds() {
    let mut rng = StdRng::seed_from_u64(7);
    let mut seen = [false; 7];
    let mut bytes = std::collections::HashSet::new();
    for _ in 0..500 {
        let c = random_command(&mut rng);
        seen[kind(&c)] = true;
        bytes.insert(params(&c).0);
    }
    assert!(seen.iter().all(|s| *s));
    assert!(bytes.len() > 100);
}

#[test]
fn random_active_commands_are_never_noops() {
    let mut rng = StdRng::seed_from_u64(11);
    let mut seen = [false; 7];
    for _ in 0..500 {
        let c = random_active_command(&mut rng);
        assert_ne!(kind(&c), 0);
        seen[kind(&c)] = true;
    }
    assert!(seen[1..].iter().all(|s| *s));
}

#[test]
fn tune_parameter_stays_within_bound() {
    let mut rng = StdRng::seed_from_u64(3);
    let mut moved = std::collections::HashSet::new();
    for _ in 0..300 {
        let t = tune_parameter(&Command::Forward(100, 42), &mut rng, 5);
        match t {
            Command::Forward(a, b) => {
                assert!((95..=105).contains(&a));
                assert_eq!(b, 42);
                moved.insert(a);
            }
            _ => panic!("kind changed"),
        }
    }
    // offsets are drawn, not fixed
    assert!(moved.len() > 5);
}

#[test]
fn tune_parameter_clamps_its_bound() {
    let mut rng = StdRng::seed_from_u64(5);
    for _ in 0..200 {
        match tune_parameter(&Command::MoveTo(0, 128), &mut rng, -40) {
            Command::MoveTo(a, b) => {
                assert!(a == 255 || a == 0 || a == 1);
                assert!((127..=129).contains(&b));
            }
            _ => panic!("kind changed"),
        }
        match tune_parameter(&Command::Turn(128, 0), &mut rng, 100000) {
            Command::Turn(a, b) => {
                assert!(a >= 1);
                assert_eq!(b, 0);
            }
            _ => panic!("kind changed"),
        }
    }
}

#[test]
fn random_program_has_few_active_commands() {
    let mut rng = StdRng::seed_from_u64(42);
    let prog = random_program(&mut rng, 4);
    assert_eq!(prog.len(), PROGRAM_LEN);
    let n = active_len(&prog);
    assert!(n >= 1 && n <= 4);
    for c in prog.iter() {
        assert!(*c == Command::NoOp(0, 0) || kind(c) != 0);
    }
}

#[test]
fn random_program_edge_cases() {
    let mut rng = StdRng::seed_from_u64(1);
    let empty = random_program(&mut rng, 0);
    assert_eq!(empty, vec![Command::NoOp(0, 0); PROGRAM_LEN]);
    let full = random_program(&mut rng, 10_000);
    assert_eq!(full.len(), PROGRAM_LEN);
    let n = active_len(&full);
    assert!(n <= PROGRAM_LEN);
    // positions are drawn with repetition, so some are hit twice
    assert!(n > PROGRAM_LEN / 2 && n < PROGRAM_LEN);
}

#[test]
fn random_program_is_deterministic_per_seed() {
    let a = random_program(&mut StdRng::seed_from_u64(42), 16);
    let b = random_program(&mut StdRng::seed_from_u64(42), 16);
    assert_eq!(a, b);
}

#[test]
fn mutate_changes_one_position_at_most() {
    let mut rng = StdRng::seed_from_u64(9);
    let prog = random_program(&mut rng, 50);
    let mut changed_somewhere = false;
    for _ in 0..200 {
        let next = mutate(&prog, &mut rng, 8);
        assert_eq!(next.len(), PROGRAM_LEN);
        let diff = prog.iter().zip(next.iter()).filter(|(a, b)| a != b).count();
        assert!(diff <= 1);
        changed_somewhere |= diff == 1;
    }
    assert!(changed_somewhere);
}

#[test]
fn mutate_mixes_tweaks_and_replacements() {
    let mut rng = StdRng::seed_from_u64(21);
    let prog = vec![Command::Forward(128, 0); PROGRAM_LEN];
    let mut tweaks = 0;
    let mut others = 0;
    for _ in 0..1000 {
        let next = mutate(&prog, &mut rng, 1);
        for c in next.iter() {
            if *c != Command::Forward(128, 0) {
                match c {
                    Command::Forward(a, 0) if (127..=129).contains(a) => tweaks += 1,
                    _ => others += 1,
                }
            }
        }
    }
    // a tweak by offset 0 changes nothing, so about 1000 * 0.7 * 2/3 show
    assert!(tweaks > 380 && tweaks < 560);
    assert!(others > 220 && others < 380);
}

#[test]
fn small_offsets_never_alias() {
    for p in [0u8, 1, 127, 128, 200, 255] {
        let mut seen = std::collections::HashSet::new();
        for d in -127..=127 {
            match tune_command(&Command::SetWidth(p, 0), d, 0) {
                Command::SetWidth(a, _) => assert!(seen.insert(a)),
                _ => panic!("kind changed"),
            }
        }
        assert_eq!(seen.len(), 255);
    }
}

#[test]
fn random_program_with_one_active_command() {
    for seed in 0..20 {
        let prog = random_program(&mut StdRng::seed_from_u64(seed), 1);
        assert_eq!(active_len(&prog), 1);
    }
}

#[test]
fn place_puts_one_command() {
    let mut prog = vec![Command::NoOp(0, 0); 3];
    place(&mut prog, 1, Command::Turn(4, 5));
    assert_eq!(prog, vec![Command::NoOp(0, 0), Command::Turn(4, 5), Command::NoOp(0, 0)]);
}

#[test]
fn placements_apply_in_order() {
    let prog = program_from_placements(
        &vec![3, 511, 3],
        &vec![Command::Forward(1, 1), Command::MoveTo(2, 2), Command::SetColor(3, 3)],
    );
    assert_eq!(prog.len(), PROGRAM_LEN);
    assert_eq!(prog[3], Command::SetColor(3, 3));
    assert_eq!(prog[511], Command::MoveTo(2, 2));
    assert_eq!(prog[0], Command::NoOp(0, 0));
    // active commands sit at the distinct drawn positions
    assert_eq!(active_len(&prog), 2);
    assert_eq!(program_from_placements(&Vec::new(), &Vec::new()), vec![Command::NoOp(0, 0); PROGRAM_LEN]);
}

#[test]
fn mutate_with_tweaks_or_replaces_the_given_position() {
    let prog = vec![Command::MoveTo(10, 250); PROGRAM_LEN];
    let tweaked = mutate_with(&prog, 7, true, -11, 9, Command::NoOp(1, 1));
    assert_eq!(tweaked[7], Command::MoveTo(255, 3));
    let replaced = mutate_with(&prog, 7, false, -11, 9, Command::NoOp(1, 1));
    assert_eq!(replaced[7], Command::NoOp(1, 1));
    for i in 0..PROGRAM_LEN {
        if i != 7 {
            assert_eq!(tweaked[i], prog[i]);
            assert_eq!(replaced[i], prog[i]);
        }
    }
}
