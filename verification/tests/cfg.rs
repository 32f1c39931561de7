use yacht::exec::instruction::{Instruction, Transfer};
use yacht::exec::jit::cfg::{check_targets, BasicBlock, BrKind, CFGMaker};

const NOP: Instruction = Instruction::Pop;

fn br(target: usize) -> Instruction {
    Instruction::Br { target }
}

fn brtrue(target: usize) -> Instruction {
    Instruction::Brtrue { target }
}

fn cond(taken: usize, not_taken: usize) -> BrKind {
    BrKind::ConditionalJmp { destinations: vec![taken, not_taken] }
}

/// Start, end and kind of each block.
fn blocks(code: &[Instruction]) -> Vec<(usize, usize, BrKind)> {
    assert!(check_targets(code));
    let blocks: Vec<BasicBlock> = CFGMaker::new().make_basic_blocks(code);
    for b in &blocks {
        assert!(!b.generated);
        assert_eq!(b.code, code[b.start..b.code_end_position()].to_vec());
    }
    blocks.iter().map(|b| (b.start, b.code_end_position(), b.kind.clone())).collect()
}

#[test]
fn straight_code_is_one_block() {
    let code = [Instruction::Ldc_I4_0, NOP, Instruction::Ret];
    assert_eq!(blocks(&code), vec![(0, 3, BrKind::BlockStart)]);
    assert_eq!(blocks(&[]), vec![(0, 0, BrKind::BlockStart)]);
}

#[test]
fn a_conditional_branch_has_two_destinations() {
    // if (x) { nop }
    let code = [Instruction::Ldarg_0, Instruction::Brfalse { target: 3 }, NOP, Instruction::Ret];
    assert_eq!(
        blocks(&code),
        vec![
            (0, 2, cond(3, 2)),
            (2, 3, BrKind::JmpRequired { destination: 3 }),
            (3, 4, BrKind::BlockStart),
        ]
    );
}

#[test]
fn a_loop_is_cut_at_its_head() {
    // br 3; nop; nop; ldarg; ldarg; blt 1; ret
    let code = [
        br(3),
        NOP,
        NOP,
        Instruction::Ldarg_0,
        Instruction::Ldarg_1,
        Instruction::Blt { target: 1 },
        Instruction::Ret,
    ];
    assert_eq!(
        blocks(&code),
        vec![
            (0, 1, BrKind::UnconditionalJmp { destination: 3 }),
            (1, 3, BrKind::JmpRequired { destination: 3 }),
            (3, 6, cond(1, 6)),
            (6, 7, BrKind::BlockStart),
        ]
    );
}

#[test]
fn code_that_cannot_be_reached_belongs_to_no_block() {
    let code = [br(3), NOP, NOP, Instruction::Ret];
    assert_eq!(
        blocks(&code),
        vec![
            (0, 1, BrKind::UnconditionalJmp { destination: 3 }),
            (3, 4, BrKind::BlockStart),
        ]
    );
}

#[test]
fn every_branch_cuts() {
    let branches = [
        Instruction::Bge { target: 3 },
        Instruction::Bgt { target: 3 },
        Instruction::Ble { target: 3 },
        Instruction::Blt { target: 3 },
        Instruction::Beq { target: 3 },
        Instruction::Bne_un { target: 3 },
        Instruction::Brfalse { target: 3 },
        Instruction::Brtrue { target: 3 },
    ];
    for branch in branches.iter() {
        assert_eq!(branch.transfer(), Transfer::Conditional { target: 3 });
        assert_eq!(
            blocks(&[NOP, *branch, NOP, Instruction::Ret]),
            vec![
                (0, 2, cond(3, 2)),
                (2, 3, BrKind::JmpRequired { destination: 3 }),
                (3, 4, BrKind::BlockStart),
            ]
        );
    }
    assert_eq!(br(1).transfer(), Transfer::Always { target: 1 });
    assert_eq!(Instruction::Ret.transfer(), Transfer::Next);
}

#[test]
fn a_branch_behind_the_last_instruction_opens_an_empty_block() {
    assert_eq!(
        blocks(&[brtrue(1)]),
        vec![(0, 1, cond(1, 1)), (1, 1, BrKind::BlockStart)]
    );
    assert_eq!(
        blocks(&[NOP, br(2)]),
        vec![
            (0, 2, BrKind::UnconditionalJmp { destination: 2 }),
            (2, 2, BrKind::BlockStart),
        ]
    );
}

#[test]
fn a_branch_that_is_entered_from_behind_is_in_two_blocks() {
    // the branch at 1 is the target of the one at 2
    let code = [NOP, brtrue(3), br(1), Instruction::Ret];
    assert_eq!(
        blocks(&code),
        vec![
            (0, 2, cond(3, 2)),
            (1, 2, BrKind::JmpRequired { destination: 2 }),
            (2, 3, BrKind::UnconditionalJmp { destination: 1 }),
            (3, 4, BrKind::BlockStart),
        ]
    );
    // a branch to itself
    assert_eq!(
        blocks(&[br(0), Instruction::Ret]),
        vec![
            (0, 1, BrKind::UnconditionalJmp { destination: 0 }),
            (0, 2, BrKind::BlockStart),
        ]
    );
}

#[test]
fn every_destination_has_a_block() {
    let code = [
        Instruction::Ldarg_0,
        brtrue(6),
        NOP,
        Instruction::Bge { target: 8 },
        NOP,
        br(2),
        NOP,
        br(8),
        Instruction::Ret,
    ];
    let all = blocks(&code);
    let starts: Vec<usize> = all.iter().map(|b| b.0).collect();
    assert_eq!(starts, vec![0, 2, 4, 6, 8]);
    for (_, end, kind) in &all {
        match kind {
            BrKind::ConditionalJmp { destinations } => {
                assert_eq!(kind.get_conditional_jump_destinations(), destinations);
                assert!(destinations.iter().all(|d| starts.contains(d)));
            }
            BrKind::UnconditionalJmp { destination } | BrKind::JmpRequired { destination } => {
                assert_eq!(kind.get_unconditional_jump_destination(), *destination);
                assert!(starts.contains(destination));
            }
            BrKind::BlockStart => assert_eq!(*end, code.len()),
        }
    }
}

#[test]
fn what_belongs_to_no_block_lies_behind_a_br() {
    let code = [
        Instruction::Ldarg_0,
        brtrue(5),
        br(8),
        NOP,
        NOP,
        NOP,
        br(9),
        NOP,
        NOP,
        Instruction::Ret,
    ];
    let all = blocks(&code);
    for k in 0..code.len() {
        let covered = all.iter().any(|b| b.0 <= k && k < b.1);
        let passed_by = (0..k).any(|p| {
            matches!(code[p], Instruction::Br { .. })
                && !all.iter().any(|b| p < b.0 && b.0 <= k)
        });
        assert_eq!(covered, !passed_by);
        assert_eq!(covered, ![3, 4, 7].contains(&k));
    }
    // a branch to itself is in the middle of a block
    assert_eq!(blocks(&[br(0), NOP])[1], (0, 2, BrKind::BlockStart));
}

#[test]
fn only_the_last_block_can_be_empty_or_end_with_the_body() {
    for code in [
        vec![],
        vec![brtrue(1)],
        vec![br(0), Instruction::Ret],
        vec![NOP, brtrue(3), br(1), Instruction::Ret],
        vec![brtrue(3), brtrue(3), br(0)],
    ] {
        let all = blocks(&code);
        for (start, end, kind) in &all[..all.len() - 1] {
            assert!(start < end);
            assert_ne!(*kind, BrKind::BlockStart);
        }
    }
}

#[test]
fn targets_are_checked() {
    assert!(check_targets(&[br(1)]));
    assert!(!check_targets(&[br(2)]));
    assert!(!check_targets(&[NOP, brtrue(3)]));
    assert!(check_targets(&[]));
}
