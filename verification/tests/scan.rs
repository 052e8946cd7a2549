use block_matcher::find_matches;
use block_matcher::BlockInfo;
use block_matcher::Instruction;
use block_matcher::Instruction::{And, Begin, End, If, Not, Or, Push};
use block_matcher::MatchError;
use block_matcher::Registry;

#[test]
fn no_blocks_found() {
    let register = default_register();
    let program = vec![];

    let result = find_matches(&register, &program);

    assert_eq!(MatchError::EmptyProgram, result.unwrap_err())
}

#[test]
fn not_opened_block() {
    let register = default_register();
    let program = vec![Or, End, Push(1), End];

    let result = find_matches(&register, &program);

    assert_eq!(
        "Invalid block: Attempt to close the non-existent block, at the position: 1",
        result.unwrap_err().to_string()
    )
}

#[test]
fn not_closed_block() {
    let register = default_register();
    let program = vec![Begin, Push(2), If, End, If];

    let result = find_matches(&register, &program);

    assert_eq!(
        "Invalid block: Next blocks weren't be closed. The start blocks positions: [0, 4]",
        result.unwrap_err().to_string()
    )
}

#[test]
fn correct_program() {
    let known_blocks = default_register();

    let program = vec![
        Begin,
        If,
        Push(2),
        Push(3),
        End,
        If,
        If,
        End,
        Push(1),
        End,
        End,
    ];

    let expected = vec![matched(1, 2), matched(6, 3), not_matched(5), not_matched(0)];
    let result = find_matches(&known_blocks, &program);

    assert_eq!(expected, result.unwrap());
}

#[test]
fn big_correct_program() {
    let deeps_lvl = 1000;
    let register = default_register();
    let program = create_program(deeps_lvl);

    let result = find_matches(&register, &program).unwrap();

    assert_eq!(deeps_lvl, result.len() - 1);
    assert_eq!(&not_matched(0), result.get(deeps_lvl).unwrap());
    assert_eq!(&matched(deeps_lvl * 2 - 1, 2), result.get(0).unwrap());
}

#[test]
fn empty_program_with_empty_registry() {
    let register: Vec<&'static [Instruction]> = Vec::new();
    let program: Vec<Instruction> = Vec::new();

    assert_eq!(Err(MatchError::EmptyProgram), find_matches(&register, &program));
}

#[test]
fn single_unmatched_end() {
    let register = default_register();
    let program = vec![Or, End];

    assert_eq!(Err(MatchError::UnopenedClose(1)), find_matches(&register, &program));
}

#[test]
fn end_as_first_instruction() {
    let register = default_register();
    let program = vec![End, Begin, End];

    assert_eq!(Err(MatchError::UnopenedClose(0)), find_matches(&register, &program));
}

#[test]
fn unopened_close_after_closed_blocks() {
    let register = default_register();
    let program = vec![If, End, Begin, Push(1), End, End, Begin];

    assert_eq!(Err(MatchError::UnopenedClose(5)), find_matches(&register, &program));
}

#[test]
fn unopened_close_wins_over_open_blocks() {
    let register = default_register();
    let program = vec![Begin, End, End, If, If];

    assert_eq!(Err(MatchError::UnopenedClose(2)), find_matches(&register, &program));
}

#[test]
fn opener_without_closer() {
    let register = default_register();
    let program = vec![Begin];

    assert_eq!(Err(MatchError::UnclosedBlocks(vec![0])), find_matches(&register, &program));
}

#[test]
fn unclosed_blocks_in_open_order() {
    let register = default_register();
    let program = vec![Begin, Push(2), If, End, If, Begin, If, End, Not];

    assert_eq!(
        Err(MatchError::UnclosedBlocks(vec![0, 4, 5])),
        find_matches(&register, &program)
    );
}

#[test]
fn program_without_blocks_is_well_nested() {
    let register = default_register();
    let program = vec![Push(1), Or, And, Not];

    assert_eq!(Ok(Vec::new()), find_matches(&register, &program));
}

#[test]
fn one_block_per_end() {
    let register = default_register();
    let program = vec![If, End, Begin, If, Push(2), Push(3), End, Not, End, If, End];
    let ends = program.iter().filter(|instruction| **instruction == End).count();

    let result = find_matches(&register, &program).unwrap();

    assert_eq!(4, ends);
    assert_eq!(ends, result.len());
}

#[test]
fn blocks_come_in_order_of_their_ends() {
    let register = default_register();
    let program = vec![Begin, If, End, If, Begin, End, End, End, If, End];

    let result = find_matches(&register, &program).unwrap();

    let starts: Vec<usize> = result.iter().map(|block| block.block_start_idx).collect();
    assert_eq!(vec![1, 4, 3, 0, 8], starts);
    let ends: Vec<usize> = starts.iter().map(|start| closing_end(&program, *start)).collect();
    assert_eq!(vec![2, 5, 6, 7, 9], ends);
}

#[test]
fn sequential_blocks_are_matched_one_by_one() {
    let register = default_register();
    let program = vec![Begin, Push(1), End, If, End, If, Push(2), Not, Push(3), End];

    let expected = vec![matched(0, 0), matched(3, 3), matched(5, 1)];

    assert_eq!(Ok(expected), find_matches(&register, &program));
}

#[test]
fn changed_push_value_is_not_matched() {
    let register = default_register();
    let known = vec![If, Push(2), Push(3), End];
    let changed = vec![If, Push(2), Push(4), End];

    assert_eq!(Ok(vec![matched(0, 2)]), find_matches(&register, &known));
    assert_eq!(Ok(vec![not_matched(0)]), find_matches(&register, &changed));
}

#[test]
fn changed_opener_is_not_matched() {
    let register = default_register();
    let known = vec![Begin, Push(1), End];
    let changed = vec![If, Push(1), End];

    assert_eq!(Ok(vec![matched(0, 0)]), find_matches(&register, &known));
    assert_eq!(Ok(vec![not_matched(0)]), find_matches(&register, &changed));
}

#[test]
fn changed_instruction_can_match_another_entry() {
    let register = default_register();
    let known = vec![If, Push(2), Not, Push(3), End];
    let shorter = vec![If, Push(2), Push(3), End];

    assert_eq!(Ok(vec![matched(0, 1)]), find_matches(&register, &known));
    assert_eq!(Ok(vec![matched(0, 2)]), find_matches(&register, &shorter));
}

#[test]
fn changed_push_value_can_match_another_entry() {
    let one: &[Instruction] = &[If, Push(1), End];
    let two: &[Instruction] = &[If, Push(2), End];
    let register = vec![one, two];
    let known = vec![If, Push(1), End];
    let changed = vec![If, Push(2), End];
    let unknown = vec![If, Push(3), End];

    assert_eq!(Ok(vec![matched(0, 0)]), find_matches(&register, &known));
    assert_eq!(Ok(vec![matched(0, 1)]), find_matches(&register, &changed));
    assert_eq!(Ok(vec![not_matched(0)]), find_matches(&register, &unknown));
}

#[test]
fn prefix_and_suffix_of_a_known_block_are_not_matched() {
    let register = default_register();
    let longer = vec![If, Push(2), Push(3), Not, End];
    let shorter = vec![If, Push(2), End];

    assert_eq!(Ok(vec![not_matched(0)]), find_matches(&register, &longer));
    assert_eq!(Ok(vec![not_matched(0)]), find_matches(&register, &shorter));
}

#[test]
fn equal_blocks_at_different_positions_match_the_same_entry() {
    let register = default_register();
    let program = vec![If, End, Not, Begin, If, End, Or, If, End, End];

    let expected = vec![matched(0, 3), matched(4, 3), matched(7, 3), not_matched(3)];

    assert_eq!(Ok(expected), find_matches(&register, &program));
}

#[test]
fn nested_block_is_part_of_the_outer_shape() {
    let outer: &[Instruction] = &[Begin, If, Push(7), End, End];
    let inner: &[Instruction] = &[If, Push(7), End];
    let register = vec![outer, inner];
    let program = vec![Begin, If, Push(7), End, End];

    let expected = vec![matched(1, 1), matched(0, 0)];

    assert_eq!(Ok(expected), find_matches(&register, &program));
}

#[test]
fn repeated_entry_is_reported_at_its_last_position() {
    let first: &[Instruction] = &[If, End];
    let other: &[Instruction] = &[Begin, End];
    let again: &[Instruction] = &[If, End];
    let register = vec![first, other, again];
    let program = vec![If, End, Begin, End];

    let expected = vec![matched(0, 2), matched(2, 1)];

    assert_eq!(Ok(expected), find_matches(&register, &program));
}

#[test]
fn empty_registry_matches_nothing() {
    let register: Vec<&'static [Instruction]> = Vec::new();
    let program = vec![Begin, If, End, End];

    let expected = vec![not_matched(1), not_matched(0)];

    assert_eq!(Ok(expected), find_matches(&register, &program));
}

#[test]
fn same_input_gives_same_result() {
    let register = default_register();
    let well_nested = vec![Begin, If, Push(2), Push(3), End, End];
    let unopened = vec![Begin, End, End];
    let unclosed = vec![Begin, If, End];

    assert_eq!(find_matches(&register, &well_nested), find_matches(&register, &well_nested));
    assert_eq!(find_matches(&register, &unopened), find_matches(&register, &unopened));
    assert_eq!(find_matches(&register, &unclosed), find_matches(&register, &unclosed));
}

#[test]
fn registry_is_reusable_across_scans() {
    let known_blocks = default_register();
    let registry = Registry::new(&known_blocks);
    let first = vec![If, End];
    let second = vec![Begin, Push(1), End, End];
    let third = vec![If, Push(2), Push(3), End];

    assert_eq!(Ok(vec![matched(0, 3)]), registry.scan(&first));
    assert_eq!(Err(MatchError::UnopenedClose(3)), registry.scan(&second));
    assert_eq!(Ok(vec![matched(0, 2)]), registry.scan(&third));
    assert_eq!(find_matches(&known_blocks, &first), registry.scan(&first));
}

#[test]
fn scan_of_empty_program_is_refused() {
    let known_blocks = default_register();
    let registry = Registry::new(&known_blocks);
    let program: Vec<Instruction> = Vec::new();

    assert_eq!(Err(MatchError::EmptyProgram), registry.scan(&program));
}

#[test]
fn deep_nesting_of_every_depth() {
    let register = default_register();
    for deeps_lvl in 1..40 {
        let program = create_program(deeps_lvl);

        let result = find_matches(&register, &program).unwrap();

        assert_eq!(deeps_lvl + 1, result.len());
        assert_eq!(matched(deeps_lvl * 2 - 1, 2), result[0]);
        assert_eq!(not_matched(0), result[deeps_lvl]);
        for level in 1..deeps_lvl {
            assert_eq!(not_matched((deeps_lvl - level) * 2 - 1), result[level]);
        }
    }
}

fn matched(block_start_idx: usize, registry_idx: usize) -> BlockInfo {
    BlockInfo {
        block_start_idx,
        registry_idx: Some(registry_idx),
    }
}

fn not_matched(block_start_idx: usize) -> BlockInfo {
    BlockInfo {
        block_start_idx,
        registry_idx: None,
    }
}

fn default_register() -> Vec<&'static [Instruction]> {
    let mut known_blocks: Vec<&'static [Instruction]> = Vec::new();
    known_blocks.push(&[Begin, Push(1), End]);
    known_blocks.push(&[If, Push(2), Not, Push(3), End]);
    known_blocks.push(&[If, Push(2), Push(3), End]);
    known_blocks.push(&[If, End]);
    known_blocks
}

/// Creates a program with specified deeps level.
fn create_program(deeps_lvl: usize) -> Vec<Instruction> {
    let mut program = vec![Begin];
    for _idx in 0..deeps_lvl {
        program.push(If);
        program.push(Push(2));
    }
    for _idx in 0..deeps_lvl {
        program.push(Push(3));
        program.push(End);
    }
    program.push(End);
    program
}

/// The position of the `End` that brings the nesting back to where it was
/// before the opener at `start`.
fn closing_end(program: &[Instruction], start: usize) -> usize {
    let mut open = 0usize;
    for (position, instruction) in program.iter().enumerate().skip(start) {
        match instruction {
            If | Begin => open += 1,
            End => open -= 1,
            Push(_) | Or | And | Not => {}
        }
        if open == 0 {
            return position;
        }
    }
    program.len()
}
