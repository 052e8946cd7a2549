use block_matcher::MatchError;

#[test]
fn text_of_empty_program() {
    assert_eq!(
        "Input program should contain at least one block",
        MatchError::EmptyProgram.to_string()
    );
}

#[test]
fn text_of_unopened_close() {
    assert_eq!(
        "Invalid block: Attempt to close the non-existent block, at the position: 0",
        MatchError::UnopenedClose(0).to_string()
    );
    assert_eq!(
        "Invalid block: Attempt to close the non-existent block, at the position: 7",
        MatchError::UnopenedClose(7).to_string()
    );
}

#[test]
fn text_writes_positions_in_decimal() {
    assert_eq!(
        "Invalid block: Attempt to close the non-existent block, at the position: 10",
        MatchError::UnopenedClose(10).to_string()
    );
    assert_eq!(
        "Invalid block: Attempt to close the non-existent block, at the position: 1234567890",
        MatchError::UnopenedClose(1234567890).to_string()
    );
    assert_eq!(
        format!(
            "Invalid block: Attempt to close the non-existent block, at the position: {}",
            usize::MAX
        ),
        MatchError::UnopenedClose(usize::MAX).to_string()
    );
}

#[test]
fn text_of_unclosed_blocks() {
    assert_eq!(
        "Invalid block: Next blocks weren't be closed. The start blocks positions: [3]",
        MatchError::UnclosedBlocks(vec![3]).to_string()
    );
    assert_eq!(
        "Invalid block: Next blocks weren't be closed. The start blocks positions: [0, 4]",
        MatchError::UnclosedBlocks(vec![0, 4]).to_string()
    );
    assert_eq!(
        "Invalid block: Next blocks weren't be closed. The start blocks positions: [0, 19, 200, 3001]",
        MatchError::UnclosedBlocks(vec![0, 19, 200, 3001]).to_string()
    );
}

#[test]
fn text_of_unclosed_blocks_without_positions() {
    assert_eq!(
        "Invalid block: Next blocks weren't be closed. The start blocks positions: []",
        MatchError::UnclosedBlocks(Vec::new()).to_string()
    );
}

#[test]
fn text_lists_positions_as_a_debug_print_would() {
    let positions = vec![5, 50, 500, 5000, 50000];
    assert_eq!(
        format!(
            "Invalid block: Next blocks weren't be closed. The start blocks positions: {:?}",
            positions
        ),
        MatchError::UnclosedBlocks(positions).to_string()
    );
}

#[test]
fn errors_are_equal_by_variant_and_positions() {
    assert_eq!(MatchError::EmptyProgram, MatchError::EmptyProgram);
    assert_eq!(MatchError::UnopenedClose(2), MatchError::UnopenedClose(2));
    assert_ne!(MatchError::UnopenedClose(2), MatchError::UnopenedClose(3));
    assert_ne!(MatchError::UnclosedBlocks(vec![0]), MatchError::UnclosedBlocks(vec![0, 1]));
    assert_ne!(MatchError::EmptyProgram, MatchError::UnclosedBlocks(Vec::new()));
}
