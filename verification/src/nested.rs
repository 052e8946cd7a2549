//! Programs nested to any depth, and what a scan gives for them: with the
//! number of levels as a parameter, the contract of a scan is worked out
//! once for programs of every size.

use vstd::prelude::*;
use crate::block::BlockInfo;
use crate::error::MatchErrorView;
use crate::instruction::Instruction;
use crate::nesting::{
    closes_matched, depth, end_positions, lemma_open_blocks, open_at, open_blocks, opener_of,
};
use crate::registry::entry_of;
use crate::scanner::{
    as_entry, as_position, block_closed_at, is_outcome, lemma_closed_blocks,
};

verus! {

/// The instruction at position `j` of the program with `levels` nested
/// `If` blocks inside one `Begin` block.
pub open spec fn nested_instruction(levels: int, j: int) -> Instruction {
    if j == 0 {
        Instruction::Begin
    } else if j <= 2 * levels {
        if j % 2 == 1 {
            Instruction::If
        } else {
            Instruction::Push(2)
        }
    } else if j <= 4 * levels {
        if j % 2 == 1 {
            Instruction::Push(3)
        } else {
            Instruction::End
        }
    } else {
        Instruction::End
    }
}

/// The program that opens a `Begin` block, then `levels` times an `If`
/// block that pushes 2, then closes each `If` block after pushing 3, and
/// last closes the `Begin` block.
pub open spec fn nested_program(levels: int) -> Seq<Instruction> {
    Seq::new((4 * levels + 2) as nat, |j: int| nested_instruction(levels, j))
}

/// The depth after the first `j` instructions of the nested program.
pub open spec fn nested_depth(levels: int, j: int) -> int {
    if j <= 0 {
        0
    } else if j <= 2 * levels + 1 {
        1 + j / 2
    } else if j <= 4 * levels + 1 {
        1 + levels - (j - 2 * levels - 1) / 2
    } else {
        0
    }
}

/// The position of the `End` that closes the block at index `k` of the
/// scan of the nested program.
pub open spec fn nested_end(levels: int, k: int) -> int {
    if k < levels {
        2 * levels + 2 + 2 * k
    } else {
        4 * levels + 1
    }
}

/// The position at which the block at index `k` of the scan of the nested
/// program starts: the innermost `If` first, the `Begin` last.
pub open spec fn nested_start(levels: int, k: int) -> int {
    if k < levels {
        2 * (levels - k) - 1
    } else {
        0
    }
}

/// The number of `End`s among the first `j` instructions of the nested
/// program.
pub open spec fn nested_ends_before(levels: int, j: int) -> int {
    if j <= 2 * levels + 2 {
        0
    } else if j <= 4 * levels + 1 {
        (j - 2 * levels - 1) / 2
    } else {
        levels + 1
    }
}

/// The depth of the nested program goes up by one with each opener and
/// down by one with each `End`.
pub proof fn lemma_nested_depth(levels: int, j: int)
    requires
        levels >= 1,
        0 <= j <= 4 * levels + 2,
    ensures
        depth(nested_program(levels), j) == nested_depth(levels, j),
    decreases j,
{
    if j > 0 {
        lemma_nested_depth(levels, j - 1);
    }
}

/// The `End`s of the nested program stand at the positions that
/// `nested_end` gives.
pub proof fn lemma_nested_ends(levels: int, j: int)
    requires
        levels >= 1,
        0 <= j <= 4 * levels + 2,
    ensures
        end_positions(nested_program(levels), j).len() == nested_ends_before(levels, j),
        forall|k: int|
            0 <= k < nested_ends_before(levels, j) ==> #[trigger] end_positions(
                nested_program(levels),
                j,
            )[k] == nested_end(levels, k),
    decreases j,
{
    if j > 0 {
        lemma_nested_ends(levels, j - 1);
    }
}

/// The `End` of block `k` of the nested program closes the block that
/// starts where `nested_start` says.
pub proof fn lemma_nested_opener(levels: int, k: int)
    requires
        levels >= 1,
        0 <= k <= levels,
    ensures
        opener_of(nested_program(levels), nested_end(levels, k)) == nested_start(levels, k),
{
    let program = nested_program(levels);
    let end = nested_end(levels, k);
    let start = nested_start(levels, k);
    assert forall|j: int| 0 <= j <= 4 * levels + 2 implies #[trigger] depth(program, j)
        == nested_depth(levels, j) by {
        lemma_nested_depth(levels, j);
    }
    assert(closes_matched(program, end));
    lemma_open_blocks(program, end);
    let open = open_blocks(program, end);
    assert(open_at(program, start, end));
    assert(open.contains(start));
    let at = choose|at: int| 0 <= at < open.len() && open[at] == start;
    assert(depth(program, open[at]) == at);
}

/// The scan of the nested program with `levels` levels succeeds with
/// `levels + 1` blocks. The innermost `If` block, which pushes 2 and 3 and
/// nothing else, comes first, each `If` block around it follows, and the
/// `Begin` block, which is the whole program, comes last. Each block is
/// matched to the registry entry that equals its instructions.
pub proof fn lemma_nested_program_scan(
    registry: Seq<Seq<Instruction>>,
    levels: int,
    outcome: Result<Seq<BlockInfo>, MatchErrorView>,
)
    requires
        levels >= 1,
        is_outcome(registry, nested_program(levels), outcome),
    ensures
        outcome matches Ok(blocks) && {
            &&& blocks.len() == levels + 1
            &&& forall|k: int|
                0 <= k <= levels ==> #[trigger] blocks[k] == (BlockInfo {
                    block_start_idx: as_position(nested_start(levels, k)),
                    registry_idx: as_entry(
                        entry_of(
                            registry,
                            nested_program(levels).subrange(
                                nested_start(levels, k),
                                nested_end(levels, k) + 1,
                            ),
                        ),
                    ),
                })
        },
        nested_program(levels).subrange(nested_start(levels, 0), nested_end(levels, 0) + 1)
            == seq![Instruction::If, Instruction::Push(2), Instruction::Push(3), Instruction::End],
        nested_program(levels).subrange(
            nested_start(levels, levels),
            nested_end(levels, levels) + 1,
        ) == nested_program(levels),
{
    let program = nested_program(levels);
    let n = 4 * levels + 2;
    assert forall|j: int| 0 <= j <= n implies #[trigger] depth(program, j) == nested_depth(
        levels,
        j,
    ) by {
        lemma_nested_depth(levels, j);
    }
    assert(closes_matched(program, n));
    lemma_nested_ends(levels, n);
    lemma_closed_blocks(registry, program, n);
    let blocks = outcome->Ok_0;
    assert forall|k: int| 0 <= k <= levels implies #[trigger] blocks[k] == block_closed_at(
        registry,
        program,
        nested_end(levels, k),
    ) && opener_of(program, nested_end(levels, k)) == nested_start(levels, k) by {
        lemma_nested_opener(levels, k);
    }
    assert(program.subrange(nested_start(levels, 0), nested_end(levels, 0) + 1) =~= seq![
        Instruction::If,
        Instruction::Push(2),
        Instruction::Push(3),
        Instruction::End,
    ]);
    assert(program.subrange(nested_start(levels, levels), nested_end(levels, levels) + 1)
        =~= program);
}

} // verus!
