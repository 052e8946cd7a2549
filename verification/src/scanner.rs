//! The scan of a program: one pass that delimits the nested blocks with a
//! stack of open starts and looks each closed block up in the registry.

use vstd::prelude::*;
use vstd::slice::slice_subrange;
use crate::block::BlockInfo;
use crate::error::{MatchError, MatchErrorView};
use crate::instruction::{Instruction, Role};
use crate::nesting::{
    closes_matched, closing_end, depth, end_count, end_positions, lemma_closes_matched_before,
    lemma_closes_matched_next, lemma_closing_end, lemma_end_count, lemma_end_positions,
    lemma_open_blocks, lemma_open_blocks_step, nesting_step, open_at, open_blocks, opener_of,
    unopened_close_at, well_nested,
};
use crate::registry::{entry_of, lemma_entry_of, shapes, Registry};

verus! {

/// A position as the machine holds it.
pub open spec fn as_position(position: int) -> usize {
    position as usize
}

/// A registry entry as the machine holds it.
pub open spec fn as_entry(entry: Option<int>) -> Option<usize> {
    match entry {
        Some(index) => Some(as_position(index)),
        None => None,
    }
}

/// The block that the `End` at position `end` closes: it starts at the
/// innermost block open there, and its shape, from that start to the `End`
/// inclusive, is looked up in the registry.
pub open spec fn block_closed_at(
    registry: Seq<Seq<Instruction>>,
    program: Seq<Instruction>,
    end: int,
) -> BlockInfo {
    let start = opener_of(program, end);
    BlockInfo {
        block_start_idx: as_position(start),
        registry_idx: as_entry(entry_of(registry, program.subrange(start, end + 1))),
    }
}

/// The blocks closed among the first `n` instructions: one for each `End`,
/// in the order of the `End`s.
pub open spec fn closed_blocks(
    registry: Seq<Seq<Instruction>>,
    program: Seq<Instruction>,
    n: int,
) -> Seq<BlockInfo>
    decreases n,
{
    if n <= 0 {
        Seq::empty()
    } else {
        let earlier = closed_blocks(registry, program, n - 1);
        if program[n - 1].closes_block() {
            earlier.push(block_closed_at(registry, program, n - 1))
        } else {
            earlier
        }
    }
}

/// The starts of the blocks that are open after the first `n` instructions,
/// outermost first.
pub open spec fn open_starts(program: Seq<Instruction>, n: int) -> Seq<usize> {
    open_blocks(program, n).map_values(|start: int| as_position(start))
}

/// What a scan of `program` against `registry` has to give.
///
/// - An empty program is refused as `EmptyProgram`.
/// - A program with an `End` that has no open block to close is refused as
///   `UnopenedClose`, with the position of the first such `End`.
/// - A program in which every `End` is matched but blocks stay open is
///   refused as `UnclosedBlocks`, with the starts of all those blocks,
///   outermost first.
/// - Any other program is well nested and gives its closed blocks, in the
///   order of their `End`s.
pub open spec fn is_outcome(
    registry: Seq<Seq<Instruction>>,
    program: Seq<Instruction>,
    outcome: Result<Seq<BlockInfo>, MatchErrorView>,
) -> bool {
    let n = program.len() as int;
    if n == 0 {
        outcome == Err::<Seq<BlockInfo>, MatchErrorView>(MatchErrorView::EmptyProgram)
    } else if !closes_matched(program, n) {
        outcome matches Err(MatchErrorView::UnopenedClose(position)) && unopened_close_at(
            program,
            position as int,
        )
    } else if depth(program, n) > 0 {
        outcome == Err::<Seq<BlockInfo>, MatchErrorView>(
            MatchErrorView::UnclosedBlocks(open_starts(program, n)),
        )
    } else {
        outcome == Ok::<Seq<BlockInfo>, MatchErrorView>(closed_blocks(registry, program, n))
    }
}

/// The result of a scan as contracts speak of it.
pub open spec fn outcome_view(result: Result<Vec<BlockInfo>, MatchError>) -> Result<
    Seq<BlockInfo>,
    MatchErrorView,
> {
    match result {
        Ok(blocks) => Ok(blocks@),
        Err(error) => Err(error@),
    }
}

impl<'a> Registry<'a> {
    /// Scans `program` and matches each of its blocks against this
    /// registry. The registry is left as it was and can be used again.
    pub fn scan(&self, program: &[Instruction]) -> (result: Result<Vec<BlockInfo>, MatchError>)
        ensures
            is_outcome(self@, program@, outcome_view(result)),
    {
        let n = program.len();
        if n == 0 {
            return Err(MatchError::EmptyProgram);
        }
        let mut stack: Vec<usize> = Vec::new();
        let mut blocks: Vec<BlockInfo> = Vec::new();
        let mut i: usize = 0;
        while i < n
            invariant
                n == program@.len(),
                i <= n,
                closes_matched(program@, i as int),
                stack@ == open_starts(program@, i as int),
                blocks@ == closed_blocks(self@, program@, i as int),
            decreases n - i,
        {
            proof {
                lemma_open_blocks(program@, i as int);
                assert(depth(program@, i + 1) == depth(program@, i as int) + nesting_step(
                    program@[i as int],
                ));
            }
            match program[i].role() {
                Role::Opens => {
                    proof {
                        lemma_closes_matched_next(program@, i as int);
                        lemma_open_blocks_step(program@, i as int);
                    }
                    stack.push(i);
                },
                Role::Closes => {
                    match stack.pop() {
                        Some(start) => {
                            proof {
                                lemma_closes_matched_next(program@, i as int);
                                lemma_open_blocks_step(program@, i as int);
                            }
                            let shape = slice_subrange(program, start, i + 1);
                            let registry_idx = self.lookup(shape);
                            blocks.push(BlockInfo { block_start_idx: start, registry_idx });
                        },
                        None => {
                            return Err(MatchError::UnopenedClose(i));
                        },
                    }
                },
                Role::Payload => {
                    proof {
                        lemma_closes_matched_next(program@, i as int);
                        lemma_open_blocks_step(program@, i as int);
                    }
                },
            }
            i += 1;
        }
        proof {
            lemma_open_blocks(program@, n as int);
        }
        if stack.len() == 0 {
            Ok(blocks)
        } else {
            Err(MatchError::UnclosedBlocks(stack))
        }
    }
}

/// Finds the blocks of `program` and matches each against the registry of
/// `known_blocks`. For each closed block the result holds the position at
/// which the block starts and the index of the known block that it equals,
/// if there is one. The blocks come in the order of their `End`
/// instructions: the block that is closed first stands first, so an inner
/// block stands before the blocks around it.
pub fn find_matches(known_blocks: &[&[Instruction]], program: &[Instruction]) -> (result: Result<
    Vec<BlockInfo>,
    MatchError,
>)
    ensures
        is_outcome(shapes(known_blocks@), program@, outcome_view(result)),
{
    if program.len() == 0 {
        return Err(MatchError::EmptyProgram);
    }
    let registry = Registry::new(known_blocks);
    registry.scan(program)
}

/// The closed blocks stand one to one beside the `End` positions: the block
/// at index `k` is the one that the `End` at index `k` closes.
pub proof fn lemma_closed_blocks(
    registry: Seq<Seq<Instruction>>,
    program: Seq<Instruction>,
    n: int,
)
    ensures
        closed_blocks(registry, program, n).len() == end_positions(program, n).len(),
        forall|k: int|
            0 <= k < end_positions(program, n).len() ==> #[trigger] closed_blocks(
                registry,
                program,
                n,
            )[k] == block_closed_at(registry, program, end_positions(program, n)[k]),
    decreases n,
{
    if n > 0 {
        lemma_closed_blocks(registry, program, n - 1);
    }
}

/// A scan has one outcome only: whatever meets the contract of a scan for
/// a registry and a program is the same value, so scanning again gives the
/// same result.
pub proof fn lemma_outcome_unique(
    registry: Seq<Seq<Instruction>>,
    program: Seq<Instruction>,
    first: Result<Seq<BlockInfo>, MatchErrorView>,
    second: Result<Seq<BlockInfo>, MatchErrorView>,
)
    requires
        is_outcome(registry, program, first),
        is_outcome(registry, program, second),
    ensures
        first == second,
{
}

/// A scan succeeds exactly on the programs that are not empty and are well
/// nested: every `End` closes an open block, and there are as many `End`s
/// as opening instructions.
pub proof fn lemma_success_iff_well_nested(
    registry: Seq<Seq<Instruction>>,
    program: Seq<Instruction>,
    outcome: Result<Seq<BlockInfo>, MatchErrorView>,
)
    requires
        is_outcome(registry, program, outcome),
    ensures
        outcome is Ok <==> program.len() > 0 && well_nested(program),
{
}

/// A well-nested program gives exactly one block for each of its `End`
/// instructions.
pub proof fn lemma_one_block_per_end(
    registry: Seq<Seq<Instruction>>,
    program: Seq<Instruction>,
    blocks: Seq<BlockInfo>,
)
    requires
        is_outcome(registry, program, Ok(blocks)),
    ensures
        blocks.len() == end_count(program),
{
    let n = program.len() as int;
    lemma_closed_blocks(registry, program, n);
    lemma_end_count(program, n);
    assert(program.take(n) =~= program);
}

/// Each block of a successful scan is a whole block of the program: it
/// starts at an opening instruction, the `End` that closes it is the one
/// that made the scan report it, everything between the two lies inside
/// the block, and the block is matched exactly when the registry holds an
/// entry equal to its instructions from the start to the `End` inclusive;
/// the entry reported is the last such one.
pub proof fn lemma_block_is_whole(
    registry: Seq<Seq<Instruction>>,
    program: Seq<Instruction>,
    blocks: Seq<BlockInfo>,
    k: int,
)
    requires
        program.len() <= usize::MAX,
        registry.len() <= usize::MAX,
        is_outcome(registry, program, Ok(blocks)),
        0 <= k < blocks.len(),
    ensures
        ({
            let start = blocks[k].block_start_idx as int;
            let end = closing_end(program, start);
            let shape = program.subrange(start, end + 1);
            &&& 0 <= start < end < program.len()
            &&& program[start].opens_block()
            &&& program[end].closes_block()
            &&& end == end_positions(program, program.len() as int)[k]
            &&& open_at(program, start, end)
            &&& depth(program, end + 1) == depth(program, start)
            &&& entry_of(registry, shape) == match blocks[k].registry_idx {
                Some(index) => Some(index as int),
                None => None,
            }
            &&& blocks[k].registry_idx is Some <==> exists|entry: int|
                0 <= entry < registry.len() && registry[entry] == shape
        }),
{
    let n = program.len() as int;
    lemma_closed_blocks(registry, program, n);
    lemma_end_positions(program, n);
    let end = end_positions(program, n)[k];
    lemma_closes_matched_before(program, n, end + 1);
    lemma_closing_end(program, end);
    lemma_entry_of(registry, program.subrange(opener_of(program, end), end + 1));
}

/// The blocks of a successful scan stand in the order of the `End`s that
/// close them: replacing each block by the position of its `End` gives
/// positions that never go down, and one block stands before another
/// exactly if it is closed before the other. So a block stands before the
/// blocks around it.
pub proof fn lemma_blocks_in_end_order(
    registry: Seq<Seq<Instruction>>,
    program: Seq<Instruction>,
    blocks: Seq<BlockInfo>,
    one: int,
    other: int,
)
    requires
        program.len() <= usize::MAX,
        is_outcome(registry, program, Ok(blocks)),
        0 <= one < blocks.len(),
        0 <= other < blocks.len(),
    ensures
        one <= other <==> closing_end(program, blocks[one].block_start_idx as int) <= closing_end(
            program,
            blocks[other].block_start_idx as int,
        ),
        one < other <==> closing_end(program, blocks[one].block_start_idx as int) < closing_end(
            program,
            blocks[other].block_start_idx as int,
        ),
{
    let n = program.len() as int;
    lemma_end_positions(program, n);
    lemma_block_end(registry, program, blocks, one);
    lemma_block_end(registry, program, blocks, other);
}

/// The `End` that closes the block at index `k` of a successful scan is the
/// `End` at index `k` among the `End`s of the program.
proof fn lemma_block_end(
    registry: Seq<Seq<Instruction>>,
    program: Seq<Instruction>,
    blocks: Seq<BlockInfo>,
    k: int,
)
    requires
        program.len() <= usize::MAX,
        is_outcome(registry, program, Ok(blocks)),
        0 <= k < blocks.len(),
    ensures
        blocks.len() == end_positions(program, program.len() as int).len(),
        closing_end(program, blocks[k].block_start_idx as int) == end_positions(
            program,
            program.len() as int,
        )[k],
{
    let n = program.len() as int;
    lemma_closed_blocks(registry, program, n);
    lemma_end_positions(program, n);
    let end = end_positions(program, n)[k];
    lemma_closes_matched_before(program, n, end + 1);
    lemma_closing_end(program, end);
}

/// The blocks reported as unclosed are all the blocks that are open at the
/// end of the program, and only those: there is at least one, each starts
/// at an opening instruction, and they stand in the order in which they
/// were opened.
pub proof fn lemma_unclosed_blocks(
    registry: Seq<Seq<Instruction>>,
    program: Seq<Instruction>,
    positions: Seq<usize>,
)
    requires
        program.len() <= usize::MAX,
        is_outcome(registry, program, Err(MatchErrorView::UnclosedBlocks(positions))),
    ensures
        positions.len() == depth(program, program.len() as int),
        positions.len() > 0,
        forall|a: int, b: int| 0 <= a < b < positions.len() ==> positions[a] < positions[b],
        forall|k: int|
            0 <= k < positions.len() ==> open_at(
                program,
                #[trigger] positions[k] as int,
                program.len() as int,
            ),
        forall|start: int| #[trigger]
            open_at(program, start, program.len() as int) ==> positions.contains(
                as_position(start),
            ),
{
    let n = program.len() as int;
    let open = open_blocks(program, n);
    lemma_open_blocks(program, n);
    assert forall|start: int| #[trigger] open_at(program, start, n) implies positions.contains(
        as_position(start),
    ) by {
        let k = choose|k: int| 0 <= k < open.len() && open[k] == start;
        assert(positions[k] == as_position(start));
    }
}

} // verus!
