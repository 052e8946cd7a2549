//! The nesting structure of a program: how deep each position lies inside
//! blocks, which blocks are open at a position, and which `End` closes which
//! block. Everything here is specification and proof; the scanner's stack is
//! verified against it.

use vstd::prelude::*;
use crate::instruction::{Instruction, Role};

verus! {

/// By how much an instruction changes the number of open blocks.
pub open spec fn nesting_step(instruction: Instruction) -> int {
    match instruction.spec_role() {
        Role::Opens => 1,
        Role::Closes => -1,
        Role::Payload => 0,
    }
}

/// The number of block-opening instructions minus the number of `End`
/// instructions among the first `n` instructions of `program`.
pub open spec fn depth(program: Seq<Instruction>, n: int) -> int
    decreases n,
{
    if n <= 0 {
        0
    } else {
        depth(program, n - 1) + nesting_step(program[n - 1])
    }
}

/// Every `End` among the first `n` instructions had an open block to close:
/// no prefix up to length `n` holds more `End`s than openers.
pub open spec fn closes_matched(program: Seq<Instruction>, n: int) -> bool {
    forall|j: int| 0 <= j <= n ==> #[trigger] depth(program, j) >= 0
}

/// The instruction at `position` is the first `End` that has no open block
/// to close.
pub open spec fn unopened_close_at(program: Seq<Instruction>, position: int) -> bool {
    &&& 0 <= position < program.len()
    &&& closes_matched(program, position)
    &&& depth(program, position + 1) < 0
}

/// The program is stack-balanced: every `End` closes an open block and no
/// block stays open at the end.
pub open spec fn well_nested(program: Seq<Instruction>) -> bool {
    &&& closes_matched(program, program.len() as int)
    &&& depth(program, program.len() as int) == 0
}

/// The block opened at `start` is still open after the first `n`
/// instructions: since it was opened, the depth has never come back to what
/// it was before.
pub open spec fn open_at(program: Seq<Instruction>, start: int, n: int) -> bool {
    &&& 0 <= start < n
    &&& program[start].opens_block()
    &&& forall|j: int| start < j <= n ==> depth(program, start) < #[trigger] depth(program, j)
}

/// The start positions below `bound` of the blocks that are open after the
/// first `n` instructions, in increasing order.
pub open spec fn open_blocks_below(program: Seq<Instruction>, n: int, bound: int) -> Seq<int>
    decreases bound,
{
    if bound <= 0 {
        Seq::empty()
    } else {
        let lower = open_blocks_below(program, n, bound - 1);
        if open_at(program, bound - 1, n) {
            lower.push(bound - 1)
        } else {
            lower
        }
    }
}

/// The start positions of all blocks that are open after the first `n`
/// instructions, outermost first.
pub open spec fn open_blocks(program: Seq<Instruction>, n: int) -> Seq<int> {
    open_blocks_below(program, n, n)
}

/// The start of the block that an `End` at position `end` closes: the
/// innermost block open just before it.
pub open spec fn opener_of(program: Seq<Instruction>, end: int) -> int {
    open_blocks(program, end).last()
}

/// The first position from `from` on after which the depth is back to what
/// it was before `start`, or the program's length if there is none.
pub open spec fn closing_end_from(program: Seq<Instruction>, start: int, from: int) -> int
    decreases program.len() - from,
{
    if from >= program.len() {
        program.len() as int
    } else if depth(program, from + 1) <= depth(program, start) {
        from
    } else {
        closing_end_from(program, start, from + 1)
    }
}

/// The position of the `End` that closes the block opened at `start`, or the
/// program's length if the block is never closed.
pub open spec fn closing_end(program: Seq<Instruction>, start: int) -> int {
    closing_end_from(program, start, start + 1)
}

/// The positions of the `End` instructions among the first `n`
/// instructions, in increasing order.
pub open spec fn end_positions(program: Seq<Instruction>, n: int) -> Seq<int>
    decreases n,
{
    if n <= 0 {
        Seq::empty()
    } else {
        let earlier = end_positions(program, n - 1);
        if program[n - 1].closes_block() {
            earlier.push(n - 1)
        } else {
            earlier
        }
    }
}

/// The number of `End` instructions in `program`.
pub open spec fn end_count(program: Seq<Instruction>) -> nat {
    program.filter(|instruction: Instruction| instruction.closes_block()).len()
}

/// The number of block-opening instructions in `program`.
pub open spec fn opener_count(program: Seq<Instruction>) -> nat {
    program.filter(|instruction: Instruction| instruction.opens_block()).len()
}

/// Each element of `positions` is smaller than the next.
pub open spec fn strictly_increasing(positions: Seq<int>) -> bool {
    forall|a: int, b: int| 0 <= a < b < positions.len() ==> positions[a] < positions[b]
}

/// Two strictly increasing sequences with the same elements are equal.
pub proof fn lemma_increasing_same_elements(left: Seq<int>, right: Seq<int>)
    requires
        strictly_increasing(left),
        strictly_increasing(right),
        forall|x: int| left.contains(x) <==> right.contains(x),
    ensures
        left == right,
    decreases left.len(),
{
    if left.len() == 0 {
        if right.len() > 0 {
            assert(right.contains(right[0]));
        }
    } else {
        let top = left.last();
        assert(left.contains(top));
        assert(right.contains(right.last()));
        let left_rest = left.drop_last();
        let right_rest = right.drop_last();
        assert forall|x: int| left_rest.contains(x) <==> right_rest.contains(x) by {
            if left_rest.contains(x) {
                let a = choose|a: int| 0 <= a < left_rest.len() && left_rest[a] == x;
                assert(left.contains(x));
                let b = choose|b: int| 0 <= b < right.len() && right[b] == x;
                assert(right_rest[b] == x);
            }
            if right_rest.contains(x) {
                let b = choose|b: int| 0 <= b < right_rest.len() && right_rest[b] == x;
                assert(right.contains(x));
                let a = choose|a: int| 0 <= a < left.len() && left[a] == x;
                assert(left_rest[a] == x);
            }
        }
        lemma_increasing_same_elements(left_rest, right_rest);
        assert(left =~= left_rest.push(top));
    }
}

/// `open_blocks_below` lists, in increasing order, exactly the positions
/// below `bound` whose block is open after the first `n` instructions.
pub proof fn lemma_open_blocks_below(program: Seq<Instruction>, n: int, bound: int)
    ensures
        strictly_increasing(open_blocks_below(program, n, bound)),
        forall|s: int|
            #![trigger open_blocks_below(program, n, bound).contains(s)]
            #![trigger open_at(program, s, n)]
            open_blocks_below(program, n, bound).contains(s) <==> (s < bound && open_at(
                program,
                s,
                n,
            )),
    decreases bound,
{
    let listed = open_blocks_below(program, n, bound);
    if bound <= 0 {
        assert forall|s: int| listed.contains(s) <==> (s < bound && open_at(program, s, n)) by {}
    } else {
        lemma_open_blocks_below(program, n, bound - 1);
        let lower = open_blocks_below(program, n, bound - 1);
        assert forall|k: int| 0 <= k < lower.len() implies lower[k] < bound - 1 by {
            assert(lower.contains(lower[k]));
        }
        assert forall|s: int| listed.contains(s) <==> (s < bound && open_at(program, s, n)) by {
            if s < bound && open_at(program, s, n) {
                if s == bound - 1 {
                    assert(listed[lower.len() as int] == s);
                } else {
                    let k = choose|k: int| 0 <= k < lower.len() && lower[k] == s;
                    assert(listed[k] == s);
                }
            }
        }
    }
}

/// Where every `End` among the first `n` instructions is matched, so is
/// every `End` among fewer of them.
pub proof fn lemma_closes_matched_before(program: Seq<Instruction>, n: int, fewer: int)
    requires
        closes_matched(program, n),
        fewer <= n,
    ensures
        closes_matched(program, fewer),
{
    assert forall|j: int| 0 <= j <= fewer implies #[trigger] depth(program, j) >= 0 by {}
}

/// Where every `End` among the first `i` instructions is matched and the
/// depth after one more instruction is not negative, every `End` among the
/// first `i + 1` is matched.
pub proof fn lemma_closes_matched_next(program: Seq<Instruction>, i: int)
    requires
        closes_matched(program, i),
        depth(program, i + 1) >= 0,
    ensures
        closes_matched(program, i + 1),
{
    assert forall|j: int| 0 <= j <= i + 1 implies #[trigger] depth(program, j) >= 0 by {}
}

/// What the open blocks look like while every `End` so far was matched:
/// there are as many as the depth says, they are listed in increasing order,
/// the block at index `k` of the list was opened at depth `k`, and no open
/// block is missing from the list.
pub proof fn lemma_open_blocks(program: Seq<Instruction>, n: int)
    requires
        0 <= n <= program.len(),
        closes_matched(program, n),
    ensures
        open_blocks(program, n).len() == depth(program, n),
        strictly_increasing(open_blocks(program, n)),
        forall|k: int|
            0 <= k < open_blocks(program, n).len() ==> {
                &&& open_at(program, #[trigger] open_blocks(program, n)[k], n)
                &&& depth(program, open_blocks(program, n)[k]) == k
            },
        forall|s: int| #[trigger] open_at(program, s, n) ==> open_blocks(program, n).contains(s),
    decreases n, 0int,
{
    lemma_open_blocks_below(program, n, n);
    if n > 0 {
        // By induction: the list before the last instruction is as stated,
        // and the last instruction changes it by one step.
        let i = n - 1;
        lemma_closes_matched_before(program, n, i);
        lemma_open_blocks(program, i);
        lemma_open_blocks_step(program, i);
    }
}

/// How one instruction changes the open blocks: an opener is added as the
/// innermost block, a matched `End` removes the innermost block, and payload
/// changes nothing.
pub proof fn lemma_open_blocks_step(program: Seq<Instruction>, i: int)
    requires
        0 <= i < program.len(),
        closes_matched(program, i + 1),
    ensures
        program[i].closes_block() ==> open_blocks(program, i).len() > 0,
        open_blocks(program, i + 1) == match program[i].spec_role() {
            Role::Opens => open_blocks(program, i).push(i),
            Role::Closes => open_blocks(program, i).drop_last(),
            Role::Payload => open_blocks(program, i),
        },
    decreases i, 1int,
{
    lemma_closes_matched_before(program, i + 1, i);
    lemma_open_blocks(program, i);
    lemma_open_blocks_below(program, i + 1, i + 1);
    let before = open_blocks(program, i);
    let after = open_blocks(program, i + 1);
    assert(depth(program, i + 1) == depth(program, i) + nesting_step(program[i]));
    let expected = match program[i].spec_role() {
        Role::Opens => before.push(i),
        Role::Closes => before.drop_last(),
        Role::Payload => before,
    };
    // Both lists are increasing, so they are equal once they hold the same
    // positions. A block opened before `i` stays open unless the
    // instruction is an `End` that brings the depth back to the depth at
    // which the block was opened, and that is the innermost open block.
    assert forall|k: int| 0 <= k < before.len() implies #[trigger] before[k] < i by {}
    assert forall|x: int| expected.contains(x) <==> after.contains(x) by {
        if after.contains(x) {
            if x == i {
                assert(expected[before.len() as int] == x);
            } else {
                assert(open_at(program, x, i));
                let k = choose|k: int| 0 <= k < before.len() && before[k] == x;
                assert(expected[k] == x);
            }
        }
    }
    lemma_increasing_same_elements(expected, after);
}

/// The search for the closing `End` of the block opened at `start` ends at
/// `end` when the depth stays above that before `start` up to `end` and is
/// back to it right after.
proof fn lemma_closing_end_from(program: Seq<Instruction>, start: int, from: int, end: int)
    requires
        start < from <= end < program.len(),
        forall|j: int| start < j <= end ==> depth(program, start) < #[trigger] depth(program, j),
        depth(program, end + 1) <= depth(program, start),
    ensures
        closing_end_from(program, start, from) == end,
    decreases end - from,
{
    if from < end {
        lemma_closing_end_from(program, start, from + 1, end);
    }
}

/// A matched `End` closes the innermost open block: that block starts at an
/// opening instruction before the `End`, everything between the two lies
/// deeper than the block's start, and the `End` is the one that
/// `closing_end` finds for the start.
pub proof fn lemma_closing_end(program: Seq<Instruction>, end: int)
    requires
        0 <= end < program.len(),
        program[end].closes_block(),
        closes_matched(program, end + 1),
    ensures
        0 <= opener_of(program, end) < end,
        program[opener_of(program, end)].opens_block(),
        open_at(program, opener_of(program, end), end),
        depth(program, end + 1) == depth(program, opener_of(program, end)),
        closing_end(program, opener_of(program, end)) == end,
{
    lemma_closes_matched_before(program, end + 1, end);
    lemma_open_blocks(program, end);
    lemma_open_blocks_step(program, end);
    let open = open_blocks(program, end);
    let start = open.last();
    lemma_closing_end_from(program, start, start + 1, end);
}

/// `end_positions` lists, in increasing order, exactly the positions below
/// `n` that hold an `End`.
pub proof fn lemma_end_positions(program: Seq<Instruction>, n: int)
    ensures
        strictly_increasing(end_positions(program, n)),
        forall|k: int|
            0 <= k < end_positions(program, n).len() ==> {
                &&& 0 <= #[trigger] end_positions(program, n)[k] < n
                &&& program[end_positions(program, n)[k]].closes_block()
            },
        forall|e: int|
            0 <= e < n && program[e].closes_block() ==> end_positions(program, n).contains(e),
    decreases n,
{
    if n > 0 {
        lemma_end_positions(program, n - 1);
        let earlier = end_positions(program, n - 1);
        let listed = end_positions(program, n);
        assert forall|e: int| 0 <= e < n && program[e].closes_block() implies listed.contains(
            e,
        ) by {
            if e < n - 1 {
                assert(earlier.contains(e));
                let k = choose|k: int| 0 <= k < earlier.len() && earlier[k] == e;
                assert(listed[k] == e);
            } else {
                assert(listed[earlier.len() as int] == e);
            }
        }
    }
}

/// `end_positions` has one position for each `End` of the program.
pub proof fn lemma_end_count(program: Seq<Instruction>, n: int)
    requires
        0 <= n <= program.len(),
    ensures
        end_positions(program, n).len() == end_count(program.take(n)),
    decreases n,
{
    reveal(Seq::filter);
    if n > 0 {
        lemma_end_count(program, n - 1);
        assert(program.take(n).drop_last() =~= program.take(n - 1));
    }
}

/// The depth after the first `n` instructions is the number of opening
/// instructions among them less the number of `End`s among them.
pub proof fn lemma_depth_counts(program: Seq<Instruction>, n: int)
    requires
        0 <= n <= program.len(),
    ensures
        depth(program, n) == opener_count(program.take(n)) - end_count(program.take(n)),
    decreases n,
{
    reveal(Seq::filter);
    if n > 0 {
        lemma_depth_counts(program, n - 1);
        assert(program.take(n).drop_last() =~= program.take(n - 1));
    }
}

/// A well-nested program holds as many `End`s as opening instructions.
pub proof fn lemma_well_nested_counts(program: Seq<Instruction>)
    requires
        well_nested(program),
    ensures
        opener_count(program) == end_count(program),
{
    lemma_depth_counts(program, program.len() as int);
    assert(program.take(program.len() as int) =~= program);
}

/// The first unmatched `End` is an `End` met while no block is open.
pub proof fn lemma_unopened_close(program: Seq<Instruction>, position: int)
    requires
        unopened_close_at(program, position),
    ensures
        program[position].closes_block(),
        depth(program, position) == 0,
        open_blocks(program, position).len() == 0,
{
    lemma_open_blocks(program, position);
}

} // verus!
