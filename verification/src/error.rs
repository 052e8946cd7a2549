//! The ways in which a program can be refused, and the text that describes
//! each of them.

use vstd::prelude::*;
use vstd::string::*;

verus! {

/// Why a program could not be scanned.
#[derive(Debug, PartialEq, Eq, PartialOrd)]
pub enum MatchError {
    /// The program has no instructions, so it holds no block.
    EmptyProgram,
    /// The `End` at this position has no open block to close.
    UnopenedClose(usize),
    /// The blocks opened at these positions, in the order in which they
    /// were opened, were never closed.
    UnclosedBlocks(Vec<usize>),
}

/// A `MatchError` as contracts speak of it: the same, with the list of
/// positions as a sequence.
pub enum MatchErrorView {
    EmptyProgram,
    UnopenedClose(usize),
    UnclosedBlocks(Seq<usize>),
}

impl View for MatchError {
    type V = MatchErrorView;

    open spec fn view(&self) -> MatchErrorView {
        match self {
            MatchError::EmptyProgram => MatchErrorView::EmptyProgram,
            MatchError::UnopenedClose(position) => MatchErrorView::UnopenedClose(*position),
            MatchError::UnclosedBlocks(positions) => MatchErrorView::UnclosedBlocks(positions@),
        }
    }
}

/// The character that stands for a decimal digit.
pub open spec fn digit(d: int) -> char {
    if d == 0 {
        '0'
    } else if d == 1 {
        '1'
    } else if d == 2 {
        '2'
    } else if d == 3 {
        '3'
    } else if d == 4 {
        '4'
    } else if d == 5 {
        '5'
    } else if d == 6 {
        '6'
    } else if d == 7 {
        '7'
    } else if d == 8 {
        '8'
    } else {
        '9'
    }
}

/// A number written in decimal digits, without leading zeros.
pub open spec fn decimal(n: int) -> Seq<char>
    decreases n,
{
    if n < 10 {
        seq![digit(n)]
    } else {
        decimal(n / 10).push(digit(n % 10))
    }
}

/// Numbers written in decimal, each but the first after a comma and a
/// space.
pub open spec fn listed(positions: Seq<usize>) -> Seq<char>
    decreases positions.len(),
{
    if positions.len() == 0 {
        Seq::empty()
    } else if positions.len() == 1 {
        decimal(positions[0] as int)
    } else {
        listed(positions.drop_last()) + seq![',', ' '] + decimal(positions.last() as int)
    }
}

impl MatchErrorView {
    /// The text that describes the error.
    pub open spec fn message(self) -> Seq<char> {
        match self {
            MatchErrorView::EmptyProgram => "Input program should contain at least one block"@,
            MatchErrorView::UnopenedClose(position) =>
                "Invalid block: Attempt to close the non-existent block, at the position: "@
                    + decimal(position as int),
            MatchErrorView::UnclosedBlocks(positions) =>
                "Invalid block: Next blocks weren't be closed. The start blocks positions: "@
                    + seq!['['] + listed(positions) + seq![']'],
        }
    }
}

fn digit_text(d: usize) -> (text: &'static str)
    requires
        d < 10,
    ensures
        text@ == seq![digit(d as int)],
{
    proof {
        reveal_strlit("0");
        reveal_strlit("1");
        reveal_strlit("2");
        reveal_strlit("3");
        reveal_strlit("4");
        reveal_strlit("5");
        reveal_strlit("6");
        reveal_strlit("7");
        reveal_strlit("8");
        reveal_strlit("9");
    }
    if d == 0 {
        "0"
    } else if d == 1 {
        "1"
    } else if d == 2 {
        "2"
    } else if d == 3 {
        "3"
    } else if d == 4 {
        "4"
    } else if d == 5 {
        "5"
    } else if d == 6 {
        "6"
    } else if d == 7 {
        "7"
    } else if d == 8 {
        "8"
    } else {
        "9"
    }
}

fn push_decimal(text: &mut String, n: usize)
    ensures
        final(text)@ == old(text)@ + decimal(n as int),
    decreases n,
{
    if n >= 10 {
        push_decimal(text, n / 10);
    }
    text.append(digit_text(n % 10));
}

impl MatchError {
    /// The text that describes the error, with the positions it names.
    pub fn to_string(&self) -> (text: String)
        ensures
            text@ == self@.message(),
    {
        match self {
            MatchError::EmptyProgram => String::from_str(
                "Input program should contain at least one block",
            ),
            MatchError::UnopenedClose(position) => {
                let mut text = String::from_str(
                    "Invalid block: Attempt to close the non-existent block, at the position: ",
                );
                push_decimal(&mut text, *position);
                text
            },
            MatchError::UnclosedBlocks(positions) => {
                let mut text = String::from_str(
                    "Invalid block: Next blocks weren't be closed. The start blocks positions: ",
                );
                let ghost head = text@;
                let ghost all = positions@;
                proof {
                    reveal_strlit("[");
                }
                text.append("[");
                let mut i: usize = 0;
                while i < positions.len()
                    invariant
                        i <= positions@.len(),
                        all == positions@,
                        text@ == head + seq!['['] + listed(all.take(i as int)),
                    decreases positions@.len() - i,
                {
                    if i > 0 {
                        text.append(", ");
                    }
                    push_decimal(&mut text, positions[i]);
                    proof {
                        reveal_strlit(", ");
                        assert(all.take(i + 1).drop_last() =~= all.take(i as int));
                    }
                    i += 1;
                }
                proof {
                    reveal_strlit("]");
                    assert(all.take(i as int) =~= all);
                }
                text.append("]");
                text
            },
        }
    }
}

} // verus!
