//! The registry of known blocks and the exact-match lookup of a shape in it.

use std::collections::HashMap;
use vstd::prelude::*;
use crate::instruction::Instruction;

verus! {

/// The shapes that a list of known blocks holds, each as its sequence of
/// instructions, in the order of the list.
pub open spec fn shapes(known_blocks: Seq<&[Instruction]>) -> Seq<Seq<Instruction>> {
    Seq::new(known_blocks.len(), |i: int| known_blocks[i]@)
}

/// The entry that `shape` is matched to: the position of the last shape in
/// `registry` that equals `shape` instruction by instruction, or `None` if
/// no shape of the registry does.
pub open spec fn entry_of(registry: Seq<Seq<Instruction>>, shape: Seq<Instruction>) -> Option<int>
    decreases registry.len(),
{
    if registry.len() == 0 {
        None
    } else if registry.last() == shape {
        Some(registry.len() - 1)
    } else {
        entry_of(registry.drop_last(), shape)
    }
}

/// A shape is matched if and only if some entry of the registry equals it
/// as a whole; the entry reported is the last such one.
pub proof fn lemma_entry_of(registry: Seq<Seq<Instruction>>, shape: Seq<Instruction>)
    ensures
        match entry_of(registry, shape) {
            Some(entry) => {
                &&& 0 <= entry < registry.len()
                &&& registry[entry] == shape
                &&& forall|later: int| entry < later < registry.len() ==> registry[later] != shape
            },
            None => forall|any: int| 0 <= any < registry.len() ==> registry[any] != shape,
        },
        entry_of(registry, shape) is Some <==> exists|entry: int|
            0 <= entry < registry.len() && registry[entry] == shape,
    decreases registry.len(),
{
    if registry.len() > 0 && registry.last() != shape {
        let shorter = registry.drop_last();
        lemma_entry_of(shorter, shape);
        // Below its last entry the registry is the shorter one.
        assert forall|any: int| 0 <= any < shorter.len() implies shorter[any] == registry[any] by {}
    }
}

/// Replacing one instruction of a matched shape by a different one gives a
/// shape that is not matched to the same entry any more.
pub proof fn lemma_changed_shape_leaves_entry(
    registry: Seq<Seq<Instruction>>,
    shape: Seq<Instruction>,
    at: int,
    replacement: Instruction,
)
    requires
        0 <= at < shape.len(),
        replacement != shape[at],
        entry_of(registry, shape) is Some,
    ensures
        entry_of(registry, shape.update(at, replacement)) != entry_of(registry, shape),
{
    let changed = shape.update(at, replacement);
    lemma_entry_of(registry, shape);
    lemma_entry_of(registry, changed);
}

/// Replacing one instruction of a matched shape by a different one turns
/// the match into a non-match, unless the registry also holds the changed
/// shape.
pub proof fn lemma_changed_shape_unmatched(
    registry: Seq<Seq<Instruction>>,
    shape: Seq<Instruction>,
    at: int,
    replacement: Instruction,
)
    requires
        0 <= at < shape.len(),
        replacement != shape[at],
        entry_of(registry, shape) is Some,
        forall|any: int|
            0 <= any < registry.len() ==> registry[any] != shape.update(at, replacement),
    ensures
        entry_of(registry, shape.update(at, replacement)) is None,
{
    lemma_entry_of(registry, shape.update(at, replacement));
}

/// Whether two shapes hold equal instructions in the same order.
pub fn same_shape(left: &[Instruction], right: &[Instruction]) -> (same: bool)
    ensures
        same == (left@ == right@),
{
    if left.len() != right.len() {
        return false;
    }
    let mut i: usize = 0;
    while i < left.len()
        invariant
            i <= left@.len(),
            left@.len() == right@.len(),
            forall|k: int| 0 <= k < i ==> left@[k] == right@[k],
        decreases left@.len() - i,
    {
        if left[i] != right[i] {
            return false;
        }
        i += 1;
    }
    assert(left@ =~= right@);
    true
}

/// Hash values lie below this prime.
const HASH_MODULUS: u64 = 4_294_967_291;

/// Each word is added to this multiple of the state before it.
const HASH_MULTIPLIER: u64 = 16_777_619;

/// The hash of the empty shape.
const HASH_SEED: u64 = 2_166_136_261;

/// The hash state after one more word.
spec fn mix(state: int, word: int) -> int {
    (state * HASH_MULTIPLIER + word % (HASH_MODULUS as int)) % (HASH_MODULUS as int)
}

/// The hash state after one more instruction: its variant, and for `Push`
/// its value too.
spec fn absorb(state: int, instruction: Instruction) -> int {
    match instruction {
        Instruction::Push(value) => mix(mix(state, 1), value as int),
        Instruction::Or => mix(state, 2),
        Instruction::And => mix(state, 3),
        Instruction::Not => mix(state, 4),
        Instruction::If => mix(state, 5),
        Instruction::Begin => mix(state, 6),
        Instruction::End => mix(state, 7),
    }
}

/// The hash of a shape: a function of its instructions, in order, and of
/// nothing else, so equal shapes have equal hashes wherever they stand.
spec fn shape_hash(shape: Seq<Instruction>) -> int
    decreases shape.len(),
{
    if shape.len() == 0 {
        HASH_SEED as int
    } else {
        absorb(shape_hash(shape.drop_last()), shape.last())
    }
}

fn mix_word(state: u64, word: u64) -> (mixed: u64)
    requires
        state < HASH_MODULUS,
    ensures
        mixed == mix(state as int, word as int),
        mixed < HASH_MODULUS,
{
    (state * HASH_MULTIPLIER + word % HASH_MODULUS) % HASH_MODULUS
}

fn absorb_instruction(state: u64, instruction: Instruction) -> (absorbed: u64)
    requires
        state < HASH_MODULUS,
    ensures
        absorbed == absorb(state as int, instruction),
        absorbed < HASH_MODULUS,
{
    match instruction {
        Instruction::Push(value) => mix_word(mix_word(state, 1), value as u64),
        Instruction::Or => mix_word(state, 2),
        Instruction::And => mix_word(state, 3),
        Instruction::Not => mix_word(state, 4),
        Instruction::If => mix_word(state, 5),
        Instruction::Begin => mix_word(state, 6),
        Instruction::End => mix_word(state, 7),
    }
}

fn hash_shape(shape: &[Instruction]) -> (hash: u64)
    ensures
        hash == shape_hash(shape@),
{
    let mut state: u64 = HASH_SEED;
    let mut i: usize = 0;
    while i < shape.len()
        invariant
            i <= shape@.len(),
            state < HASH_MODULUS,
            state == shape_hash(shape@.take(i as int)),
        decreases shape@.len() - i,
    {
        assert(shape@.take(i + 1).drop_last() =~= shape@.take(i as int));
        state = absorb_instruction(state, shape[i]);
        i += 1;
    }
    assert(shape@.take(i as int) =~= shape@);
    state
}

/// The hash under which entry `i` of `registry` is indexed.
spec fn hash_key(registry: Seq<Seq<Instruction>>, i: int) -> u64 {
    shape_hash(registry[i]) as u64
}

/// `older[i]` is the nearest entry before `i` with the hash of entry `i`,
/// or `None` if no entry before `i` has that hash.
spec fn chained(registry: Seq<Seq<Instruction>>, older: Seq<Option<usize>>, i: int) -> bool {
    match older[i] {
        Some(before) => {
            &&& before < i
            &&& hash_key(registry, before as int) == hash_key(registry, i)
            &&& forall|m: int|
                before < m < i ==> #[trigger] hash_key(registry, m) != hash_key(registry, i)
        },
        None => forall|m: int|
            0 <= m < i ==> #[trigger] hash_key(registry, m) != hash_key(registry, i),
    }
}

/// The first `n` entries of `registry` are indexed: `newest` leads from each
/// hash to the last of them with that hash, and `older` from each of them to
/// the one before it with the same hash.
spec fn indexed(
    registry: Seq<Seq<Instruction>>,
    newest: Map<u64, usize>,
    older: Seq<Option<usize>>,
    n: int,
) -> bool {
    &&& 0 <= n <= registry.len()
    &&& older.len() == n
    &&& forall|i: int| 0 <= i < n ==> #[trigger] chained(registry, older, i)
    &&& forall|hash: u64| #[trigger]
        newest.contains_key(hash) ==> {
            &&& newest[hash] < n
            &&& hash_key(registry, newest[hash] as int) == hash
            &&& forall|m: int| newest[hash] < m < n ==> #[trigger] hash_key(registry, m) != hash
        }
    &&& forall|i: int| 0 <= i < n ==> newest.contains_key(#[trigger] hash_key(registry, i))
}

/// A registry of known blocks, ready for lookups. The blocks are indexed by
/// a hash of their instructions, so a lookup compares a shape only with the
/// entries that share its hash.
pub struct Registry<'a> {
    known_blocks: &'a [&'a [Instruction]],
    newest: HashMap<u64, usize>,
    older: Vec<Option<usize>>,
}

impl<'a> View for Registry<'a> {
    type V = Seq<Seq<Instruction>>;

    /// The shapes of the registry, in the order in which they were given.
    closed spec fn view(&self) -> Seq<Seq<Instruction>> {
        shapes(self.known_blocks@)
    }
}

impl<'a> Registry<'a> {
    #[verifier::type_invariant]
    spec fn well_indexed(&self) -> bool {
        indexed(
            shapes(self.known_blocks@),
            self.newest@,
            self.older@,
            self.known_blocks@.len() as int,
        )
    }

    /// Builds the registry of the given blocks. The blocks are taken as they
    /// are: their inner nesting is not examined.
    pub fn new(known_blocks: &'a [&'a [Instruction]]) -> (registry: Registry<'a>)
        ensures
            registry@ == shapes(known_blocks@),
    {
        let ghost all = shapes(known_blocks@);
        let mut newest: HashMap<u64, usize> = HashMap::new();
        let mut older: Vec<Option<usize>> = Vec::new();
        let mut i: usize = 0;
        while i < known_blocks.len()
            invariant
                all == shapes(known_blocks@),
                indexed(all, newest@, older@, i as int),
            decreases known_blocks@.len() - i,
        {
            let hash = hash_shape(known_blocks[i]);
            let before = match newest.get(&hash) {
                Some(entry) => Some(*entry),
                None => None,
            };
            let ghost older_before = older@;
            older.push(before);
            newest.insert(hash, i);
            proof {
                // The entries before `i` keep their links, and entry `i` is
                // linked to what was the newest entry with its hash.
                assert forall|k: int| 0 <= k < i + 1 implies #[trigger] chained(
                    all,
                    older@,
                    k,
                ) by {
                    if k < i {
                        assert(chained(all, older_before, k));
                    }
                }
            }
            i += 1;
        }
        Registry { known_blocks, newest, older }
    }

    /// Looks `shape` up: gives the entry whose instructions equal those of
    /// `shape`, all of them and in order, or `None` if there is no such
    /// entry. Where several entries hold the same shape, the last one is
    /// given.
    pub fn lookup(&self, shape: &[Instruction]) -> (entry: Option<usize>)
        ensures
            entry_of(self@, shape@) == match entry {
                Some(index) => Some(index as int),
                None => None,
            },
    {
        proof {
            use_type_invariant(self);
            lemma_entry_of(self@, shape@);
        }
        let ghost all = shapes(self.known_blocks@);
        let hash = hash_shape(shape);
        let mut candidate = match self.newest.get(&hash) {
            Some(entry) => Some(*entry),
            None => None,
        };
        assert forall|m: int| 0 <= m < all.len() && (candidate matches Some(c) ==> c < m) implies all[m]
            != shape@ by {
            if all[m] == shape@ {
                assert(hash_key(all, m) == hash);
            }
        }
        while candidate.is_some()
            invariant
                all == shapes(self.known_blocks@),
                all == self@,
                hash == shape_hash(shape@),
                indexed(all, self.newest@, self.older@, all.len() as int),
                candidate matches Some(c) ==> c < all.len() && hash_key(all, c as int) == hash,
                forall|m: int|
                    0 <= m < all.len() && (candidate matches Some(c) ==> c < m) ==> all[m]
                        != shape@,
            decreases
                    match candidate {
                        Some(c) => c + 1,
                        None => 0,
                    },
        {
            let current = candidate.unwrap();
            if same_shape(self.known_blocks[current], shape) {
                proof {
                    lemma_entry_of(all, shape@);
                }
                return Some(current);
            }
            assert(chained(all, self.older@, current as int));
            candidate = self.older[current];
            assert forall|m: int|
                0 <= m < all.len() && (candidate matches Some(c) ==> c < m) implies all[m]
                != shape@ by {
                if m < current && all[m] == shape@ {
                    assert(hash_key(all, m) == hash);
                }
            }
        }
        None
    }
}

} // verus!
