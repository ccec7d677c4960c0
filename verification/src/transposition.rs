// The transposition table: what searching a position found, filed under its zobrist key.
//
// Most scores alpha-beta produces are bounds rather than values, so each entry says which
// of the two it holds, and a bound answers a node only where it settles the question the
// node asks. Slots are picked by the low bits of the key; the full key is stored as well,
// which is what tells a hit apart from another position that landed in the same slot.
use vstd::prelude::*;
use vstd::arithmetic::power2::{pow2, lemma_pow2_strictly_increases, lemma2_to64};
use vstd::bits::{low_bits_mask, lemma_usize_low_bits_mask_is_mod};
use crate::board::chess_move::Move;
use crate::evaluate::MATE_BOUND;

verus! {

/// What a stored score says about the position.
#[derive(Clone, Copy, PartialEq, Eq, Debug, Structural)]
pub enum NodeType {
    /// Every move was searched and one came out inside the window: the score is the value.
    Exact,
    /// A move beat beta: the position is worth at least the score.
    LowerBound,
    /// No move reached alpha: the position is worth at most the score.
    UpperBound,
}

/// One stored position.
#[derive(Clone, Copy)]
pub struct Entry {
    /// The whole key, which tells this position apart from others filed in the same slot.
    pub key: u64,
    /// The best move found here, or the one that caused the cutoff.
    pub best_move: Option<Move>,
    /// The score, counted from the position for mates (see `to_table_spec`).
    pub score: i32,
    /// How deep the search that produced the score was, capped at 255.
    pub depth: u8,
    pub node_type: NodeType,
    /// Which search wrote this entry.
    pub generation: u8,
}

/// What the table has to say about a position.
pub struct Probe {
    /// The move to try first, whenever the table has seen the position.
    pub best_move: Option<Move>,
    /// The score, when what is stored settles the node for the window that asks.
    pub cutoff: Option<i32>,
}

/// The slot a key is filed in: the key taken as a machine word, modulo the slot count.
pub open spec fn slot_index(len: nat, hash: u64) -> int {
    ((hash as usize) as nat % len) as int
}

/// The entry filed for this key, once the stored key says it is this very position.
pub open spec fn lookup(slots: Seq<Option<Entry>>, hash: u64) -> Option<Entry> {
    match slots[slot_index(slots.len(), hash)] {
        Some(e) => if e.key == hash { Some(e) } else { None },
        None => None,
    }
}

/// A mate score counted from the node that stores it, rather than from the root.
pub open spec fn to_table_spec(score: int, ply: int) -> int {
    if score >= MATE_BOUND {
        score + ply
    } else if score <= -MATE_BOUND {
        score - ply
    } else {
        score
    }
}

/// A stored mate score counted from the root again, for a node `ply` plies down.
pub open spec fn from_table_spec(score: int, ply: int) -> int {
    if score >= MATE_BOUND {
        score - ply
    } else if score <= -MATE_BOUND {
        score + ply
    } else {
        score
    }
}

/// Whether a stored entry answers a node searching `depth` plies with this window.
pub open spec fn settles(e: Entry, depth: int, ply: int, alpha: int, beta: int) -> bool {
    let score = from_table_spec(e.score as int, ply);
    &&& e.depth >= depth
    &&& match e.node_type {
        NodeType::Exact => true,
        NodeType::LowerBound => score >= beta,
        NodeType::UpperBound => score <= alpha,
    }
}

/// The score a probe answers with, if the entry settles the node.
pub open spec fn probe_cutoff(found: Option<Entry>, depth: int, ply: int, alpha: int, beta: int) -> Option<i32> {
    match found {
        Some(e) => if settles(e, depth, ply, alpha, beta) {
            Some(from_table_spec(e.score as int, ply) as i32)
        } else {
            None
        },
        None => None,
    }
}

/// The move a probe hands over: the stored one, whatever depth it was found at.
pub open spec fn probe_move(found: Option<Entry>) -> Option<Move> {
    match found {
        Some(e) => e.best_move,
        None => None,
    }
}

/// Within one search a deeper entry is not pushed out by a shallower one.
pub open spec fn keeps_existing(existing: Option<Entry>, generation: u8, depth: int) -> bool {
    match existing {
        Some(e) => e.generation == generation && e.depth > depth,
        None => false,
    }
}

/// The entry `store` writes.
pub open spec fn new_entry(
    hash: u64,
    depth: int,
    ply: int,
    score: int,
    node_type: NodeType,
    best_move: Option<Move>,
    generation: u8,
) -> Entry {
    Entry {
        key: hash,
        best_move,
        score: to_table_spec(score, ply) as i32,
        depth: if depth > 255 { 255u8 } else { depth as u8 },
        node_type,
        generation,
    }
}

/// How many slots hold an entry.
pub open spec fn occupied(slots: Seq<Option<Entry>>) -> nat
    decreases slots.len(),
{
    if slots.len() == 0 {
        0
    } else {
        occupied(slots.drop_last()) + if slots.last() is Some { 1nat } else { 0nat }
    }
}

/// Writing an entry into a slot adds one to the count exactly when the slot was empty.
pub proof fn lemma_occupied_update(slots: Seq<Option<Entry>>, i: int, e: Entry)
    requires
        0 <= i < slots.len(),
    ensures
        occupied(slots.update(i, Some(e))) == occupied(slots) + if slots[i] is None { 1nat } else { 0nat },
    decreases slots.len(),
{
    let after = slots.update(i, Some(e));
    if i < slots.len() - 1 {
        assert(after.drop_last() =~= slots.drop_last().update(i, Some(e)));
        lemma_occupied_update(slots.drop_last(), i, e);
    } else {
        assert(after.drop_last() =~= slots.drop_last());
    }
}

/// The bytes one slot takes, as the table is sized by.
pub open spec fn slot_bytes() -> nat {
    if vstd::layout::size_of::<Option<Entry>>() == 0 { 1 } else { vstd::layout::size_of::<Option<Entry>>() }
}

/// How many slots fit into the memory asked for, at least one.
pub open spec fn wanted_slots(megabytes: nat) -> nat {
    let mb = if megabytes < 1 { 1 } else { megabytes };
    let n = mb * 1048576 / slot_bytes();
    if n < 1 { 1 } else { n }
}

pub struct TranspositionTable {
    slots: Vec<Option<Entry>>,
    /// Slot count minus one: the count is a power of two, so this masks a key to a slot.
    mask: usize,
    /// The slot count is two to this power.
    bits: Ghost<nat>,
    generation: u8,
    /// How many slots have been written, which, since slots are never cleared, is how
    /// many hold an entry.
    filled: usize,
    /// How many probes of the running search answered a node outright.
    cutoffs: u64,
}

impl TranspositionTable {
    /// How much memory the table takes unless something asks for another size.
    pub const DEFAULT_MEGABYTES: usize = 64;

    /// The slots, each empty or holding an entry.
    pub closed spec fn slots(&self) -> Seq<Option<Entry>> {
        self.slots@
    }

    /// The search the table is filing for; it counts up, wrapping, with each search.
    pub closed spec fn generation(&self) -> u8 {
        self.generation
    }

    /// How many probes of the running search answered a node.
    pub closed spec fn cutoff_count(&self) -> u64 {
        self.cutoffs
    }

    /// The slot count is a power of two, and the counters agree with the slots.
    pub closed spec fn wf(&self) -> bool {
        &&& self.bits@ < usize::BITS
        &&& self.slots@.len() == pow2(self.bits@)
        &&& self.mask == low_bits_mask(self.bits@)
        &&& self.filled == occupied(self.slots@)
    }

    /// A well-formed table has at least one slot, so every key has a slot to go to.
    pub proof fn lemma_has_slots(&self)
        requires
            self.wf(),
        ensures
            0 < self.slots().len(),
    {
        vstd::arithmetic::power2::lemma_pow2_pos(self.bits@);
    }

    /// A table of about `megabytes` of memory: the largest power of two of slots that
    /// fits, at least one, every slot empty.
    pub fn new(megabytes: usize) -> (r: TranspositionTable)
        requires
            megabytes <= usize::MAX / 1048576,
        ensures
            r.wf(),
            r.slots().len() <= wanted_slots(megabytes as nat) < 2 * r.slots().len(),
            exists|b: nat| r.slots().len() == pow2(b),
            forall|i: int| 0 <= i < r.slots().len() ==> r.slots()[i] is None,
            r.generation() == 0,
            r.cutoff_count() == 0,
    {
        let size = std::mem::size_of::<Option<Entry>>();
        let slot_size: usize = if size == 0 { 1 } else { size };
        let mb: usize = if megabytes < 1 { 1 } else { megabytes };
        let fitting: usize = mb * 1048576 / slot_size;
        let wanted: usize = if fitting < 1 { 1 } else { fitting };
        assert(wanted == wanted_slots(megabytes as nat));

        // rounded down to a power of two, so a key masks straight into a slot
        let mut count: usize = 1;
        let ghost mut bits: nat = 0;
        proof {
            lemma2_to64();
        }
        while count <= wanted / 2
            invariant
                1 <= count <= wanted,
                count == pow2(bits),
            decreases wanted - count,
        {
            count = count * 2;
            proof {
                vstd::arithmetic::power2::lemma_pow2_unfold(bits + 1);
                bits = bits + 1;
            }
        }
        proof {
            if bits >= usize::BITS {
                lemma2_to64();
                if bits > usize::BITS {
                    lemma_pow2_strictly_increases(usize::BITS as nat, bits);
                }
            }
            assert(bits < usize::BITS);
        }

        let mut slots: Vec<Option<Entry>> = Vec::new();
        while slots.len() < count
            invariant
                slots.len() <= count,
                occupied(slots@) == 0,
                forall|i: int| 0 <= i < slots.len() ==> slots@[i] is None,
            decreases count - slots.len(),
        {
            let ghost before = slots@;
            slots.push(None);
            assert(slots@.drop_last() =~= before);
        }
        TranspositionTable { slots, mask: count - 1, bits: Ghost(bits), generation: 0, filled: 0, cutoffs: 0 }
    }

    /// A new search starts: the entries stay, but are now a search old.
    pub fn start_search(&mut self)
        requires
            old(self).wf(),
        ensures
            final(self).wf(),
            final(self).slots() == old(self).slots(),
            final(self).generation() == (if old(self).generation() == 255 { 0 } else { old(self).generation() + 1 }),
            final(self).cutoff_count() == 0,
    {
        self.generation = self.generation.wrapping_add(1);
        self.cutoffs = 0;
    }

    /// The slot a key picks; the mask is the slot count minus one, a power of two.
    fn slot(&self, hash: u64) -> (r: usize)
        requires
            self.wf(),
        ensures
            r == slot_index(self.slots().len(), hash),
            r < self.slots().len(),
    {
        let index = hash as usize;
        proof {
            lemma_usize_low_bits_mask_is_mod(index, self.bits@);
            vstd::arithmetic::power2::lemma_pow2_pos(self.bits@);
            assert(self.slots.len() <= usize::MAX);
            assert(pow2(self.bits@) as usize == self.slots@.len());
            assert(low_bits_mask(self.bits@) as usize == self.mask);
        }
        index & self.mask
    }

    /// The entry filed here, once the full key says it is this position.
    fn entry(&self, hash: u64) -> (r: Option<Entry>)
        requires
            self.wf(),
        ensures
            r == lookup(self.slots(), hash),
    {
        let slot = self.slot(hash);
        match self.slots[slot] {
            Some(entry) => if entry.key == hash { Some(entry) } else { None },
            None => None,
        }
    }

    /// The move stored for this position, whatever depth it was found at.
    pub fn best_move(&self, hash: u64) -> (r: Option<Move>)
        requires
            self.wf(),
        ensures
            r == probe_move(lookup(self.slots(), hash)),
    {
        match self.entry(hash) {
            Some(entry) => entry.best_move,
            None => None,
        }
    }

    /// What the table can do for a node searching `depth` plies, `ply` plies below the
    /// root, with the window `alpha`..`beta`: the stored move, and the stored score where
    /// it settles the node. A probe that answers is counted.
    pub fn probe(&mut self, hash: u64, depth: u32, ply: u32, alpha: i32, beta: i32) -> (r: Probe)
        requires
            old(self).wf(),
            ply <= i32::MAX,
        ensures
            final(self).wf(),
            final(self).slots() == old(self).slots(),
            final(self).generation() == old(self).generation(),
            r.best_move == probe_move(lookup(old(self).slots(), hash)),
            r.cutoff == probe_cutoff(lookup(old(self).slots(), hash), depth as int, ply as int, alpha as int, beta as int),
            final(self).cutoff_count() == if r.cutoff is Some {
                vstd::wrapping::u64_specs::wrapping_add(old(self).cutoff_count(), 1)
            } else {
                old(self).cutoff_count()
            },
    {
        let entry = match self.entry(hash) {
            Some(entry) => entry,
            None => {
                return Probe { best_move: None, cutoff: None };
            },
        };
        let best_move = entry.best_move;

        // a shallower search looked at less than this node asks for
        if (entry.depth as u32) < depth {
            return Probe { best_move, cutoff: None };
        }

        let score = from_table(entry.score, ply);
        let settled = match entry.node_type {
            NodeType::Exact => true,
            NodeType::LowerBound => score >= beta,
            NodeType::UpperBound => score <= alpha,
        };
        if !settled {
            return Probe { best_move, cutoff: None };
        }

        self.cutoffs = self.cutoffs.wrapping_add(1);
        Probe { best_move, cutoff: Some(score) }
    }

    /// Files what a node found. An entry from an earlier search is given up freely;
    /// within one search a deeper entry stays where a shallower one would replace it.
    pub fn store(&mut self, hash: u64, depth: u32, ply: u32, score: i32, node_type: NodeType, best_move: Option<Move>)
        requires
            old(self).wf(),
            ply <= i32::MAX,
            i32::MIN <= to_table_spec(score as int, ply as int) <= i32::MAX,
        ensures
            final(self).wf(),
            final(self).generation() == old(self).generation(),
            final(self).cutoff_count() == old(self).cutoff_count(),
            ({
                let slot = slot_index(old(self).slots().len(), hash);
                if keeps_existing(old(self).slots()[slot], old(self).generation(), depth as int) {
                    final(self).slots() == old(self).slots()
                } else {
                    final(self).slots() == old(self).slots().update(
                        slot,
                        Some(new_entry(hash, depth as int, ply as int, score as int, node_type, best_move, old(self).generation())),
                    )
                }
            }),
    {
        let slot = self.slot(hash);
        let was_empty = self.slots[slot].is_none();
        match self.slots[slot] {
            None => {},
            Some(existing) => {
                if existing.generation == self.generation && (existing.depth as u32) > depth {
                    return;
                }
            },
        }
        let entry = Entry {
            key: hash,
            best_move,
            score: to_table(score, ply),
            depth: if depth > 255 { 255u8 } else { depth as u8 },
            node_type,
            generation: self.generation,
        };
        proof {
            lemma_occupied_update(self.slots@, slot as int, entry);
        }
        if was_empty {
            proof {
                assert(self.slots@[slot as int] is None);
                assert(self.slots.len() <= usize::MAX);
                assert(self.filled == occupied(self.slots@));
                assert(occupied(self.slots@) < self.slots@.len()) by {
                    lemma_occupied_bound(self.slots@, slot as int);
                }
            }
            self.filled = self.filled + 1;
        }
        self.slots.set(slot, Some(entry));
    }

    /// How many nodes of the running search the table answered by itself.
    pub fn cutoffs(&self) -> (r: u64)
        ensures
            r == self.cutoff_count(),
    {
        self.cutoffs
    }

    /// How many slots have been written.
    pub fn filled(&self) -> (r: usize)
        requires
            self.wf(),
        ensures
            r == occupied(self.slots()),
    {
        self.filled
    }

    /// How many slots there are.
    pub fn slot_count(&self) -> (r: usize)
        ensures
            r == self.slots().len(),
    {
        self.slots.len()
    }
}

/// A seq with an empty slot holds fewer entries than slots.
proof fn lemma_occupied_bound(slots: Seq<Option<Entry>>, i: int)
    requires
        0 <= i < slots.len(),
        slots[i] is None,
    ensures
        occupied(slots) < slots.len(),
    decreases slots.len(),
{
    lemma_occupied_at_most(slots.drop_last());
    if i < slots.len() - 1 {
        lemma_occupied_bound(slots.drop_last(), i);
    }
}

/// No more entries than slots.
proof fn lemma_occupied_at_most(slots: Seq<Option<Entry>>)
    ensures
        occupied(slots) <= slots.len(),
    decreases slots.len(),
{
    if slots.len() > 0 {
        lemma_occupied_at_most(slots.drop_last());
    }
}

/// A mate score counted from the position, for storing.
fn to_table(score: i32, ply: u32) -> (r: i32)
    requires
        ply <= i32::MAX,
        i32::MIN <= to_table_spec(score as int, ply as int) <= i32::MAX,
    ensures
        r == to_table_spec(score as int, ply as int),
{
    if score >= MATE_BOUND {
        score + ply as i32
    } else if score <= -MATE_BOUND {
        score - ply as i32
    } else {
        score
    }
}

/// A stored mate score counted from the root again.
fn from_table(score: i32, ply: u32) -> (r: i32)
    requires
        ply <= i32::MAX,
    ensures
        r == from_table_spec(score as int, ply as int),
{
    if score >= MATE_BOUND {
        score - ply as i32
    } else if score <= -MATE_BOUND {
        score + ply as i32
    } else {
        score
    }
}

/// A mate filed from one ply reads back as the same mate from the ply that asks: what is
/// stored at `stored_ply` and read at `read_ply` has moved by the difference.
pub proof fn law_mate_distance_is_kept(score: int, stored_ply: int, read_ply: int)
    requires
        0 <= stored_ply,
        0 <= read_ply,
        MATE_BOUND <= score,
    ensures
        from_table_spec(to_table_spec(score, stored_ply), read_ply) == score + stored_ply - read_ply,
{
}

/// A score that is not a mate goes in and comes out as it is, from any ply.
pub proof fn law_plain_scores_are_kept(score: int, stored_ply: int, read_ply: int)
    requires
        -MATE_BOUND < score < MATE_BOUND,
    ensures
        from_table_spec(to_table_spec(score, stored_ply), read_ply) == score,
{
}

/// What is stored is read back: once an entry for a key is written into its slot, a
/// lookup of that key finds it, a probe hands back the stored move, and an exact score
/// stored from some ply answers a probe from that same ply, for any window, at any depth
/// the stored search reached, with the very score that was stored.
pub proof fn law_store_then_probe(
    slots: Seq<Option<Entry>>,
    hash: u64,
    depth: int,
    read_depth: int,
    ply: int,
    score: int,
    best_move: Option<Move>,
    generation: u8,
    alpha: int,
    beta: int,
)
    requires
        slots.len() > 0,
        0 <= read_depth <= depth,
        read_depth <= 255,
        0 <= ply,
        i32::MIN <= score <= i32::MAX,
        i32::MIN <= to_table_spec(score, ply) <= i32::MAX,
    ensures
        ({
            let entry = new_entry(hash, depth, ply, score, NodeType::Exact, best_move, generation);
            let after = slots.update(slot_index(slots.len(), hash), Some(entry));
            &&& lookup(after, hash) == Some(entry)
            &&& probe_move(lookup(after, hash)) == best_move
            &&& probe_cutoff(lookup(after, hash), read_depth, ply, alpha, beta) == Some(score as i32)
        }),
{
    let entry = new_entry(hash, depth, ply, score, NodeType::Exact, best_move, generation);
    let after = slots.update(slot_index(slots.len(), hash), Some(entry));
    assert(0 <= slot_index(slots.len(), hash) < slots.len());
    assert(after.len() == slots.len());
    assert(after[slot_index(after.len(), hash)] == Some(entry));
    assert(entry.score as int == to_table_spec(score, ply));
    assert(from_table_spec(entry.score as int, ply) == score);
}

/// Filing an entry touches one slot: every key filed in another slot looks up the same
/// as before.
pub proof fn law_store_leaves_other_slots(slots: Seq<Option<Entry>>, hash: u64, entry: Entry, other: u64)
    requires
        slots.len() > 0,
        slot_index(slots.len(), other) != slot_index(slots.len(), hash),
    ensures
        lookup(slots.update(slot_index(slots.len(), hash), Some(entry)), other) == lookup(slots, other),
{
    let after = slots.update(slot_index(slots.len(), hash), Some(entry));
    assert(after.len() == slots.len());
    assert(0 <= slot_index(slots.len(), other) < slots.len());
    assert(after[slot_index(after.len(), other)] == slots[slot_index(slots.len(), other)]);
}

} // verus!
