//! The permutation table: one target byte for every byte value.

use vstd::prelude::*;

verus! {

/// The table that maps every byte to itself.
pub open spec fn identity_table() -> Seq<u8> {
    Seq::new(256, |i: int| i as u8)
}

/// Some entry of `table` has `target` as its value.
pub open spec fn occurs_in(table: Seq<u8>, target: u8) -> bool {
    exists|i: int| 0 <= i < table.len() && #[trigger] table[i] == target
}

/// No byte is the target of two entries.
pub open spec fn is_injective(table: Seq<u8>) -> bool {
    forall|i: int, j: int|
        0 <= i < table.len() && 0 <= j < table.len() && #[trigger] table[i] == #[trigger] table[j]
            ==> i == j
}

/// A table of 256 entries in which every byte is the target of exactly
/// one entry.
pub open spec fn is_bijection(table: Seq<u8>) -> bool {
    &&& table.len() == 256
    &&& is_injective(table)
    &&& forall|target: u8| #[trigger] occurs_in(table, target)
}

/// `table` with the targets of `left` and `right` exchanged.
pub open spec fn swapped(table: Seq<u8>, left: u8, right: u8) -> Seq<u8> {
    table.update(left as int, table[right as int]).update(right as int, table[left as int])
}

/// `table` with the entries `from..=to` rotated as a ring by `offset`
/// places: entry `i` of the range takes the target that stood `offset`
/// places after it, counted round the range. A negative `offset`
/// counts backwards. Entries outside the range stay.
pub open spec fn rotated(table: Seq<u8>, from: u8, to: u8, offset: int) -> Seq<u8> {
    let width = to - from + 1;
    Seq::new(
        256,
        |i: int|
            if from <= i <= to {
                table[from + (i - from + offset) % width]
            } else {
                table[i]
            },
    )
}

/// `index` is the last entry of `table` whose target is `target`.
pub open spec fn is_last_index_of(table: Seq<u8>, target: u8, index: int) -> bool {
    &&& 0 <= index < table.len()
    &&& table[index] == target
    &&& forall|j: int| index < j < table.len() ==> #[trigger] table[j] != target
}

/// The entry of the inverse table for `target`: the last entry of
/// `table` that maps to `target`, or zero where none does.
pub open spec fn inverse_entry(table: Seq<u8>, target: u8) -> u8 {
    if occurs_in(table, target) {
        (choose|index: int| is_last_index_of(table, target, index)) as u8
    } else {
        0u8
    }
}

/// The table that undoes `table`. Where two entries of `table` share a
/// target, the later one wins; a byte that is no entry's target is
/// sent to zero.
pub open spec fn inverse_table(table: Seq<u8>) -> Seq<u8> {
    Seq::new(256, |target: int| inverse_entry(table, target as u8))
}

/// Index based mapping between bytes: entry `i` is the byte that `i`
/// is mapped to.
#[derive(Clone, Copy, Debug)]
pub struct ByteMapping {
    bytes: [u8; 256],
}

impl View for ByteMapping {
    type V = Seq<u8>;

    closed spec fn view(&self) -> Seq<u8> {
        self.bytes@
    }
}

/// The entries of `table` that do not map their byte to itself, each
/// as the pair of the byte and its target, in ascending order of the
/// byte.
pub open spec fn remapped_entries(table: Seq<u8>) -> Seq<(u8, u8)> {
    Seq::new(table.len(), |i: int| (i as u8, table[i])).filter(
        |entry: (u8, u8)| entry.0 != entry.1,
    )
}

impl ByteMapping {
    /// Every table has one entry per byte value.
    pub proof fn lemma_len(&self)
        ensures
            self@.len() == 256,
    {
    }

    /// A table is what its entries are: two tables with the same
    /// entries are one table.
    pub proof fn lemma_same_entries(self, other: ByteMapping)
        ensures
            self@ == other@ ==> self == other,
    {
        if self@ == other@ {
            assert forall|i: int| 0 <= i < 256 implies self.bytes[i] == other.bytes[i] by {
                assert(self@[i] == other@[i]);
            }
            assert(self.bytes =~= other.bytes);
        }
    }

    /// A table whose entries are all zero.
    pub fn zeroed() -> (table: ByteMapping)
        ensures
            table@ == Seq::new(256, |i: int| 0u8),
    {
        let table = ByteMapping { bytes: [0u8; 256] };
        assert(table@ =~= Seq::new(256, |i: int| 0u8));
        table
    }

    /// The byte that `index` is mapped to.
    pub fn at(&self, index: u8) -> (target: u8)
        ensures
            target == self@[index as int],
    {
        self.bytes[index as usize]
    }

    /// The bytes that are not mapped to themselves, each with its
    /// target: all that tells the table from the identity table.
    pub fn remapped(&self) -> (entries: Vec<(u8, u8)>)
        ensures
            entries@ == remapped_entries(self@),
    {
        let ghost all = Seq::new(256, |i: int| (i as u8, self@[i]));
        let ghost changed = |entry: (u8, u8)| entry.0 != entry.1;
        let mut entries: Vec<(u8, u8)> = Vec::new();
        let mut i: usize = 0;
        proof {
            assert(all.take(0) =~= Seq::empty());
            assert(Seq::<(u8, u8)>::empty().filter(changed) =~= Seq::empty()) by {
                reveal(Seq::filter);
            }
        }
        while i < 256
            invariant
                i <= 256,
                self@.len() == 256,
                all == Seq::new(256, |i: int| (i as u8, self@[i])),
                changed == |entry: (u8, u8)| entry.0 != entry.1,
                entries@ == all.take(i as int).filter(changed),
            decreases 256 - i,
        {
            let target = self.bytes[i];
            proof {
                assert(all.take(i + 1) =~= all.take(i as int).push(all[i as int]));
                all.take(i as int).lemma_filter_push(all[i as int], changed);
            }
            if target != i as u8 {
                entries.push((i as u8, target));
            }
            i += 1;
        }
        assert(all.take(256) =~= all);
        entries
    }

    /// Maps `index` to `target` and leaves every other entry as it was.
    pub fn set(&mut self, index: u8, target: u8)
        ensures
            final(self)@ == old(self)@.update(index as int, target),
    {
        self.bytes[index as usize] = target;
    }
}

impl Default for ByteMapping {
    /// Builds the table of every byte in ascending order.
    fn default() -> (table: ByteMapping)
        ensures
            table@ == identity_table(),
    {
        let mut bytes = [0u8; 256];
        let mut b: usize = 0;
        while b < 256
            invariant
                b <= 256,
                forall|i: int| 0 <= i < b ==> bytes@[i] == i as u8,
            decreases 256 - b,
        {
            bytes[b] = b as u8;
            b += 1;
        }
        let table = ByteMapping { bytes };
        assert(table@ =~= identity_table());
        table
    }
}

} // verus!
