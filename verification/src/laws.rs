//! What holds of substitution tables under the builder's edits.

use crate::mapping::{
    identity_table, inverse_entry, inverse_table, is_bijection, is_last_index_of, occurs_in,
    rotated, swapped,
};
use crate::ring::lemma_ring_shift_back;
use vstd::arithmetic::div_mod::{lemma_add_mod_noop_right, lemma_mod_bound, lemma_mod_multiples_vanish};
use vstd::prelude::*;
use vstd::wrapping::u8_specs;

verus! {

/// The identity table is a bijection.
pub proof fn lemma_identity_is_bijection()
    ensures
        is_bijection(identity_table()),
{
    let table = identity_table();
    assert forall|target: u8| #[trigger] occurs_in(table, target) by {
        assert(table[target as int] == target);
    }
}

/// Exchanging two targets of a bijection gives a bijection.
pub proof fn lemma_swapped_is_bijection(table: Seq<u8>, left: u8, right: u8)
    requires
        is_bijection(table),
    ensures
        is_bijection(swapped(table, left, right)),
{
    let after = swapped(table, left, right);
    assert forall|target: u8| #[trigger] occurs_in(after, target) by {
        assert(occurs_in(table, target));
        let i = choose|i: int| 0 <= i < table.len() && #[trigger] table[i] == target;
        if i == left {
            assert(after[right as int] == target);
        } else if i == right {
            assert(after[left as int] == target);
        } else {
            assert(after[i] == target);
        }
    }
}

/// Rotating a range of a bijection gives a bijection, whatever the
/// offset.
pub proof fn lemma_rotated_is_bijection(table: Seq<u8>, from: u8, to: u8, offset: int)
    requires
        is_bijection(table),
        from <= to,
    ensures
        is_bijection(rotated(table, from, to, offset)),
{
    let after = rotated(table, from, to, offset);
    let width = to - from + 1;
    assert forall|i: int, j: int|
        0 <= i < after.len() && 0 <= j < after.len() && #[trigger] after[i] == #[trigger] after[j]
        implies i == j by {
        let si = if from <= i <= to { from + (i - from + offset) % width } else { i };
        let sj = if from <= j <= to { from + (j - from + offset) % width } else { j };
        if from <= i <= to {
            lemma_ring_shift_back(i - from, offset, width);
        }
        if from <= j <= to {
            lemma_ring_shift_back(j - from, offset, width);
        }
        assert(table[si] == table[sj]);
        assert(si == sj);
    }
    assert forall|target: u8| #[trigger] occurs_in(after, target) by {
        assert(occurs_in(table, target));
        let k = choose|k: int| 0 <= k < table.len() && #[trigger] table[k] == target;
        if from <= k <= to {
            lemma_ring_shift_back(k - from, -offset, width);
            let i = from + (k - from - offset) % width;
            assert(after[i] == target);
        } else {
            assert(after[k] == target);
        }
    }
}

/// What `inverse_entry` is: for a target that occurs, the last entry
/// that holds it; for one that does not, zero.
pub proof fn lemma_inverse_entry(table: Seq<u8>, target: u8)
    requires
        table.len() == 256,
    ensures
        occurs_in(table, target) ==> is_last_index_of(
            table,
            target,
            inverse_entry(table, target) as int,
        ),
        !occurs_in(table, target) ==> inverse_entry(table, target) == 0,
{
    if occurs_in(table, target) {
        let first = choose|i: int| 0 <= i < table.len() && #[trigger] table[i] == target;
        lemma_last_index_exists(table, target, first, 256);
    }
}

/// Among the first `bound` entries, of which entry `found` holds
/// `target`, one is the last to hold it.
proof fn lemma_last_index_exists(table: Seq<u8>, target: u8, found: int, bound: int)
    requires
        0 <= found < bound <= table.len(),
        table[found] == target,
        forall|j: int| bound <= j < table.len() ==> #[trigger] table[j] != target,
    ensures
        exists|index: int| is_last_index_of(table, target, index),
    decreases bound - found,
{
    if table[bound - 1] == target {
        assert(is_last_index_of(table, target, bound - 1));
    } else {
        lemma_last_index_exists(table, target, found, bound - 1);
    }
}

/// `inverse` is what a scan of the first `scanned` entries of `table`
/// leaves in a table that began as zeros, where each entry `i` writes
/// `i` at the place of its target.
pub open spec fn is_inverse_of_prefix(table: Seq<u8>, inverse: Seq<u8>, scanned: int) -> bool {
    &&& inverse.len() == 256
    &&& forall|i: int|
        0 <= i < scanned ==> {
            let last = inverse[#[trigger] table[i] as int];
            i <= last < scanned && table[last as int] == table[i]
        }
    &&& forall|target: u8|
        (forall|i: int| 0 <= i < scanned ==> #[trigger] table[i] != target)
            ==> #[trigger] inverse[target as int] == 0
}

/// A full scan of `table` leaves its inverse table.
pub proof fn lemma_inverse_table_from_scan(table: Seq<u8>, inverse: Seq<u8>)
    requires
        table.len() == 256,
        is_inverse_of_prefix(table, inverse, 256),
    ensures
        inverse == inverse_table(table),
{
    assert forall|target: int| 0 <= target < 256 implies inverse[target] == inverse_entry(
        table,
        target as u8,
    ) by {
        let t = target as u8;
        lemma_inverse_entry(table, t);
        if occurs_in(table, t) {
            let i = choose|i: int| 0 <= i < table.len() && #[trigger] table[i] == t;
            let last = inverse[table[i] as int] as int;
            let chosen = inverse_entry(table, t) as int;
            assert(table[last] == t);
            assert(is_last_index_of(table, t, chosen));
            assert(inverse[table[chosen] as int] >= chosen);
            if chosen < last {
                assert(table[last] != t);
            }
        } else {
            assert forall|i: int| 0 <= i < 256 implies #[trigger] table[i] != t by {
                if table[i] == t {
                    assert(occurs_in(table, t));
                }
            }
        }
    }
    assert(inverse =~= inverse_table(table));
}

/// The inverse of a bijection undoes it, from either side.
pub proof fn lemma_inverse_undoes_bijection(table: Seq<u8>)
    requires
        is_bijection(table),
    ensures
        forall|token: u8| inverse_table(table)[(#[trigger] table[token as int]) as int] == token,
        forall|token: u8| table[(#[trigger] inverse_table(table)[token as int]) as int] == token,
{
    assert forall|token: u8|
        inverse_table(table)[(#[trigger] table[token as int]) as int] == token by {
        let target = table[token as int];
        assert(occurs_in(table, target));
        lemma_inverse_entry(table, target);
    }
    assert forall|token: u8|
        table[(#[trigger] inverse_table(table)[token as int]) as int] == token by {
        assert(occurs_in(table, token));
        lemma_inverse_entry(table, token);
    }
}

/// The identity table is its own inverse.
pub proof fn lemma_inverse_of_identity()
    ensures
        inverse_table(identity_table()) == identity_table(),
{
    let table = identity_table();
    lemma_identity_is_bijection();
    lemma_inverse_undoes_bijection(table);
    assert forall|target: int| 0 <= target < 256 implies inverse_table(table)[target]
        == table[target] by {
        let t = target as u8;
        assert(table[inverse_table(table)[t as int] as int] == t);
    }
    assert(inverse_table(table) =~= table);
}

/// Rotating the whole identity table by `offset` sends every byte to
/// the byte `offset` after it, counted round from 255 to 0: the
/// wrapping sum of the byte and the offset, or for an offset below
/// zero the wrapping difference of the byte and the offset's size.
pub proof fn lemma_full_rotation_adds(offset: int, token: u8)
    ensures
        rotated(identity_table(), 0, 255, offset)[token as int] == (token + offset) % 256,
        0 <= offset <= 255 ==> rotated(identity_table(), 0, 255, offset)[token as int]
            == u8_specs::wrapping_add(token, offset as u8),
        -255 <= offset <= 0 ==> rotated(identity_table(), 0, 255, offset)[token as int]
            == u8_specs::wrapping_sub(token, (-offset) as u8),
{
    lemma_mod_bound(token + offset, 256);
}

/// A rotation leaves every entry outside its range as it was. Of the
/// identity table it leaves every byte outside the range mapped to
/// itself.
pub proof fn lemma_rotation_keeps_outside(
    table: Seq<u8>,
    from: u8,
    to: u8,
    offset: int,
    token: u8,
)
    requires
        table.len() == 256,
        !(from <= token <= to),
    ensures
        rotated(table, from, to, offset)[token as int] == table[token as int],
        rotated(identity_table(), from, to, offset)[token as int] == token,
{
}

/// Only the offset modulo the length of the range matters to a
/// rotation: a whole turn more or less changes nothing.
pub proof fn lemma_rotation_is_periodic(table: Seq<u8>, from: u8, to: u8, offset: int, turns: int)
    requires
        from <= to,
    ensures
        rotated(table, from, to, offset + turns * (to - from + 1)) == rotated(
            table,
            from,
            to,
            offset,
        ),
        rotated(table, from, to, offset % (to - from + 1)) == rotated(table, from, to, offset),
{
    let width = to - from + 1;
    let more = rotated(table, from, to, offset + turns * width);
    let less = rotated(table, from, to, offset % width);
    let same = rotated(table, from, to, offset);
    assert forall|i: int| 0 <= i < 256 implies more[i] == same[i] && less[i] == same[i] by {
        if from <= i <= to {
            assert(i - from + offset + turns * width == width * turns + (i - from + offset))
                by (nonlinear_arith);
            lemma_mod_multiples_vanish(turns, i - from + offset, width);
            lemma_add_mod_noop_right(i - from, offset, width);
        }
    }
    assert(more =~= same);
    assert(less =~= same);
}

/// Exchanging the target of a byte with itself changes nothing, and
/// it does not matter which of two bytes is named first.
pub proof fn lemma_swap_is_symmetric(table: Seq<u8>, left: u8, right: u8)
    requires
        table.len() == 256,
    ensures
        swapped(table, left, left) == table,
        swapped(table, left, right) == swapped(table, right, left),
{
    assert(swapped(table, left, left) =~= table);
    assert(swapped(table, left, right) =~= swapped(table, right, left));
}

/// One edit of a table under construction.
pub enum Edit {
    /// The targets of two bytes are exchanged.
    Swap { left: u8, right: u8 },
    /// The targets of the bytes `from..=to` are rotated by `offset`.
    Rotate { from: u8, to: u8, offset: isize },
}

impl Edit {
    /// The edit is one that a builder takes: a rotated range does not
    /// end before it begins.
    pub open spec fn is_accepted(self) -> bool {
        match self {
            Edit::Swap { .. } => true,
            Edit::Rotate { from, to, .. } => from <= to,
        }
    }

    /// `table` after the edit.
    pub open spec fn applied(self, table: Seq<u8>) -> Seq<u8> {
        match self {
            Edit::Swap { left, right } => swapped(table, left, right),
            Edit::Rotate { from, to, offset } => rotated(table, from, to, offset as int),
        }
    }
}

/// `table` after the edits of `edits`, the first of them first.
pub open spec fn edited(table: Seq<u8>, edits: Seq<Edit>) -> Seq<u8>
    decreases edits.len(),
{
    if edits.len() == 0 {
        table
    } else {
        edits.last().applied(edited(table, edits.drop_last()))
    }
}

/// Whatever edits are made to the identity table, in whatever order,
/// the table stays a bijection, and so its inverse undoes it: no
/// sequence of swaps and rotations makes two bytes share a target.
pub proof fn lemma_edits_keep_bijection(edits: Seq<Edit>)
    requires
        forall|k: int| 0 <= k < edits.len() ==> (#[trigger] edits[k]).is_accepted(),
    ensures
        is_bijection(edited(identity_table(), edits)),
        forall|token: u8|
            inverse_table(edited(identity_table(), edits))[(#[trigger] edited(
                identity_table(),
                edits,
            )[token as int]) as int] == token,
    decreases edits.len(),
{
    if edits.len() == 0 {
        lemma_identity_is_bijection();
    } else {
        let earlier = edits.drop_last();
        assert forall|k: int| 0 <= k < earlier.len() implies (#[trigger] earlier[k]).is_accepted() by {
            assert(earlier[k] == edits[k]);
        }
        lemma_edits_keep_bijection(earlier);
        let table = edited(identity_table(), earlier);
        assert(edits.last() == edits[edits.len() - 1]);
        match edits.last() {
            Edit::Swap { left, right } => lemma_swapped_is_bijection(table, left, right),
            Edit::Rotate { from, to, offset } => lemma_rotated_is_bijection(
                table,
                from,
                to,
                offset as int,
            ),
        }
    }
    lemma_inverse_undoes_bijection(edited(identity_table(), edits));
}

} // verus!
