//! Arithmetic of positions on a ring: a range of entries whose last
//! is followed by its first.

use vstd::arithmetic::div_mod::{
    lemma_add_mod_noop_right, lemma_fundamental_div_mod, lemma_fundamental_div_mod_converse,
    lemma_mod_bound, lemma_small_mod,
};
use vstd::prelude::*;

verus! {

/// Moving a ring position `offset` places on and then `offset` places
/// back returns to it.
pub proof fn lemma_ring_shift_back(position: int, offset: int, width: int)
    requires
        0 < width,
        0 <= position < width,
    ensures
        0 <= (position + offset) % width < width,
        ((position + offset) % width - offset) % width == position,
{
    lemma_mod_bound(position + offset, width);
    lemma_add_mod_noop_right(-offset, position + offset, width);
    lemma_small_mod(position as nat, width as nat);
}

/// Going `|offset| % width` places back round a ring of `width` places
/// is going `width` less that many places on: either way one arrives
/// `offset % width` places on.
pub proof fn lemma_steps_ahead(offset: int, width: int)
    requires
        0 < width,
    ensures
        offset >= 0 ==> offset % width == vstd::math::abs(offset) as int % width,
        offset < 0 && vstd::math::abs(offset) as int % width == 0 ==> offset % width == 0,
        offset < 0 && vstd::math::abs(offset) as int % width > 0 ==> offset % width == width
            - vstd::math::abs(offset) as int % width,
{
    if offset < 0 {
        let size = -offset;
        let steps = size % width;
        let turns = size / width;
        lemma_fundamental_div_mod(size, width);
        lemma_mod_bound(size, width);
        if steps == 0 {
            assert(offset == (-turns) * width + 0) by (nonlinear_arith)
                requires
                    size == width * turns + steps,
                    steps == 0,
                    offset == -size,
            ;
            lemma_fundamental_div_mod_converse(offset, width, -turns, 0);
        } else {
            assert(offset == (-turns - 1) * width + (width - steps)) by (nonlinear_arith)
                requires
                    size == width * turns + steps,
                    offset == -size,
            ;
            lemma_fundamental_div_mod_converse(offset, width, -turns - 1, width - steps);
        }
    }
}

/// The place `offset` places on from `position` round a ring of
/// `width` places, found from `offset % width` without a division.
pub proof fn lemma_ring_position(position: int, offset: int, width: int)
    requires
        0 < width,
        0 <= position < width,
    ensures
        ({
            let ahead = offset % width;
            (position + offset) % width == if position + ahead >= width {
                position + ahead - width
            } else {
                position + ahead
            }
        }),
{
    let ahead = offset % width;
    lemma_mod_bound(offset, width);
    lemma_add_mod_noop_right(position, offset, width);
    if position + ahead >= width {
        lemma_fundamental_div_mod_converse(position + ahead, width, 1, position + ahead - width);
    } else {
        lemma_small_mod((position + ahead) as nat, width as nat);
    }
}

} // verus!
