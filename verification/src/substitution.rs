//! Substitution-based pure ciphers.

use crate::cipher::{is_reversible, NullCipher, PureCipher};
use crate::laws::{
    is_inverse_of_prefix, lemma_identity_is_bijection, lemma_inverse_of_identity,
    lemma_inverse_table_from_scan, lemma_inverse_undoes_bijection, lemma_rotated_is_bijection,
    lemma_swapped_is_bijection,
};
use crate::mapping::{identity_table, inverse_table, is_bijection, rotated, swapped, ByteMapping};
use crate::ring::{lemma_ring_position, lemma_steps_ahead};
use vstd::prelude::*;

verus! {

/// Convenience structure to help build substitution ciphers.
///
/// For simplicity, ciphers may only be expressed with swaps and
/// rotations. Both only move targets from one entry to another, so the
/// table under construction is a bijection at every moment.
#[derive(Debug)]
pub struct SubstitutionBuilder {
    /// Index based mapping between bytes.
    map: ByteMapping,
}

impl View for SubstitutionBuilder {
    type V = Seq<u8>;

    /// The table built so far.
    closed spec fn view(&self) -> Seq<u8> {
        self.map@
    }
}

impl SubstitutionBuilder {
    #[verifier::type_invariant]
    spec fn holds_bijection(self) -> bool {
        is_bijection(self.map@)
    }

    /// Builds a new `SubstitutionBuilder` with each byte mapped to
    /// itself.
    pub fn new() -> (builder: Self)
        ensures
            builder@ == identity_table(),
            is_bijection(builder@),
    {
        proof {
            lemma_identity_is_bijection();
        }
        Self { map: ByteMapping::default() }
    }

    /// Swaps the mappings of `left` and `right` in the resulting
    /// cipher. The swap acts on the table as it stands, so swaps chain.
    pub fn swap(&mut self, left: u8, right: u8)
        ensures
            final(self)@ == swapped(old(self)@, left, right),
            is_bijection(final(self)@),
    {
        proof {
            use_type_invariant(&*self);
            lemma_swapped_is_bijection(self.map@, left, right);
        }
        let mut map = self.map;
        let buf = map.at(left);
        map.set(left, map.at(right));
        map.set(right, buf);
        self.map = map;
    }

    /// Rotates the mapping targets of the bytes `from..=to` in the
    /// resulting cipher, the range taken as a ring.
    ///
    /// With a positive `offset` each byte of the range takes the
    /// target that stood `offset` places after it; with a negative one
    /// the target that stood as many places before it. Only `offset`
    /// modulo the length of the range matters. Bytes outside the range
    /// keep their targets.
    pub fn rotate_range(&mut self, from: u8, to: u8, offset: isize)
        requires
            from <= to,
        ensures
            final(self)@ == rotated(old(self)@, from, to, offset as int),
            is_bijection(final(self)@),
    {
        let width: usize = to as usize - from as usize + 1;
        let steps: usize = magnitude(offset) % width;
        // Going `steps` places back round the ring is going `width - steps` places on.
        let ahead: usize = if offset < 0 && steps > 0 {
            width - steps
        } else {
            steps
        };
        let source = self.map;
        let mut map = self.map;
        let mut i: usize = 0;
        proof {
            use_type_invariant(&*self);
            lemma_rotated_is_bijection(source@, from, to, offset as int);
            lemma_steps_ahead(offset as int, width as int);
            source.lemma_len();
        }
        while i < width
            invariant
                i <= width,
                width == to - from + 1,
                0 <= ahead < width,
                ahead == (offset as int) % (width as int),
                source@.len() == 256,
                map@.len() == 256,
                forall|k: int|
                    from <= k < from + i ==> #[trigger] map@[k] == rotated(
                        source@,
                        from,
                        to,
                        offset as int,
                    )[k],
                forall|k: int| 0 <= k < 256 && !(from <= k < from + i) ==> map@[k] == source@[k],
            decreases width - i,
        {
            let wrapped: usize = if i + ahead >= width {
                i + ahead - width
            } else {
                i + ahead
            };
            proof {
                lemma_ring_position(i as int, offset as int, width as int);
            }
            map.set((from as usize + i) as u8, source.at((from as usize + wrapped) as u8));
            i += 1;
        }
        assert(map@ =~= rotated(source@, from, to, offset as int));
        self.map = map;
    }

    /// Converts this builder into a substitution cipher. The cipher
    /// enciphers by the table built and deciphers by its inverse.
    pub fn into_cipher(self) -> (cipher: SubstitutionCipher)
        ensures
            cipher@ == self@,
            is_bijection(cipher@),
            is_reversible(&cipher),
    {
        proof {
            use_type_invariant(&self);
        }
        let cipher = SubstitutionCipher::from_bytes_unchecked(self.map);
        proof {
            cipher.lemma_bijection_is_reversible();
        }
        cipher
    }
}

/// The size of `offset` without its sign.
fn magnitude(offset: isize) -> (size: usize)
    ensures
        size == vstd::math::abs(offset as int),
{
    if offset >= 0 {
        offset as usize
    } else if offset == isize::MIN {
        isize::MAX as usize + 1
    } else {
        (-offset) as usize
    }
}

/// Cipher that transforms bytes via direct substitution.
///
/// It is made of a table and the inverse of that table, and nothing
/// changes either once the cipher is built.
#[derive(Debug)]
pub struct SubstitutionCipher {
    /// Index-based mapping to encipher bytes.
    map: ByteMapping,
    /// Index-based mapping to decipher bytes.
    inv: ByteMapping,
}

impl View for SubstitutionCipher {
    type V = Seq<u8>;

    /// The table that the cipher enciphers by.
    closed spec fn view(&self) -> Seq<u8> {
        self.map@
    }
}

impl SubstitutionCipher {
    #[verifier::type_invariant]
    spec fn inverse_is_derived(self) -> bool {
        self.inv@ == inverse_table(self.map@)
    }

    /// The cipher that enciphers by `table` and deciphers by the
    /// inverse of `table`.
    pub closed spec fn of_table(table: Seq<u8>) -> Self {
        choose|cipher: Self| cipher.map@ == table && cipher.inv@ == inverse_table(table)
    }

    /// A cipher is the cipher of its table: the table is all there is
    /// to it.
    proof fn lemma_is_of_table(self)
        requires
            self.inverse_is_derived(),
        ensures
            self == Self::of_table(self@),
    {
        let other = Self::of_table(self@);
        self.map.lemma_same_entries(other.map);
        self.inv.lemma_same_entries(other.inv);
    }

    /// A cipher whose table is a bijection deciphers what it
    /// enciphered to the byte it was, and enciphers what it deciphered
    /// to the byte it was.
    pub proof fn lemma_bijection_is_reversible(&self)
        requires
            is_bijection(self@),
        ensures
            is_reversible(self),
    {
        lemma_inverse_undoes_bijection(self@);
    }

    /// A cipher of the identity table enciphers and deciphers every
    /// byte to itself.
    pub proof fn lemma_identity_changes_nothing(&self)
        requires
            self@ == identity_table(),
        ensures
            forall|token: u8| self.encipher_spec(token) == token,
            forall|token: u8| self.decipher_spec(token) == token,
    {
        lemma_inverse_of_identity();
    }

    /// Builds a `SubstitutionCipher` from the given byte mapping.
    ///
    /// Nothing is asked of the mapping. Where two entries share a
    /// target the cipher cannot be reversed: that target is deciphered
    /// to the later of the two, and a byte that is no entry's target
    /// is deciphered to zero.
    pub fn from_bytes_unchecked(map: ByteMapping) -> (cipher: Self)
        ensures
            cipher@ == map@,
    {
        let mut inv = ByteMapping::zeroed();
        let mut i: usize = 0;
        proof {
            map.lemma_len();
        }
        while i < 256
            invariant
                i <= 256,
                map@.len() == 256,
                is_inverse_of_prefix(map@, inv@, i as int),
            decreases 256 - i,
        {
            let ghost before = inv@;
            inv.set(map.at(i as u8), i as u8);
            assert(inv@ == before.update(map@[i as int] as int, i as u8));
            i += 1;
        }
        proof {
            lemma_inverse_table_from_scan(map@, inv@);
        }
        Self { map, inv }
    }
}

impl Default for SubstitutionCipher {
    /// The cipher of the identity table.
    fn default() -> (cipher: Self)
        ensures
            cipher@ == identity_table(),
    {
        let map = ByteMapping::default();
        proof {
            lemma_inverse_of_identity();
        }
        Self { inv: map, map }
    }
}

impl vstd::std_specs::convert::FromSpecImpl<NullCipher> for SubstitutionCipher {
    open spec fn obeys_from_spec() -> bool {
        true
    }

    open spec fn from_spec(cipher: NullCipher) -> Self {
        Self::of_table(identity_table())
    }
}

impl From<NullCipher> for SubstitutionCipher {
    /// The substitution cipher that changes nothing, as the null
    /// cipher does.
    fn from(cipher: NullCipher) -> (out: Self)
        ensures
            out@ == identity_table(),
    {
        let out = Self::default();
        proof {
            use_type_invariant(&out);
            out.lemma_is_of_table();
        }
        out
    }
}

impl vstd::std_specs::convert::FromSpecImpl<SubstitutionBuilder> for SubstitutionCipher {
    open spec fn obeys_from_spec() -> bool {
        true
    }

    open spec fn from_spec(builder: SubstitutionBuilder) -> Self {
        Self::of_table(builder@)
    }
}

impl From<SubstitutionBuilder> for SubstitutionCipher {
    /// The cipher of the table that `builder` has built.
    fn from(builder: SubstitutionBuilder) -> (out: Self)
        ensures
            out@ == builder@,
            is_reversible(&out),
    {
        let out = builder.into_cipher();
        proof {
            use_type_invariant(&out);
            out.lemma_is_of_table();
        }
        out
    }
}

impl PureCipher for SubstitutionCipher {
    open spec fn encipher_spec(&self, token: u8) -> u8 {
        self@[token as int]
    }

    open spec fn decipher_spec(&self, token: u8) -> u8 {
        inverse_table(self@)[token as int]
    }

    fn encipher(&self, token: u8) -> (out: u8) {
        self.map.at(token)
    }

    fn decipher(&self, token: u8) -> (out: u8) {
        proof {
            use_type_invariant(self);
        }
        self.inv.at(token)
    }
}

} // verus!

