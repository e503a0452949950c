//! A collection of classic pure ciphers.

use crate::cipher::{is_reversible, PureCipher};
use crate::mapping::{identity_table, rotated};
use crate::ring::lemma_ring_shift_back;
use crate::substitution::{SubstitutionBuilder, SubstitutionCipher};
use vstd::arithmetic::div_mod::lemma_mod_bound;
use vstd::prelude::*;

verus! {

/// `token` moved `shift` places on in its alphabet, round from the last
/// letter to the first: upper case letters among the upper case ones,
/// lower case letters among the lower case ones. Any other byte is
/// returned as it is.
pub open spec fn alphabet_shift(token: u8, shift: int) -> u8 {
    if 'A' as u8 <= token <= 'Z' as u8 {
        ('A' as u8 + (token - 'A' as u8 + shift) % 26) as u8
    } else if 'a' as u8 <= token <= 'z' as u8 {
        ('a' as u8 + (token - 'a' as u8 + shift) % 26) as u8
    } else {
        token
    }
}

/// The byte that stands for `token` in "leet" speak, and the byte that
/// `token` stands for: six pairs of bytes are exchanged, every other
/// byte is returned as it is.
pub open spec fn leet_swap(token: u8) -> u8 {
    if token == 'a' as u8 {
        '@' as u8
    } else if token == '@' as u8 {
        'a' as u8
    } else if token == 'e' as u8 {
        '3' as u8
    } else if token == '3' as u8 {
        'e' as u8
    } else if token == 'A' as u8 {
        '4' as u8
    } else if token == '4' as u8 {
        'A' as u8
    } else if token == 'S' as u8 {
        '5' as u8
    } else if token == '5' as u8 {
        'S' as u8
    } else if token == 'i' as u8 {
        '!' as u8
    } else if token == '!' as u8 {
        'i' as u8
    } else if token == 't' as u8 {
        '1' as u8
    } else if token == '1' as u8 {
        't' as u8
    } else {
        token
    }
}

/// The table that two rotations by `shift`, of the upper case letters
/// and of the lower case letters, make of the identity table.
spec fn alphabet_table(shift: int) -> Seq<u8> {
    rotated(rotated(identity_table(), 'A' as u8, 'Z' as u8, shift), 'a' as u8, 'z' as u8, shift)
}

/// Entry by entry, `alphabet_table` is `alphabet_shift`.
proof fn lemma_alphabet_table(shift: int, token: u8)
    ensures
        alphabet_table(shift)[token as int] == alphabet_shift(token, shift),
{
    if 'A' as u8 <= token <= 'Z' as u8 {
        lemma_mod_bound(token - 'A' as u8 + shift, 26);
    } else if 'a' as u8 <= token <= 'z' as u8 {
        lemma_mod_bound(token - 'a' as u8 + shift, 26);
    }
}

/// Moving a byte `shift` places back in its alphabet and then `shift`
/// places on returns it.
proof fn lemma_alphabet_shift_back(shift: int, token: u8)
    ensures
        alphabet_shift(alphabet_shift(token, -shift), shift) == token,
{
    if 'A' as u8 <= token <= 'Z' as u8 {
        lemma_ring_shift_back(token - 'A' as u8, -shift, 26);
    } else if 'a' as u8 <= token <= 'z' as u8 {
        lemma_ring_shift_back(token - 'a' as u8, -shift, 26);
    }
}

/// Builds the cipher that moves each letter `shift` places on in its
/// alphabet.
fn alphabet_rotation(shift: u8) -> (cipher: SubstitutionCipher)
    ensures
        forall|token: u8| #[trigger] cipher.encipher_spec(token) == alphabet_shift(token, shift as int),
        forall|token: u8| #[trigger] cipher.decipher_spec(token) == alphabet_shift(token, -(shift as int)),
        is_reversible(&cipher),
{
    let mut builder = SubstitutionBuilder::new();
    builder.rotate_range('A' as u8, 'Z' as u8, shift as isize);
    builder.rotate_range('a' as u8, 'z' as u8, shift as isize);
    let cipher = builder.into_cipher();
    proof {
        assert(cipher@ == alphabet_table(shift as int));
        assert forall|token: u8| #[trigger] cipher.encipher_spec(token) == alphabet_shift(
            token,
            shift as int,
        ) by {
            lemma_alphabet_table(shift as int, token);
        }
        assert forall|token: u8| #[trigger] cipher.decipher_spec(token) == alphabet_shift(
            token,
            -(shift as int),
        ) by {
            let plain = alphabet_shift(token, -(shift as int));
            lemma_alphabet_shift_back(shift as int, token);
            lemma_alphabet_table(shift as int, plain);
            assert(cipher.encipher_spec(plain) == token);
            assert(cipher.decipher_spec(cipher.encipher_spec(plain)) == plain);
        }
    }
    cipher
}

/// Builds the classic caesar cipher: every letter is enciphered to the
/// letter three places after it in its alphabet.
pub fn caesar() -> (cipher: SubstitutionCipher)
    ensures
        forall|token: u8| #[trigger] cipher.encipher_spec(token) == alphabet_shift(token, 3),
        forall|token: u8| #[trigger] cipher.decipher_spec(token) == alphabet_shift(token, -3),
        is_reversible(&cipher),
{
    alphabet_rotation(3)
}

/// Builds the rot13 substitution cipher: every letter is enciphered to
/// the letter thirteen places after it in its alphabet, which is also
/// the letter thirteen places before it.
pub fn rot13_alpha() -> (cipher: SubstitutionCipher)
    ensures
        forall|token: u8| #[trigger] cipher.encipher_spec(token) == alphabet_shift(token, 13),
        forall|token: u8| #[trigger] cipher.decipher_spec(token) == alphabet_shift(token, 13),
        is_reversible(&cipher),
{
    let cipher = alphabet_rotation(13);
    assert forall|token: u8| #[trigger] cipher.decipher_spec(token) == alphabet_shift(token, 13) by {
        assert(alphabet_shift(token, -13) == alphabet_shift(token, 13));
    }
    cipher
}

/// Builds a rough cipher to stereotypical "leet" speak.
pub fn leet_speak() -> (cipher: SubstitutionCipher)
    ensures
        forall|token: u8| #[trigger] cipher.encipher_spec(token) == leet_swap(token),
        forall|token: u8| #[trigger] cipher.decipher_spec(token) == leet_swap(token),
        is_reversible(&cipher),
{
    let substitutions: [(u8, u8); 6] = [
        ('a' as u8, '@' as u8),
        ('e' as u8, '3' as u8),
        ('A' as u8, '4' as u8),
        ('S' as u8, '5' as u8),
        ('i' as u8, '!' as u8),
        ('t' as u8, '1' as u8),
    ];

    let mut builder = SubstitutionBuilder::new();
    let mut i: usize = 0;
    while i < 6
        invariant
            i <= 6,
            substitutions@ == seq![
                ('a' as u8, '@' as u8),
                ('e' as u8, '3' as u8),
                ('A' as u8, '4' as u8),
                ('S' as u8, '5' as u8),
                ('i' as u8, '!' as u8),
                ('t' as u8, '1' as u8),
            ],
            builder@.len() == 256,
            forall|token: u8| #[trigger]
                builder@[token as int] == leet_swap_prefix(token, substitutions@, i as int),
        decreases 6 - i,
    {
        let (token, target) = substitutions[i];
        builder.swap(token, target);
        i += 1;
    }

    let cipher = builder.into_cipher();
    proof {
        assert forall|token: u8| #[trigger] cipher.encipher_spec(token) == leet_swap(token) by {
            assert(cipher@[token as int] == leet_swap_prefix(token, substitutions@, 6));
        }
        assert forall|token: u8| #[trigger] cipher.decipher_spec(token) == leet_swap(token) by {
            let plain = leet_swap(token);
            assert(cipher.encipher_spec(plain) == token);
            assert(cipher.decipher_spec(cipher.encipher_spec(plain)) == plain);
        }
    }
    cipher
}

/// The target of `token` once the first `done` of the pairs in
/// `pairs` have been exchanged, where no byte is in two pairs.
spec fn leet_swap_prefix(token: u8, pairs: Seq<(u8, u8)>, done: int) -> u8 {
    if exists|k: int| 0 <= k < done && pairs[k].0 == token {
        pairs[choose|k: int| 0 <= k < done && pairs[k].0 == token].1
    } else if exists|k: int| 0 <= k < done && pairs[k].1 == token {
        pairs[choose|k: int| 0 <= k < done && pairs[k].1 == token].0
    } else {
        token
    }
}

} // verus!
