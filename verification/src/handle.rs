//! Ciphers and builders behind handles, for callers that hold no more
//! than a reference which may be null.
//!
//! A `CipherObject` is such a handle: it is null or it owns one
//! transform. Ownership is what keeps the discipline of the handles:
//! a function that releases or finishes its argument takes it by
//! value, so no handle is released twice or used afterwards.

use crate::cipher::{NullCipher, PureCipher};
use crate::classic::{alphabet_shift, caesar, leet_speak, leet_swap, rot13_alpha};
use crate::mapping::{identity_table, rotated, swapped};
use crate::substitution::{SubstitutionBuilder, SubstitutionCipher};
use vstd::prelude::*;

verus! {

/// The transforms that this library makes: a substitution cipher, or
/// the cipher that changes nothing.
pub enum Transform {
    /// A cipher built from a table.
    Substitution(SubstitutionCipher),
    /// The cipher that changes nothing.
    Null(NullCipher),
}

impl PureCipher for Transform {
    open spec fn encipher_spec(&self, token: u8) -> u8 {
        match self {
            Transform::Substitution(cipher) => cipher.encipher_spec(token),
            Transform::Null(cipher) => cipher.encipher_spec(token),
        }
    }

    open spec fn decipher_spec(&self, token: u8) -> u8 {
        match self {
            Transform::Substitution(cipher) => cipher.decipher_spec(token),
            Transform::Null(cipher) => cipher.decipher_spec(token),
        }
    }

    fn encipher(&self, token: u8) -> (out: u8) {
        match self {
            Transform::Substitution(cipher) => cipher.encipher(token),
            Transform::Null(cipher) => cipher.encipher(token),
        }
    }

    fn decipher(&self, token: u8) -> (out: u8) {
        match self {
            Transform::Substitution(cipher) => cipher.decipher(token),
            Transform::Null(cipher) => cipher.decipher(token),
        }
    }
}

impl Transform {
    /// The transform that an optional transform stands for: the one
    /// given, or the cipher that changes nothing where none is given.
    pub fn or_null(cipher: Option<Transform>) -> (out: Transform)
        ensures
            out == (match cipher {
                Some(given) => given,
                None => Transform::Null(NullCipher {}),
            }),
    {
        match cipher {
            Some(given) => given,
            None => Transform::Null(NullCipher {}),
        }
    }
}

/// Handle of a pure cipher: null, or the owner of one transform.
pub struct CipherObject<C: PureCipher> {
    /// The transform, where the handle is not null.
    cipher: Option<Box<C>>,
}

impl<C: PureCipher> View for CipherObject<C> {
    type V = Option<C>;

    /// The transform behind the handle, or `None` for the null handle.
    closed spec fn view(&self) -> Option<C> {
        match self.cipher {
            Some(cipher) => Some(*cipher),
            None => None,
        }
    }
}

impl<C: PureCipher> CipherObject<C> {
    /// The handle stands for no transform.
    pub open spec fn is_null(&self) -> bool {
        self@ is None
    }

    /// The null handle.
    pub fn null() -> (handle: Self)
        ensures
            handle@ is None,
    {
        CipherObject { cipher: None }
    }

    /// A handle that owns `cipher`.
    pub fn new(cipher: C) -> (handle: Self)
        ensures
            handle@ == Some(cipher),
    {
        CipherObject { cipher: Some(Box::new(cipher)) }
    }
}

/// `after` is `before` with every byte enciphered by `cipher`.
pub open spec fn enciphered_with<C: PureCipher>(cipher: C, before: Seq<u8>, after: Seq<u8>) -> bool {
    &&& after.len() == before.len()
    &&& forall|i: int| 0 <= i < before.len() ==> #[trigger] after[i] == cipher.encipher_spec(before[i])
}

/// `after` is `before` with every byte deciphered by `cipher`.
pub open spec fn deciphered_with<C: PureCipher>(cipher: C, before: Seq<u8>, after: Seq<u8>) -> bool {
    &&& after.len() == before.len()
    &&& forall|i: int| 0 <= i < before.len() ==> #[trigger] after[i] == cipher.decipher_spec(before[i])
}

/// Releases the transform behind `cipher`. The handle is consumed.
pub fn purecipher_free<C: PureCipher>(cipher: CipherObject<C>) {
    let CipherObject { cipher: _ } = cipher;
}

/// Enciphers `buffer` in place with the transform behind `cipher`.
///
/// Where the handle is null or no buffer is given, nothing happens.
pub fn purecipher_encipher_buffer<C: PureCipher>(cipher: &CipherObject<C>, buffer: Option<&mut [u8]>)
    ensures
        (match (cipher@, buffer) {
            (Some(transform), Some(bytes)) => enciphered_with(transform, bytes@, final(bytes)@),
            (None, Some(bytes)) => final(bytes)@ == bytes@,
            (_, None) => true,
        }),
        buffer matches Some(bytes) ==> (bytes@.len() == 0 ==> final(bytes)@ == bytes@),
{
    match buffer {
        Some(bytes) => {
            match &cipher.cipher {
                Some(transform) => transform.encipher_inplace(bytes),
                None => {},
            }
        },
        None => {},
    }
}

/// Deciphers `buffer` in place with the transform behind `cipher`.
///
/// Where the handle is null or no buffer is given, nothing happens.
pub fn purecipher_decipher_buffer<C: PureCipher>(cipher: &CipherObject<C>, buffer: Option<&mut [u8]>)
    ensures
        (match (cipher@, buffer) {
            (Some(transform), Some(bytes)) => deciphered_with(transform, bytes@, final(bytes)@),
            (None, Some(bytes)) => final(bytes)@ == bytes@,
            (_, None) => true,
        }),
        buffer matches Some(bytes) ==> (bytes@.len() == 0 ==> final(bytes)@ == bytes@),
{
    match buffer {
        Some(bytes) => {
            match &cipher.cipher {
                Some(transform) => transform.decipher_inplace(bytes),
                None => {},
            }
        },
        None => {},
    }
}

/// Some byte of `bytes` is zero, so that `bytes` holds a terminated
/// string.
pub open spec fn is_terminated(bytes: Seq<u8>) -> bool {
    exists|i: int| 0 <= i < bytes.len() && #[trigger] bytes[i] == 0
}

/// The string at the start of `bytes` has `length` bytes: the first
/// zero byte of `bytes` stands at `length`.
pub open spec fn is_c_str_len(bytes: Seq<u8>, length: int) -> bool {
    &&& 0 <= length < bytes.len()
    &&& bytes[length] == 0
    &&& forall|i: int| 0 <= i < length ==> #[trigger] bytes[i] != 0
}

/// The length of the terminated string at the start of `bytes`, its
/// terminator not counted.
pub open spec fn c_str_len_spec(bytes: Seq<u8>) -> int {
    choose|length: int| is_c_str_len(bytes, length)
}

/// A terminated string has one length.
pub proof fn lemma_c_str_len(bytes: Seq<u8>, length: int)
    requires
        is_c_str_len(bytes, length),
    ensures
        is_terminated(bytes),
        c_str_len_spec(bytes) == length,
{
    let chosen = c_str_len_spec(bytes);
    assert(is_c_str_len(bytes, chosen));
    if chosen < length {
        assert(bytes[chosen] != 0);
    }
    if length < chosen {
        assert(bytes[length] != 0);
    }
}

/// A transform of the text of a terminated string leaves a terminated
/// string of no greater length, whose terminator stands where it
/// stood. The length is the same where no byte of the text became
/// zero.
pub proof fn lemma_terminator_stays(before: Seq<u8>, after: Seq<u8>)
    requires
        is_terminated(before),
        after.len() == before.len(),
        after.skip(c_str_len_spec(before)) == before.skip(c_str_len_spec(before)),
    ensures
        is_terminated(after),
        after[c_str_len_spec(before)] == 0,
        c_str_len_spec(after) <= c_str_len_spec(before),
        (forall|i: int| 0 <= i < c_str_len_spec(before) ==> #[trigger] after[i] != 0)
            ==> c_str_len_spec(after) == c_str_len_spec(before),
{
    let length = c_str_len_spec(before);
    let witness = choose|i: int| 0 <= i < before.len() && #[trigger] before[i] == 0;
    lemma_first_zero_exists(before, witness);
    assert(is_c_str_len(before, length));
    assert(after[length] == after.skip(length)[0]);
    assert(before[length] == before.skip(length)[0]);
    lemma_first_zero_exists(after, length);
    let shorter = c_str_len_spec(after);
    assert(is_c_str_len(after, shorter));
    if length < shorter {
        assert(after[length] != 0);
    }
}

/// Where some byte is zero, one is the first to be.
proof fn lemma_first_zero_exists(bytes: Seq<u8>, zero: int)
    requires
        0 <= zero < bytes.len(),
        bytes[zero] == 0,
    ensures
        exists|length: int| is_c_str_len(bytes, length),
    decreases zero,
{
    if exists|i: int| 0 <= i < zero && #[trigger] bytes[i] == 0 {
        let earlier = choose|i: int| 0 <= i < zero && #[trigger] bytes[i] == 0;
        lemma_first_zero_exists(bytes, earlier);
    } else {
        assert(is_c_str_len(bytes, zero));
    }
}

/// The length of the terminated string at the start of `bytes`, or
/// `None` where no byte of `bytes` is zero.
pub fn c_str_len(bytes: &[u8]) -> (length: Option<usize>)
    ensures
        is_terminated(bytes@) <==> length is Some,
        length matches Some(found) ==> found == c_str_len_spec(bytes@) && is_c_str_len(
            bytes@,
            found as int,
        ),
{
    let mut i: usize = 0;
    while i < bytes.len()
        invariant
            i <= bytes@.len(),
            forall|k: int| 0 <= k < i ==> #[trigger] bytes@[k] != 0,
        decreases bytes@.len() - i,
    {
        if bytes[i] == 0 {
            proof {
                lemma_c_str_len(bytes@, i as int);
            }
            return Some(i);
        }
        i += 1;
    }
    None
}

/// Enciphers in place the terminated string at the start of `s` with
/// the transform behind `cipher`.
///
/// The terminator and what follows it are not enciphered. Where the
/// handle is null nothing happens.
pub fn purecipher_encipher_str<C: PureCipher>(cipher: &CipherObject<C>, s: &mut [u8])
    requires
        is_terminated(old(s)@),
    ensures
        final(s)@.len() == old(s)@.len(),
        ({
            let length = c_str_len_spec(old(s)@);
            &&& final(s)@[length] == 0
            &&& final(s)@.skip(length) == old(s)@.skip(length)
            &&& match cipher@ {
                Some(transform) => enciphered_with(
                    transform,
                    old(s)@.take(length),
                    final(s)@.take(length),
                ),
                None => final(s)@ == old(s)@,
            }
        }),
{
    match c_str_len(s) {
        Some(length) => {
            let (text, _terminator) = s.split_at_mut(length);
            purecipher_encipher_buffer(cipher, Some(text));
        },
        None => {},
    }
}

/// Deciphers in place the terminated string at the start of `s` with
/// the transform behind `cipher`.
///
/// The terminator and what follows it are not deciphered. Where the
/// handle is null nothing happens.
pub fn purecipher_decipher_str<C: PureCipher>(cipher: &CipherObject<C>, s: &mut [u8])
    requires
        is_terminated(old(s)@),
    ensures
        final(s)@.len() == old(s)@.len(),
        ({
            let length = c_str_len_spec(old(s)@);
            &&& final(s)@[length] == 0
            &&& final(s)@.skip(length) == old(s)@.skip(length)
            &&& match cipher@ {
                Some(transform) => deciphered_with(
                    transform,
                    old(s)@.take(length),
                    final(s)@.take(length),
                ),
                None => final(s)@ == old(s)@,
            }
        }),
{
    match c_str_len(s) {
        Some(length) => {
            let (text, _terminator) = s.split_at_mut(length);
            purecipher_decipher_buffer(cipher, Some(text));
        },
        None => {},
    }
}

/// A handle of the caesar cipher.
pub fn purecipher_cipher_caesar() -> (handle: CipherObject<Transform>)
    ensures
        handle@ matches Some(transform) && (forall|token: u8| #[trigger]
            transform.encipher_spec(token) == alphabet_shift(token, 3)) && (forall|token: u8| #[trigger]
            transform.decipher_spec(token) == alphabet_shift(token, -3)),
{
    CipherObject::new(Transform::Substitution(caesar()))
}

/// A handle of the rot13 cipher.
pub fn purecipher_cipher_rot13() -> (handle: CipherObject<Transform>)
    ensures
        handle@ matches Some(transform) && (forall|token: u8| #[trigger]
            transform.encipher_spec(token) == alphabet_shift(token, 13)) && (forall|token: u8| #[trigger]
            transform.decipher_spec(token) == alphabet_shift(token, 13)),
{
    CipherObject::new(Transform::Substitution(rot13_alpha()))
}

/// A handle of the "leet" speak cipher.
pub fn purecipher_cipher_leet() -> (handle: CipherObject<Transform>)
    ensures
        handle@ matches Some(transform) && (forall|token: u8| #[trigger]
            transform.encipher_spec(token) == leet_swap(token)) && (forall|token: u8| #[trigger]
            transform.decipher_spec(token) == leet_swap(token)),
{
    CipherObject::new(Transform::Substitution(leet_speak()))
}

/// A handle of the cipher that changes nothing.
pub fn purecipher_cipher_null() -> (handle: CipherObject<Transform>)
    ensures
        handle@ == Some(Transform::Null(NullCipher {})),
{
    CipherObject::new(Transform::Null(NullCipher {}))
}

/// A handle of a new builder, with each byte mapped to itself.
pub fn purecipher_builder_new() -> (builder: Box<SubstitutionBuilder>)
    ensures
        builder@ == identity_table(),
{
    Box::new(SubstitutionBuilder::new())
}

/// Swaps the mappings of `left` and `right` in the builder.
pub fn purecipher_builder_swap(builder: &mut SubstitutionBuilder, left: u8, right: u8)
    ensures
        final(builder)@ == swapped(old(builder)@, left, right),
{
    builder.swap(left, right)
}

/// Rotates the mapping targets of the bytes `from..=to` in the builder
/// by `offset` places.
pub fn purecipher_builder_rotate(builder: &mut SubstitutionBuilder, from: u8, to: u8, offset: i32)
    requires
        from <= to,
    ensures
        final(builder)@ == rotated(old(builder)@, from, to, offset as int),
{
    builder.rotate_range(from, to, offset as isize)
}

/// Finishes the builder: the handle of the builder is consumed, and
/// the handle of its cipher returned.
pub fn purecipher_builder_into_cipher(builder: Box<SubstitutionBuilder>) -> (handle: CipherObject<
    Transform,
>)
    ensures
        handle@ matches Some(Transform::Substitution(cipher)) && cipher@ == builder@,
{
    let cipher = (*builder).into_cipher();
    CipherObject::new(Transform::Substitution(cipher))
}

/// Abandons the builder without finishing it. The handle is consumed.
pub fn purecipher_builder_discard(builder: Box<SubstitutionBuilder>) {
    let _ = builder;
}

} // verus!
