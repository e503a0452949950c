//! The contract that every pure cipher meets, and the cipher that
//! changes nothing.

use vstd::prelude::*;

verus! {

/// A pure (stateless) cipher: a fixed mapping of bytes to bytes, with
/// a second mapping meant to undo it.
///
/// The two spec functions say what the cipher computes; the two
/// executable methods return exactly that, so that each is a function
/// of the cipher and the byte alone. Nothing here asks that `decipher`
/// undoes `encipher`: a cipher for which it does is `is_reversible`.
///
/// An implementation gives `encipher` and `decipher`; the operations
/// on buffers come with the trait.
pub trait PureCipher {
    /// The byte that `token` is enciphered to. A cipher that does not
    /// say which leaves it open: some function of the cipher and the
    /// byte, of which nothing more is known.
    open spec fn encipher_spec(&self, token: u8) -> u8 {
        let unknown: spec_fn(&Self, u8) -> u8 = arbitrary();
        unknown(self, token)
    }

    /// The byte that `token` is deciphered to. A cipher that does not
    /// say which leaves it open, as for `encipher_spec`.
    open spec fn decipher_spec(&self, token: u8) -> u8 {
        let unknown: spec_fn(&Self, u8) -> u8 = arbitrary();
        unknown(self, token)
    }

    /// Enciphers a single byte.
    fn encipher(&self, token: u8) -> (out: u8)
        ensures
            out == self.encipher_spec(token),
    ;

    /// Deciphers a single byte.
    fn decipher(&self, token: u8) -> (out: u8)
        ensures
            out == self.decipher_spec(token),
    ;

    /// Enciphers a buffer of bytes in place, each byte by itself.
    fn encipher_inplace(&self, bytes: &mut [u8])
        ensures
            final(bytes)@.len() == old(bytes)@.len(),
            forall|i: int|
                0 <= i < old(bytes)@.len() ==> #[trigger] final(bytes)@[i] == self.encipher_spec(
                    old(bytes)@[i],
                ),
    {
        let n = bytes.len();
        let mut i: usize = 0;
        while i < n
            invariant
                i <= n,
                n == bytes@.len(),
                bytes@.len() == old(bytes)@.len(),
                forall|k: int| 0 <= k < i ==> bytes@[k] == self.encipher_spec(old(bytes)@[k]),
                forall|k: int| i <= k < n ==> bytes@[k] == old(bytes)@[k],
            decreases n - i,
        {
            let token = bytes[i];
            bytes[i] = self.encipher(token);
            i += 1;
        }
    }

    /// Deciphers a buffer of bytes in place, each byte by itself.
    fn decipher_inplace(&self, bytes: &mut [u8])
        ensures
            final(bytes)@.len() == old(bytes)@.len(),
            forall|i: int|
                0 <= i < old(bytes)@.len() ==> #[trigger] final(bytes)@[i] == self.decipher_spec(
                    old(bytes)@[i],
                ),
    {
        let n = bytes.len();
        let mut i: usize = 0;
        while i < n
            invariant
                i <= n,
                n == bytes@.len(),
                bytes@.len() == old(bytes)@.len(),
                forall|k: int| 0 <= k < i ==> bytes@[k] == self.decipher_spec(old(bytes)@[k]),
                forall|k: int| i <= k < n ==> bytes@[k] == old(bytes)@[k],
            decreases n - i,
        {
            let token = bytes[i];
            bytes[i] = self.decipher(token);
            i += 1;
        }
    }
}

/// `bytes` with every byte enciphered by `cipher`.
pub open spec fn enciphered<C: PureCipher + ?Sized>(cipher: &C, bytes: Seq<u8>) -> Seq<u8> {
    Seq::new(bytes.len(), |i: int| cipher.encipher_spec(bytes[i]))
}

/// `bytes` with every byte deciphered by `cipher`.
pub open spec fn deciphered<C: PureCipher + ?Sized>(cipher: &C, bytes: Seq<u8>) -> Seq<u8> {
    Seq::new(bytes.len(), |i: int| cipher.decipher_spec(bytes[i]))
}

/// Deciphering undoes enciphering, and enciphering undoes deciphering,
/// on every byte.
pub open spec fn is_reversible<C: PureCipher + ?Sized>(cipher: &C) -> bool {
    &&& forall|token: u8| cipher.decipher_spec(#[trigger] cipher.encipher_spec(token)) == token
    &&& forall|token: u8| cipher.encipher_spec(#[trigger] cipher.decipher_spec(token)) == token
}

/// Cipher that performs no ciphering: each byte is enciphered and
/// deciphered to itself.
#[derive(Clone, Copy, Debug)]
pub struct NullCipher;

impl PureCipher for NullCipher {
    open spec fn encipher_spec(&self, token: u8) -> u8 {
        token
    }

    open spec fn decipher_spec(&self, token: u8) -> u8 {
        token
    }

    fn encipher(&self, token: u8) -> (out: u8) {
        token
    }

    fn decipher(&self, token: u8) -> (out: u8) {
        token
    }
}

/// Enciphers some bytes with the given pure cipher.
///
/// The ciphered data is returned as a new vector: a cipher need not
/// produce valid text.
pub fn encipher_bytes(cipher: &dyn PureCipher, bytes: &[u8]) -> (out: Vec<u8>)
    ensures
        out@ == enciphered(cipher, bytes@),
{
    let mut out: Vec<u8> = Vec::with_capacity(bytes.len());
    let mut i: usize = 0;
    while i < bytes.len()
        invariant
            i <= bytes@.len(),
            out@.len() == i,
            forall|k: int| 0 <= k < i ==> out@[k] == cipher.encipher_spec(bytes@[k]),
        decreases bytes@.len() - i,
    {
        out.push(cipher.encipher(bytes[i]));
        i += 1;
    }
    assert(out@ =~= enciphered(cipher, bytes@));
    out
}

/// Deciphers some bytes with the given pure cipher.
///
/// The deciphered data is returned as a new vector: a cipher need not
/// produce valid text.
pub fn decipher_bytes(cipher: &dyn PureCipher, bytes: &[u8]) -> (out: Vec<u8>)
    ensures
        out@ == deciphered(cipher, bytes@),
{
    let mut out: Vec<u8> = Vec::with_capacity(bytes.len());
    let mut i: usize = 0;
    while i < bytes.len()
        invariant
            i <= bytes@.len(),
            out@.len() == i,
            forall|k: int| 0 <= k < i ==> out@[k] == cipher.decipher_spec(bytes@[k]),
        decreases bytes@.len() - i,
    {
        out.push(cipher.decipher(bytes[i]));
        i += 1;
    }
    assert(out@ =~= deciphered(cipher, bytes@));
    out
}

/// What a reversible cipher enciphered, it deciphers to the bytes
/// they were; and what it deciphered, it enciphers to the bytes they
/// were.
pub proof fn lemma_reversible_on_buffers<C: PureCipher + ?Sized>(cipher: &C, bytes: Seq<u8>)
    requires
        is_reversible(cipher),
    ensures
        deciphered(cipher, enciphered(cipher, bytes)) == bytes,
        enciphered(cipher, deciphered(cipher, bytes)) == bytes,
{
    assert(deciphered(cipher, enciphered(cipher, bytes)) =~= bytes);
    assert(enciphered(cipher, deciphered(cipher, bytes)) =~= bytes);
}

/// The cipher that changes nothing is reversible.
pub proof fn lemma_null_cipher_is_reversible(cipher: NullCipher)
    ensures
        is_reversible(&cipher),
        forall|bytes: Seq<u8>| #[trigger] enciphered(&cipher, bytes) == bytes,
        forall|bytes: Seq<u8>| #[trigger] deciphered(&cipher, bytes) == bytes,
{
    assert forall|bytes: Seq<u8>| #[trigger] enciphered(&cipher, bytes) == bytes by {
        assert(enciphered(&cipher, bytes) =~= bytes);
    }
    assert forall|bytes: Seq<u8>| #[trigger] deciphered(&cipher, bytes) == bytes by {
        assert(deciphered(&cipher, bytes) =~= bytes);
    }
}

} // verus!
