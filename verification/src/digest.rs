//! BLAKE3 digests of byte strings that arrive piece by piece.

use vstd::prelude::*;

verus! {

/// Declares [`blake3::Hasher`].
#[verifier::external_type_specification]
#[verifier::external_body]
pub struct ExHasher(blake3::Hasher);

/// The bytes that a hasher was given so far.
pub uninterp spec fn hasher_input(hasher: blake3::Hasher) -> Seq<u8>;

/// Whether a hasher hashes its input plainly: without a key, without a
/// derivation context, and from offset zero.
pub uninterp spec fn hasher_is_plain(hasher: blake3::Hasher) -> bool;

/// The BLAKE3 digest of a byte string.
pub uninterp spec fn blake3_digest(input: Seq<u8>) -> Seq<u8>;

/// Calls [`blake3::Hasher::new`]: a plain hasher without input.
#[verifier::external_body]
pub(crate) fn new_hasher() -> (hasher: blake3::Hasher)
    ensures
        hasher_is_plain(hasher),
        hasher_input(hasher) == Seq::<u8>::empty(),
{
    blake3::Hasher::new()
}

/// Calls [`blake3::Hasher::update`]: the bytes join the input at its end. The
/// hasher counts its input in 64 bits.
#[verifier::external_body]
pub(crate) fn update_hasher(hasher: &mut blake3::Hasher, bytes: &[u8])
    requires
        hasher_is_plain(*old(hasher)),
        hasher_input(*old(hasher)).len() + bytes@.len() <= u64::MAX,
    ensures
        hasher_is_plain(*final(hasher)),
        hasher_input(*final(hasher)) == hasher_input(*old(hasher)) + bytes@,
{
    hasher.update(bytes);
}

/// Calls [`blake3::Hasher::finalize`] and takes the bytes of the
/// [`blake3::Hash`]: the digest of the whole input, however it was cut.
#[verifier::external_body]
pub(crate) fn finish_hasher(hasher: &blake3::Hasher) -> (digest: [u8; 32])
    requires
        hasher_is_plain(*hasher),
    ensures
        digest@ == blake3_digest(hasher_input(*hasher)),
{
    *hasher.finalize().as_bytes()
}

/// The hexadecimal digit for a number below sixteen, in lower case.
pub open spec fn hex_char(digit: nat) -> char {
    if digit < 10 {
        (48 + digit) as char
    } else {
        (87 + digit) as char
    }
}

/// Bytes in lower-case hexadecimal, two digits each.
pub open spec fn lower_hex(bytes: Seq<u8>) -> Seq<char>
    decreases bytes.len(),
{
    if bytes.len() == 0 {
        Seq::empty()
    } else {
        lower_hex(bytes.drop_last()) + seq![
            hex_char(bytes.last() as nat / 16),
            hex_char(bytes.last() as nat % 16),
        ]
    }
}

/// Calls [`blake3::Hash::to_hex`]: the digest in lower-case hexadecimal.
#[verifier::external_body]
pub(crate) fn digest_hex(digest: &[u8; 32]) -> (hex: String)
    ensures
        hex@ == lower_hex(digest@),
{
    blake3::Hash::from_bytes(*digest).to_hex().to_string()
}

/// The digest of a byte string.
pub fn digest_of(bytes: &[u8]) -> (digest: [u8; 32])
    ensures
        digest@ == blake3_digest(bytes@),
{
    let mut hasher = new_hasher();
    if bytes.len() > 0 {
        update_hasher(&mut hasher, bytes);
    }
    assert(hasher_input(hasher) =~= bytes@);
    finish_hasher(&hasher)
}

/// The digest of a byte string that arrives piece by piece.
pub struct ContentHasher {
    hasher: blake3::Hasher,
}

impl View for ContentHasher {
    type V = Seq<u8>;

    /// The bytes so far.
    closed spec fn view(&self) -> Seq<u8> {
        hasher_input(self.hasher)
    }
}

impl ContentHasher {
    /// Only plain hashers are used.
    #[verifier::type_invariant]
    spec fn is_plain(self) -> bool {
        hasher_is_plain(self.hasher)
    }

    /// Nothing so far.
    pub fn new() -> (content: ContentHasher)
        ensures
            content@ == Seq::<u8>::empty(),
    {
        ContentHasher { hasher: new_hasher() }
    }

    /// Takes the next bytes.
    pub fn update(&mut self, bytes: &[u8])
        requires
            old(self)@.len() + bytes@.len() <= u64::MAX,
        ensures
            final(self)@ == old(self)@ + bytes@,
    {
        proof {
            use_type_invariant(&*self);
        }
        let mut hasher = new_hasher();
        core::mem::swap(&mut hasher, &mut self.hasher);
        update_hasher(&mut hasher, bytes);
        self.hasher = hasher;
    }

    /// The digest of all bytes so far.
    pub fn finish(&self) -> (digest: [u8; 32])
        ensures
            digest@ == blake3_digest(self@),
    {
        proof {
            use_type_invariant(self);
        }
        finish_hasher(&self.hasher)
    }
}

/// In hexadecimal each byte is two of the sixteen digits, the higher half first.
pub proof fn law_hex_digits(bytes: Seq<u8>, i: int)
    requires
        0 <= i < bytes.len(),
    ensures
        lower_hex(bytes).len() == 2 * bytes.len(),
        lower_hex(bytes)[2 * i] == "0123456789abcdef"@[bytes[i] as int / 16],
        lower_hex(bytes)[2 * i + 1] == "0123456789abcdef"@[bytes[i] as int % 16],
    decreases bytes.len(),
{
    reveal_strlit("0123456789abcdef");
    let front = bytes.drop_last();
    lemma_hex_len(front);
    lemma_hex_char(bytes[i] as nat / 16);
    lemma_hex_char(bytes[i] as nat % 16);
    if i < front.len() {
        law_hex_digits(front, i);
    }
}

/// Each byte takes two digits.
proof fn lemma_hex_len(bytes: Seq<u8>)
    ensures
        lower_hex(bytes).len() == 2 * bytes.len(),
    decreases bytes.len(),
{
    if bytes.len() > 0 {
        lemma_hex_len(bytes.drop_last());
    }
}

/// The sixteen digits.
proof fn lemma_hex_char(digit: nat)
    requires
        digit < 16,
    ensures
        hex_char(digit) == "0123456789abcdef"@[digit as int],
{
    reveal_strlit("0123456789abcdef");
}

} // verus!
