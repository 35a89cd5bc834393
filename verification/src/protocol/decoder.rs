//! Reading a payload field by field.

use vstd::prelude::*;
use vstd::string::*;
use vstd::utf8::*;

use crate::bytes::{copied, read_be, to_array};
use crate::protocol::{ProtocolError, ProtocolErrorView, MAX_PATH_BYTES};
use crate::text::text_from_utf8;

verus! {

/// The first `length` bytes, and what follows them.
pub open spec fn take_bytes(bytes: Seq<u8>, length: nat) -> Result<
    (Seq<u8>, Seq<u8>),
    ProtocolErrorView,
> {
    if length > bytes.len() {
        Err(ProtocolErrorView::Malformed("truncated payload"@))
    } else {
        Ok((bytes.take(length as int), bytes.skip(length as int)))
    }
}

/// A number of four bytes, and what follows it.
pub open spec fn take_u32(bytes: Seq<u8>) -> Result<
    (u32, Seq<u8>),
    ProtocolErrorView,
> {
    match take_bytes(bytes, 4) {
        Err(error) => Err(error),
        Ok((field, rest)) => Ok((crate::bytes::be_value(field) as u32, rest)),
    }
}

/// A number of eight bytes, and what follows it.
pub open spec fn take_u64(bytes: Seq<u8>) -> Result<
    (u64, Seq<u8>),
    ProtocolErrorView,
> {
    match take_bytes(bytes, 8) {
        Err(error) => Err(error),
        Ok((field, rest)) => Ok((crate::bytes::be_value(field) as u64, rest)),
    }
}

/// A length of four bytes and so many bytes of UTF-8, and what follows them.
pub open spec fn take_string(bytes: Seq<u8>) -> Result<
    (Seq<u8>, Seq<u8>),
    ProtocolErrorView,
> {
    match take_u32(bytes) {
        Err(error) => Err(error),
        Ok((length, rest)) => if length > MAX_PATH_BYTES {
            Err(ProtocolErrorView::Malformed("string is too long"@))
        } else {
            match take_bytes(rest, length as nat) {
                Err(error) => Err(error),
                Ok((field, rest)) => if valid_utf8(field) {
                    Ok((field, rest))
                } else {
                    Err(
                        ProtocolErrorView::Malformed(
                            "string is not valid UTF-8"@,
                        ),
                    )
                },
            }
        },
    }
}

/// What is left unread once a string was read or refused: the length is read
/// when it is there, and the text when it is short enough and there in full.
pub open spec fn after_string(bytes: Seq<u8>) -> Seq<u8> {
    match take_u32(bytes) {
        Err(_) => bytes,
        Ok((length, rest)) => if length > MAX_PATH_BYTES || length > rest.len() {
            rest
        } else {
            rest.skip(length as int)
        },
    }
}

/// Nothing may follow the last field.
pub open spec fn take_end(bytes: Seq<u8>) -> Result<(), ProtocolErrorView> {
    if bytes.len() == 0 {
        Ok(())
    } else {
        Err(ProtocolErrorView::Malformed("payload has trailing bytes"@))
    }
}

/// A payload that is read field by field.
pub struct Decoder<'a> {
    remaining: &'a [u8],
}

impl<'a> View for Decoder<'a> {
    type V = Seq<u8>;

    /// What was not read yet.
    closed spec fn view(&self) -> Seq<u8> {
        self.remaining@
    }
}

impl<'a> Decoder<'a> {
    /// A decoder at the start of a payload.
    pub fn new(bytes: &'a [u8]) -> (decoder: Decoder<'a>)
        ensures
            decoder@ == bytes@,
    {
        Decoder { remaining: bytes }
    }

    /// Reads `length` bytes.
    pub fn take(&mut self, length: usize) -> (result: Result<&'a [u8], ProtocolError>)
        ensures
            match (result, take_bytes(old(self)@, length as nat)) {
                (Ok(field), Ok((bytes, rest))) => field@ == bytes && final(self)@ == rest,
                (Err(error), Err(expected)) => error@ == expected && final(self)@ == old(self)@,
                _ => false,
            },
    {
        if length > self.remaining.len() {
            return Err(ProtocolError::Malformed("truncated payload"));
        }
        let (value, remaining) = self.remaining.split_at(length);
        self.remaining = remaining;
        assert(value@ =~= old(self)@.take(length as int));
        assert(remaining@ =~= old(self)@.skip(length as int));
        Ok(value)
    }

    /// Reads a number of four bytes.
    pub fn u32(&mut self) -> (result: Result<u32, ProtocolError>)
        ensures
            match (result, take_u32(old(self)@)) {
                (Ok(value), Ok((expected, rest))) => value == expected && final(self)@ == rest,
                (Err(error), Err(expected)) => error@ == expected && final(self)@ == old(self)@,
                _ => false,
            },
    {
        match self.take(4) {
            Ok(field) => {
                proof {
                    crate::bytes::lemma_be_value_bound(field@);
                    crate::bytes::lemma_be_limits();
                }
                Ok(read_be(field) as u32)
            },
            Err(error) => Err(error),
        }
    }

    /// Reads a number of eight bytes.
    pub fn u64(&mut self) -> (result: Result<u64, ProtocolError>)
        ensures
            match (result, take_u64(old(self)@)) {
                (Ok(value), Ok((expected, rest))) => value == expected && final(self)@ == rest,
                (Err(error), Err(expected)) => error@ == expected && final(self)@ == old(self)@,
                _ => false,
            },
    {
        match self.take(8) {
            Ok(field) => Ok(read_be(field)),
            Err(error) => Err(error),
        }
    }

    /// Reads `N` bytes.
    pub fn array<const N: usize>(&mut self) -> (result: Result<[u8; N], ProtocolError>)
        ensures
            match (result, take_bytes(old(self)@, N as nat)) {
                (Ok(field), Ok((bytes, rest))) => field@ == bytes && final(self)@ == rest,
                (Err(error), Err(expected)) => error@ == expected && final(self)@ == old(self)@,
                _ => false,
            },
    {
        match self.take(N) {
            Ok(field) => Ok(to_array::<N>(field)),
            Err(error) => Err(error),
        }
    }

    /// Reads a length and so many bytes of UTF-8. An error leaves the decoder
    /// behind what was read.
    pub fn string(&mut self) -> (result: Result<String, ProtocolError>)
        ensures
            match (result, take_string(old(self)@)) {
                (Ok(text), Ok((bytes, rest))) => {
                    &&& text@ == decode_utf8(bytes)
                    &&& encode_utf8(text@) == bytes
                    &&& final(self)@ == rest
                },
                (Err(error), Err(expected)) => error@ == expected,
                _ => false,
            },
            final(self)@ == after_string(old(self)@),
    {
        let length: u32 = match self.u32() {
            Ok(length) => length,
            Err(error) => {
                return Err(error);
            },
        };
        if length as usize > MAX_PATH_BYTES {
            return Err(ProtocolError::Malformed("string is too long"));
        }
        let field = match self.take(length as usize) {
            Ok(field) => field,
            Err(error) => {
                return Err(error);
            },
        };
        match text_from_utf8(copied(field)) {
            Some(text) => {
                proof {
                    decode_utf8_encode_utf8(field@);
                }
                Ok(text)
            },
            None => Err(ProtocolError::Malformed("string is not valid UTF-8")),
        }
    }

    /// Accepts the payload if it was read to its end.
    pub fn finish(self) -> (result: Result<(), ProtocolError>)
        ensures
            match (result, take_end(self@)) {
                (Ok(_), Ok(_)) => true,
                (Err(error), Err(expected)) => error@ == expected,
                _ => false,
            },
    {
        if self.remaining.len() == 0 {
            Ok(())
        } else {
            Err(ProtocolError::Malformed("payload has trailing bytes"))
        }
    }
}

/// A field at the front is read as such.
pub proof fn lemma_take_bytes(field: Seq<u8>, rest: Seq<u8>)
    ensures
        take_bytes(field + rest, field.len()) == Ok::<
            (Seq<u8>, Seq<u8>),
            ProtocolErrorView,
        >((field, rest)),
{
    assert((field + rest).take(field.len() as int) =~= field);
    assert((field + rest).skip(field.len() as int) =~= rest);
}

/// A number of four bytes at the front is read as such.
pub proof fn lemma_take_u32(value: u32, rest: Seq<u8>)
    ensures
        take_u32(crate::bytes::be_bytes(value as nat, 4) + rest) == Ok::<
            (u32, Seq<u8>),
            ProtocolErrorView,
        >((value, rest)),
{
    let field = crate::bytes::be_bytes(value as nat, 4);
    crate::bytes::lemma_be_bytes_len(value as nat, 4);
    crate::bytes::lemma_be_limits();
    crate::bytes::lemma_be_round_trip(value as nat, 4);
    lemma_take_bytes(field, rest);
}

/// A number of eight bytes at the front is read as such.
pub proof fn lemma_take_u64(value: u64, rest: Seq<u8>)
    ensures
        take_u64(crate::bytes::be_bytes(value as nat, 8) + rest) == Ok::<
            (u64, Seq<u8>),
            ProtocolErrorView,
        >((value, rest)),
{
    let field = crate::bytes::be_bytes(value as nat, 8);
    crate::bytes::lemma_be_bytes_len(value as nat, 8);
    crate::bytes::lemma_be_limits();
    crate::bytes::lemma_be_round_trip(value as nat, 8);
    lemma_take_bytes(field, rest);
}

/// A string at the front is read as such.
pub proof fn lemma_take_string(text: Seq<u8>, rest: Seq<u8>)
    requires
        text.len() <= MAX_PATH_BYTES,
        valid_utf8(text),
    ensures
        take_string(crate::bytes::be_bytes(text.len(), 4) + text + rest) == Ok::<
            (Seq<u8>, Seq<u8>),
            ProtocolErrorView,
        >((text, rest)),
{
    let length = crate::bytes::be_bytes(text.len(), 4);
    assert(length + text + rest =~= length + (text + rest));
    lemma_take_u32(text.len() as u32, text + rest);
    lemma_take_bytes(text, rest);
}

/// What a string on the wire is read as, by where its bytes stand: four bytes of
/// length, at most 4096, and so many bytes of UTF-8. The first thing that is wrong
/// decides.
pub proof fn law_string_in_place(bytes: Seq<u8>)
    ensures
        ({
            let read = take_string(bytes);
            let length = crate::bytes::be_value(bytes.take(4)) as int;
            if bytes.len() < 4 {
                &&& read == Err::<(Seq<u8>, Seq<u8>), ProtocolErrorView>(
                    ProtocolErrorView::Malformed("truncated payload"@),
                )
                &&& after_string(bytes) == bytes
            } else if length > 4_096 {
                &&& read == Err::<(Seq<u8>, Seq<u8>), ProtocolErrorView>(
                    ProtocolErrorView::Malformed("string is too long"@),
                )
                &&& after_string(bytes) == bytes.skip(4)
            } else if bytes.len() < 4 + length {
                &&& read == Err::<(Seq<u8>, Seq<u8>), ProtocolErrorView>(
                    ProtocolErrorView::Malformed("truncated payload"@),
                )
                &&& after_string(bytes) == bytes.skip(4)
            } else if !valid_utf8(bytes.subrange(4, 4 + length)) {
                &&& read == Err::<(Seq<u8>, Seq<u8>), ProtocolErrorView>(
                    ProtocolErrorView::Malformed("string is not valid UTF-8"@),
                )
                &&& after_string(bytes) == bytes.skip(4 + length)
            } else {
                &&& read == Ok::<(Seq<u8>, Seq<u8>), ProtocolErrorView>(
                    (bytes.subrange(4, 4 + length), bytes.skip(4 + length)),
                )
                &&& after_string(bytes) == bytes.skip(4 + length)
            }
        }),
{
    if bytes.len() >= 4 {
        let length = crate::bytes::be_value(bytes.take(4)) as int;
        crate::bytes::lemma_be_limits();
        crate::bytes::lemma_be_value_bound(bytes.take(4));
        if length <= 4_096 && bytes.len() >= 4 + length {
            assert(bytes.skip(4).take(length) =~= bytes.subrange(4, 4 + length));
            assert(bytes.skip(4).skip(length) =~= bytes.skip(4 + length));
        }
    }
}

/// Numbers are read from the first four or eight bytes, and what follows is left;
/// fewer bytes are refused.
pub proof fn law_numbers_in_place(bytes: Seq<u8>)
    ensures
        bytes.len() >= 4 ==> take_u32(bytes) == Ok::<(u32, Seq<u8>), ProtocolErrorView>(
            (crate::bytes::be_value(bytes.subrange(0, 4)) as u32, bytes.skip(4)),
        ) && crate::bytes::be_value(bytes.subrange(0, 4)) <= u32::MAX,
        bytes.len() >= 8 ==> take_u64(bytes) == Ok::<(u64, Seq<u8>), ProtocolErrorView>(
            (crate::bytes::be_value(bytes.subrange(0, 8)) as u64, bytes.skip(8)),
        ) && crate::bytes::be_value(bytes.subrange(0, 8)) <= u64::MAX,
        bytes.len() < 4 ==> take_u32(bytes) == Err::<(u32, Seq<u8>), ProtocolErrorView>(
            ProtocolErrorView::Malformed("truncated payload"@),
        ),
        bytes.len() < 8 ==> take_u64(bytes) == Err::<(u64, Seq<u8>), ProtocolErrorView>(
            ProtocolErrorView::Malformed("truncated payload"@),
        ),
{
    crate::bytes::lemma_be_limits();
    crate::bytes::lemma_be_value_bound(bytes.subrange(0, 4));
    crate::bytes::lemma_be_value_bound(bytes.subrange(0, 8));
    if bytes.len() >= 4 {
        assert(bytes.take(4) =~= bytes.subrange(0, 4));
    }
    if bytes.len() >= 8 {
        assert(bytes.take(8) =~= bytes.subrange(0, 8));
    }
}

} // verus!
