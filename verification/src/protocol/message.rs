//! The payloads of the frames that carry one file or one count.

use vstd::prelude::*;
use vstd::string::*;
use vstd::utf8::*;

use crate::bytes::{append, push_be, read_be};
use crate::protocol::{Decoder, ProtocolError, ProtocolErrorView, MAX_CHUNK_BYTES, MAX_PATH_BYTES};

verus! {

/// The payload that announces a file: its index and where it resumes.
pub open spec fn file_start_bytes(index: u32, offset: u64) -> Seq<u8> {
    crate::bytes::be_bytes(index as nat, 4) + crate::bytes::be_bytes(offset as nat, 8)
}

/// What a payload says as the announcement of a file.
pub open spec fn parse_file_start(payload: Seq<u8>) -> Result<(u32, u64), ProtocolErrorView> {
    match crate::protocol::decoder::take_u32(payload) {
        Err(error) => Err(error),
        Ok((index, rest)) => match crate::protocol::decoder::take_u64(rest) {
            Err(error) => Err(error),
            Ok((offset, rest)) => match crate::protocol::decoder::take_end(rest) {
                Err(error) => Err(error),
                Ok(_) => Ok((index, offset)),
            },
        },
    }
}

/// The payload that carries some bytes of a file.
pub open spec fn file_chunk_bytes(index: u32, bytes: Seq<u8>) -> Seq<u8> {
    crate::bytes::be_bytes(index as nat, 4) + bytes
}

/// What a payload says as a chunk of a file.
pub open spec fn parse_file_chunk(payload: Seq<u8>) -> Result<
    (u32, Seq<u8>),
    ProtocolErrorView,
> {
    if payload.len() < 4 {
        Err(ProtocolErrorView::Malformed("short file chunk"@))
    } else {
        Ok((crate::bytes::be_value(payload.take(4)) as u32, payload.skip(4)))
    }
}

/// The payload that ends a file.
pub open spec fn file_end_bytes(index: u32, hash: Seq<u8>) -> Seq<u8> {
    crate::bytes::be_bytes(index as nat, 4) + hash
}

/// What a payload says as the end of a file.
pub open spec fn parse_file_end(payload: Seq<u8>) -> Result<(u32, Seq<u8>), ProtocolErrorView> {
    match crate::protocol::decoder::take_u32(payload) {
        Err(error) => Err(error),
        Ok((index, rest)) => match crate::protocol::decoder::take_bytes(rest, 32) {
            Err(error) => Err(error),
            Ok((hash, rest)) => match crate::protocol::decoder::take_end(rest) {
                Err(error) => Err(error),
                Ok(_) => Ok((index, hash)),
            },
        },
    }
}

/// The payload that ends a transfer.
pub open spec fn complete_bytes(file_count: u32) -> Seq<u8> {
    crate::bytes::be_bytes(file_count as nat, 4)
}

/// What a payload says as the end of a transfer.
pub open spec fn parse_complete(payload: Seq<u8>) -> Result<u32, ProtocolErrorView> {
    match crate::protocol::decoder::take_u32(payload) {
        Err(error) => Err(error),
        Ok((count, rest)) => match crate::protocol::decoder::take_end(rest) {
            Err(error) => Err(error),
            Ok(_) => Ok(count),
        },
    }
}

/// A string on the wire: its length and its bytes.
pub open spec fn string_bytes(text: Seq<u8>) -> Seq<u8> {
    crate::bytes::be_bytes(text.len(), 4) + text
}

/// What a payload says as an error message.
pub open spec fn parse_error(payload: Seq<u8>) -> Result<Seq<char>, ProtocolErrorView> {
    match crate::protocol::decoder::take_string(payload) {
        Err(error) => Err(error),
        Ok((text, rest)) => match crate::protocol::decoder::take_end(rest) {
            Err(error) => Err(error),
            Ok(_) => Ok(decode_utf8(text)),
        },
    }
}

/// Encodes the announcement of a file.
pub fn encode_file_start(index: u32, offset: u64) -> (payload: Vec<u8>)
    ensures
        payload@ == file_start_bytes(index, offset),
{
    let mut payload: Vec<u8> = Vec::with_capacity(12);
    push_be(&mut payload, index as u128, 4);
    push_be(&mut payload, offset as u128, 8);
    assert(payload@ =~= file_start_bytes(index, offset));
    payload
}

/// Decodes the announcement of a file.
pub fn decode_file_start(payload: &[u8]) -> (result: Result<(u32, u64), ProtocolError>)
    ensures
        match (result, parse_file_start(payload@)) {
            (Ok(value), Ok(expected)) => value == expected,
            (Err(error), Err(expected)) => error@ == expected,
            _ => false,
        },
{
    let mut decoder = Decoder::new(payload);
    let index: u32 = match decoder.u32() {
        Ok(index) => index,
        Err(error) => {
            return Err(error);
        },
    };
    let offset: u64 = match decoder.u64() {
        Ok(offset) => offset,
        Err(error) => {
            return Err(error);
        },
    };
    match decoder.finish() {
        Ok(_) => Ok((index, offset)),
        Err(error) => Err(error),
    }
}

/// Encodes a chunk of a file, unless it is too large for one frame.
pub fn encode_file_chunk(index: u32, bytes: &[u8]) -> (result: Result<Vec<u8>, ProtocolError>)
    ensures
        match result {
            Ok(payload) => bytes@.len() <= MAX_CHUNK_BYTES && payload@ == file_chunk_bytes(
                index,
                bytes@,
            ),
            Err(error) => bytes@.len() > MAX_CHUNK_BYTES
                && error@ == ProtocolErrorView::OversizedFrame(bytes@.len() as u64),
        },
{
    if bytes.len() > MAX_CHUNK_BYTES {
        return Err(ProtocolError::OversizedFrame(bytes.len() as u64));
    }
    let mut payload: Vec<u8> = Vec::with_capacity(4 + bytes.len());
    push_be(&mut payload, index as u128, 4);
    append(&mut payload, bytes);
    assert(payload@ =~= file_chunk_bytes(index, bytes@));
    Ok(payload)
}

/// Decodes a chunk of a file.
pub fn decode_file_chunk(payload: &[u8]) -> (result: Result<(u32, &[u8]), ProtocolError>)
    ensures
        match (result, parse_file_chunk(payload@)) {
            (Ok(chunk), Ok(expected)) => chunk.0 == expected.0 && chunk.1@ == expected.1,
            (Err(error), Err(expected)) => error@ == expected,
            _ => false,
        },
{
    if payload.len() < 4 {
        return Err(ProtocolError::Malformed("short file chunk"));
    }
    let (field, bytes) = payload.split_at(4);
    proof {
        assert(field@ =~= payload@.take(4));
        assert(bytes@ =~= payload@.skip(4));
        crate::bytes::lemma_be_value_bound(field@);
        crate::bytes::lemma_be_limits();
    }
    Ok((read_be(field) as u32, bytes))
}

/// Encodes the end of a file.
pub fn encode_file_end(index: u32, hash: &[u8; 32]) -> (payload: Vec<u8>)
    ensures
        payload@ == file_end_bytes(index, hash@),
{
    let mut payload: Vec<u8> = Vec::with_capacity(36);
    push_be(&mut payload, index as u128, 4);
    append(&mut payload, hash);
    assert(payload@ =~= file_end_bytes(index, hash@));
    payload
}

/// Decodes the end of a file.
pub fn decode_file_end(payload: &[u8]) -> (result: Result<(u32, [u8; 32]), ProtocolError>)
    ensures
        match (result, parse_file_end(payload@)) {
            (Ok(value), Ok(expected)) => value.0 == expected.0 && value.1@ == expected.1,
            (Err(error), Err(expected)) => error@ == expected,
            _ => false,
        },
{
    let mut decoder = Decoder::new(payload);
    let index: u32 = match decoder.u32() {
        Ok(index) => index,
        Err(error) => {
            return Err(error);
        },
    };
    let hash = match decoder.array::<32>() {
        Ok(hash) => hash,
        Err(error) => {
            return Err(error);
        },
    };
    match decoder.finish() {
        Ok(_) => Ok((index, hash)),
        Err(error) => Err(error),
    }
}

/// Encodes the end of a transfer.
pub fn encode_complete(file_count: u32) -> (payload: Vec<u8>)
    ensures
        payload@ == complete_bytes(file_count),
{
    let mut payload: Vec<u8> = Vec::with_capacity(4);
    push_be(&mut payload, file_count as u128, 4);
    assert(payload@ =~= complete_bytes(file_count));
    payload
}

/// Decodes the end of a transfer.
pub fn decode_complete(payload: &[u8]) -> (result: Result<u32, ProtocolError>)
    ensures
        match (result, parse_complete(payload@)) {
            (Ok(count), Ok(expected)) => count == expected,
            (Err(error), Err(expected)) => error@ == expected,
            _ => false,
        },
{
    let mut decoder = Decoder::new(payload);
    let count: u32 = match decoder.u32() {
        Ok(count) => count,
        Err(error) => {
            return Err(error);
        },
    };
    match decoder.finish() {
        Ok(_) => Ok(count),
        Err(error) => Err(error),
    }
}

/// Encodes an error message, unless it is too long.
pub fn encode_error(message: &str) -> (result: Result<Vec<u8>, ProtocolError>)
    ensures
        match result {
            Ok(payload) => encode_utf8(message@).len() <= MAX_PATH_BYTES && payload@
                == string_bytes(encode_utf8(message@)),
            Err(error) => encode_utf8(message@).len() > MAX_PATH_BYTES && error@
                == ProtocolErrorView::Malformed("string is too long"@),
        },
{
    let mut payload: Vec<u8> = Vec::new();
    match push_string(&mut payload, message) {
        Ok(_) => {
            assert(payload@ =~= string_bytes(encode_utf8(message@)));
            Ok(payload)
        },
        Err(error) => Err(error),
    }
}

/// Decodes an error message.
pub fn decode_error(payload: &[u8]) -> (result: Result<String, ProtocolError>)
    ensures
        match (result, parse_error(payload@)) {
            (Ok(message), Ok(expected)) => message@ == expected,
            (Err(error), Err(expected)) => error@ == expected,
            _ => false,
        },
{
    let mut decoder = Decoder::new(payload);
    let message = match decoder.string() {
        Ok(message) => message,
        Err(error) => {
            return Err(error);
        },
    };
    match decoder.finish() {
        Ok(_) => Ok(message),
        Err(error) => Err(error),
    }
}

/// Appends a count in four bytes, if it fits.
pub fn push_u32(output: &mut Vec<u8>, value: usize) -> (result: Result<(), ProtocolError>)
    ensures
        match result {
            Ok(_) => value <= u32::MAX && final(output)@ == old(output)@ + crate::bytes::be_bytes(
                value as nat,
                4,
            ),
            Err(error) => value > u32::MAX && final(output)@ == old(output)@ && error@
                == ProtocolErrorView::Malformed("value exceeds u32"@),
        },
{
    if value as u64 > u32::MAX as u64 {
        return Err(ProtocolError::Malformed("value exceeds u32"));
    }
    push_be(output, value as u128, 4);
    Ok(())
}

/// Appends a string behind its length, unless it is too long.
pub fn push_string(output: &mut Vec<u8>, value: &str) -> (result: Result<(), ProtocolError>)
    ensures
        match result {
            Ok(_) => encode_utf8(value@).len() <= MAX_PATH_BYTES && final(output)@ == old(output)@
                + string_bytes(encode_utf8(value@)),
            Err(error) => encode_utf8(value@).len() > MAX_PATH_BYTES && final(output)@
                == old(output)@ && error@ == ProtocolErrorView::Malformed("string is too long"@),
        },
{
    push_text(output, value.as_bytes())
}

/// Appends the bytes of a string behind their length, unless they are too many.
pub fn push_text(output: &mut Vec<u8>, text: &[u8]) -> (result: Result<(), ProtocolError>)
    ensures
        match result {
            Ok(_) => text@.len() <= MAX_PATH_BYTES && final(output)@ == old(output)@ + string_bytes(
                text@,
            ),
            Err(error) => text@.len() > MAX_PATH_BYTES && final(output)@ == old(output)@ && error@
                == ProtocolErrorView::Malformed("string is too long"@),
        },
{
    if text.len() > MAX_PATH_BYTES {
        return Err(ProtocolError::Malformed("string is too long"));
    }
    match push_u32(output, text.len()) {
        Ok(_) => {
            append(output, text);
            assert(output@ =~= old(output)@ + string_bytes(text@));
            Ok(())
        },
        Err(error) => Err(error),
    }
}

/// The announcement of a file is read back as it was written, and nothing
/// else is read as that announcement.
pub proof fn law_file_start_round_trip(index: u32, offset: u64, payload: Seq<u8>)
    ensures
        parse_file_start(payload) == Ok::<(u32, u64), ProtocolErrorView>((index, offset)) <==> payload
            == file_start_bytes(index, offset),
{
    let written = file_start_bytes(index, offset);
    let tail = crate::bytes::be_bytes(offset as nat, 8);
    crate::protocol::decoder::lemma_take_u32(index, tail);
    assert(tail + Seq::<u8>::empty() =~= tail);
    crate::protocol::decoder::lemma_take_u64(offset, Seq::empty());
    if parse_file_start(payload) == Ok::<(u32, u64), ProtocolErrorView>((index, offset)) {
        crate::bytes::lemma_be_limits();
        crate::bytes::lemma_be_value_bound(payload.take(4));
        crate::bytes::lemma_be_value_round_trip(payload.take(4));
        let rest = payload.skip(4);
        crate::bytes::lemma_be_value_bound(rest.take(8));
        crate::bytes::lemma_be_value_round_trip(rest.take(8));
        assert(rest.skip(8).len() == 0);
        assert(payload =~= payload.take(4) + rest.take(8));
    }
}

/// A chunk is read back as it was written, and nothing else is read as that
/// chunk.
pub proof fn law_file_chunk_round_trip(index: u32, bytes: Seq<u8>, payload: Seq<u8>)
    ensures
        parse_file_chunk(payload) == Ok::<(u32, Seq<u8>), ProtocolErrorView>((index, bytes)) <==> payload
            == file_chunk_bytes(index, bytes),
{
    let written = file_chunk_bytes(index, bytes);
    crate::bytes::lemma_be_bytes_len(index as nat, 4);
    crate::bytes::lemma_be_limits();
    crate::bytes::lemma_be_round_trip(index as nat, 4);
    assert(written.take(4) =~= crate::bytes::be_bytes(index as nat, 4));
    assert(written.skip(4) =~= bytes);
    if payload.len() >= 4 {
        crate::bytes::lemma_be_value_bound(payload.take(4));
        crate::bytes::lemma_be_value_round_trip(payload.take(4));
        assert(payload =~= payload.take(4) + payload.skip(4));
    }
}

/// The end of a file is read back as it was written, and nothing else is read
/// as that end.
pub proof fn law_file_end_round_trip(index: u32, hash: Seq<u8>, payload: Seq<u8>)
    requires
        hash.len() == 32,
    ensures
        parse_file_end(payload) == Ok::<(u32, Seq<u8>), ProtocolErrorView>((index, hash)) <==> payload
            == file_end_bytes(index, hash),
{
    crate::protocol::decoder::lemma_take_u32(index, hash);
    assert(hash + Seq::<u8>::empty() =~= hash);
    crate::protocol::decoder::lemma_take_bytes(hash, Seq::empty());
    if parse_file_end(payload) == Ok::<(u32, Seq<u8>), ProtocolErrorView>((index, hash)) {
        crate::bytes::lemma_be_limits();
        crate::bytes::lemma_be_value_bound(payload.take(4));
        crate::bytes::lemma_be_value_round_trip(payload.take(4));
        let rest = payload.skip(4);
        assert(rest.skip(32).len() == 0);
        assert(payload =~= payload.take(4) + rest.take(32));
    }
}

/// The end of a transfer is read back as it was written, and nothing else is
/// read as that end.
pub proof fn law_complete_round_trip(file_count: u32, payload: Seq<u8>)
    ensures
        parse_complete(payload) == Ok::<u32, ProtocolErrorView>(file_count) <==> payload
            == complete_bytes(file_count),
{
    let written = complete_bytes(file_count);
    assert(written + Seq::<u8>::empty() =~= written);
    crate::protocol::decoder::lemma_take_u32(file_count, Seq::empty());
    if parse_complete(payload) == Ok::<u32, ProtocolErrorView>(file_count) {
        crate::bytes::lemma_be_limits();
        crate::bytes::lemma_be_value_bound(payload.take(4));
        crate::bytes::lemma_be_value_round_trip(payload.take(4));
        assert(payload.skip(4).len() == 0);
        assert(payload =~= payload.take(4));
    }
}

/// An error message that is short enough to be written is read back as it was
/// written, and nothing else is read as that message.
pub proof fn law_error_round_trip(message: Seq<char>, payload: Seq<u8>)
    ensures
        parse_error(payload) == Ok::<Seq<char>, ProtocolErrorView>(message) <==> {
            &&& encode_utf8(message).len() <= MAX_PATH_BYTES
            &&& payload == string_bytes(encode_utf8(message))
        },
{
    let text = encode_utf8(message);
    encode_utf8_valid_utf8(message);
    encode_utf8_decode_utf8(message);
    if text.len() <= MAX_PATH_BYTES {
        assert(string_bytes(text) + Seq::<u8>::empty() =~= string_bytes(text));
        crate::protocol::decoder::lemma_take_string(text, Seq::empty());
    }
    if parse_error(payload) == Ok::<Seq<char>, ProtocolErrorView>(message) {
        let head = payload.take(4);
        let rest = payload.skip(4);
        crate::bytes::lemma_be_limits();
        crate::bytes::lemma_be_value_bound(head);
        crate::bytes::lemma_be_value_round_trip(head);
        let length = crate::bytes::be_value(head) as int;
        decode_utf8_encode_utf8(rest.take(length));
        assert(rest.skip(length).len() == 0);
        assert(payload =~= head + rest.take(length));
    }
}

/// Where the parts of the messages stand on the wire: an index in four bytes first,
/// and behind it an offset in eight, the bytes of a chunk, or a hash.
pub proof fn law_messages_in_place(index: u32, offset: u64, bytes: Seq<u8>)
    ensures
        file_start_bytes(index, offset).len() == 12,
        crate::bytes::be_value(file_start_bytes(index, offset).subrange(0, 4)) == index,
        crate::bytes::be_value(file_start_bytes(index, offset).subrange(4, 12)) == offset,
        file_chunk_bytes(index, bytes).len() == 4 + bytes.len(),
        crate::bytes::be_value(file_chunk_bytes(index, bytes).subrange(0, 4)) == index,
        file_chunk_bytes(index, bytes).skip(4) == bytes,
        file_end_bytes(index, bytes).len() == 4 + bytes.len(),
        crate::bytes::be_value(file_end_bytes(index, bytes).subrange(0, 4)) == index,
        file_end_bytes(index, bytes).skip(4) == bytes,
        complete_bytes(index).len() == 4,
        crate::bytes::be_value(complete_bytes(index)) == index,
        bytes.len() <= u32::MAX ==> crate::bytes::be_value(string_bytes(bytes).subrange(0, 4))
            == bytes.len(),
        string_bytes(bytes).skip(4) == bytes,
{
    let number = crate::bytes::be_bytes(index as nat, 4);
    let place = crate::bytes::be_bytes(offset as nat, 8);
    let length = crate::bytes::be_bytes(bytes.len(), 4);
    crate::bytes::lemma_be_limits();
    crate::bytes::lemma_be_bytes_len(index as nat, 4);
    crate::bytes::lemma_be_bytes_len(offset as nat, 8);
    crate::bytes::lemma_be_bytes_len(bytes.len(), 4);
    crate::bytes::lemma_be_round_trip(index as nat, 4);
    crate::bytes::lemma_be_round_trip(offset as nat, 8);
    if bytes.len() <= u32::MAX {
        crate::bytes::lemma_be_round_trip(bytes.len(), 4);
    }
    assert(file_start_bytes(index, offset).subrange(0, 4) =~= number);
    assert(file_start_bytes(index, offset).subrange(4, 12) =~= place);
    assert(file_chunk_bytes(index, bytes).subrange(0, 4) =~= number);
    assert(file_chunk_bytes(index, bytes).skip(4) =~= bytes);
    assert(file_end_bytes(index, bytes).subrange(0, 4) =~= number);
    assert(file_end_bytes(index, bytes).skip(4) =~= bytes);
    assert(string_bytes(bytes).subrange(0, 4) =~= length);
    assert(string_bytes(bytes).skip(4) =~= bytes);
}

/// Messages of a fixed length are read exactly when they have it: shorter ones are
/// truncated, longer ones have trailing bytes. A chunk needs its index.
pub proof fn law_messages_have_their_length(payload: Seq<u8>)
    ensures
        ({
            let short = ProtocolErrorView::Malformed("truncated payload"@);
            let long = ProtocolErrorView::Malformed("payload has trailing bytes"@);
            let n = payload.len();
            &&& parse_file_start(payload) is Ok <==> n == 12
            &&& n < 12 ==> parse_file_start(payload) == Err::<(u32, u64), ProtocolErrorView>(short)
            &&& n > 12 ==> parse_file_start(payload) == Err::<(u32, u64), ProtocolErrorView>(long)
            &&& parse_file_end(payload) is Ok <==> n == 36
            &&& n < 36 ==> parse_file_end(payload) == Err::<(u32, Seq<u8>), ProtocolErrorView>(
                short,
            )
            &&& n > 36 ==> parse_file_end(payload) == Err::<(u32, Seq<u8>), ProtocolErrorView>(long)
            &&& parse_complete(payload) is Ok <==> n == 4
            &&& n < 4 ==> parse_complete(payload) == Err::<u32, ProtocolErrorView>(short)
            &&& n > 4 ==> parse_complete(payload) == Err::<u32, ProtocolErrorView>(long)
            &&& parse_file_chunk(payload) is Ok <==> n >= 4
            &&& n < 4 ==> parse_file_chunk(payload) == Err::<(u32, Seq<u8>), ProtocolErrorView>(
                ProtocolErrorView::Malformed("short file chunk"@),
            )
        }),
{
}

/// An error message is refused for the first thing that is wrong with its string,
/// or for what follows it.
pub proof fn law_unreadable_error_is_refused(payload: Seq<u8>)
    ensures
        match crate::protocol::decoder::take_string(payload) {
            Err(error) => parse_error(payload) == Err::<Seq<char>, ProtocolErrorView>(error),
            Ok((text, rest)) => if rest.len() > 0 {
                parse_error(payload) == Err::<Seq<char>, ProtocolErrorView>(
                    ProtocolErrorView::Malformed("payload has trailing bytes"@),
                )
            } else {
                parse_error(payload) == Ok::<Seq<char>, ProtocolErrorView>(decode_utf8(text))
            },
        },
{
}

} // verus!
