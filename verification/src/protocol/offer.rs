//! The payloads that offer files and accept them.

use vstd::prelude::*;
use vstd::utf8::*;

use crate::bytes::{append, push_be};
use crate::path::{SafeRelativePath, SEPARATOR};
use crate::protocol::message::push_text;
use crate::protocol::{
    push_u32, Decoder, FileOffer, FileOfferView, ProtocolError, ProtocolErrorView, TransferAccept,
    TransferAcceptView, TransferOffer, TransferOfferView, MAX_FILES, MAX_PATH_BYTES,
};
use crate::text::is_utf8;

verus! {

/// The byte that separates components on the sender's platform.
pub const BACKSLASH: u8 = 92;

/// A path as it is written on the wire: with `/` in place of every `\`.
pub open spec fn wire_path(path: Seq<u8>) -> Seq<u8> {
    Seq::new(
        path.len(),
        |i: int|
            if path[i] == BACKSLASH {
                SEPARATOR
            } else {
                path[i]
            },
    )
}

/// A file of an offer on the wire.
pub open spec fn file_bytes(file: FileOfferView) -> Seq<u8> {
    crate::protocol::message::string_bytes(wire_path(file.path)) + crate::bytes::be_bytes(
        file.size as nat,
        8,
    ) + file.hash
}

/// The files of an offer on the wire, or why the first that cannot be written
/// cannot.
pub open spec fn encoded_files(files: Seq<FileOfferView>) -> Result<Seq<u8>, ProtocolErrorView>
    decreases files.len(),
{
    if files.len() == 0 {
        Ok(Seq::empty())
    } else {
        match encoded_files(files.drop_last()) {
            Err(error) => Err(error),
            Ok(front) => if !valid_utf8(files.last().path) {
                Err(ProtocolErrorView::Malformed("path is not valid Unicode"@))
            } else if files.last().path.len() > MAX_PATH_BYTES {
                Err(ProtocolErrorView::Malformed("string is too long"@))
            } else {
                Ok(front + file_bytes(files.last()))
            },
        }
    }
}

/// An offer on the wire, or why it cannot be written.
pub open spec fn encoded_offer(offer: TransferOfferView) -> Result<Seq<u8>, ProtocolErrorView> {
    if offer.files.len() > MAX_FILES {
        Err(ProtocolErrorView::Malformed("too many files"@))
    } else {
        match encoded_files(offer.files) {
            Err(error) => Err(error),
            Ok(files) => Ok(offer.id + crate::bytes::be_bytes(offer.files.len(), 4) + files),
        }
    }
}

/// A file of an offer at the front of `bytes`, and what follows it.
pub open spec fn parse_file(bytes: Seq<u8>) -> Result<
    (FileOfferView, Seq<u8>),
    ProtocolErrorView,
> {
    match crate::protocol::decoder::take_string(bytes) {
        Err(error) => Err(error),
        Ok((text, rest)) => match crate::path::safe_path(text) {
            Err(error) => Err(ProtocolErrorView::UnsafePath(error)),
            Ok(path) => match crate::protocol::decoder::take_u64(rest) {
                Err(error) => Err(error),
                Ok((size, rest)) => match crate::protocol::decoder::take_bytes(rest, 32) {
                    Err(error) => Err(error),
                    Ok((hash, rest)) => Ok((FileOfferView { path, size, hash }, rest)),
                },
            },
        },
    }
}

/// The first `count` files of an offer at the front of `bytes`, and what
/// follows them.
pub open spec fn parse_files(bytes: Seq<u8>, count: nat) -> Result<
    (Seq<FileOfferView>, Seq<u8>),
    ProtocolErrorView,
>
    decreases count,
{
    if count == 0 {
        Ok((Seq::empty(), bytes))
    } else {
        match parse_files(bytes, (count - 1) as nat) {
            Err(error) => Err(error),
            Ok((front, rest)) => match parse_file(rest) {
                Err(error) => Err(error),
                Ok((file, rest)) => Ok((front.push(file), rest)),
            },
        }
    }
}

/// What a payload says as an offer.
pub open spec fn parse_offer(payload: Seq<u8>) -> Result<TransferOfferView, ProtocolErrorView> {
    match crate::protocol::decoder::take_bytes(payload, 16) {
        Err(error) => Err(error),
        Ok((id, rest)) => match crate::protocol::decoder::take_u32(rest) {
            Err(error) => Err(error),
            Ok((count, rest)) => if count > MAX_FILES {
                Err(ProtocolErrorView::Malformed("too many files"@))
            } else {
                match parse_files(rest, count as nat) {
                    Err(error) => Err(error),
                    Ok((files, rest)) => match crate::protocol::decoder::take_end(rest) {
                        Err(error) => Err(error),
                        Ok(_) => Ok(TransferOfferView { id, files }),
                    },
                }
            },
        },
    }
}

/// Resume offsets on the wire.
pub open spec fn offset_bytes(offsets: Seq<u64>) -> Seq<u8>
    decreases offsets.len(),
{
    if offsets.len() == 0 {
        Seq::empty()
    } else {
        offset_bytes(offsets.drop_last()) + crate::bytes::be_bytes(offsets.last() as nat, 8)
    }
}

/// An acceptance on the wire, or why it cannot be written.
pub open spec fn encoded_accept(accept: TransferAcceptView) -> Result<Seq<u8>, ProtocolErrorView> {
    if accept.resume_offsets.len() > MAX_FILES {
        Err(ProtocolErrorView::Malformed("too many resume offsets"@))
    } else {
        Ok(
            accept.id + crate::bytes::be_bytes(accept.resume_offsets.len(), 4) + offset_bytes(
                accept.resume_offsets,
            ),
        )
    }
}

/// The first `count` resume offsets at the front of `bytes`, and what follows
/// them.
pub open spec fn parse_offsets(bytes: Seq<u8>, count: nat) -> Result<
    (Seq<u64>, Seq<u8>),
    ProtocolErrorView,
>
    decreases count,
{
    if count == 0 {
        Ok((Seq::empty(), bytes))
    } else {
        match parse_offsets(bytes, (count - 1) as nat) {
            Err(error) => Err(error),
            Ok((front, rest)) => match crate::protocol::decoder::take_u64(rest) {
                Err(error) => Err(error),
                Ok((offset, rest)) => Ok((front.push(offset), rest)),
            },
        }
    }
}

/// What a payload says as an acceptance.
pub open spec fn parse_accept(payload: Seq<u8>) -> Result<TransferAcceptView, ProtocolErrorView> {
    match crate::protocol::decoder::take_bytes(payload, 16) {
        Err(error) => Err(error),
        Ok((id, rest)) => match crate::protocol::decoder::take_u32(rest) {
            Err(error) => Err(error),
            Ok((count, rest)) => if count > MAX_FILES {
                Err(ProtocolErrorView::Malformed("too many resume offsets"@))
            } else {
                match parse_offsets(rest, count as nat) {
                    Err(error) => Err(error),
                    Ok((resume_offsets, rest)) => match crate::protocol::decoder::take_end(rest) {
                        Err(error) => Err(error),
                        Ok(_) => Ok(TransferAcceptView { id, resume_offsets }),
                    },
                }
            },
        },
    }
}

/// The first file that cannot be written decides, whatever follows it.
proof fn lemma_encoded_files_error(files: Seq<FileOfferView>, n: int)
    requires
        0 <= n <= files.len(),
        encoded_files(files.take(n)) is Err,
    ensures
        encoded_files(files) == encoded_files(files.take(n)),
    decreases files.len(),
{
    if n == files.len() {
        assert(files.take(n) =~= files);
    } else {
        assert(files.drop_last().take(n) =~= files.take(n));
        lemma_encoded_files_error(files.drop_last(), n);
    }
}

/// The first file that cannot be read decides, whatever follows it.
proof fn lemma_parse_files_error(bytes: Seq<u8>, n: nat, count: nat)
    requires
        n <= count,
        parse_files(bytes, n) is Err,
    ensures
        parse_files(bytes, count) == parse_files(bytes, n),
    decreases count,
{
    if n < count {
        lemma_parse_files_error(bytes, n, (count - 1) as nat);
    }
}

/// The first offset that cannot be read decides, whatever follows it.
proof fn lemma_parse_offsets_error(bytes: Seq<u8>, n: nat, count: nat)
    requires
        n <= count,
        parse_offsets(bytes, n) is Err,
    ensures
        parse_offsets(bytes, count) == parse_offsets(bytes, n),
    decreases count,
{
    if n < count {
        lemma_parse_offsets_error(bytes, n, (count - 1) as nat);
    }
}

/// A path with `/` in place of every `\`.
fn to_wire_path(path: &[u8]) -> (text: Vec<u8>)
    ensures
        text@ == wire_path(path@),
{
    let mut text: Vec<u8> = Vec::with_capacity(path.len());
    let mut i: usize = 0;
    while i < path.len()
        invariant
            i <= path@.len(),
            text@ == wire_path(path@).take(i as int),
        decreases path@.len() - i,
    {
        let byte: u8 = path[i];
        text.push(
            if byte == BACKSLASH {
                SEPARATOR
            } else {
                byte
            },
        );
        i = i + 1;
        assert(text@ =~= wire_path(path@).take(i as int));
    }
    assert(text@ =~= wire_path(path@));
    text
}

/// Encodes an offer. Paths are written with `/` between their components,
/// whatever the sender's platform has.
pub fn encode_offer(offer: &TransferOffer) -> (result: Result<Vec<u8>, ProtocolError>)
    ensures
        match (result, encoded_offer(offer@)) {
            (Ok(payload), Ok(expected)) => payload@ == expected,
            (Err(error), Err(expected)) => error@ == expected,
            _ => false,
        },
{
    if offer.files.len() > MAX_FILES {
        return Err(ProtocolError::Malformed("too many files"));
    }
    let mut payload: Vec<u8> = Vec::new();
    append(&mut payload, &offer.id);
    match push_u32(&mut payload, offer.files.len()) {
        Ok(_) => {},
        Err(error) => {
            return Err(error);
        },
    }
    let ghost head = payload@;
    let ghost files = offer@.files;
    let ghost mut done: Seq<u8> = Seq::empty();
    let mut i: usize = 0;
    proof {
        assert(head =~= offer.id@ + crate::bytes::be_bytes(offer.files@.len(), 4));
        assert(files.take(0) =~= Seq::empty());
        assert(head + done =~= head);
    }
    while i < offer.files.len()
        invariant
            i <= offer.files@.len() <= MAX_FILES,
            files == offer@.files,
            head == offer@.id + crate::bytes::be_bytes(files.len(), 4),
            encoded_files(files.take(i as int)) == Ok::<Seq<u8>, ProtocolErrorView>(done),
            payload@ == head + done,
        decreases offer.files@.len() - i,
    {
        let file: &FileOffer = &offer.files[i];
        proof {
            assert(files.take(i + 1).drop_last() =~= files.take(i as int));
            assert(files.take(i + 1).last() == file@);
        }
        let path = file.path.as_path();
        if !is_utf8(path) {
            proof {
                lemma_encoded_files_error(files, i + 1);
            }
            return Err(ProtocolError::Malformed("path is not valid Unicode"));
        }
        let text = to_wire_path(path);
        match push_text(&mut payload, text.as_slice()) {
            Ok(_) => {},
            Err(error) => {
                proof {
                    lemma_encoded_files_error(files, i + 1);
                }
                return Err(error);
            },
        }
        push_be(&mut payload, file.size as u128, 8);
        append(&mut payload, &file.hash);
        proof {
            let longer = done + file_bytes(file@);
            assert(payload@ =~= head + longer);
            done = longer;
        }
        i = i + 1;
    }
    assert(files.take(i as int) =~= files);
    Ok(payload)
}

/// Decodes an offer. Every path in it is checked and normalized.
pub fn decode_offer(payload: &[u8]) -> (result: Result<TransferOffer, ProtocolError>)
    ensures
        match (result, parse_offer(payload@)) {
            (Ok(offer), Ok(expected)) => offer@ == expected,
            (Err(error), Err(expected)) => error@ == expected,
            _ => false,
        },
{
    let mut decoder = Decoder::new(payload);
    let id = match decoder.array::<16>() {
        Ok(id) => id,
        Err(error) => {
            return Err(error);
        },
    };
    let count: u32 = match decoder.u32() {
        Ok(count) => count,
        Err(error) => {
            return Err(error);
        },
    };
    if count as usize > MAX_FILES {
        return Err(ProtocolError::Malformed("too many files"));
    }
    let ghost body = decoder@;
    let mut files: Vec<FileOffer> = Vec::with_capacity(count as usize);
    let mut i: u32 = 0;
    assert(crate::protocol::file_views(files@) =~= Seq::empty());
    while i < count
        invariant
            i <= count,
            parse_files(body, i as nat) == Ok::<
                (Seq<FileOfferView>, Seq<u8>),
                ProtocolErrorView,
            >((crate::protocol::file_views(files@), decoder@)),
            parse_offer(payload@) == (match parse_files(body, count as nat) {
                Err(error) => Err::<TransferOfferView, ProtocolErrorView>(error),
                Ok((parsed, rest)) => match crate::protocol::decoder::take_end(rest) {
                    Err(error) => Err(error),
                    Ok(_) => Ok(TransferOfferView { id: id@, files: parsed }),
                },
            }),
        decreases count - i,
    {
        proof {
            if parse_files(body, (i + 1) as nat) is Err {
                lemma_parse_files_error(body, (i + 1) as nat, count as nat);
            }
        }
        let text = match decoder.string() {
            Ok(text) => text,
            Err(error) => {
                return Err(error);
            },
        };
        let path = match SafeRelativePath::new(text.as_str().as_bytes()) {
            Ok(path) => path,
            Err(error) => {
                return Err(ProtocolError::from(error));
            },
        };
        let size: u64 = match decoder.u64() {
            Ok(size) => size,
            Err(error) => {
                return Err(error);
            },
        };
        let hash = match decoder.array::<32>() {
            Ok(hash) => hash,
            Err(error) => {
                return Err(error);
            },
        };
        let ghost before = crate::protocol::file_views(files@);
        files.push(FileOffer { path, size, hash });
        assert(crate::protocol::file_views(files@) =~= before.push(files@.last()@));
        i = i + 1;
    }
    match decoder.finish() {
        Ok(_) => Ok(TransferOffer { id, files }),
        Err(error) => Err(error),
    }
}

/// Encodes an acceptance.
pub fn encode_accept(accept: &TransferAccept) -> (result: Result<Vec<u8>, ProtocolError>)
    ensures
        match (result, encoded_accept(accept@)) {
            (Ok(payload), Ok(expected)) => payload@ == expected,
            (Err(error), Err(expected)) => error@ == expected,
            _ => false,
        },
{
    if accept.resume_offsets.len() > MAX_FILES {
        return Err(ProtocolError::Malformed("too many resume offsets"));
    }
    let mut payload: Vec<u8> = Vec::new();
    append(&mut payload, &accept.id);
    match push_u32(&mut payload, accept.resume_offsets.len()) {
        Ok(_) => {},
        Err(error) => {
            return Err(error);
        },
    }
    let ghost head = payload@;
    let ghost offsets = accept.resume_offsets@;
    let mut i: usize = 0;
    proof {
        assert(head =~= accept.id@ + crate::bytes::be_bytes(offsets.len(), 4));
        assert(offsets.take(0) =~= Seq::empty());
        assert(head + offset_bytes(offsets.take(0)) =~= head);
    }
    while i < accept.resume_offsets.len()
        invariant
            i <= offsets.len(),
            offsets == accept.resume_offsets@,
            payload@ == head + offset_bytes(offsets.take(i as int)),
        decreases offsets.len() - i,
    {
        proof {
            assert(offsets.take(i + 1).drop_last() =~= offsets.take(i as int));
            assert(offsets.take(i + 1).last() == offsets[i as int]);
        }
        push_be(&mut payload, accept.resume_offsets[i] as u128, 8);
        i = i + 1;
        assert(payload@ =~= head + offset_bytes(offsets.take(i as int)));
    }
    assert(offsets.take(i as int) =~= offsets);
    Ok(payload)
}

/// Decodes an acceptance.
pub fn decode_accept(payload: &[u8]) -> (result: Result<TransferAccept, ProtocolError>)
    ensures
        match (result, parse_accept(payload@)) {
            (Ok(accept), Ok(expected)) => accept@ == expected,
            (Err(error), Err(expected)) => error@ == expected,
            _ => false,
        },
{
    let mut decoder = Decoder::new(payload);
    let id = match decoder.array::<16>() {
        Ok(id) => id,
        Err(error) => {
            return Err(error);
        },
    };
    let count: u32 = match decoder.u32() {
        Ok(count) => count,
        Err(error) => {
            return Err(error);
        },
    };
    if count as usize > MAX_FILES {
        return Err(ProtocolError::Malformed("too many resume offsets"));
    }
    let ghost body = decoder@;
    let mut resume_offsets: Vec<u64> = Vec::with_capacity(count as usize);
    let mut i: u32 = 0;
    assert(resume_offsets@ =~= Seq::empty());
    while i < count
        invariant
            i <= count,
            parse_offsets(body, i as nat) == Ok::<(Seq<u64>, Seq<u8>), ProtocolErrorView>(
                (resume_offsets@, decoder@),
            ),
            parse_accept(payload@) == (match parse_offsets(body, count as nat) {
                Err(error) => Err::<TransferAcceptView, ProtocolErrorView>(error),
                Ok((parsed, rest)) => match crate::protocol::decoder::take_end(rest) {
                    Err(error) => Err(error),
                    Ok(_) => Ok(TransferAcceptView { id: id@, resume_offsets: parsed }),
                },
            }),
        decreases count - i,
    {
        proof {
            if parse_offsets(body, (i + 1) as nat) is Err {
                lemma_parse_offsets_error(body, (i + 1) as nat, count as nat);
            }
        }
        let offset: u64 = match decoder.u64() {
            Ok(offset) => offset,
            Err(error) => {
                return Err(error);
            },
        };
        resume_offsets.push(offset);
        i = i + 1;
    }
    match decoder.finish() {
        Ok(_) => Ok(TransferAccept { id, resume_offsets }),
        Err(error) => Err(error),
    }
}

/// How many bytes the files hold together.
pub open spec fn sum_sizes(files: Seq<FileOfferView>) -> nat
    decreases files.len(),
{
    if files.len() == 0 {
        0
    } else {
        sum_sizes(files.drop_last()) + files.last().size as nat
    }
}

/// One more file adds its size.
pub proof fn lemma_sum_sizes_next(files: Seq<FileOfferView>, i: int)
    requires
        0 <= i < files.len(),
    ensures
        sum_sizes(files.take(i + 1)) == sum_sizes(files.take(i)) + files[i].size,
{
    assert(files.take(i + 1).drop_last() =~= files.take(i));
}

/// The first files hold no more than all of them.
pub proof fn lemma_sum_sizes_take(files: Seq<FileOfferView>, i: int)
    requires
        0 <= i <= files.len(),
    ensures
        sum_sizes(files.take(i)) <= sum_sizes(files),
    decreases files.len() - i,
{
    if i < files.len() {
        lemma_sum_sizes_next(files, i);
        lemma_sum_sizes_take(files, i + 1);
    } else {
        assert(files.take(i) =~= files);
    }
}

/// How many bytes the files hold together, if that fits into 64 bits.
pub fn total_size(files: &Vec<FileOffer>) -> (total: Option<u64>)
    ensures
        match total {
            Some(bytes) => bytes == sum_sizes(crate::protocol::file_views(files@)),
            None => sum_sizes(crate::protocol::file_views(files@)) > u64::MAX,
        },
{
    let ghost views = crate::protocol::file_views(files@);
    let mut total: u64 = 0;
    let mut i: usize = 0;
    proof {
        assert(views.take(0) =~= Seq::empty());
    }
    while i < files.len()
        invariant
            i <= files@.len(),
            views == crate::protocol::file_views(files@),
            total == sum_sizes(views.take(i as int)),
        decreases files@.len() - i,
    {
        proof {
            lemma_sum_sizes_next(views, i as int);
            lemma_sum_sizes_take(views, i + 1);
        }
        match total.checked_add(files[i].size) {
            Some(sum) => {
                total = sum;
            },
            None => {
                return None;
            },
        }
        i = i + 1;
    }
    assert(views.take(i as int) =~= views);
    Some(total)
}

/// Whether a file is read back from the wire as it was offered: its path is a
/// transfer path in UTF-8, not too long, without `\`.
pub open spec fn travels(file: FileOfferView) -> bool {
    &&& crate::path::is_safe(file.path)
    &&& valid_utf8(file.path)
    &&& !file.path.contains(BACKSLASH)
    &&& file.path.len() <= MAX_PATH_BYTES
    &&& file.hash.len() == 32
}

/// A path without `\` is written as it is.
proof fn lemma_wire_path_same(path: Seq<u8>)
    requires
        !path.contains(BACKSLASH),
    ensures
        wire_path(path) == path,
{
    assert forall|i: int| 0 <= i < path.len() implies wire_path(path)[i] == #[trigger] path[i] by {
        assert(path.contains(path[i]));
    }
    assert(wire_path(path) =~= path);
}

/// A file at the front is read as it was written.
proof fn lemma_parse_file(file: FileOfferView, rest: Seq<u8>)
    requires
        travels(file),
    ensures
        parse_file(file_bytes(file) + rest) == Ok::<(FileOfferView, Seq<u8>), ProtocolErrorView>(
            (file, rest),
        ),
{
    let text = file.path;
    let size = crate::bytes::be_bytes(file.size as nat, 8);
    lemma_wire_path_same(text);
    crate::path::law_safe_path_idempotent(text);
    let after_text = size + (file.hash + rest);
    assert(file_bytes(file) + rest =~= crate::bytes::be_bytes(text.len(), 4) + text + after_text);
    crate::protocol::decoder::lemma_take_string(text, after_text);
    crate::protocol::decoder::lemma_take_u64(file.size, file.hash + rest);
    crate::protocol::decoder::lemma_take_bytes(file.hash, rest);
}

/// Files at the front are read as they were written.
proof fn lemma_parse_files(files: Seq<FileOfferView>, rest: Seq<u8>)
    requires
        forall|i: int| 0 <= i < files.len() ==> travels(#[trigger] files[i]),
    ensures
        encoded_files(files) is Ok,
        parse_files(encoded_files(files)->Ok_0 + rest, files.len()) == Ok::<
            (Seq<FileOfferView>, Seq<u8>),
            ProtocolErrorView,
        >((files, rest)),
    decreases files.len(),
{
    if files.len() == 0 {
        assert(encoded_files(files)->Ok_0 + rest =~= rest);
        assert(files =~= Seq::empty());
    } else {
        let front = files.drop_last();
        let last = files.last();
        assert forall|i: int| 0 <= i < front.len() implies travels(#[trigger] front[i]) by {
            assert(front[i] == files[i]);
        }
        assert(travels(files[files.len() - 1]));
        let after_front = file_bytes(last) + rest;
        lemma_parse_files(front, after_front);
        lemma_parse_file(last, rest);
        assert(encoded_files(files)->Ok_0 + rest =~= encoded_files(front)->Ok_0 + after_front);
        assert(front.push(last) =~= files);
    }
}

/// An offer is read back as it was written: whatever the files are, as long as
/// each path is a transfer path in UTF-8 that is not too long and holds no `\`.
pub proof fn law_offer_round_trip(offer: TransferOfferView)
    requires
        offer.id.len() == 16,
        offer.files.len() <= MAX_FILES,
        forall|i: int| 0 <= i < offer.files.len() ==> travels(#[trigger] offer.files[i]),
    ensures
        encoded_offer(offer) is Ok,
        parse_offer(encoded_offer(offer)->Ok_0) == Ok::<TransferOfferView, ProtocolErrorView>(
            offer,
        ),
{
    lemma_parse_files(offer.files, Seq::empty());
    let files = encoded_files(offer.files)->Ok_0;
    assert(files + Seq::<u8>::empty() =~= files);
    let count = crate::bytes::be_bytes(offer.files.len(), 4);
    assert(encoded_offer(offer)->Ok_0 =~= offer.id + (count + files));
    crate::protocol::decoder::lemma_take_bytes(offer.id, count + files);
    crate::protocol::decoder::lemma_take_u32(offer.files.len() as u32, files);
}

/// What is read as files is as many files as were asked for, each with a path
/// that cannot leave the directory it is placed in.
proof fn lemma_parsed_files_safe(bytes: Seq<u8>, count: nat)
    ensures
        parse_files(bytes, count) matches Ok((files, rest)) ==> {
            &&& files.len() == count
            &&& forall|i: int|
                0 <= i < files.len() ==> crate::path::is_safe((#[trigger] files[i]).path)
                    && files[i].hash.len() == 32
        },
    decreases count,
{
    if count > 0 {
        lemma_parsed_files_safe(bytes, (count - 1) as nat);
        if let Ok((front, rest)) = parse_files(bytes, (count - 1) as nat) {
            if let Ok((text, _)) = crate::protocol::decoder::take_string(rest) {
                crate::path::law_safe_path_is_safe(text);
            }
        }
    }
}

/// However an offer was made up, its files are few enough and every path in it
/// is a transfer path.
pub proof fn law_parsed_offer_is_safe(payload: Seq<u8>)
    ensures
        parse_offer(payload) matches Ok(offer) ==> {
            &&& offer.id.len() == 16
            &&& offer.files.len() <= MAX_FILES
            &&& forall|i: int|
                0 <= i < offer.files.len() ==> crate::path::is_safe(
                    (#[trigger] offer.files[i]).path,
                ) && offer.files[i].hash.len() == 32
        },
{
    if let Ok((_, rest)) = crate::protocol::decoder::take_bytes(payload, 16) {
        if let Ok((count, rest)) = crate::protocol::decoder::take_u32(rest) {
            lemma_parsed_files_safe(rest, count as nat);
        }
    }
}

/// The text that stands for the path of a file of an offer, where the files are
/// at the front of `bytes`.
pub open spec fn path_text(bytes: Seq<u8>, index: nat) -> Seq<u8> {
    match parse_files(bytes, index) {
        Ok((_, rest)) => match crate::protocol::decoder::take_string(rest) {
            Ok((text, _)) => text,
            Err(_) => Seq::empty(),
        },
        Err(_) => Seq::empty(),
    }
}

/// What is read as a file can be written again, in no more bytes.
proof fn lemma_parsed_file_fits(bytes: Seq<u8>)
    ensures
        parse_file(bytes) matches Ok((file, rest)) ==> {
            &&& valid_utf8(file.path)
            &&& file.path.len() <= MAX_PATH_BYTES
            &&& file_bytes(file).len() + rest.len() <= bytes.len()
        },
{
    if let Ok((file, rest)) = parse_file(bytes) {
        let text = crate::protocol::decoder::take_string(bytes)->Ok_0.0;
        crate::path::law_safe_path_text(text);
        crate::bytes::lemma_be_bytes_len(wire_path(file.path).len(), 4);
        crate::bytes::lemma_be_bytes_len(file.size as nat, 8);
    }
}

/// What is read as files can be written again, in no more bytes; and each of
/// their paths is the one that its text stands for.
proof fn lemma_parsed_files_fit(bytes: Seq<u8>, count: nat)
    ensures
        parse_files(bytes, count) matches Ok((files, rest)) ==> {
            &&& encoded_files(files) matches Ok(written)
            &&& written.len() + rest.len() <= bytes.len()
            &&& files.len() == count
            &&& forall|i: int|
                0 <= i < files.len() ==> (#[trigger] files[i]).path.len() <= MAX_PATH_BYTES
                    && crate::path::safe_path(path_text(bytes, i as nat)) == Ok::<
                    Seq<u8>,
                    crate::path::UnsafePath,
                >(files[i].path)
        },
    decreases count,
{
    if count > 0 {
        lemma_parsed_files_fit(bytes, (count - 1) as nat);
        if let Ok((front, middle)) = parse_files(bytes, (count - 1) as nat) {
            lemma_parsed_file_fits(middle);
            if let Ok((file, rest)) = parse_file(middle) {
                let files = front.push(file);
                assert(files.drop_last() =~= front);
                assert forall|i: int| 0 <= i < files.len() implies (
                #[trigger] files[i]).path.len() <= MAX_PATH_BYTES && crate::path::safe_path(
                    path_text(bytes, i as nat),
                ) == Ok::<Seq<u8>, crate::path::UnsafePath>(files[i].path) by {
                    if i < front.len() {
                        assert(files[i] == front[i]);
                    }
                }
            }
        }
    }
}

/// Whatever is read as an offer holds the identifier and as many files as the
/// payload says, each under the path that its text stands for; and it can be
/// written again, in no more bytes.
pub proof fn law_parsed_offer_is_writable(payload: Seq<u8>)
    ensures
        parse_offer(payload) matches Ok(offer) ==> {
            &&& offer.id == payload.take(16)
            &&& offer.files.len() == crate::bytes::be_value(payload.subrange(16, 20))
            &&& offer.files.len() <= MAX_FILES
            &&& forall|i: int|
                0 <= i < offer.files.len() ==> (#[trigger] offer.files[i]).path.len()
                    <= MAX_PATH_BYTES && crate::path::safe_path(
                    path_text(payload.skip(20), i as nat),
                ) == Ok::<Seq<u8>, crate::path::UnsafePath>(offer.files[i].path)
            &&& encoded_offer(offer) matches Ok(written)
            &&& written.len() <= payload.len()
        },
{
    if let Ok(offer) = parse_offer(payload) {
        let head = payload.skip(16).take(4);
        crate::bytes::lemma_be_limits();
        crate::bytes::lemma_be_value_bound(head);
        assert(head =~= payload.subrange(16, 20));
        assert(payload.skip(16).skip(4) =~= payload.skip(20));
        lemma_parsed_files_fit(payload.skip(20), offer.files.len());
        lemma_parsed_files_fit(payload.skip(20), crate::bytes::be_value(head));
        crate::bytes::lemma_be_bytes_len(offer.files.len(), 4);
    }
}

/// Resume offsets at the front are read as they were written.
proof fn lemma_parse_offsets(offsets: Seq<u64>, rest: Seq<u8>)
    ensures
        parse_offsets(offset_bytes(offsets) + rest, offsets.len()) == Ok::<
            (Seq<u64>, Seq<u8>),
            ProtocolErrorView,
        >((offsets, rest)),
    decreases offsets.len(),
{
    if offsets.len() == 0 {
        assert(offset_bytes(offsets) + rest =~= rest);
        assert(offsets =~= Seq::empty());
    } else {
        let front = offsets.drop_last();
        let after_front = crate::bytes::be_bytes(offsets.last() as nat, 8) + rest;
        lemma_parse_offsets(front, after_front);
        crate::protocol::decoder::lemma_take_u64(offsets.last(), rest);
        assert(offset_bytes(offsets) + rest =~= offset_bytes(front) + after_front);
        assert(front.push(offsets.last()) =~= offsets);
    }
}

/// Each resume offset takes eight bytes.
pub proof fn lemma_offset_bytes_len(offsets: Seq<u64>)
    ensures
        offset_bytes(offsets).len() == 8 * offsets.len(),
    decreases offsets.len(),
{
    if offsets.len() > 0 {
        lemma_offset_bytes_len(offsets.drop_last());
        crate::bytes::lemma_be_bytes_len(offsets.last() as nat, 8);
    }
}

/// What is read as resume offsets is what those offsets are written as.
proof fn lemma_parsed_offsets(bytes: Seq<u8>, count: nat)
    ensures
        parse_offsets(bytes, count) matches Ok((offsets, rest)) ==> offsets.len() == count && bytes
            == offset_bytes(offsets) + rest,
    decreases count,
{
    if count == 0 {
        assert(offset_bytes(Seq::empty()) + bytes =~= bytes);
    } else {
        lemma_parsed_offsets(bytes, (count - 1) as nat);
        if let Ok((front, middle)) = parse_offsets(bytes, (count - 1) as nat) {
            if let Ok((offset, rest)) = crate::protocol::decoder::take_u64(middle) {
                crate::bytes::lemma_be_limits();
                crate::bytes::lemma_be_value_bound(middle.take(8));
                crate::bytes::lemma_be_value_round_trip(middle.take(8));
                assert(front.push(offset).drop_last() =~= front);
                assert(middle =~= middle.take(8) + rest);
                assert(bytes =~= offset_bytes(front.push(offset)) + rest);
            }
        }
    }
}

/// An acceptance is read back as it was written, and nothing else is read as
/// that acceptance. It can be written unless its offsets are too many.
pub proof fn law_accept_round_trip(accept: TransferAcceptView, payload: Seq<u8>)
    requires
        accept.id.len() == 16,
    ensures
        encoded_accept(accept) is Ok <==> accept.resume_offsets.len() <= MAX_FILES,
        parse_accept(payload) == Ok::<TransferAcceptView, ProtocolErrorView>(accept)
            <==> encoded_accept(accept) == Ok::<Seq<u8>, ProtocolErrorView>(payload),
{
    let offsets = offset_bytes(accept.resume_offsets);
    let count = crate::bytes::be_bytes(accept.resume_offsets.len(), 4);
    if accept.resume_offsets.len() <= MAX_FILES {
        lemma_parse_offsets(accept.resume_offsets, Seq::empty());
        assert(offsets + Seq::<u8>::empty() =~= offsets);
        assert(encoded_accept(accept)->Ok_0 =~= accept.id + (count + offsets));
        crate::protocol::decoder::lemma_take_bytes(accept.id, count + offsets);
        crate::protocol::decoder::lemma_take_u32(accept.resume_offsets.len() as u32, offsets);
    }
    if parse_accept(payload) == Ok::<TransferAcceptView, ProtocolErrorView>(accept) {
        let middle = payload.skip(16);
        let head = middle.take(4);
        let body = middle.skip(4);
        crate::bytes::lemma_be_limits();
        crate::bytes::lemma_be_value_bound(head);
        crate::bytes::lemma_be_value_round_trip(head);
        lemma_parsed_offsets(body, crate::bytes::be_value(head));
        assert(body =~= offsets);
        assert(payload =~= payload.take(16) + head + body);
    }
}

/// Files that come one after the other hold together what they hold apart.
pub proof fn law_sizes_add_up(left: Seq<FileOfferView>, right: Seq<FileOfferView>)
    ensures
        sum_sizes(left + right) == sum_sizes(left) + sum_sizes(right),
        forall|file: FileOfferView| #[trigger] sum_sizes(seq![file]) == file.size,
    decreases right.len(),
{
    assert forall|file: FileOfferView| #[trigger] sum_sizes(seq![file]) == file.size by {
        assert(seq![file].drop_last() =~= Seq::empty());
        assert(sum_sizes(Seq::empty()) == 0);
    }
    if right.len() == 0 {
        assert(left + right =~= left);
    } else {
        law_sizes_add_up(left, right.drop_last());
        assert((left + right).drop_last() =~= left + right.drop_last());
        assert((left + right).last() == right.last());
    }
}

/// On the wire a path is as long as it is, without `\`: where it had one, it has
/// `/`, and every other byte is the same.
pub proof fn law_wire_path_bytes(path: Seq<u8>, i: int)
    requires
        0 <= i < path.len(),
    ensures
        wire_path(path).len() == path.len(),
        path[i] == 92 ==> wire_path(path)[i] == 47,
        path[i] != 92 ==> wire_path(path)[i] == path[i],
        !wire_path(path).contains(92u8),
{
}

/// A file of an offer as a text for its path, its size and its hash.
pub open spec fn listed_file(text: Seq<u8>, size: u64, hash: Seq<u8>) -> Seq<u8> {
    crate::bytes::be_bytes(text.len(), 4) + text + crate::bytes::be_bytes(size as nat, 8) + hash
}

/// Whether a file is what is read of a text for its path: the text is UTF-8, not
/// too long, and stands for the file's path.
pub open spec fn is_text_of(text: Seq<u8>, file: FileOfferView) -> bool {
    &&& valid_utf8(text)
    &&& text.len() <= 4_096
    &&& crate::path::safe_path(text) == Ok::<Seq<u8>, crate::path::UnsafePath>(file.path)
    &&& file.hash.len() == 32
}

/// The files of an offer, listed under their texts.
pub open spec fn listed_files(texts: Seq<Seq<u8>>, files: Seq<FileOfferView>) -> Seq<u8> {
    Seq::new(
        texts.len(),
        |i: int| listed_file(texts[i], files[i].size, files[i].hash),
    ).flatten()
}

/// One more file is listed behind the others.
proof fn lemma_listed_push(
    texts: Seq<Seq<u8>>,
    files: Seq<FileOfferView>,
    text: Seq<u8>,
    file: FileOfferView,
)
    requires
        texts.len() == files.len(),
    ensures
        listed_files(texts.push(text), files.push(file)) == listed_files(texts, files)
            + listed_file(text, file.size, file.hash),
{
    let list = Seq::new(
        texts.len(),
        |i: int| listed_file(texts[i], files[i].size, files[i].hash),
    );
    let longer_texts = texts.push(text);
    let longer_files = files.push(file);
    let longer = Seq::new(
        longer_texts.len(),
        |i: int| listed_file(longer_texts[i], longer_files[i].size, longer_files[i].hash),
    );
    assert(longer =~= list.push(listed_file(text, file.size, file.hash)));
    list.lemma_flatten_push(listed_file(text, file.size, file.hash));
}

/// A listed file is read as that file.
proof fn lemma_read_listed_file(text: Seq<u8>, file: FileOfferView, rest: Seq<u8>)
    requires
        is_text_of(text, file),
    ensures
        parse_file(listed_file(text, file.size, file.hash) + rest) == Ok::<
            (FileOfferView, Seq<u8>),
            ProtocolErrorView,
        >((file, rest)),
{
    let size = crate::bytes::be_bytes(file.size as nat, 8);
    let after_text = size + (file.hash + rest);
    assert(listed_file(text, file.size, file.hash) + rest =~= crate::bytes::be_bytes(text.len(), 4)
        + text + after_text);
    crate::protocol::decoder::lemma_take_string(text, after_text);
    crate::protocol::decoder::lemma_take_u64(file.size, file.hash + rest);
    crate::protocol::decoder::lemma_take_bytes(file.hash, rest);
}

/// Listed files are read as those files.
proof fn lemma_read_listed_files(
    texts: Seq<Seq<u8>>,
    files: Seq<FileOfferView>,
    rest: Seq<u8>,
)
    requires
        texts.len() == files.len(),
        forall|i: int| 0 <= i < files.len() ==> is_text_of(texts[i], #[trigger] files[i]),
    ensures
        parse_files(listed_files(texts, files) + rest, files.len()) == Ok::<
            (Seq<FileOfferView>, Seq<u8>),
            ProtocolErrorView,
        >((files, rest)),
    decreases files.len(),
{
    if files.len() == 0 {
        assert(listed_files(texts, files) + rest =~= rest);
        assert(files =~= Seq::empty());
    } else {
        let front_texts = texts.drop_last();
        let front = files.drop_last();
        let file = files.last();
        assert forall|i: int| 0 <= i < front.len() implies is_text_of(
            front_texts[i],
            #[trigger] front[i],
        ) by {
            assert(front[i] == files[i]);
        }
        assert(is_text_of(texts[files.len() - 1], files[files.len() - 1]));
        assert(front.push(file) =~= files);
        assert(front_texts.push(texts.last()) =~= texts);
        lemma_listed_push(front_texts, front, texts.last(), file);
        let listed = listed_file(texts.last(), file.size, file.hash);
        lemma_read_listed_files(front_texts, front, listed + rest);
        lemma_read_listed_file(texts.last(), file, rest);
        assert(listed_files(front_texts, front) + (listed + rest) =~= listed_files(texts, files)
            + rest);
    }
}

/// What is read as files was listed as those files.
proof fn lemma_read_was_listed(bytes: Seq<u8>, count: nat) -> (texts: Seq<Seq<u8>>)
    ensures
        parse_files(bytes, count) matches Ok((files, rest)) ==> {
            &&& texts.len() == files.len()
            &&& files.len() == count
            &&& bytes == listed_files(texts, files) + rest
            &&& forall|i: int| 0 <= i < files.len() ==> is_text_of(texts[i], #[trigger] files[i])
        },
    decreases count,
{
    if count == 0 {
        assert(listed_files(Seq::empty(), Seq::empty()) + bytes =~= bytes);
        Seq::empty()
    } else {
        let front_texts = lemma_read_was_listed(bytes, (count - 1) as nat);
        match parse_files(bytes, (count - 1) as nat) {
            Ok((front, middle)) => match parse_file(middle) {
                Ok((file, rest)) => {
                    let head = middle.take(4);
                    let body = middle.skip(4);
                    crate::bytes::lemma_be_limits();
                    crate::bytes::lemma_be_value_bound(head);
                    crate::bytes::lemma_be_value_round_trip(head);
                    let length = crate::bytes::be_value(head) as int;
                    let text = body.take(length);
                    let tail = body.skip(length);
                    crate::bytes::lemma_be_value_bound(tail.take(8));
                    crate::bytes::lemma_be_value_round_trip(tail.take(8));
                    assert(middle =~= listed_file(text, file.size, file.hash) + rest);
                    lemma_listed_push(front_texts, front, text, file);
                    let texts = front_texts.push(text);
                    let files = front.push(file);
                    assert(bytes =~= listed_files(texts, files) + rest);
                    assert forall|i: int| 0 <= i < files.len() implies is_text_of(
                        texts[i],
                        #[trigger] files[i],
                    ) by {
                        if i < front.len() {
                            assert(is_text_of(front_texts[i], front[i]));
                        }
                    }
                    texts
                },
                Err(_) => Seq::empty(),
            },
            Err(_) => Seq::empty(),
        }
    }
}

/// What an offer on the wire says: an identifier, a count, and for each file a text
/// that stands for its path, its size and its hash, in this order and with nothing
/// behind. Every offer that is listed so is read, and nothing else is read as that
/// offer.
pub proof fn law_offer_is_read_as_listed(
    offer: TransferOfferView,
    texts: Seq<Seq<u8>>,
    payload: Seq<u8>,
) -> (found: Seq<Seq<u8>>)
    requires
        offer.id.len() == 16,
        texts.len() == offer.files.len(),
        offer.files.len() <= 100_000,
        forall|i: int|
            0 <= i < offer.files.len() ==> is_text_of(texts[i], #[trigger] offer.files[i]),
    ensures
        parse_offer(
            offer.id + crate::bytes::be_bytes(offer.files.len(), 4) + listed_files(
                texts,
                offer.files,
            ),
        ) == Ok::<TransferOfferView, ProtocolErrorView>(offer),
        parse_offer(payload) == Ok::<TransferOfferView, ProtocolErrorView>(offer) ==> {
            &&& found.len() == offer.files.len()
            &&& payload == offer.id + crate::bytes::be_bytes(offer.files.len(), 4) + listed_files(
                found,
                offer.files,
            )
            &&& forall|i: int|
                0 <= i < offer.files.len() ==> is_text_of(found[i], #[trigger] offer.files[i])
        },
{
    let listed = listed_files(texts, offer.files);
    let count = crate::bytes::be_bytes(offer.files.len(), 4);
    lemma_read_listed_files(texts, offer.files, Seq::empty());
    assert(listed + Seq::<u8>::empty() =~= listed);
    assert(offer.id + count + listed =~= offer.id + (count + listed));
    crate::protocol::decoder::lemma_take_bytes(offer.id, count + listed);
    crate::protocol::decoder::lemma_take_u32(offer.files.len() as u32, listed);
    let head = payload.skip(16).take(4);
    let body = payload.skip(16).skip(4);
    let found = lemma_read_was_listed(body, crate::bytes::be_value(head));
    if parse_offer(payload) == Ok::<TransferOfferView, ProtocolErrorView>(offer) {
        crate::bytes::lemma_be_limits();
        crate::bytes::lemma_be_value_bound(head);
        crate::bytes::lemma_be_value_round_trip(head);
        assert(body =~= listed_files(found, offer.files));
        assert(payload =~= offer.id + head + body);
    }
    found
}

/// An offer is written with the identifier, the count, and each file under its path
/// with `/` for `\`; it can be written unless it holds too many files, a path that is
/// not UTF-8, or one that is too long.
pub proof fn law_offer_is_written_as_listed(offer: TransferOfferView)
    ensures
        encoded_offer(offer) is Ok <==> offer.files.len() <= 100_000 && forall|i: int|
            0 <= i < offer.files.len() ==> valid_utf8((#[trigger] offer.files[i]).path)
                && offer.files[i].path.len() <= 4_096,
        encoded_offer(offer) matches Ok(payload) ==> payload == offer.id + crate::bytes::be_bytes(
            offer.files.len(),
            4,
        ) + listed_files(
            Seq::new(offer.files.len(), |i: int| wire_path(offer.files[i].path)),
            offer.files,
        ),
        offer.files.len() > 100_000 ==> encoded_offer(offer) == Err::<Seq<u8>, ProtocolErrorView>(
            ProtocolErrorView::Malformed("too many files"@),
        ),
{
    lemma_written_as_listed(offer.files);
}

/// Files are written as they are listed.
proof fn lemma_written_as_listed(files: Seq<FileOfferView>)
    ensures
        encoded_files(files) is Ok <==> forall|i: int|
            0 <= i < files.len() ==> valid_utf8((#[trigger] files[i]).path) && files[i].path.len()
                <= 4_096,
        encoded_files(files) matches Ok(written) ==> written == listed_files(
            Seq::new(files.len(), |i: int| wire_path(files[i].path)),
            files,
        ),
    decreases files.len(),
{
    let texts = Seq::new(files.len(), |i: int| wire_path(files[i].path));
    if files.len() == 0 {
        assert(listed_files(texts, files) =~= Seq::empty());
    } else {
        let front = files.drop_last();
        let last = files.last();
        let front_texts = Seq::new(front.len(), |i: int| wire_path(front[i].path));
        lemma_written_as_listed(front);
        assert(files[files.len() - 1] == last);
        if encoded_files(front) is Ok {
            assert forall|i: int| 0 <= i < front.len() implies valid_utf8(
                (#[trigger] files[i]).path,
            ) && files[i].path.len() <= 4_096 by {
                assert(front[i] == files[i]);
            }
        } else {
            let i = choose|i: int|
                0 <= i < front.len() && !(valid_utf8((#[trigger] front[i]).path)
                    && front[i].path.len() <= 4_096);
            assert(files[i] == front[i]);
        }
        lemma_listed_push(front_texts, front, wire_path(last.path), last);
        assert(front_texts.push(wire_path(last.path)) =~= texts);
        assert(front.push(last) =~= files);
        if encoded_files(files) is Ok {
            assert(file_bytes(last) =~= listed_file(wire_path(last.path), last.size, last.hash));
        }
    }
}

/// The first file that cannot be written decides why an offer cannot be.
pub proof fn law_unwritable_offer_is_refused(offer: TransferOfferView, i: int)
    requires
        offer.files.len() <= 100_000,
        0 <= i < offer.files.len(),
        !valid_utf8(offer.files[i].path) || offer.files[i].path.len() > 4_096,
        forall|j: int|
            0 <= j < i ==> valid_utf8((#[trigger] offer.files[j]).path)
                && offer.files[j].path.len() <= 4_096,
    ensures
        encoded_offer(offer) == Err::<Seq<u8>, ProtocolErrorView>(
            if !valid_utf8(offer.files[i].path) {
                ProtocolErrorView::Malformed("path is not valid Unicode"@)
            } else {
                ProtocolErrorView::Malformed("string is too long"@)
            },
        ),
{
    let front = offer.files.take(i + 1);
    assert(front.drop_last() =~= offer.files.take(i));
    assert(front.last() == offer.files[i]);
    lemma_written_as_listed(offer.files.take(i));
    assert forall|j: int| 0 <= j < i implies valid_utf8(
        (#[trigger] offer.files.take(i)[j]).path,
    ) && offer.files.take(i)[j].path.len() <= 4_096 by {
        assert(offer.files.take(i)[j] == offer.files[j]);
    }
    lemma_encoded_files_error(offer.files, i + 1);
}

/// The resume offsets stand on the wire one after the other, eight bytes each.
pub proof fn law_offsets_in_place(offsets: Seq<u64>, i: int)
    requires
        0 <= i < offsets.len(),
    ensures
        offset_bytes(offsets).len() == 8 * offsets.len(),
        crate::bytes::be_value(offset_bytes(offsets).subrange(8 * i, 8 * i + 8)) == offsets[i],
    decreases offsets.len(),
{
    let front = offsets.drop_last();
    let last = offsets.last();
    lemma_offset_bytes_len(offsets);
    lemma_offset_bytes_len(front);
    crate::bytes::lemma_be_limits();
    crate::bytes::lemma_be_bytes_len(last as nat, 8);
    crate::bytes::lemma_be_round_trip(last as nat, 8);
    if i < front.len() {
        law_offsets_in_place(front, i);
        assert(offset_bytes(offsets).subrange(8 * i, 8 * i + 8) =~= offset_bytes(front).subrange(
            8 * i,
            8 * i + 8,
        ));
    } else {
        assert(offset_bytes(offsets).subrange(8 * i, 8 * i + 8) =~= crate::bytes::be_bytes(
            last as nat,
            8,
        ));
    }
}

/// An acceptance is written with the identifier, the count and the offsets, and is
/// refused only when there are too many of them.
pub proof fn law_accept_in_place(accept: TransferAcceptView)
    requires
        accept.id.len() == 16,
    ensures
        match encoded_accept(accept) {
            Ok(payload) => {
                &&& accept.resume_offsets.len() <= 100_000
                &&& payload.take(16) == accept.id
                &&& crate::bytes::be_value(payload.subrange(16, 20)) == accept.resume_offsets.len()
                &&& payload.skip(20) == offset_bytes(accept.resume_offsets)
            },
            Err(error) => accept.resume_offsets.len() > 100_000 && error
                == ProtocolErrorView::Malformed("too many resume offsets"@),
        },
{
    if let Ok(payload) = encoded_accept(accept) {
        let count = accept.resume_offsets.len();
        crate::bytes::lemma_be_limits();
        crate::bytes::lemma_be_bytes_len(count, 4);
        crate::bytes::lemma_be_round_trip(count, 4);
        assert(payload.take(16) =~= accept.id);
        assert(payload.subrange(16, 20) =~= crate::bytes::be_bytes(count, 4));
        assert(payload.skip(20) =~= offset_bytes(accept.resume_offsets));
    }
}

/// What is wrong with a file of an offer, by where its bytes stand: its string, the
/// path that its text stands for, and bytes that are missing behind it, in this
/// order.
pub proof fn law_unreadable_file_is_refused(bytes: Seq<u8>)
    ensures
        match crate::protocol::decoder::take_string(bytes) {
            Err(error) => parse_file(bytes) == Err::<(FileOfferView, Seq<u8>), ProtocolErrorView>(
                error,
            ),
            Ok((text, rest)) => match crate::path::safe_path(text) {
                Err(error) => parse_file(bytes) == Err::<
                    (FileOfferView, Seq<u8>),
                    ProtocolErrorView,
                >(ProtocolErrorView::UnsafePath(error)),
                Ok(path) => if rest.len() < 40 {
                    parse_file(bytes) == Err::<(FileOfferView, Seq<u8>), ProtocolErrorView>(
                        ProtocolErrorView::Malformed("truncated payload"@),
                    )
                } else {
                    parse_file(bytes) is Ok
                },
            },
        },
{
}

/// What is wrong with an offer that cannot be read: bytes that are missing before
/// its files, too many files, the first of its files that cannot be read, or bytes
/// behind the last.
pub proof fn law_unreadable_offer_is_refused(
    payload: Seq<u8>,
    texts: Seq<Seq<u8>>,
    files: Seq<FileOfferView>,
    rest: Seq<u8>,
)
    requires
        texts.len() == files.len(),
        forall|i: int| 0 <= i < files.len() ==> is_text_of(texts[i], #[trigger] files[i]),
    ensures
        ({
            let count = crate::bytes::be_value(payload.subrange(16, 20));
            if payload.len() < 20 {
                parse_offer(payload) == Err::<TransferOfferView, ProtocolErrorView>(
                    ProtocolErrorView::Malformed("truncated payload"@),
                )
            } else if count > 100_000 {
                parse_offer(payload) == Err::<TransferOfferView, ProtocolErrorView>(
                    ProtocolErrorView::Malformed("too many files"@),
                )
            } else {
                payload.skip(20) == listed_files(texts, files) + rest ==> {
                    &&& files.len() == count && rest.len() > 0 ==> parse_offer(payload) == Err::<
                        TransferOfferView,
                        ProtocolErrorView,
                    >(ProtocolErrorView::Malformed("payload has trailing bytes"@))
                    &&& files.len() < count && parse_file(rest) is Err ==> parse_offer(payload)
                        == Err::<TransferOfferView, ProtocolErrorView>(parse_file(rest)->Err_0)
                }
            }
        }),
{
    if payload.len() >= 20 {
        let head = payload.skip(16).take(4);
        let body = payload.skip(16).skip(4);
        let count = crate::bytes::be_value(head);
        assert(head =~= payload.subrange(16, 20));
        assert(body =~= payload.skip(20));
        crate::bytes::lemma_be_limits();
        crate::bytes::lemma_be_value_bound(head);
        if count <= 100_000 && body == listed_files(texts, files) + rest {
            lemma_read_listed_files(texts, files, rest);
            if files.len() < count && parse_file(rest) is Err {
                assert(parse_files(body, files.len() + 1) is Err);
                lemma_parse_files_error(body, files.len() + 1, count);
            }
        }
    }
}

/// What is wrong with an acceptance that cannot be read: bytes that are missing, too
/// many offsets, or bytes behind the last.
pub proof fn law_unreadable_accept_is_refused(payload: Seq<u8>)
    ensures
        ({
            let count = crate::bytes::be_value(payload.subrange(16, 20));
            let refused = |reason: Seq<char>|
                parse_accept(payload) == Err::<TransferAcceptView, ProtocolErrorView>(
                    ProtocolErrorView::Malformed(reason),
                );
            if payload.len() < 20 {
                refused("truncated payload"@)
            } else if count > 100_000 {
                refused("too many resume offsets"@)
            } else if payload.len() < 20 + 8 * count {
                refused("truncated payload"@)
            } else if payload.len() > 20 + 8 * count {
                refused("payload has trailing bytes"@)
            } else {
                parse_accept(payload) is Ok
            }
        }),
{
    if payload.len() >= 20 {
        let head = payload.skip(16).take(4);
        let body = payload.skip(16).skip(4);
        assert(head =~= payload.subrange(16, 20));
        crate::bytes::lemma_be_limits();
        crate::bytes::lemma_be_value_bound(head);
        lemma_offsets_fit(body, crate::bytes::be_value(head));
    }
}

/// Offsets are read as long as there are eight bytes for each.
proof fn lemma_offsets_fit(bytes: Seq<u8>, count: nat)
    ensures
        match parse_offsets(bytes, count) {
            Ok((offsets, rest)) => rest.len() + 8 * count == bytes.len(),
            Err(error) => bytes.len() < 8 * count && error == ProtocolErrorView::Malformed(
                "truncated payload"@,
            ),
        },
    decreases count,
{
    if count > 0 {
        lemma_offsets_fit(bytes, (count - 1) as nat);
    }
}

} // verus!
