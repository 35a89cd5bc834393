//! Frames: a magic, a version, a kind, a length and a payload.

use vstd::prelude::*;

use crate::bytes::{append, copied, push_be, read_be, same_bytes};
use crate::protocol::{
    decode_error, Frame, FrameKind, FrameView, ProtocolError, ProtocolErrorView, MAX_CHUNK_BYTES,
    MAX_CONTROL_PAYLOAD,
};
use crate::text::unexpected_end;
use crate::{PROTOCOL_MAGIC, PROTOCOL_VERSION};

verus! {

/// The most bytes that the payload of a frame may take.
pub open spec fn payload_limit(kind: FrameKind) -> nat {
    if kind == FrameKind::FileChunk {
        (MAX_CHUNK_BYTES + 4) as nat
    } else {
        MAX_CONTROL_PAYLOAD as nat
    }
}

/// What stands before the payload of a frame.
pub open spec fn frame_header(kind: FrameKind, length: u64) -> Seq<u8> {
    PROTOCOL_MAGIC@ + crate::bytes::be_bytes(PROTOCOL_VERSION as nat, 2) + seq![kind.spec_code()]
        + crate::bytes::be_bytes(length as nat, 8)
}

/// A frame on the wire.
pub open spec fn frame_bytes(kind: FrameKind, payload: Seq<u8>) -> Seq<u8> {
    frame_header(kind, payload.len() as u64) + payload
}

/// How far a frame was read: the field that comes next, with what the fields
/// before it said.
#[derive(Clone, Copy, Debug, Eq, PartialEq, Structural)]
pub enum FrameStage {
    Magic,
    Version,
    Kind,
    Length(FrameKind),
    Payload(FrameKind, u64),
}

/// What a read field leads to.
#[verifier::ext_equal]
pub enum FrameStepView {
    More(FrameStage),
    Done(FrameView),
}

impl FrameStage {
    /// How many bytes the next field takes.
    pub open spec fn spec_wanted(self) -> u64 {
        match self {
            FrameStage::Magic => 4,
            FrameStage::Version => 2,
            FrameStage::Kind => 1,
            FrameStage::Length(_) => 8,
            FrameStage::Payload(_, length) => length,
        }
    }

    /// How many fields follow the next one.
    pub open spec fn following(self) -> nat {
        match self {
            FrameStage::Magic => 4,
            FrameStage::Version => 3,
            FrameStage::Kind => 2,
            FrameStage::Length(_) => 1,
            FrameStage::Payload(_, _) => 0,
        }
    }

    /// Whether only payloads within the limit are waited for.
    pub open spec fn is_bounded(self) -> bool {
        self matches FrameStage::Payload(kind, length) ==> length <= payload_limit(kind)
    }
}

/// What the bytes of the next field lead to.
pub open spec fn next_stage(stage: FrameStage, field: Seq<u8>) -> Result<
    FrameStepView,
    ProtocolErrorView,
> {
    match stage {
        FrameStage::Magic => if field == PROTOCOL_MAGIC@ {
            Ok(FrameStepView::More(FrameStage::Version))
        } else {
            Err(ProtocolErrorView::BadMagic)
        },
        FrameStage::Version => {
            let version = crate::bytes::be_value(field) as u16;
            if version == PROTOCOL_VERSION {
                Ok(FrameStepView::More(FrameStage::Kind))
            } else {
                Err(ProtocolErrorView::UnsupportedVersion(version))
            }
        },
        FrameStage::Kind => match FrameKind::spec_decode(field[0]) {
            Some(kind) => Ok(FrameStepView::More(FrameStage::Length(kind))),
            None => Err(ProtocolErrorView::UnknownFrame(field[0])),
        },
        FrameStage::Length(kind) => {
            let length = crate::bytes::be_value(field) as u64;
            if length > payload_limit(kind) {
                Err(ProtocolErrorView::OversizedFrame(length))
            } else {
                Ok(FrameStepView::More(FrameStage::Payload(kind, length)))
            }
        },
        FrameStage::Payload(kind, _) => if kind == FrameKind::Error {
            match crate::protocol::message::parse_error(field) {
                Err(error) => Err(error),
                Ok(message) => Err(ProtocolErrorView::Remote(message)),
            }
        } else {
            Ok(FrameStepView::Done(FrameView { kind, payload: field }))
        },
    }
}

/// The frame whose next field is at the front of `bytes`, and what follows it.
/// Bytes that end before the frame does are an I/O error.
pub open spec fn parse_from(stage: FrameStage, bytes: Seq<u8>) -> Result<
    (FrameView, Seq<u8>),
    ProtocolErrorView,
>
    decreases stage.following(),
{
    let wanted = stage.spec_wanted() as int;
    if bytes.len() < wanted {
        Err(ProtocolErrorView::Io)
    } else {
        match next_stage(stage, bytes.take(wanted)) {
            Err(error) => Err(error),
            Ok(FrameStepView::Done(frame)) => Ok((frame, bytes.skip(wanted))),
            Ok(FrameStepView::More(next)) => parse_from(next, bytes.skip(wanted)),
        }
    }
}

/// The frame at the front of `bytes`, and what follows it.
pub open spec fn parse_frame(bytes: Seq<u8>) -> Result<(FrameView, Seq<u8>), ProtocolErrorView> {
    parse_from(FrameStage::Magic, bytes)
}

/// How many bytes are read before the frame whose next field is at the front of
/// `bytes` is read or refused: those of each field up to the one that decides, and
/// all of them when they end before that.
pub open spec fn consumed_from(stage: FrameStage, bytes: Seq<u8>) -> int
    decreases stage.following(),
{
    let wanted = stage.spec_wanted() as int;
    if bytes.len() < wanted {
        bytes.len() as int
    } else {
        match next_stage(stage, bytes.take(wanted)) {
            Ok(FrameStepView::More(next)) => wanted + consumed_from(next, bytes.skip(wanted)),
            _ => wanted,
        }
    }
}

/// How many bytes are read before the frame at the front of `bytes` is read or
/// refused.
pub open spec fn consumed(bytes: Seq<u8>) -> int {
    consumed_from(FrameStage::Magic, bytes)
}

/// The most bytes that the payload of a frame may take.
fn frame_limit(kind: FrameKind) -> (limit: usize)
    ensures
        limit == payload_limit(kind),
{
    if kind == FrameKind::FileChunk {
        MAX_CHUNK_BYTES + 4
    } else {
        MAX_CONTROL_PAYLOAD
    }
}

/// Appends a frame to `writer`, unless its payload is too large.
pub fn write_frame(writer: &mut Vec<u8>, kind: FrameKind, payload: &[u8]) -> (result: Result<
    (),
    ProtocolError,
>)
    ensures
        match result {
            Ok(_) => payload@.len() <= payload_limit(kind) && final(writer)@ == old(writer)@
                + frame_bytes(kind, payload@),
            Err(error) => payload@.len() > payload_limit(kind) && final(writer)@ == old(writer)@
                && error@ == ProtocolErrorView::OversizedFrame(payload@.len() as u64),
        },
{
    if payload.len() > frame_limit(kind) {
        return Err(ProtocolError::OversizedFrame(payload.len() as u64));
    }
    append(writer, &PROTOCOL_MAGIC);
    push_be(writer, PROTOCOL_VERSION as u128, 2);
    writer.push(kind.code());
    push_be(writer, payload.len() as u128, 8);
    append(writer, payload);
    assert(writer@ =~= old(writer)@ + frame_bytes(kind, payload@));
    Ok(())
}

/// A frame on its own.
pub fn framed(kind: FrameKind, payload: &[u8]) -> (bytes: Vec<u8>)
    requires
        payload@.len() <= payload_limit(kind),
    ensures
        bytes@ == frame_bytes(kind, payload@),
{
    let mut bytes: Vec<u8> = Vec::new();
    let written = write_frame(&mut bytes, kind, payload);
    assert(written is Ok);
    assert(bytes@ =~= frame_bytes(kind, payload@));
    bytes
}

/// Reads one frame field by field, from wherever the bytes come.
#[derive(Debug)]
pub struct FrameReader {
    stage: FrameStage,
}

impl View for FrameReader {
    type V = FrameStage;

    /// How far the frame was read.
    closed spec fn view(&self) -> FrameStage {
        self.stage
    }
}

/// What a reader does after a field.
#[derive(Debug)]
pub enum FrameStep {
    /// The next field is to be read.
    More(FrameReader),
    /// The frame is complete.
    Done(Frame),
}

impl View for FrameStep {
    type V = FrameStepView;

    open spec fn view(&self) -> FrameStepView {
        match self {
            FrameStep::More(reader) => FrameStepView::More(reader@),
            FrameStep::Done(frame) => FrameStepView::Done(frame@),
        }
    }
}

impl FrameReader {
    /// No reader waits for a payload beyond the limit.
    #[verifier::type_invariant]
    spec fn is_bounded(self) -> bool {
        self.stage.is_bounded()
    }

    /// A reader at the start of a frame.
    pub fn new() -> (reader: FrameReader)
        ensures
            reader@ == FrameStage::Magic,
    {
        FrameReader { stage: FrameStage::Magic }
    }

    /// How many bytes the next field takes.
    pub fn wanted(&self) -> (count: usize)
        ensures
            count == self@.spec_wanted(),
            count <= MAX_CONTROL_PAYLOAD,
    {
        proof {
            use_type_invariant(self);
        }
        match self.stage {
            FrameStage::Magic => 4,
            FrameStage::Version => 2,
            FrameStage::Kind => 1,
            FrameStage::Length(_) => 8,
            FrameStage::Payload(_, length) => length as usize,
        }
    }

    /// Takes the bytes of the next field.
    pub fn advance(self, field: Vec<u8>) -> (result: Result<FrameStep, ProtocolError>)
        requires
            field@.len() == self@.spec_wanted(),
        ensures
            match (result, next_stage(self@, field@)) {
                (Ok(step), Ok(expected)) => step@ == expected,
                (Err(error), Err(expected)) => error@ == expected,
                _ => false,
            },
    {
        match self.stage {
            FrameStage::Magic => {
                if !same_bytes(field.as_slice(), &PROTOCOL_MAGIC) {
                    return Err(ProtocolError::BadMagic);
                }
                Ok(FrameStep::More(FrameReader { stage: FrameStage::Version }))
            },
            FrameStage::Version => {
                proof {
                    crate::bytes::lemma_be_value_bound(field@);
                    crate::bytes::lemma_be_limits();
                }
                let version: u16 = read_be(field.as_slice()) as u16;
                if version != PROTOCOL_VERSION {
                    return Err(ProtocolError::UnsupportedVersion(version));
                }
                Ok(FrameStep::More(FrameReader { stage: FrameStage::Kind }))
            },
            FrameStage::Kind => match FrameKind::try_from(field[0]) {
                Ok(kind) => Ok(
                    FrameStep::More(FrameReader { stage: FrameStage::Length(kind) }),
                ),
                Err(error) => Err(error),
            },
            FrameStage::Length(kind) => {
                let length: u64 = read_be(field.as_slice());
                if length > frame_limit(kind) as u64 {
                    return Err(ProtocolError::OversizedFrame(length));
                }
                Ok(FrameStep::More(FrameReader { stage: FrameStage::Payload(kind, length) }))
            },
            FrameStage::Payload(kind, _) => {
                if kind == FrameKind::Error {
                    return match decode_error(field.as_slice()) {
                        Ok(message) => Err(ProtocolError::Remote(message)),
                        Err(error) => Err(error),
                    };
                }
                Ok(FrameStep::Done(Frame { kind, payload: field }))
            },
        }
    }
}

/// Reads the frame at the front of `reader`, and leaves what follows it. After
/// an error `reader` is behind the field that was refused, or at its end if it
/// ended early.
pub fn read_frame(reader: &mut &[u8]) -> (result: Result<Frame, ProtocolError>)
    ensures
        match (result, parse_frame(old(reader)@)) {
            (Ok(frame), Ok((expected, rest))) => frame@ == expected && final(reader)@ == rest,
            (Err(error), Err(expected)) => error@ == expected && final(reader)@ == old(
                reader,
            )@.skip(consumed(old(reader)@)),
            _ => false,
        },
        result matches Err(ProtocolError::Io(error)) ==> crate::text::ends_early(error),
{
    let mut state: FrameReader = FrameReader::new();
    let ghost mut read: int = 0;
    proof {
        assert(old(reader)@.skip(0) =~= old(reader)@);
    }
    loop
        invariant
            0 <= read <= old(reader)@.len(),
            reader@ == old(reader)@.skip(read),
            parse_from(state@, reader@) == parse_frame(old(reader)@),
            read + consumed_from(state@, reader@) == consumed(old(reader)@),
        decreases state@.following(),
    {
        let wanted: usize = state.wanted();
        if reader.len() < wanted {
            let (_, end) = reader.split_at(reader.len());
            proof {
                assert(end@ =~= old(reader)@.skip(consumed(old(reader)@)));
            }
            *reader = end;
            return Err(ProtocolError::Io(unexpected_end()));
        }
        let (field, after) = reader.split_at(wanted);
        proof {
            assert(field@ =~= reader@.take(wanted as int));
            assert(after@ =~= reader@.skip(wanted as int));
            assert(after@ =~= old(reader)@.skip(read + wanted as int));
            read = read + wanted as int;
        }
        *reader = after;
        match state.advance(copied(field)) {
            Ok(FrameStep::More(next)) => {
                state = next;
            },
            Ok(FrameStep::Done(frame)) => {
                return Ok(frame);
            },
            Err(error) => {
                return Err(error);
            },
        }
    }
}

/// The payload of a frame that must be of one kind.
pub open spec fn expected_payload(frame: FrameView, expected: FrameKind) -> Result<
    Seq<u8>,
    ProtocolErrorView,
> {
    if frame.kind == expected {
        Ok(frame.payload)
    } else {
        Err(ProtocolErrorView::Malformed("peer sent an unexpected frame"@))
    }
}

/// The payload of a frame that must be of one kind.
pub fn expect_frame(frame: Frame, expected: FrameKind) -> (result: Result<Vec<u8>, ProtocolError>)
    ensures
        match (result, expected_payload(frame@, expected)) {
            (Ok(payload), Ok(bytes)) => payload@ == bytes,
            (Err(error), Err(refusal)) => error@ == refusal,
            _ => false,
        },
{
    if frame.kind != expected {
        return Err(ProtocolError::Malformed("peer sent an unexpected frame"));
    }
    Ok(frame.payload)
}

/// Accepts a payload that must be empty.
pub open spec fn empty_payload(payload: Seq<u8>) -> Result<(), ProtocolErrorView> {
    if payload.len() == 0 {
        Ok(())
    } else {
        Err(ProtocolErrorView::Malformed("expected an empty frame"@))
    }
}

/// Accepts a payload that must be empty.
pub fn expect_empty(payload: &[u8]) -> (result: Result<(), ProtocolError>)
    ensures
        match (result, empty_payload(payload@)) {
            (Ok(_), Ok(_)) => true,
            (Err(error), Err(refusal)) => error@ == refusal,
            _ => false,
        },
{
    if payload.len() != 0 {
        return Err(ProtocolError::Malformed("expected an empty frame"));
    }
    Ok(())
}

/// A frame that can be written is read back as it was written, and what
/// follows it is left: a frame of any kind but an error gives its payload, an
/// error frame gives the message that the peer sent.
pub proof fn law_frame_round_trip(kind: FrameKind, payload: Seq<u8>, rest: Seq<u8>)
    requires
        payload.len() <= payload_limit(kind),
    ensures
        parse_frame(frame_bytes(kind, payload) + rest) == (if kind == FrameKind::Error {
            match crate::protocol::message::parse_error(payload) {
                Err(error) => Err::<(FrameView, Seq<u8>), ProtocolErrorView>(error),
                Ok(message) => Err(ProtocolErrorView::Remote(message)),
            }
        } else {
            Ok((FrameView { kind, payload }, rest))
        }),
{
    lemma_after_header(kind, payload.len() as u64, payload + rest);
    let length = payload.len() as u64;
    assert(frame_bytes(kind, payload) + rest =~= frame_header(kind, length) + (payload + rest));
    assert((payload + rest).take(length as int) =~= payload);
    assert((payload + rest).skip(length as int) =~= rest);
}

/// Behind the fields of a header the length decides: either the payload is
/// read, or the frame is refused.
proof fn lemma_after_header(kind: FrameKind, length: u64, rest: Seq<u8>)
    ensures
        parse_frame(frame_header(kind, length) + rest) == (if length > payload_limit(kind) {
            Err::<(FrameView, Seq<u8>), ProtocolErrorView>(ProtocolErrorView::OversizedFrame(length))
        } else {
            parse_from(FrameStage::Payload(kind, length), rest)
        }),
{
    let magic = PROTOCOL_MAGIC@;
    let version = crate::bytes::be_bytes(PROTOCOL_VERSION as nat, 2);
    let code = seq![kind.spec_code()];
    let size = crate::bytes::be_bytes(length as nat, 8);
    crate::bytes::lemma_be_limits();
    crate::bytes::lemma_be_bytes_len(PROTOCOL_VERSION as nat, 2);
    crate::bytes::lemma_be_bytes_len(length as nat, 8);
    crate::bytes::lemma_be_round_trip(PROTOCOL_VERSION as nat, 2);
    crate::bytes::lemma_be_round_trip(length as nat, 8);

    let after_size = rest;
    let after_code = size + after_size;
    let after_version = code + after_code;
    let after_magic = version + after_version;
    let whole = magic + after_magic;
    assert(frame_header(kind, length) + rest =~= whole);
    assert(magic.len() == 4);
    assert(parse_frame(whole) == parse_from(FrameStage::Version, after_magic)) by {
        assert(whole.take(4) =~= magic);
        assert(whole.skip(4) =~= after_magic);
    }
    assert(parse_from(FrameStage::Version, after_magic) == parse_from(
        FrameStage::Kind,
        after_version,
    )) by {
        assert(after_magic.take(2) =~= version);
        assert(after_magic.skip(2) =~= after_version);
    }
    assert(parse_from(FrameStage::Kind, after_version) == parse_from(
        FrameStage::Length(kind),
        after_code,
    )) by {
        assert(after_version.take(1) =~= code);
        assert(after_version.skip(1) =~= after_code);
    }
    assert(after_code.take(8) =~= size);
    assert(after_code.skip(8) =~= after_size);
}

/// A frame that announces a payload beyond the limit is refused by its header
/// alone, whatever follows: nothing is kept for the payload.
pub proof fn law_oversized_frame_is_refused(kind: FrameKind, length: u64, rest: Seq<u8>)
    requires
        length > payload_limit(kind),
    ensures
        parse_frame(frame_header(kind, length) + rest) == Err::<
            (FrameView, Seq<u8>),
            ProtocolErrorView,
        >(ProtocolErrorView::OversizedFrame(length)),
{
    lemma_after_header(kind, length, rest);
}

/// However bytes were made up, a frame that is read from them has a payload
/// within the limit of its kind, and is no error frame.
pub proof fn law_parsed_frame_is_bounded(bytes: Seq<u8>)
    ensures
        parse_frame(bytes) matches Ok((frame, rest)) ==> frame.payload.len() <= payload_limit(
            frame.kind,
        ) && frame.kind != FrameKind::Error,
{
    reveal_with_fuel(parse_from, 6);
}

/// Frames on the wire, one after the other.
pub open spec fn stream_bytes(frames: Seq<FrameView>) -> Seq<u8>
    decreases frames.len(),
{
    if frames.len() == 0 {
        Seq::empty()
    } else {
        stream_bytes(frames.drop_last()) + frame_bytes(frames.last().kind, frames.last().payload)
    }
}

/// The first `count` frames at the front of `bytes`, and what follows them.
pub open spec fn parse_stream(bytes: Seq<u8>, count: nat) -> Result<
    (Seq<FrameView>, Seq<u8>),
    ProtocolErrorView,
>
    decreases count,
{
    if count == 0 {
        Ok((Seq::empty(), bytes))
    } else {
        match parse_stream(bytes, (count - 1) as nat) {
            Err(error) => Err(error),
            Ok((front, rest)) => match parse_frame(rest) {
                Err(error) => Err(error),
                Ok((frame, rest)) => Ok((front.push(frame), rest)),
            },
        }
    }
}

/// Frames that are written one after the other are read back as they were
/// written, in their order, and what follows them is left.
pub proof fn law_stream_round_trip(frames: Seq<FrameView>, rest: Seq<u8>)
    requires
        forall|i: int|
            0 <= i < frames.len() ==> (#[trigger] frames[i]).kind != FrameKind::Error
                && frames[i].payload.len() <= payload_limit(frames[i].kind),
    ensures
        parse_stream(stream_bytes(frames) + rest, frames.len()) == Ok::<
            (Seq<FrameView>, Seq<u8>),
            ProtocolErrorView,
        >((frames, rest)),
    decreases frames.len(),
{
    if frames.len() == 0 {
        assert(stream_bytes(frames) + rest =~= rest);
        assert(frames =~= Seq::empty());
    } else {
        let front = frames.drop_last();
        let last = frames.last();
        assert forall|i: int| 0 <= i < front.len() implies (#[trigger] front[i]).kind
            != FrameKind::Error && front[i].payload.len() <= payload_limit(front[i].kind) by {
            assert(front[i] == frames[i]);
        }
        assert(frames[frames.len() - 1] == last);
        let after_front = frame_bytes(last.kind, last.payload) + rest;
        law_stream_round_trip(front, after_front);
        law_frame_round_trip(last.kind, last.payload, rest);
        assert(stream_bytes(frames) + rest =~= stream_bytes(front) + after_front);
        assert(front.push(last) =~= frames);
    }
}

/// The byte of each kind of frame, and the most bytes of its payload.
pub proof fn law_kinds_and_limits(kind: FrameKind)
    ensures
        kind.spec_code() == (match kind {
            FrameKind::Hello => 1u8,
            FrameKind::HelloAck => 2,
            FrameKind::Offer => 3,
            FrameKind::Accept => 4,
            FrameKind::FileStart => 5,
            FrameKind::FileChunk => 6,
            FrameKind::FileEnd => 7,
            FrameKind::Complete => 8,
            FrameKind::Error => 255,
        }),
        payload_limit(kind) == (if kind == FrameKind::FileChunk {
            262_148nat
        } else {
            16_777_216
        }),
        forall|code: u8|
            #[trigger] FrameKind::spec_decode(code) is Some <==> 1 <= code <= 8 || code == 255,
{
}

/// Where the parts of a frame stand on the wire: `SDFT`, the version, the kind, the
/// length of the payload, and the payload as it is.
pub proof fn law_frame_in_place(kind: FrameKind, payload: Seq<u8>)
    requires
        payload.len() <= u64::MAX,
    ensures
        ({
            let bytes = frame_bytes(kind, payload);
            &&& bytes.len() == 15 + payload.len()
            &&& bytes.subrange(0, 4) == seq![83u8, 68u8, 70u8, 84u8]
            &&& crate::bytes::be_value(bytes.subrange(4, 6)) == 1
            &&& bytes[6] == kind.spec_code()
            &&& crate::bytes::be_value(bytes.subrange(7, 15)) == payload.len()
            &&& bytes.skip(15) == payload
        }),
{
    let bytes = frame_bytes(kind, payload);
    crate::bytes::lemma_be_limits();
    crate::bytes::lemma_be_bytes_len(PROTOCOL_VERSION as nat, 2);
    crate::bytes::lemma_be_bytes_len(payload.len(), 8);
    crate::bytes::lemma_be_round_trip(PROTOCOL_VERSION as nat, 2);
    crate::bytes::lemma_be_round_trip(payload.len(), 8);
    assert(bytes.subrange(0, 4) =~= PROTOCOL_MAGIC@);
    assert(PROTOCOL_MAGIC@ =~= seq![83u8, 68u8, 70u8, 84u8]);
    assert(bytes.subrange(4, 6) =~= crate::bytes::be_bytes(PROTOCOL_VERSION as nat, 2));
    assert(bytes.subrange(7, 15) =~= crate::bytes::be_bytes(payload.len(), 8));
    assert(bytes.skip(15) =~= payload);
}

/// What bytes are read as, by where they stand: the first thing that is wrong
/// decides, in the order of the wire, and no byte behind it is read. Bytes that end
/// before that end early.
pub proof fn law_frame_is_read_in_place(bytes: Seq<u8>)
    ensures
        ({
            let n = bytes.len() as int;
            let read = parse_frame(bytes);
            let version = crate::bytes::be_value(bytes.subrange(4, 6));
            let code = bytes[6];
            let length = crate::bytes::be_value(bytes.subrange(7, 15)) as int;
            let early = read == Err::<(FrameView, Seq<u8>), ProtocolErrorView>(
                ProtocolErrorView::Io,
            ) && consumed(bytes) == n;
            if n < 4 {
                early
            } else if bytes.subrange(0, 4) != seq![83u8, 68u8, 70u8, 84u8] {
                &&& read == Err::<(FrameView, Seq<u8>), ProtocolErrorView>(
                    ProtocolErrorView::BadMagic,
                )
                &&& consumed(bytes) == 4
            } else if n < 6 {
                early
            } else if version != 1 {
                &&& read == Err::<(FrameView, Seq<u8>), ProtocolErrorView>(
                    ProtocolErrorView::UnsupportedVersion(version as u16),
                )
                &&& version <= u16::MAX
                &&& consumed(bytes) == 6
            } else if n < 7 {
                early
            } else if !(1 <= code <= 8 || code == 255) {
                &&& read == Err::<(FrameView, Seq<u8>), ProtocolErrorView>(
                    ProtocolErrorView::UnknownFrame(code),
                )
                &&& consumed(bytes) == 7
            } else if n < 15 {
                early
            } else if length > (if code == 6 {
                262_148
            } else {
                16_777_216int
            }) {
                &&& read == Err::<(FrameView, Seq<u8>), ProtocolErrorView>(
                    ProtocolErrorView::OversizedFrame(length as u64),
                )
                &&& length <= u64::MAX
                &&& consumed(bytes) == 15
            } else if n < 15 + length {
                early
            } else {
                let payload = bytes.subrange(15, 15 + length);
                &&& consumed(bytes) == 15 + length
                &&& code == 255 ==> read == Err::<(FrameView, Seq<u8>), ProtocolErrorView>(
                    match crate::protocol::message::parse_error(payload) {
                        Ok(message) => ProtocolErrorView::Remote(message),
                        Err(error) => error,
                    },
                )
                &&& code != 255 ==> {
                    &&& read matches Ok((frame, rest))
                    &&& frame.kind.spec_code() == code
                    &&& frame.payload == payload
                    &&& rest == bytes.skip(15 + length)
                }
            }
        }),
{
    let n = bytes.len() as int;
    crate::bytes::lemma_be_limits();
    assert(PROTOCOL_MAGIC@ =~= seq![83u8, 68u8, 70u8, 84u8]);
    let after_magic = bytes.skip(4);
    let after_version = after_magic.skip(2);
    let after_kind = after_version.skip(1);
    let after_length = after_kind.skip(8);
    if n >= 4 {
        assert(bytes.take(4) =~= bytes.subrange(0, 4));
        if bytes.subrange(0, 4) == PROTOCOL_MAGIC@ {
            assert(parse_frame(bytes) == parse_from(FrameStage::Version, after_magic));
            assert(consumed(bytes) == 4 + consumed_from(FrameStage::Version, after_magic));
            if n >= 6 {
                let version = crate::bytes::be_value(bytes.subrange(4, 6));
                assert(after_magic.take(2) =~= bytes.subrange(4, 6));
                crate::bytes::lemma_be_value_bound(bytes.subrange(4, 6));
                if version == 1 {
                    assert(parse_from(FrameStage::Version, after_magic) == parse_from(
                        FrameStage::Kind,
                        after_version,
                    ));
                    assert(consumed_from(FrameStage::Version, after_magic) == 2 + consumed_from(
                        FrameStage::Kind,
                        after_version,
                    ));
                    if n >= 7 {
                        assert(after_version.take(1)[0] == bytes[6]);
                        if let Some(kind) = FrameKind::spec_decode(bytes[6]) {
                            assert(parse_from(FrameStage::Kind, after_version) == parse_from(
                                FrameStage::Length(kind),
                                after_kind,
                            ));
                            assert(consumed_from(FrameStage::Kind, after_version) == 1
                                + consumed_from(FrameStage::Length(kind), after_kind));
                            if n >= 15 {
                                let length = crate::bytes::be_value(bytes.subrange(7, 15));
                                assert(after_kind.take(8) =~= bytes.subrange(7, 15));
                                crate::bytes::lemma_be_value_bound(bytes.subrange(7, 15));
                                if length <= payload_limit(kind) {
                                    let stage = FrameStage::Payload(kind, length as u64);
                                    assert(parse_from(FrameStage::Length(kind), after_kind)
                                        == parse_from(stage, after_length));
                                    assert(consumed_from(FrameStage::Length(kind), after_kind) == 8
                                        + consumed_from(stage, after_length));
                                    if n >= 15 + length {
                                        assert(after_length.take(length as int) =~= bytes.subrange(
                                            15,
                                            15 + length as int,
                                        ));
                                        assert(after_length.skip(length as int) =~= bytes.skip(
                                            15 + length as int,
                                        ));
                                    }
                                }
                            }
                        }
                    }
                }
            }
        }
    }
}

} // verus!
