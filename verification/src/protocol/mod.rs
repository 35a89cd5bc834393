//! Bounded, versioned wire protocol used by both peers.

use vstd::prelude::*;
use vstd::string::*;

use crate::bytes::copied;
use crate::path::{SafeRelativePath, UnsafePath};
use crate::text::{io_error_text, push_decimal};

pub mod decoder;
pub mod frame;
pub mod message;
pub mod offer;

pub use decoder::Decoder;
pub use frame::{expect_empty, expect_frame, read_frame, write_frame, FrameReader, FrameStep};
pub use message::{
    decode_complete, decode_error, decode_file_chunk, decode_file_end, decode_file_start,
    encode_complete, encode_error, encode_file_chunk, encode_file_end, encode_file_start,
    push_string, push_u32,
};
pub use offer::{decode_accept, decode_offer, encode_accept, encode_offer, total_size};

verus! {

/// The most files that one transfer may hold.
pub const MAX_FILES: usize = 100_000;

/// The most bytes that a path or a message may take.
pub const MAX_PATH_BYTES: usize = 4_096;

/// The most bytes that the payload of a control frame may take.
pub const MAX_CONTROL_PAYLOAD: usize = 16 * 1024 * 1024;

/// The most file bytes that one chunk may carry.
pub const MAX_CHUNK_BYTES: usize = 256 * 1024;

/// What a frame says.
#[derive(Clone, Copy, Debug, Eq, PartialEq, Structural)]
pub enum FrameKind {
    Hello,
    HelloAck,
    Offer,
    Accept,
    FileStart,
    FileChunk,
    FileEnd,
    Complete,
    Error,
}

impl FrameKind {
    /// The byte that stands for the kind on the wire.
    pub open spec fn spec_code(self) -> u8 {
        match self {
            FrameKind::Hello => 1,
            FrameKind::HelloAck => 2,
            FrameKind::Offer => 3,
            FrameKind::Accept => 4,
            FrameKind::FileStart => 5,
            FrameKind::FileChunk => 6,
            FrameKind::FileEnd => 7,
            FrameKind::Complete => 8,
            FrameKind::Error => 255,
        }
    }

    /// The kind that a byte stands for on the wire, if it stands for one.
    pub open spec fn spec_decode(code: u8) -> Option<FrameKind> {
        if code == 1 {
            Some(FrameKind::Hello)
        } else if code == 2 {
            Some(FrameKind::HelloAck)
        } else if code == 3 {
            Some(FrameKind::Offer)
        } else if code == 4 {
            Some(FrameKind::Accept)
        } else if code == 5 {
            Some(FrameKind::FileStart)
        } else if code == 6 {
            Some(FrameKind::FileChunk)
        } else if code == 7 {
            Some(FrameKind::FileEnd)
        } else if code == 8 {
            Some(FrameKind::Complete)
        } else if code == 255 {
            Some(FrameKind::Error)
        } else {
            None
        }
    }

    /// The byte that stands for the kind on the wire.
    pub fn code(self) -> (code: u8)
        ensures
            code == self.spec_code(),
            FrameKind::spec_decode(code) == Some(self),
    {
        match self {
            FrameKind::Hello => 1,
            FrameKind::HelloAck => 2,
            FrameKind::Offer => 3,
            FrameKind::Accept => 4,
            FrameKind::FileStart => 5,
            FrameKind::FileChunk => 6,
            FrameKind::FileEnd => 7,
            FrameKind::Complete => 8,
            FrameKind::Error => 255,
        }
    }
}

impl TryFrom<u8> for FrameKind {
    type Error = ProtocolError;

    fn try_from(value: u8) -> (result: Result<FrameKind, ProtocolError>) {
        match value {
            1 => Ok(FrameKind::Hello),
            2 => Ok(FrameKind::HelloAck),
            3 => Ok(FrameKind::Offer),
            4 => Ok(FrameKind::Accept),
            5 => Ok(FrameKind::FileStart),
            6 => Ok(FrameKind::FileChunk),
            7 => Ok(FrameKind::FileEnd),
            8 => Ok(FrameKind::Complete),
            255 => Ok(FrameKind::Error),
            _ => Err(ProtocolError::UnknownFrame(value)),
        }
    }
}

impl vstd::std_specs::convert::TryFromSpecImpl<u8> for FrameKind {
    open spec fn obeys_try_from_spec() -> bool {
        true
    }

    open spec fn try_from_spec(value: u8) -> Result<FrameKind, ProtocolError> {
        match FrameKind::spec_decode(value) {
            Some(kind) => Ok(kind),
            None => Err(ProtocolError::UnknownFrame(value)),
        }
    }
}

/// Every kind is read back from its byte, and no two kinds share a byte.
pub proof fn law_kind_round_trip(kind: FrameKind)
    ensures
        FrameKind::spec_decode(kind.spec_code()) == Some(kind),
        forall|code: u8|
            FrameKind::spec_decode(code) == Some(kind) ==> code == kind.spec_code(),
{
}

/// A file that the sender offers.
#[derive(Debug, Eq, PartialEq)]
pub struct FileOffer {
    pub path: SafeRelativePath,
    pub size: u64,
    pub hash: [u8; 32],
}

/// What a [`FileOffer`] says.
#[verifier::ext_equal]
pub struct FileOfferView {
    pub path: Seq<u8>,
    pub size: u64,
    pub hash: Seq<u8>,
}

impl View for FileOffer {
    type V = FileOfferView;

    open spec fn view(&self) -> FileOfferView {
        FileOfferView { path: self.path@, size: self.size, hash: self.hash@ }
    }
}

impl Clone for FileOffer {
    fn clone(&self) -> (copy: Self)
        ensures
            copy@ == self@,
    {
        FileOffer { path: self.path.clone(), size: self.size, hash: self.hash }
    }
}

/// The files that the sender offers to transfer.
#[derive(Debug, Eq, PartialEq)]
pub struct TransferOffer {
    pub id: [u8; 16],
    pub files: Vec<FileOffer>,
}

/// What a [`TransferOffer`] says.
#[verifier::ext_equal]
pub struct TransferOfferView {
    pub id: Seq<u8>,
    pub files: Seq<FileOfferView>,
}

/// The views of a sequence of file offers.
pub open spec fn file_views(files: Seq<FileOffer>) -> Seq<FileOfferView> {
    Seq::new(files.len(), |i: int| files[i]@)
}

impl View for TransferOffer {
    type V = TransferOfferView;

    open spec fn view(&self) -> TransferOfferView {
        TransferOfferView { id: self.id@, files: file_views(self.files@) }
    }
}

impl Clone for TransferOffer {
    fn clone(&self) -> (copy: Self)
        ensures
            copy@ == self@,
    {
        let mut files: Vec<FileOffer> = Vec::with_capacity(self.files.len());
        let mut i: usize = 0;
        while i < self.files.len()
            invariant
                i <= self.files@.len(),
                files@.len() == i,
                forall|j: int| 0 <= j < i ==> (#[trigger] files@[j])@ == self.files@[j]@,
            decreases self.files@.len() - i,
        {
            files.push(self.files[i].clone());
            i = i + 1;
        }
        assert(file_views(files@) =~= file_views(self.files@));
        TransferOffer { id: self.id, files }
    }
}

/// Where in each offered file the receiver wants to resume.
#[derive(Debug, Eq, PartialEq)]
pub struct TransferAccept {
    pub id: [u8; 16],
    pub resume_offsets: Vec<u64>,
}

/// What a [`TransferAccept`] says.
#[verifier::ext_equal]
pub struct TransferAcceptView {
    pub id: Seq<u8>,
    pub resume_offsets: Seq<u64>,
}

impl View for TransferAccept {
    type V = TransferAcceptView;

    open spec fn view(&self) -> TransferAcceptView {
        TransferAcceptView { id: self.id@, resume_offsets: self.resume_offsets@ }
    }
}

impl Clone for TransferAccept {
    fn clone(&self) -> (copy: Self)
        ensures
            copy@ == self@,
    {
        let resume_offsets = self.resume_offsets.clone();
        assert(resume_offsets@ =~= self.resume_offsets@);
        TransferAccept { id: self.id, resume_offsets }
    }
}

/// One message on the wire.
#[derive(Debug, Eq, PartialEq)]
pub struct Frame {
    pub kind: FrameKind,
    pub payload: Vec<u8>,
}

/// What a [`Frame`] says.
#[verifier::ext_equal]
pub struct FrameView {
    pub kind: FrameKind,
    pub payload: Seq<u8>,
}

impl View for Frame {
    type V = FrameView;

    open spec fn view(&self) -> FrameView {
        FrameView { kind: self.kind, payload: self.payload@ }
    }
}

impl Clone for Frame {
    fn clone(&self) -> (copy: Self)
        ensures
            copy@ == self@,
    {
        Frame { kind: self.kind, payload: copied(self.payload.as_slice()) }
    }
}

/// Why the conversation with the peer failed.
#[derive(Debug)]
pub enum ProtocolError {
    Io(std::io::Error),
    BadMagic,
    UnsupportedVersion(u16),
    UnknownFrame(u8),
    OversizedFrame(u64),
    Malformed(&'static str),
    UnsafePath(UnsafePath),
    Remote(String),
}

/// What a [`ProtocolError`] says; of an I/O error, that it is one.
#[verifier::ext_equal]
pub enum ProtocolErrorView {
    Io,
    BadMagic,
    UnsupportedVersion(u16),
    UnknownFrame(u8),
    OversizedFrame(u64),
    Malformed(Seq<char>),
    UnsafePath(UnsafePath),
    Remote(Seq<char>),
}

impl View for ProtocolError {
    type V = ProtocolErrorView;

    open spec fn view(&self) -> ProtocolErrorView {
        match self {
            ProtocolError::Io(_) => ProtocolErrorView::Io,
            ProtocolError::BadMagic => ProtocolErrorView::BadMagic,
            ProtocolError::UnsupportedVersion(version) => ProtocolErrorView::UnsupportedVersion(
                *version,
            ),
            ProtocolError::UnknownFrame(code) => ProtocolErrorView::UnknownFrame(*code),
            ProtocolError::OversizedFrame(size) => ProtocolErrorView::OversizedFrame(*size),
            ProtocolError::Malformed(reason) => ProtocolErrorView::Malformed(reason@),
            ProtocolError::UnsafePath(error) => ProtocolErrorView::UnsafePath(*error),
            ProtocolError::Remote(message) => ProtocolErrorView::Remote(message@),
        }
    }
}

impl ProtocolErrorView {
    /// Whether `message` is the sentence for the error. What the operating
    /// system says of an I/O error is left open.
    pub open spec fn is_worded(self, message: Seq<char>) -> bool {
        match self {
            ProtocolErrorView::Io => "network I/O failed: "@.is_prefix_of(message),
            ProtocolErrorView::BadMagic => message == "peer used an unknown protocol"@,
            ProtocolErrorView::UnsupportedVersion(version) => message
                == "peer uses unsupported protocol version "@ + crate::text::decimal(version as nat),
            ProtocolErrorView::UnknownFrame(code) => message == "peer sent unknown frame type "@
                + crate::text::decimal(code as nat),
            ProtocolErrorView::OversizedFrame(size) => message == "peer sent oversized frame ("@
                + crate::text::decimal(size as nat) + " bytes)"@,
            ProtocolErrorView::Malformed(reason) => message == "peer sent malformed data: "@
                + reason,
            ProtocolErrorView::UnsafePath(error) => message == "peer sent an unsafe path: "@
                + error.text(),
            ProtocolErrorView::Remote(reason) => message == "peer rejected the transfer: "@
                + reason,
        }
    }
}

impl ProtocolError {
    /// A sentence for the user.
    pub fn message(&self) -> (message: String)
        ensures
            self@.is_worded(message@),
    {
        let mut message: String = String::new();
        match self {
            ProtocolError::Io(error) => {
                message.append("network I/O failed: ");
                let reason = io_error_text(error);
                let ghost before = message@;
                message.append(reason.as_str());
                assert(before =~= "network I/O failed: "@);
                assert(before.is_prefix_of(message@));
            },
            ProtocolError::BadMagic => {
                message.append("peer used an unknown protocol");
            },
            ProtocolError::UnsupportedVersion(version) => {
                message.append("peer uses unsupported protocol version ");
                push_decimal(&mut message, *version as u64);
            },
            ProtocolError::UnknownFrame(code) => {
                message.append("peer sent unknown frame type ");
                push_decimal(&mut message, *code as u64);
            },
            ProtocolError::OversizedFrame(size) => {
                message.append("peer sent oversized frame (");
                push_decimal(&mut message, *size);
                message.append(" bytes)");
            },
            ProtocolError::Malformed(reason) => {
                message.append("peer sent malformed data: ");
                message.append(reason);
            },
            ProtocolError::UnsafePath(error) => {
                message.append("peer sent an unsafe path: ");
                message.append(error.message());
            },
            ProtocolError::Remote(reason) => {
                message.append("peer rejected the transfer: ");
                message.append(reason.as_str());
            },
        }
        proof {
            let empty = Seq::<char>::empty();
            assert(forall|tail: Seq<char>| #[trigger] (empty + tail) =~= tail);
        }
        message
    }
}

impl From<std::io::Error> for ProtocolError {
    fn from(error: std::io::Error) -> (result: ProtocolError) {
        ProtocolError::Io(error)
    }
}

impl vstd::std_specs::convert::FromSpecImpl<std::io::Error> for ProtocolError {
    open spec fn obeys_from_spec() -> bool {
        true
    }

    open spec fn from_spec(error: std::io::Error) -> ProtocolError {
        ProtocolError::Io(error)
    }
}

impl From<UnsafePath> for ProtocolError {
    fn from(error: UnsafePath) -> (result: ProtocolError) {
        ProtocolError::UnsafePath(error)
    }
}

impl vstd::std_specs::convert::FromSpecImpl<UnsafePath> for ProtocolError {
    open spec fn obeys_from_spec() -> bool {
        true
    }

    open spec fn from_spec(error: UnsafePath) -> ProtocolError {
        ProtocolError::UnsafePath(error)
    }
}

/// What the sentence for an error tells: which error it is, and with it the number
/// or the reason that the error carries. Of an I/O error only its start is fixed.
pub proof fn law_protocol_errors_are_told(error: ProtocolErrorView, message: Seq<char>)
    requires
        error.is_worded(message),
    ensures
        ({
            let told = |start: Seq<char>, rest: Seq<char>| message == start + rest;
            match error {
                ProtocolErrorView::Io => message.take("network I/O failed: "@.len() as int)
                    == "network I/O failed: "@,
                ProtocolErrorView::BadMagic => message == "peer used an unknown protocol"@,
                ProtocolErrorView::UnsupportedVersion(version) => told(
                    "peer uses unsupported protocol version "@,
                    crate::text::decimal(version as nat),
                ),
                ProtocolErrorView::UnknownFrame(code) => told(
                    "peer sent unknown frame type "@,
                    crate::text::decimal(code as nat),
                ),
                ProtocolErrorView::OversizedFrame(size) => told(
                    "peer sent oversized frame ("@,
                    crate::text::decimal(size as nat) + " bytes)"@,
                ),
                ProtocolErrorView::Malformed(reason) => told("peer sent malformed data: "@, reason),
                ProtocolErrorView::UnsafePath(fault) => told(
                    "peer sent an unsafe path: "@,
                    fault.text(),
                ),
                ProtocolErrorView::Remote(reason) => told("peer rejected the transfer: "@, reason),
            }
        }),
{
    if error is Io {
        assert("network I/O failed: "@ =~= message.take("network I/O failed: "@.len() as int));
    }
    if let ProtocolErrorView::OversizedFrame(size) = error {
        assert(message =~= "peer sent oversized frame ("@ + (crate::text::decimal(size as nat)
            + " bytes)"@));
    }
}

} // verus!
