//! The receiver's side of one transfer, from the greeting to the last file.
//!
//! A session reads no network and no disk. It says what it waits for, takes
//! that, and says what is to be done with it.

use vstd::prelude::*;

use crate::bytes::{copied, same_bytes};
use crate::digest::{finish_hasher, new_hasher, update_hasher};
use crate::protocol::frame::framed;
use crate::protocol::{
    decode_complete, decode_file_chunk, decode_file_end, decode_file_start, decode_offer,
    encode_accept, encode_complete, expect_empty, expect_frame, total_size, FileOffer,
    FileOfferView, Frame, FrameKind, FrameView, ProtocolError, ProtocolErrorView, TransferAccept,
    TransferAcceptView, TransferOfferView, MAX_FILES,
};
use crate::receiver::destination::check_offered;
use crate::receiver::{ReceiveError, ReceiveErrorView};

verus! {

/// How much of a partial file is read at a time.
pub const PREFIX_BYTES: usize = 128 * 1024;

/// How far a session is.
#[derive(Clone, Copy, Debug, Eq, PartialEq, Structural)]
pub enum ReceiveStage {
    /// The sender's greeting comes next.
    AwaitHello,
    /// The offer comes next.
    AwaitOffer,
    /// It is being found out where each offered file resumes.
    Planning,
    /// The announcement of the next file comes next.
    AwaitStart,
    /// What the disk holds of the file is being read.
    Rehashing,
    /// A chunk of the file comes next.
    Receiving,
    /// The end of the file comes next.
    AwaitEnd,
    /// The file is complete and is being brought to the disk.
    Syncing,
    /// The end of the transfer comes next.
    AwaitComplete,
    /// Every file was received.
    Finished,
    /// The transfer was broken off.
    Failed,
}

/// What a session waits for.
#[derive(Clone, Copy, Debug, Eq, PartialEq, Structural)]
pub enum ReceiveWant {
    /// A frame from the sender.
    Frame,
    /// How long the partial file of the next offered file is.
    Partial,
    /// The next bytes of the partial file, so many at most; none at its end.
    Prefix(usize),
    /// The word that the file was brought to the disk.
    Sync,
    /// Nothing more.
    Nothing,
}

/// What is to be done after a step.
#[derive(Debug)]
pub enum ReceiveAction {
    /// Send these bytes.
    Reply(Vec<u8>),
    /// Tell the user what was offered, and find the files' partial files.
    Offered { files: usize, bytes: u64 },
    /// Resume the file at `offset`. If `restart`, its partial file is emptied
    /// first, and is no longer known to be wrong. After the last file send
    /// `accept`.
    Planned { offset: u64, restart: bool, accept: Option<Vec<u8>> },
    /// Open the partial file of the file at `index`. If `ready`, go to
    /// `offset`; else read the file from its start.
    Begin { index: usize, offset: u64, ready: bool },
    /// If `ready`, go to the file's resume offset; else read on.
    Rehashed { ready: bool },
    /// Write these bytes to the partial file.
    Store(Vec<u8>),
    /// Bring the partial file to the disk.
    Sync,
    /// Give the partial file of the file at this index its final name.
    Publish(usize),
    /// Send `reply`, and tell the user what was received.
    Finish { reply: Vec<u8>, files: usize, bytes: u64 },
}

/// What a [`ReceiveAction`] says.
#[verifier::ext_equal]
pub enum ReceiveActionView {
    Reply(Seq<u8>),
    Offered { files: nat, bytes: nat },
    Planned { offset: u64, restart: bool, accept: Option<Seq<u8>> },
    Begin { index: int, offset: u64, ready: bool },
    Rehashed { ready: bool },
    Store(Seq<u8>),
    Sync,
    Publish(int),
    Finish { reply: Seq<u8>, files: nat, bytes: nat },
}

impl View for ReceiveAction {
    type V = ReceiveActionView;

    open spec fn view(&self) -> ReceiveActionView {
        match self {
            ReceiveAction::Reply(bytes) => ReceiveActionView::Reply(bytes@),
            ReceiveAction::Offered { files, bytes } => ReceiveActionView::Offered {
                files: *files as nat,
                bytes: *bytes as nat,
            },
            ReceiveAction::Planned { offset, restart, accept } => ReceiveActionView::Planned {
                offset: *offset,
                restart: *restart,
                accept: match accept {
                    Some(bytes) => Some(bytes@),
                    None => None,
                },
            },
            ReceiveAction::Begin { index, offset, ready } => ReceiveActionView::Begin {
                index: *index as int,
                offset: *offset,
                ready: *ready,
            },
            ReceiveAction::Rehashed { ready } => ReceiveActionView::Rehashed { ready: *ready },
            ReceiveAction::Store(bytes) => ReceiveActionView::Store(bytes@),
            ReceiveAction::Sync => ReceiveActionView::Sync,
            ReceiveAction::Publish(index) => ReceiveActionView::Publish(*index as int),
            ReceiveAction::Finish { reply, files, bytes } => ReceiveActionView::Finish {
                reply: reply@,
                files: *files as nat,
                bytes: *bytes as nat,
            },
        }
    }
}

/// What a [`ReceiveSession`] knows.
#[verifier::ext_equal]
pub struct ReceiveView {
    pub stage: ReceiveStage,
    /// The transfer's identifier.
    pub id: Seq<u8>,
    /// The offered files.
    pub files: Seq<FileOfferView>,
    /// Where each file resumes, as far as that is known.
    pub resume: Seq<u64>,
    /// The file that is being received.
    pub index: int,
    /// What is known of that file's contents: what the disk held, and what was
    /// stored since.
    pub absorbed: Seq<u8>,
}

/// What one step leads to: the next state and what is to be done, or why the
/// transfer is broken off.
pub type ReceiveStep = Result<(ReceiveView, ReceiveActionView), ReceiveErrorView>;

/// A breach of the protocol.
pub open spec fn malformed(reason: Seq<char>) -> ReceiveErrorView {
    ReceiveErrorView::Protocol(ProtocolErrorView::Malformed(reason))
}

impl ReceiveView {
    /// A session before the greeting.
    pub open spec fn initial() -> ReceiveView {
        ReceiveView {
            stage: ReceiveStage::AwaitHello,
            id: Seq::new(16, |i: int| 0u8),
            files: Seq::empty(),
            resume: Seq::empty(),
            index: 0,
            absorbed: Seq::empty(),
        }
    }

    /// The file that is being received.
    pub open spec fn file(self) -> FileOfferView {
        self.files[self.index]
    }

    /// How many bytes were offered.
    pub open spec fn total(self) -> nat {
        crate::protocol::offer::sum_sizes(self.files)
    }

    /// How many of the offered bytes are here.
    pub open spec fn received(self) -> nat {
        crate::protocol::offer::sum_sizes(self.files.take(self.index)) + self.absorbed.len()
    }

    /// What holds of every session at every time.
    pub open spec fn valid(self) -> bool {
        &&& self.id.len() == 16
        &&& self.files.len() <= MAX_FILES
        &&& self.total() <= u64::MAX
        &&& self.has_destinations()
        &&& self.resume.len() <= self.files.len()
        &&& forall|i: int|
            0 <= i < self.resume.len() ==> #[trigger] self.resume[i] <= self.files[i].size
        &&& match self.stage {
            ReceiveStage::AwaitHello | ReceiveStage::AwaitOffer => {
                &&& self.files.len() == 0
                &&& self.index == 0
                &&& self.absorbed.len() == 0
            },
            ReceiveStage::Planning => {
                &&& self.resume.len() < self.files.len()
                &&& self.index == 0
                &&& self.absorbed.len() == 0
            },
            ReceiveStage::AwaitStart => {
                &&& self.in_file()
                &&& self.absorbed.len() == 0
            },
            ReceiveStage::Rehashing => {
                &&& self.in_file()
                &&& self.absorbed.len() < self.resume[self.index]
            },
            ReceiveStage::Receiving => {
                &&& self.in_file()
                &&& self.resume[self.index] <= self.absorbed.len() < self.file().size
            },
            ReceiveStage::AwaitEnd | ReceiveStage::Syncing => {
                &&& self.in_file()
                &&& self.absorbed.len() == self.file().size
            },
            ReceiveStage::AwaitComplete | ReceiveStage::Finished => {
                &&& self.resume.len() == self.files.len()
                &&& self.index == self.files.len()
                &&& self.index > 0
                &&& self.absorbed.len() == 0
            },
            ReceiveStage::Failed => {
                &&& 0 <= self.index <= self.files.len()
                &&& self.received() <= self.total()
            },
        }
    }

    /// Whether every file was offered under a transfer path, and none into the
    /// directory of the partial files.
    pub open spec fn has_destinations(self) -> bool {
        forall|i: int|
            0 <= i < self.files.len() ==> {
                &&& crate::path::is_safe((#[trigger] self.files[i]).path)
                &&& !crate::receiver::destination::in_partials(self.files[i].path)
            }
    }

    /// Whether every file was planned and one is being received.
    pub open spec fn in_file(self) -> bool {
        &&& self.resume.len() == self.files.len()
        &&& 0 <= self.index < self.files.len()
    }

    /// The stage of a file of which the first `known` bytes are known.
    pub open spec fn file_stage(self, known: nat) -> ReceiveStage {
        if known < self.resume[self.index] {
            ReceiveStage::Rehashing
        } else if known < self.file().size {
            ReceiveStage::Receiving
        } else {
            ReceiveStage::AwaitEnd
        }
    }

    /// What the session waits for.
    pub open spec fn want(self) -> ReceiveWant {
        match self.stage {
            ReceiveStage::AwaitHello
            | ReceiveStage::AwaitOffer
            | ReceiveStage::AwaitStart
            | ReceiveStage::Receiving
            | ReceiveStage::AwaitEnd
            | ReceiveStage::AwaitComplete => ReceiveWant::Frame,
            ReceiveStage::Planning => ReceiveWant::Partial,
            ReceiveStage::Rehashing => {
                let left = self.resume[self.index] - self.absorbed.len();
                ReceiveWant::Prefix(
                    if left < PREFIX_BYTES {
                        left as usize
                    } else {
                        PREFIX_BYTES
                    },
                )
            },
            ReceiveStage::Syncing => ReceiveWant::Sync,
            ReceiveStage::Finished | ReceiveStage::Failed => ReceiveWant::Nothing,
        }
    }

    /// The kind of frame that the session waits for.
    pub open spec fn awaited_kind(self) -> FrameKind {
        match self.stage {
            ReceiveStage::AwaitHello => FrameKind::Hello,
            ReceiveStage::AwaitOffer => FrameKind::Offer,
            ReceiveStage::AwaitStart => FrameKind::FileStart,
            ReceiveStage::Receiving => FrameKind::FileChunk,
            ReceiveStage::AwaitEnd => FrameKind::FileEnd,
            _ => FrameKind::Complete,
        }
    }

    /// The greeting: it is empty, and it is answered.
    pub open spec fn after_hello(self, payload: Seq<u8>) -> ReceiveStep {
        match crate::protocol::frame::empty_payload(payload) {
            Err(error) => Err(ReceiveErrorView::Protocol(error)),
            Ok(_) => Ok(
                (
                    ReceiveView { stage: ReceiveStage::AwaitOffer, ..self },
                    ReceiveActionView::Reply(
                        crate::protocol::frame::frame_bytes(FrameKind::HelloAck, Seq::empty()),
                    ),
                ),
            ),
        }
    }

    /// The offer: it holds a file, not more bytes than can be counted, and no file
    /// for the directory of the partial files.
    pub open spec fn after_offer(self, payload: Seq<u8>) -> ReceiveStep {
        match crate::protocol::offer::parse_offer(payload) {
            Err(error) => Err(ReceiveErrorView::Protocol(error)),
            Ok(offer) => if offer.files.len() == 0 {
                Err(malformed("offer contains no files"@))
            } else if crate::protocol::offer::sum_sizes(offer.files) > u64::MAX {
                Err(malformed("transfer size exceeds u64"@))
            } else {
                match crate::receiver::destination::first_in_partials(offer.files) {
                    Some(path) => Err(
                        ReceiveErrorView::UnsafeDestination(
                            "destination is in the directory of partial files: "@
                                + crate::text::lossy_text(path),
                        ),
                    ),
                    None => Ok(
                        (
                            ReceiveView {
                                stage: ReceiveStage::Planning,
                                id: offer.id,
                                files: offer.files,
                                ..self
                            },
                            ReceiveActionView::Offered {
                                files: offer.files.len(),
                                bytes: crate::protocol::offer::sum_sizes(offer.files),
                            },
                        ),
                    ),
                }
            },
        }
    }

    /// The length of the next file's partial file, if there is one, and whether
    /// what it holds is known to be wrong: the file resumes at that length,
    /// unless that is beyond its size or the partial file is wrong. After the
    /// last file the offer is accepted.
    pub open spec fn after_partial(self, length: Option<u64>, failed: bool) -> ReceiveStep {
        let size = self.files[self.resume.len() as int].size;
        let found = match length {
            Some(found) => found,
            None => 0,
        };
        let restart = failed || found > size;
        let offset = if restart {
            0
        } else {
            found
        };
        let resume = self.resume.push(offset);
        if resume.len() == self.files.len() {
            let accept = TransferAcceptView { id: self.id, resume_offsets: resume };
            let reply = crate::protocol::frame::frame_bytes(
                FrameKind::Accept,
                crate::protocol::offer::encoded_accept(accept)->Ok_0,
            );
            Ok(
                (
                    ReceiveView { stage: ReceiveStage::AwaitStart, resume, ..self },
                    ReceiveActionView::Planned { offset, restart, accept: Some(reply) },
                ),
            )
        } else {
            Ok(
                (
                    ReceiveView { resume, ..self },
                    ReceiveActionView::Planned { offset, restart, accept: None },
                ),
            )
        }
    }

    /// The announcement of a file: it is the next file, and resumes where it
    /// was accepted.
    pub open spec fn after_start(self, payload: Seq<u8>) -> ReceiveStep {
        match crate::protocol::message::parse_file_start(payload) {
            Err(error) => Err(ReceiveErrorView::Protocol(error)),
            Ok((index, offset)) => if index != self.index || offset != self.resume[self.index] {
                Err(malformed("file start does not match accept"@))
            } else {
                let stage = self.file_stage(0);
                Ok(
                    (
                        ReceiveView { stage, ..self },
                        ReceiveActionView::Begin {
                            index: self.index,
                            offset,
                            ready: stage != ReceiveStage::Rehashing,
                        },
                    ),
                )
            },
        }
    }

    /// The next bytes of the partial file.
    pub open spec fn after_prefix(self, bytes: Seq<u8>) -> ReceiveStep {
        if bytes.len() == 0 {
            Err(malformed("partial file is shorter than resume offset"@))
        } else {
            let absorbed = self.absorbed + bytes;
            let stage = self.file_stage(absorbed.len());
            Ok(
                (
                    ReceiveView { stage, absorbed, ..self },
                    ReceiveActionView::Rehashed { ready: stage != ReceiveStage::Rehashing },
                ),
            )
        }
    }

    /// A chunk: it is of this file, and not beyond its size.
    pub open spec fn after_chunk(self, payload: Seq<u8>) -> ReceiveStep {
        match crate::protocol::message::parse_file_chunk(payload) {
            Err(error) => Err(ReceiveErrorView::Protocol(error)),
            Ok((index, bytes)) => if index != self.index {
                Err(malformed("file chunk index is out of sequence"@))
            } else if bytes.len() == 0 || bytes.len() > self.file().size - self.absorbed.len() {
                Err(malformed("file chunk exceeds offered size"@))
            } else {
                let absorbed = self.absorbed + bytes;
                Ok(
                    (
                        ReceiveView { stage: self.file_stage(absorbed.len()), absorbed, ..self },
                        ReceiveActionView::Store(bytes),
                    ),
                )
            },
        }
    }

    /// The end of a file: it is of this file, with the hash that was offered.
    pub open spec fn after_end(self, payload: Seq<u8>) -> ReceiveStep {
        match crate::protocol::message::parse_file_end(payload) {
            Err(error) => Err(ReceiveErrorView::Protocol(error)),
            Ok((index, hash)) => if index != self.index || hash != self.file().hash {
                Err(malformed("file end does not match offer"@))
            } else {
                Ok(
                    (
                        ReceiveView { stage: ReceiveStage::Syncing, ..self },
                        ReceiveActionView::Sync,
                    ),
                )
            },
        }
    }

    /// The digest of the file's contents: only with the offered hash does the
    /// file get its name.
    pub open spec fn after_digest(self, digest: Seq<u8>) -> ReceiveStep {
        if digest != self.file().hash {
            Err(ReceiveErrorView::HashMismatch(self.file().path))
        } else {
            let next = self.index + 1;
            Ok(
                (
                    ReceiveView {
                        stage: if next < self.files.len() {
                            ReceiveStage::AwaitStart
                        } else {
                            ReceiveStage::AwaitComplete
                        },
                        index: next,
                        absorbed: Seq::empty(),
                        ..self
                    },
                    ReceiveActionView::Publish(self.index),
                ),
            )
        }
    }

    /// The end of the transfer: it counts every offered file, and is answered.
    pub open spec fn after_complete(self, payload: Seq<u8>) -> ReceiveStep {
        match crate::protocol::message::parse_complete(payload) {
            Err(error) => Err(ReceiveErrorView::Protocol(error)),
            Ok(count) => if count != self.files.len() {
                Err(malformed("completion count does not match offer"@))
            } else {
                Ok(
                    (
                        ReceiveView { stage: ReceiveStage::Finished, ..self },
                        ReceiveActionView::Finish {
                            reply: crate::protocol::frame::frame_bytes(
                                FrameKind::Complete,
                                crate::protocol::message::complete_bytes(count),
                            ),
                            files: self.files.len(),
                            bytes: self.total(),
                        },
                    ),
                )
            },
        }
    }

    /// A frame from the sender: it is of the kind that is waited for.
    pub open spec fn after_frame(self, frame: FrameView) -> ReceiveStep {
        match crate::protocol::frame::expected_payload(frame, self.awaited_kind()) {
            Err(error) => Err(ReceiveErrorView::Protocol(error)),
            Ok(payload) => match self.stage {
                ReceiveStage::AwaitHello => self.after_hello(payload),
                ReceiveStage::AwaitOffer => self.after_offer(payload),
                ReceiveStage::AwaitStart => self.after_start(payload),
                ReceiveStage::Receiving => self.after_chunk(payload),
                ReceiveStage::AwaitEnd => self.after_end(payload),
                _ => self.after_complete(payload),
            },
        }
    }

    /// The state after a step: an error ends the session.
    pub open spec fn then_state(self, step: ReceiveStep) -> ReceiveView {
        match step {
            Ok((state, _)) => state,
            Err(_) => ReceiveView { stage: ReceiveStage::Failed, ..self },
        }
    }
}

/// What a step answers.
pub open spec fn step_result(step: ReceiveStep) -> Result<ReceiveActionView, ReceiveErrorView> {
    match step {
        Ok((_, action)) => Ok(action),
        Err(error) => Err(error),
    }
}

/// The view of what a step answered.
pub open spec fn answer(result: Result<ReceiveAction, ReceiveError>) -> Result<
    ReceiveActionView,
    ReceiveErrorView,
> {
    match result {
        Ok(action) => Ok(action@),
        Err(error) => Err(error@),
    }
}

/// The receiver's side of one transfer.
pub struct ReceiveSession {
    stage: ReceiveStage,
    id: [u8; 16],
    files: Vec<FileOffer>,
    resume: Vec<u64>,
    index: usize,
    position: u64,
    received: u64,
    total: u64,
    hasher: blake3::Hasher,
}

impl View for ReceiveSession {
    type V = ReceiveView;

    closed spec fn view(&self) -> ReceiveView {
        ReceiveView {
            stage: self.stage,
            id: self.id@,
            files: crate::protocol::file_views(self.files@),
            resume: self.resume@,
            index: self.index as int,
            absorbed: crate::digest::hasher_input(self.hasher),
        }
    }
}

impl ReceiveSession {
    /// What holds of every session between its steps.
    pub closed spec fn well_formed(&self) -> bool {
        &&& self@.valid()
        &&& crate::digest::hasher_is_plain(self.hasher)
        &&& self.position == self@.absorbed.len()
        &&& self.received == self@.received()
        &&& self.total == self@.total()
    }

    /// A well-formed session is in one of the states that the laws speak of.
    pub proof fn lemma_well_formed(&self)
        requires
            self.well_formed(),
        ensures
            self@.valid(),
    {
    }

    /// A session before the greeting.
    pub fn new() -> (session: ReceiveSession)
        ensures
            session.well_formed(),
            session@ == ReceiveView::initial(),
    {
        let session = ReceiveSession {
            stage: ReceiveStage::AwaitHello,
            id: [0u8;16],
            files: Vec::new(),
            resume: Vec::new(),
            index: 0,
            position: 0,
            received: 0,
            total: 0,
            hasher: new_hasher(),
        };
        proof {
            assert(session@ =~= ReceiveView::initial());
            assert(session@.files.take(0) =~= Seq::empty());
        }
        session
    }

    /// What the session waits for.
    pub fn wants(&self) -> (want: ReceiveWant)
        requires
            self.well_formed(),
        ensures
            want == self@.want(),
    {
        match self.stage {
            ReceiveStage::AwaitHello
            | ReceiveStage::AwaitOffer
            | ReceiveStage::AwaitStart
            | ReceiveStage::Receiving
            | ReceiveStage::AwaitEnd
            | ReceiveStage::AwaitComplete => ReceiveWant::Frame,
            ReceiveStage::Planning => ReceiveWant::Partial,
            ReceiveStage::Rehashing => {
                let left: u64 = self.resume[self.index] - self.position;
                ReceiveWant::Prefix(
                    if left < PREFIX_BYTES as u64 {
                        left as usize
                    } else {
                        PREFIX_BYTES
                    },
                )
            },
            ReceiveStage::Syncing => ReceiveWant::Sync,
            ReceiveStage::Finished | ReceiveStage::Failed => ReceiveWant::Nothing,
        }
    }

    /// The offered files.
    pub fn files(&self) -> (files: &Vec<FileOffer>)
        ensures
            crate::protocol::file_views(files@) == self@.files,
    {
        &self.files
    }

    /// How many of the offered bytes are here.
    pub fn received(&self) -> (bytes: u64)
        requires
            self.well_formed(),
        ensures
            bytes == self@.received(),
    {
        self.received
    }

    /// How many bytes were offered.
    pub fn total(&self) -> (bytes: u64)
        requires
            self.well_formed(),
        ensures
            bytes == self@.total(),
    {
        self.total
    }

    /// Takes a frame from the sender.
    pub fn on_frame(&mut self, frame: Frame) -> (result: Result<ReceiveAction, ReceiveError>)
        requires
            old(self).well_formed(),
            old(self)@.want() == ReceiveWant::Frame,
        ensures
            final(self).well_formed(),
            final(self)@ == old(self)@.then_state(old(self)@.after_frame(frame@)),
            answer(result) == step_result(old(self)@.after_frame(frame@)),
    {
        let kind = match self.stage {
            ReceiveStage::AwaitHello => FrameKind::Hello,
            ReceiveStage::AwaitOffer => FrameKind::Offer,
            ReceiveStage::AwaitStart => FrameKind::FileStart,
            ReceiveStage::Receiving => FrameKind::FileChunk,
            ReceiveStage::AwaitEnd => FrameKind::FileEnd,
            _ => FrameKind::Complete,
        };
        let payload = match expect_frame(frame, kind) {
            Ok(payload) => payload,
            Err(error) => {
                self.fail();
                return Err(ReceiveError::Protocol(error));
            },
        };
        let result = match self.stage {
            ReceiveStage::AwaitHello => self.on_hello(payload.as_slice()),
            ReceiveStage::AwaitOffer => self.on_offer(payload.as_slice()),
            ReceiveStage::AwaitStart => self.on_start(payload.as_slice()),
            ReceiveStage::Receiving => self.on_chunk(payload.as_slice()),
            ReceiveStage::AwaitEnd => self.on_end(payload.as_slice()),
            _ => self.on_complete(payload.as_slice()),
        };
        match result {
            Ok(action) => Ok(action),
            Err(error) => {
                self.fail();
                Err(error)
            },
        }
    }

    /// Breaks the session off.
    fn fail(&mut self)
        requires
            old(self).well_formed(),
        ensures
            final(self).well_formed(),
            final(self)@ == (ReceiveView { stage: ReceiveStage::Failed, ..old(self)@ }),
    {
        proof {
            self@.lemma_received_bounded();
        }
        self.stage = ReceiveStage::Failed;
        assert(self@ =~= ReceiveView { stage: ReceiveStage::Failed, ..old(self)@ });
    }

    /// Takes the greeting.
    fn on_hello(&mut self, payload: &[u8]) -> (result: Result<ReceiveAction, ReceiveError>)
        requires
            old(self).well_formed(),
            old(self)@.stage == ReceiveStage::AwaitHello,
        ensures
            final(self).well_formed(),
            answer(result) == step_result(old(self)@.after_hello(payload@)),
            match old(self)@.after_hello(payload@) {
                Ok((state, _)) => final(self)@ == state,
                Err(_) => final(self)@ == old(self)@,
            },
    {
        match expect_empty(payload) {
            Ok(_) => {},
            Err(error) => {
                return Err(ReceiveError::Protocol(error));
            },
        }
        let reply = framed(FrameKind::HelloAck, &[]);
        self.stage = ReceiveStage::AwaitOffer;
        proof {
            assert(self@ =~= ReceiveView { stage: ReceiveStage::AwaitOffer, ..old(self)@ });
        }
        Ok(ReceiveAction::Reply(reply))
    }

    /// Takes the offer.
    fn on_offer(&mut self, payload: &[u8]) -> (result: Result<ReceiveAction, ReceiveError>)
        requires
            old(self).well_formed(),
            old(self)@.stage == ReceiveStage::AwaitOffer,
        ensures
            final(self).well_formed(),
            answer(result) == step_result(old(self)@.after_offer(payload@)),
            match old(self)@.after_offer(payload@) {
                Ok((state, _)) => final(self)@ == state,
                Err(_) => final(self)@ == old(self)@,
            },
    {
        let offer = match decode_offer(payload) {
            Ok(offer) => offer,
            Err(error) => {
                return Err(ReceiveError::Protocol(error));
            },
        };
        if offer.files.len() == 0 {
            return Err(ReceiveError::Protocol(ProtocolError::Malformed("offer contains no files")));
        }
        let total: u64 = match total_size(&offer.files) {
            Some(total) => total,
            None => {
                return Err(
                    ReceiveError::Protocol(ProtocolError::Malformed("transfer size exceeds u64")),
                );
            },
        };
        match check_offered(&offer.files) {
            Ok(_) => {},
            Err(error) => {
                return Err(error);
            },
        }
        let count: usize = offer.files.len();
        let ghost parsed = offer@;
        self.stage = ReceiveStage::Planning;
        self.id = offer.id;
        self.files = offer.files;
        self.total = total;
        proof {
            crate::protocol::offer::law_parsed_offer_is_safe(payload@);
            crate::receiver::destination::lemma_none_in_partials(parsed.files);
            assert(self@ =~= ReceiveView {
                stage: ReceiveStage::Planning,
                id: parsed.id,
                files: parsed.files,
                ..old(self)@
            });
            assert(old(self)@.files.take(0) =~= self@.files.take(0));
        }
        Ok(ReceiveAction::Offered { files: count, bytes: total })
    }

    /// Takes the length of the next file's partial file, if there is one, and
    /// whether that partial file did not have the offered digest before.
    pub fn on_partial(&mut self, length: Option<u64>, failed: bool) -> (result: Result<
        ReceiveAction,
        ReceiveError,
    >)
        requires
            old(self).well_formed(),
            old(self)@.want() == ReceiveWant::Partial,
        ensures
            final(self).well_formed(),
            final(self)@ == old(self)@.then_state(old(self)@.after_partial(length, failed)),
            answer(result) == step_result(old(self)@.after_partial(length, failed)),
            result is Ok,
    {
        let size: u64 = self.files[self.resume.len()].size;
        let found: u64 = match length {
            Some(found) => found,
            None => 0,
        };
        let restart = failed || found > size;
        let offset: u64 = if restart {
            0
        } else {
            found
        };
        self.resume.push(offset);
        let ghost resume = old(self)@.resume.push(offset);
        assert(self.resume@ =~= resume);
        if self.resume.len() < self.files.len() {
            proof {
                assert(self@ =~= ReceiveView { resume, ..old(self)@ });
            }
            return Ok(ReceiveAction::Planned { offset, restart, accept: None });
        }
        let accept = TransferAccept { id: self.id, resume_offsets: self.resume.clone() };
        proof {
            assert(accept@ =~= TransferAcceptView { id: self.id@, resume_offsets: resume });
            crate::protocol::offer::lemma_offset_bytes_len(resume);
            crate::bytes::lemma_be_bytes_len(resume.len(), 4);
        }
        match encode_accept(&accept) {
            Ok(payload) => {
                let reply = framed(FrameKind::Accept, payload.as_slice());
                self.stage = ReceiveStage::AwaitStart;
                proof {
                    assert(self@ =~= ReceiveView {
                        stage: ReceiveStage::AwaitStart,
                        resume,
                        ..old(self)@
                    });
                }
                Ok(ReceiveAction::Planned { offset, restart, accept: Some(reply) })
            },
            Err(error) => Err(ReceiveError::Protocol(error)),
        }
    }

    /// Takes the announcement of a file.
    fn on_start(&mut self, payload: &[u8]) -> (result: Result<ReceiveAction, ReceiveError>)
        requires
            old(self).well_formed(),
            old(self)@.stage == ReceiveStage::AwaitStart,
        ensures
            final(self).well_formed(),
            answer(result) == step_result(old(self)@.after_start(payload@)),
            match old(self)@.after_start(payload@) {
                Ok((state, _)) => final(self)@ == state,
                Err(_) => final(self)@ == old(self)@,
            },
    {
        let (index, offset): (u32, u64) = match decode_file_start(payload) {
            Ok(start) => start,
            Err(error) => {
                return Err(ReceiveError::Protocol(error));
            },
        };
        if index as usize != self.index || offset != self.resume[self.index] {
            return Err(
                ReceiveError::Protocol(
                    ProtocolError::Malformed("file start does not match accept"),
                ),
            );
        }
        self.stage = self.file_stage();
        proof {
            assert(self@ =~= ReceiveView { stage: old(self)@.file_stage(0), ..old(self)@ });
        }
        Ok(
            ReceiveAction::Begin {
                index: self.index,
                offset,
                ready: self.stage != ReceiveStage::Rehashing,
            },
        )
    }

    /// The stage that what is known of the file gives.
    fn file_stage(&self) -> (stage: ReceiveStage)
        requires
            self@.in_file(),
            self.position == self@.absorbed.len(),
        ensures
            stage == self@.file_stage(self@.absorbed.len()),
    {
        if self.position < self.resume[self.index] {
            ReceiveStage::Rehashing
        } else if self.position < self.files[self.index].size {
            ReceiveStage::Receiving
        } else {
            ReceiveStage::AwaitEnd
        }
    }

    /// Adds bytes to what is known of the file.
    fn absorb(&mut self, bytes: &[u8])
        requires
            old(self).well_formed(),
            old(self)@.in_file(),
            old(self)@.absorbed.len() + bytes@.len() <= old(self)@.file().size,
            old(self)@.absorbed.len() < old(self)@.resume[old(self)@.index] ==> old(
                self,
            )@.absorbed.len() + bytes@.len() <= old(self)@.resume[old(self)@.index],
        ensures
            final(self).well_formed(),
            final(self)@ == (ReceiveView {
                stage: old(self)@.file_stage((old(self)@.absorbed + bytes@).len()),
                absorbed: old(self)@.absorbed + bytes@,
                ..old(self)@
            }),
    {
        proof {
            let state = self@;
            crate::protocol::offer::lemma_sum_sizes_next(state.files, state.index);
            crate::protocol::offer::lemma_sum_sizes_take(state.files, state.index + 1);
        }
        update_hasher(&mut self.hasher, bytes);
        self.position = self.position + bytes.len() as u64;
        self.received = self.received + bytes.len() as u64;
        self.stage = self.file_stage();
        proof {
            assert(self@ =~= ReceiveView {
                stage: old(self)@.file_stage((old(self)@.absorbed + bytes@).len()),
                absorbed: old(self)@.absorbed + bytes@,
                ..old(self)@
            });
        }
    }

    /// Takes the next bytes of the partial file.
    pub fn on_prefix(&mut self, bytes: &[u8]) -> (result: Result<ReceiveAction, ReceiveError>)
        requires
            old(self).well_formed(),
            old(self)@.want() matches ReceiveWant::Prefix(most) && bytes@.len() <= most,
        ensures
            final(self).well_formed(),
            final(self)@ == old(self)@.then_state(old(self)@.after_prefix(bytes@)),
            answer(result) == step_result(old(self)@.after_prefix(bytes@)),
    {
        if bytes.len() == 0 {
            self.fail();
            return Err(
                ReceiveError::Protocol(
                    ProtocolError::Malformed("partial file is shorter than resume offset"),
                ),
            );
        }
        self.absorb(bytes);
        Ok(ReceiveAction::Rehashed { ready: self.stage != ReceiveStage::Rehashing })
    }

    /// Takes a chunk of a file.
    fn on_chunk(&mut self, payload: &[u8]) -> (result: Result<ReceiveAction, ReceiveError>)
        requires
            old(self).well_formed(),
            old(self)@.stage == ReceiveStage::Receiving,
        ensures
            final(self).well_formed(),
            answer(result) == step_result(old(self)@.after_chunk(payload@)),
            match old(self)@.after_chunk(payload@) {
                Ok((state, _)) => final(self)@ == state,
                Err(_) => final(self)@ == old(self)@,
            },
    {
        let (index, bytes): (u32, &[u8]) = match decode_file_chunk(payload) {
            Ok(chunk) => chunk,
            Err(error) => {
                return Err(ReceiveError::Protocol(error));
            },
        };
        if index as usize != self.index {
            return Err(
                ReceiveError::Protocol(
                    ProtocolError::Malformed("file chunk index is out of sequence"),
                ),
            );
        }
        let remaining: u64 = self.files[self.index].size - self.position;
        if bytes.len() == 0 || bytes.len() as u64 > remaining {
            return Err(
                ReceiveError::Protocol(ProtocolError::Malformed("file chunk exceeds offered size")),
            );
        }
        self.absorb(bytes);
        Ok(ReceiveAction::Store(copied(bytes)))
    }

    /// Takes the end of a file.
    fn on_end(&mut self, payload: &[u8]) -> (result: Result<ReceiveAction, ReceiveError>)
        requires
            old(self).well_formed(),
            old(self)@.stage == ReceiveStage::AwaitEnd,
        ensures
            final(self).well_formed(),
            answer(result) == step_result(old(self)@.after_end(payload@)),
            match old(self)@.after_end(payload@) {
                Ok((state, _)) => final(self)@ == state,
                Err(_) => final(self)@ == old(self)@,
            },
    {
        let (index, hash): (u32, [u8; 32]) = match decode_file_end(payload) {
            Ok(end) => end,
            Err(error) => {
                return Err(ReceiveError::Protocol(error));
            },
        };
        if index as usize != self.index || !same_bytes(&hash, &self.files[self.index].hash) {
            return Err(
                ReceiveError::Protocol(ProtocolError::Malformed("file end does not match offer")),
            );
        }
        self.stage = ReceiveStage::Syncing;
        proof {
            assert(self@ =~= ReceiveView { stage: ReceiveStage::Syncing, ..old(self)@ });
        }
        Ok(ReceiveAction::Sync)
    }

    /// Takes the word that the file was brought to the disk.
    pub fn on_synced(&mut self) -> (result: Result<ReceiveAction, ReceiveError>)
        requires
            old(self).well_formed(),
            old(self)@.want() == ReceiveWant::Sync,
        ensures
            final(self).well_formed(),
            final(self)@ == old(self)@.then_state(
                old(self)@.after_digest(crate::digest::blake3_digest(old(self)@.absorbed)),
            ),
            answer(result) == step_result(
                old(self)@.after_digest(crate::digest::blake3_digest(old(self)@.absorbed)),
            ),
    {
        let digest = finish_hasher(&self.hasher);
        self.settle(&digest)
    }

    /// Takes the digest of a file that was brought to the disk.
    pub fn settle(&mut self, digest: &[u8; 32]) -> (result: Result<ReceiveAction, ReceiveError>)
        requires
            old(self).well_formed(),
            old(self)@.want() == ReceiveWant::Sync,
        ensures
            final(self).well_formed(),
            final(self)@ == old(self)@.then_state(old(self)@.after_digest(digest@)),
            answer(result) == step_result(old(self)@.after_digest(digest@)),
    {
        if !same_bytes(digest, &self.files[self.index].hash) {
            let path = copied(self.files[self.index].path.as_path());
            self.fail();
            return Err(ReceiveError::HashMismatch(path));
        }
        let published: usize = self.index;
        proof {
            crate::protocol::offer::lemma_sum_sizes_next(self@.files, self@.index);
        }
        self.index = self.index + 1;
        self.position = 0;
        self.hasher = new_hasher();
        self.stage =
        if self.index < self.files.len() {
            ReceiveStage::AwaitStart
        } else {
            ReceiveStage::AwaitComplete
        };
        proof {
            assert(self@ =~= old(self)@.after_digest(digest@)->Ok_0.0);
        }
        Ok(ReceiveAction::Publish(published))
    }

    /// Takes the end of the transfer.
    fn on_complete(&mut self, payload: &[u8]) -> (result: Result<ReceiveAction, ReceiveError>)
        requires
            old(self).well_formed(),
            old(self)@.stage == ReceiveStage::AwaitComplete,
        ensures
            final(self).well_formed(),
            answer(result) == step_result(old(self)@.after_complete(payload@)),
            match old(self)@.after_complete(payload@) {
                Ok((state, _)) => final(self)@ == state,
                Err(_) => final(self)@ == old(self)@,
            },
    {
        let completed: u32 = match decode_complete(payload) {
            Ok(completed) => completed,
            Err(error) => {
                return Err(ReceiveError::Protocol(error));
            },
        };
        if completed as usize != self.files.len() {
            return Err(
                ReceiveError::Protocol(
                    ProtocolError::Malformed("completion count does not match offer"),
                ),
            );
        }
        let echo = encode_complete(completed);
        proof {
            crate::bytes::lemma_be_bytes_len(completed as nat, 4);
        }
        let reply = framed(FrameKind::Complete, echo.as_slice());
        self.stage = ReceiveStage::Finished;
        proof {
            assert(self@ =~= ReceiveView { stage: ReceiveStage::Finished, ..old(self)@ });
        }
        Ok(ReceiveAction::Finish { reply, files: self.files.len(), bytes: self.total })
    }
}

impl ReceiveView {
    /// Never more is here than was offered.
    pub proof fn lemma_received_bounded(self)
        requires
            self.valid(),
        ensures
            self.received() <= self.total(),
            0 <= self.index <= self.files.len(),
    {
        if self.index < self.files.len() {
            crate::protocol::offer::lemma_sum_sizes_next(self.files, self.index);
            crate::protocol::offer::lemma_sum_sizes_take(self.files, self.index + 1);
        } else {
            crate::protocol::offer::lemma_sum_sizes_take(self.files, self.index);
        }
    }
}

/// Whatever frame comes, a session stays in one of its states.
pub proof fn law_valid_after_frame(state: ReceiveView, frame: FrameView)
    requires
        state.valid(),
        state.want() == ReceiveWant::Frame,
    ensures
        state.then_state(state.after_frame(frame)).valid(),
{
    let step = state.after_frame(frame);
    state.lemma_received_bounded();
    if step is Ok {
        match state.stage {
            ReceiveStage::AwaitOffer => {
                crate::protocol::offer::law_parsed_offer_is_safe(frame.payload);
                crate::receiver::destination::lemma_none_in_partials(
                    state.then_state(step).files,
                );
            },
            ReceiveStage::AwaitStart => {
                assert(state.resume[state.index] <= state.files[state.index].size);
            },
            _ => {},
        }
    }
}

/// However long a partial file is, a session stays in one of its states.
pub proof fn law_valid_after_partial(state: ReceiveView, length: Option<u64>, failed: bool)
    requires
        state.valid(),
        state.want() == ReceiveWant::Partial,
    ensures
        state.after_partial(length, failed) is Ok,
        state.then_state(state.after_partial(length, failed)).valid(),
{
}

/// A partial file that did not have the offered digest is not resumed: its file
/// starts again from nothing.
pub proof fn law_failed_is_not_resumed(state: ReceiveView, length: Option<u64>)
    requires
        state.valid(),
        state.want() == ReceiveWant::Partial,
    ensures
        match state.after_partial(length, true) {
            Ok((next, ReceiveActionView::Planned { offset, restart, accept })) => {
                &&& offset == 0
                &&& restart
                &&& next.resume == state.resume.push(0)
            },
            _ => false,
        },
{
}

/// Whatever a partial file holds, a session stays in one of its states.
pub proof fn law_valid_after_prefix(state: ReceiveView, bytes: Seq<u8>)
    requires
        state.valid(),
        state.stage == ReceiveStage::Rehashing,
        state.absorbed.len() + bytes.len() <= state.resume[state.index],
    ensures
        state.then_state(state.after_prefix(bytes)).valid(),
{
    state.lemma_received_bounded();
    assert(state.resume[state.index] <= state.files[state.index].size);
}

/// Whatever the digest is, a session stays in one of its states.
pub proof fn law_valid_after_digest(state: ReceiveView, digest: Seq<u8>)
    requires
        state.valid(),
        state.want() == ReceiveWant::Sync,
    ensures
        state.then_state(state.after_digest(digest)).valid(),
{
    state.lemma_received_bounded();
}

/// A session that is over stays over: it waits for nothing.
pub proof fn law_over_is_over(state: ReceiveView)
    ensures
        state.want() == ReceiveWant::Nothing <==> state.stage == ReceiveStage::Finished
            || state.stage == ReceiveStage::Failed,
{
}

/// A file gets its name only after its last byte, and only if the digest of all
/// that is known of it is the offered hash; and then it always does.
pub proof fn law_published_is_verified(state: ReceiveView, digest: Seq<u8>)
    requires
        state.valid(),
        state.want() == ReceiveWant::Sync,
    ensures
        state.absorbed.len() == state.file().size,
        step_result(state.after_digest(digest)) == (if digest == state.file().hash {
            Ok::<ReceiveActionView, ReceiveErrorView>(ReceiveActionView::Publish(state.index))
        } else {
            Err(ReceiveErrorView::HashMismatch(state.file().path))
        }),
{
}

/// No frame gives a file its name.
pub proof fn law_frames_publish_nothing(state: ReceiveView, frame: FrameView)
    requires
        state.valid(),
        state.want() == ReceiveWant::Frame,
    ensures
        state.after_frame(frame) matches Ok((_, action)) ==> !(action is Publish),
{
}

/// Never more bytes are counted than were offered; when the transfer is
/// finished, all of them are.
pub proof fn law_received_counts(state: ReceiveView)
    requires
        state.valid(),
    ensures
        state.received() <= state.total() <= u64::MAX,
        state.stage == ReceiveStage::Finished ==> state.received() == state.total(),
{
    state.lemma_received_bounded();
    if state.stage == ReceiveStage::Finished {
        assert(state.files.take(state.index) =~= state.files);
    }
}

/// A partial file is put to use: unless it is marked as wrong or longer than the
/// offered file, the file resumes exactly where the partial file ends, however
/// long that is, and the partial file is kept. In the other two cases it is
/// emptied and the file starts from nothing. Nothing else changes.
pub proof fn law_partial_is_resumed(state: ReceiveView, length: Option<u64>, failed: bool)
    requires
        state.valid(),
        state.want() == ReceiveWant::Partial,
    ensures
        match state.after_partial(length, failed) {
            Ok((next, ReceiveActionView::Planned { offset, restart, accept })) => {
                let size = state.files[state.resume.len() as int].size;
                &&& restart <==> failed || (length is Some && length->Some_0 > size)
                &&& !restart && length is Some ==> offset == length->Some_0
                &&& restart || length is None ==> offset == 0
                &&& next.resume.len() == state.resume.len() + 1
                &&& next.resume.last() == offset
                &&& next.resume.drop_last() == state.resume
                &&& next.id == state.id && next.files == state.files
                &&& next.index == state.index && next.absorbed == state.absorbed
                &&& accept is Some <==> next.resume.len() == state.files.len()
                &&& next.want() == (if accept is Some {
                    ReceiveWant::Frame
                } else {
                    ReceiveWant::Partial
                })
                &&& accept is Some ==> next.stage == ReceiveStage::AwaitStart
            },
            _ => false,
        },
{
    if let Ok((next, _)) = state.after_partial(length, failed) {
        assert(next.resume.drop_last() =~= state.resume);
    }
}

/// After the last file the sender is told where each file resumes, in the order of
/// the offer, under the identifier of the transfer.
pub proof fn law_acceptance_tells_offsets(state: ReceiveView, length: Option<u64>, failed: bool)
    requires
        state.valid(),
        state.want() == ReceiveWant::Partial,
        state.resume.len() + 1 == state.files.len(),
    ensures
        match state.after_partial(length, failed) {
            Ok((next, ReceiveActionView::Planned { offset, restart, accept: Some(reply) })) => {
                &&& crate::protocol::frame::parse_frame(reply) matches Ok((frame, rest))
                &&& rest.len() == 0
                &&& frame.kind == FrameKind::Accept
                &&& crate::protocol::offer::parse_accept(frame.payload) == Ok::<
                    TransferAcceptView,
                    ProtocolErrorView,
                >(TransferAcceptView { id: state.id, resume_offsets: state.resume.push(offset) })
            },
            _ => false,
        },
{
    if let Ok((next, ReceiveActionView::Planned { offset, restart, accept: Some(reply) })) =
        state.after_partial(length, failed) {
        let accept = TransferAcceptView { id: state.id, resume_offsets: state.resume.push(offset) };
        let payload = crate::protocol::offer::encoded_accept(accept)->Ok_0;
        crate::protocol::offer::law_accept_round_trip(accept, payload);
        crate::protocol::offer::lemma_offset_bytes_len(accept.resume_offsets);
        crate::bytes::lemma_be_bytes_len(accept.resume_offsets.len(), 4);
        crate::protocol::frame::law_frame_round_trip(FrameKind::Accept, payload, Seq::empty());
        assert(reply + Seq::<u8>::empty() =~= reply);
    }
}

/// Each moment has its one kind of frame: any other is refused, and ends the
/// session.
pub proof fn law_unexpected_frame_is_refused(state: ReceiveView, frame: FrameView)
    requires
        state.valid(),
        state.want() == ReceiveWant::Frame,
        frame.kind != (match state.stage {
            ReceiveStage::AwaitHello => FrameKind::Hello,
            ReceiveStage::AwaitOffer => FrameKind::Offer,
            ReceiveStage::AwaitStart => FrameKind::FileStart,
            ReceiveStage::Receiving => FrameKind::FileChunk,
            ReceiveStage::AwaitEnd => FrameKind::FileEnd,
            _ => FrameKind::Complete,
        }),
    ensures
        state.after_frame(frame) == Err::<(ReceiveView, ReceiveActionView), ReceiveErrorView>(
            ReceiveErrorView::Protocol(
                ProtocolErrorView::Malformed("peer sent an unexpected frame"@),
            ),
        ),
        state.then_state(state.after_frame(frame)).want() == ReceiveWant::Nothing,
{
}

/// A greeting is empty, and is answered with an empty answer; then the offer is
/// waited for.
pub proof fn law_greeting_is_answered(state: ReceiveView, payload: Seq<u8>)
    requires
        state.valid(),
        state.stage == ReceiveStage::AwaitHello,
    ensures
        match state.after_frame(FrameView { kind: FrameKind::Hello, payload }) {
            Ok((next, ReceiveActionView::Reply(bytes))) => {
                &&& payload.len() == 0
                &&& next == ReceiveView { stage: ReceiveStage::AwaitOffer, ..state }
                &&& crate::protocol::frame::parse_frame(bytes) == Ok::<
                    (FrameView, Seq<u8>),
                    ProtocolErrorView,
                >((FrameView { kind: FrameKind::HelloAck, payload: Seq::empty() }, Seq::empty()))
            },
            Err(error) => payload.len() > 0 && error == malformed("expected an empty frame"@),
            _ => false,
        },
{
    let nothing = Seq::<u8>::empty();
    let bytes = crate::protocol::frame::frame_bytes(FrameKind::HelloAck, nothing);
    crate::protocol::frame::law_frame_round_trip(FrameKind::HelloAck, nothing, nothing);
    assert(bytes + nothing =~= bytes);
}

/// An offer is taken as it was made, with all its files in their order, and the
/// user is told how many they are and how many bytes they hold. It is refused only
/// when it cannot be read, holds no file, holds more bytes than can be counted, or
/// a file for the directory of the partial files.
pub proof fn law_offer_is_taken(state: ReceiveView, payload: Seq<u8>)
    requires
        state.valid(),
        state.stage == ReceiveStage::AwaitOffer,
    ensures
        ({
            let step = state.after_frame(FrameView { kind: FrameKind::Offer, payload });
            match crate::protocol::offer::parse_offer(payload) {
                Err(error) => step == Err::<(ReceiveView, ReceiveActionView), ReceiveErrorView>(
                    ReceiveErrorView::Protocol(error),
                ),
                Ok(offer) => {
                    let bytes = crate::protocol::offer::sum_sizes(offer.files);
                    let strays = exists|i: int|
                        0 <= i < offer.files.len() && crate::receiver::destination::in_partials(
                            (#[trigger] offer.files[i]).path,
                        );
                    &&& step is Ok <==> offer.files.len() > 0 && bytes <= u64::MAX && !strays
                    &&& offer.files.len() == 0 ==> step == Err::<
                        (ReceiveView, ReceiveActionView),
                        ReceiveErrorView,
                    >(malformed("offer contains no files"@))
                    &&& offer.files.len() > 0 && bytes > u64::MAX ==> step == Err::<
                        (ReceiveView, ReceiveActionView),
                        ReceiveErrorView,
                    >(malformed("transfer size exceeds u64"@))
                    &&& step matches Ok((next, action)) ==> {
                        &&& next.files == offer.files && next.id == offer.id
                        &&& next.resume == state.resume && next.index == state.index
                        &&& next.absorbed == state.absorbed
                        &&& next.want() == ReceiveWant::Partial
                        &&& action == ReceiveActionView::Offered {
                            files: offer.files.len(),
                            bytes,
                        }
                    }
                },
            }
        }),
{
    if let Ok(offer) = crate::protocol::offer::parse_offer(payload) {
        crate::receiver::destination::lemma_none_in_partials(offer.files);
    }
}

/// A file begins only as it was accepted: the next file of the offer, where it was
/// said to resume. What its partial file holds is read first, if it holds anything.
pub proof fn law_file_begins_as_accepted(state: ReceiveView, index: u32, offset: u64)
    requires
        state.valid(),
        state.stage == ReceiveStage::AwaitStart,
    ensures
        ({
            let agreed = state.resume[state.index];
            match state.after_frame(
                FrameView {
                    kind: FrameKind::FileStart,
                    payload: crate::protocol::message::file_start_bytes(index, offset),
                },
            ) {
                Ok((next, action)) => {
                    &&& index == state.index && offset == agreed
                    &&& action == ReceiveActionView::Begin {
                        index: state.index,
                        offset: agreed,
                        ready: agreed == 0,
                    }
                    &&& next == ReceiveView { stage: next.stage, ..state }
                    &&& next.stage == ReceiveStage::Rehashing <==> agreed > 0
                    &&& next.stage == ReceiveStage::Receiving <==> agreed == 0 && state.file().size
                        > 0
                    &&& next.stage == ReceiveStage::AwaitEnd <==> state.file().size == 0
                },
                Err(error) => {
                    &&& index != state.index || offset != agreed
                    &&& error == malformed("file start does not match accept"@)
                },
            }
        }),
{
    crate::protocol::message::law_file_start_round_trip(
        index,
        offset,
        crate::protocol::message::file_start_bytes(index, offset),
    );
    assert(state.resume[state.index] <= state.files[state.index].size);
}

/// A partial file is read up to where its file resumes, in pieces of at most
/// 128 KiB, and every byte counts. One that ends before that is refused.
pub proof fn law_partial_is_read(state: ReceiveView, bytes: Seq<u8>)
    requires
        state.valid(),
        state.stage == ReceiveStage::Rehashing,
    ensures
        ({
            let left = state.resume[state.index] - state.absorbed.len();
            &&& state.want() matches ReceiveWant::Prefix(most)
            &&& 0 < most <= left && most <= 131_072
            &&& most == left || most == 131_072
            &&& bytes.len() <= left ==> match state.after_prefix(bytes) {
                Ok((next, action)) => {
                    &&& bytes.len() > 0
                    &&& next == ReceiveView {
                        stage: next.stage,
                        absorbed: state.absorbed + bytes,
                        ..state
                    }
                    &&& action == ReceiveActionView::Rehashed { ready: bytes.len() == left }
                    &&& next.stage == ReceiveStage::Rehashing <==> bytes.len() < left
                    &&& next.stage == ReceiveStage::AwaitEnd <==> bytes.len() == left
                        && state.resume[state.index] == state.file().size
                    &&& next.stage == ReceiveStage::Receiving <==> bytes.len() == left
                        && state.resume[state.index] < state.file().size
                },
                Err(error) => bytes.len() == 0 && error == malformed(
                    "partial file is shorter than resume offset"@,
                ),
            }
        }),
{
    assert(state.resume[state.index] <= state.files[state.index].size);
}

/// A chunk of the file that is being received is stored as it came, behind what is
/// known of the file, and the file is complete with its last byte. A chunk of
/// another file, an empty one, and one beyond the offered size are refused.
pub proof fn law_chunk_is_stored(state: ReceiveView, index: u32, bytes: Seq<u8>)
    requires
        state.valid(),
        state.stage == ReceiveStage::Receiving,
    ensures
        ({
            let left = state.file().size - state.absorbed.len();
            match state.after_frame(
                FrameView {
                    kind: FrameKind::FileChunk,
                    payload: crate::protocol::message::file_chunk_bytes(index, bytes),
                },
            ) {
                Ok((next, action)) => {
                    &&& index == state.index && 0 < bytes.len() <= left
                    &&& action == ReceiveActionView::Store(bytes)
                    &&& next == ReceiveView {
                        stage: if bytes.len() < left {
                            ReceiveStage::Receiving
                        } else {
                            ReceiveStage::AwaitEnd
                        },
                        absorbed: state.absorbed + bytes,
                        ..state
                    }
                },
                Err(error) => if index != state.index {
                    error == malformed("file chunk index is out of sequence"@)
                } else {
                    &&& bytes.len() == 0 || bytes.len() > left
                    &&& error == malformed("file chunk exceeds offered size"@)
                },
            }
        }),
{
    crate::protocol::message::law_file_chunk_round_trip(
        index,
        bytes,
        crate::protocol::message::file_chunk_bytes(index, bytes),
    );
}

/// A file ends with its own index and the offered hash, and is brought to the disk;
/// any other end is refused.
pub proof fn law_file_ends_as_offered(state: ReceiveView, index: u32, hash: Seq<u8>)
    requires
        state.valid(),
        state.stage == ReceiveStage::AwaitEnd,
        hash.len() == 32,
    ensures
        match state.after_frame(
            FrameView {
                kind: FrameKind::FileEnd,
                payload: crate::protocol::message::file_end_bytes(index, hash),
            },
        ) {
            Ok((next, action)) => {
                &&& index == state.index && hash == state.file().hash
                &&& action == ReceiveActionView::Sync
                &&& next == ReceiveView { stage: ReceiveStage::Syncing, ..state }
            },
            Err(error) => {
                &&& index != state.index || hash != state.file().hash
                &&& error == malformed("file end does not match offer"@)
            },
        },
{
    crate::protocol::message::law_file_end_round_trip(
        index,
        hash,
        crate::protocol::message::file_end_bytes(index, hash),
    );
}

/// Behind a published file comes the next one, and behind the last the end of the
/// transfer; nothing is known of the next file yet, and nothing else changes.
pub proof fn law_next_file_follows(state: ReceiveView)
    requires
        state.valid(),
        state.want() == ReceiveWant::Sync,
    ensures
        match state.after_digest(state.file().hash) {
            Ok((next, action)) => {
                &&& action == ReceiveActionView::Publish(state.index)
                &&& next == ReceiveView {
                    stage: if state.index + 1 == state.files.len() {
                        ReceiveStage::AwaitComplete
                    } else {
                        ReceiveStage::AwaitStart
                    },
                    index: state.index + 1,
                    absorbed: Seq::empty(),
                    ..state
                }
            },
            _ => false,
        },
{
}

/// The transfer ends when the sender counts every offered file; the receiver
/// answers with the same count, and tells the user how many files and bytes were
/// offered. Any other count is refused.
pub proof fn law_transfer_ends_counted(state: ReceiveView, count: u32)
    requires
        state.valid(),
        state.stage == ReceiveStage::AwaitComplete,
    ensures
        match state.after_frame(
            FrameView {
                kind: FrameKind::Complete,
                payload: crate::protocol::message::complete_bytes(count),
            },
        ) {
            Ok((next, ReceiveActionView::Finish { reply, files, bytes })) => {
                &&& count == state.files.len()
                &&& files == count && bytes == crate::protocol::offer::sum_sizes(state.files)
                &&& next == ReceiveView { stage: ReceiveStage::Finished, ..state }
                &&& crate::protocol::frame::parse_frame(reply) matches Ok((frame, rest))
                &&& rest.len() == 0 && frame.kind == FrameKind::Complete
                &&& crate::protocol::message::parse_complete(frame.payload) == Ok::<
                    u32,
                    ProtocolErrorView,
                >(count)
            },
            Err(error) => count != state.files.len() && error == malformed(
                "completion count does not match offer"@,
            ),
            _ => false,
        },
{
    let payload = crate::protocol::message::complete_bytes(count);
    let bytes = crate::protocol::frame::frame_bytes(FrameKind::Complete, payload);
    crate::protocol::message::law_complete_round_trip(count, payload);
    crate::bytes::lemma_be_bytes_len(count as nat, 4);
    crate::protocol::frame::law_frame_round_trip(FrameKind::Complete, payload, Seq::empty());
    assert(bytes + Seq::<u8>::empty() =~= bytes);
}

/// Payloads that cannot be read as what their frame announces are refused for
/// what is wrong with them.
pub proof fn law_unreadable_payload_is_refused(state: ReceiveView, frame: FrameView)
    requires
        state.valid(),
        state.want() == ReceiveWant::Frame,
        frame.kind == state.awaited_kind(),
    ensures
        ({
            let step = state.after_frame(frame);
            let wrong = match frame.kind {
                FrameKind::FileStart => match crate::protocol::message::parse_file_start(
                    frame.payload,
                ) {
                    Err(error) => Some(error),
                    Ok(_) => None,
                },
                FrameKind::FileChunk => match crate::protocol::message::parse_file_chunk(
                    frame.payload,
                ) {
                    Err(error) => Some(error),
                    Ok(_) => None,
                },
                FrameKind::FileEnd => match crate::protocol::message::parse_file_end(
                    frame.payload,
                ) {
                    Err(error) => Some(error),
                    Ok(_) => None,
                },
                FrameKind::Complete => match crate::protocol::message::parse_complete(
                    frame.payload,
                ) {
                    Err(error) => Some(error),
                    Ok(_) => None,
                },
                _ => None,
            };
            wrong is Some ==> step == Err::<(ReceiveView, ReceiveActionView), ReceiveErrorView>(
                ReceiveErrorView::Protocol(wrong->Some_0),
            )
        }),
{
}

/// The bytes that are here are counted exactly: what a partial file held and what
/// was stored adds as much as it is long, and nothing else changes the count.
pub proof fn law_received_is_exact(state: ReceiveView, frame: FrameView, bytes: Seq<u8>)
    requires
        state.valid(),
    ensures
        state.want() == ReceiveWant::Frame && state.after_frame(frame) is Ok ==> ({
            let (next, action) = state.after_frame(frame)->Ok_0;
            next.received() == state.received() + (match action {
                ReceiveActionView::Store(stored) => stored.len(),
                _ => 0,
            })
        }),
        state.stage == ReceiveStage::Rehashing && state.after_prefix(bytes) is Ok
            ==> state.after_prefix(bytes)->Ok_0.0.received() == state.received() + bytes.len(),
        state.want() == ReceiveWant::Sync ==> state.after_digest(state.file().hash)->Ok_0.0.received()
            == state.received(),
        ReceiveView::initial().received() == 0,
{
    assert(ReceiveView::initial().files.take(0) =~= Seq::empty());
    if state.want() == ReceiveWant::Frame && state.after_frame(frame) is Ok {
        let (next, _) = state.after_frame(frame)->Ok_0;
        if state.stage == ReceiveStage::AwaitOffer {
            assert(next.files.take(0) =~= Seq::empty());
            assert(state.files.take(0) =~= Seq::empty());
        }
    }
    if state.want() == ReceiveWant::Sync {
        crate::protocol::offer::lemma_sum_sizes_next(state.files, state.index);
    }
}

/// An error ends the session, whatever it is: nothing more is waited for, and what
/// was agreed and counted stays as it was.
pub proof fn law_error_ends_session(state: ReceiveView, error: ReceiveErrorView)
    ensures
        ({
            let next = state.then_state(Err(error));
            &&& next.want() == ReceiveWant::Nothing
            &&& next.stage == ReceiveStage::Failed
            &&& next.id == state.id && next.files == state.files
            &&& next.resume == state.resume && next.index == state.index
            &&& next.absorbed == state.absorbed
            &&& next.received() == state.received() && next.total() == state.total()
        }),
{
}

/// An offer is refused for the first file that was offered into the directory of the
/// partial files, by its path.
pub proof fn law_stray_offer_is_refused(
    state: ReceiveView,
    payload: Seq<u8>,
    offer: TransferOfferView,
    i: int,
)
    requires
        state.valid(),
        state.stage == ReceiveStage::AwaitOffer,
        crate::protocol::offer::parse_offer(payload) == Ok::<TransferOfferView, ProtocolErrorView>(
            offer,
        ),
        crate::protocol::offer::sum_sizes(offer.files) <= u64::MAX,
        0 <= i < offer.files.len(),
        crate::receiver::destination::in_partials(offer.files[i].path),
        forall|j: int|
            0 <= j < i ==> !crate::receiver::destination::in_partials(
                (#[trigger] offer.files[j]).path,
            ),
    ensures
        state.after_frame(FrameView { kind: FrameKind::Offer, payload }) == Err::<
            (ReceiveView, ReceiveActionView),
            ReceiveErrorView,
        >(
            ReceiveErrorView::UnsafeDestination(
                "destination is in the directory of partial files: "@ + crate::text::lossy_text(
                    offer.files[i].path,
                ),
            ),
        ),
{
    crate::receiver::destination::law_first_in_partials(offer.files, i);
}

} // verus!
