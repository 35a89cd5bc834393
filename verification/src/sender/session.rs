//! The sender's side of one transfer, from the greeting to the last file.
//!
//! A session reads no network and no disk. It says what it waits for, takes
//! that, and says what is to be done with it.

use vstd::prelude::*;

use crate::bytes::{copied, same_bytes};
use crate::protocol::frame::framed;
use crate::protocol::{
    decode_accept, decode_complete, encode_complete, encode_file_chunk, encode_file_end,
    encode_file_start, encode_offer, expect_frame, total_size, write_frame, FileOffer, FileOfferView,
    Frame, FrameKind, FrameView, ProtocolError, ProtocolErrorView, TransferOffer, TransferOfferView,
    MAX_CHUNK_BYTES, MAX_FILES,
};
use crate::sender::source::SourceFileView;
use crate::sender::{SendError, SendErrorView, SourceFile};

verus! {

/// How far a session is.
#[derive(Clone, Copy, Debug, Eq, PartialEq, Structural)]
pub enum SendStage {
    /// The answer to the greeting comes next.
    AwaitHelloAck,
    /// The acceptance of the offer comes next.
    AwaitAccept,
    /// The next file is to be begun, or the transfer ended.
    Between,
    /// The next file is being opened.
    Opening,
    /// The next bytes of the file are being read.
    Sending,
    /// The file is to be ended.
    Ending,
    /// The receiver's word that it has every file comes next.
    AwaitComplete,
    /// Every file was sent.
    Finished,
    /// The transfer was broken off.
    Failed,
}

/// What a session waits for.
#[derive(Clone, Copy, Debug, Eq, PartialEq, Structural)]
pub enum SendWant {
    /// A frame from the receiver.
    Frame,
    /// Being told to go on.
    Turn,
    /// How long the file is that was opened.
    Opened,
    /// The next bytes of the file, so many at most; none at its end.
    Data(usize),
    /// Nothing more.
    Nothing,
}

/// What is to be done after a step.
#[derive(Debug)]
pub enum SendAction {
    /// Send these bytes.
    Reply(Vec<u8>),
    /// Tell the user what is sent.
    Started { files: usize, bytes: u64 },
    /// Open the file at this index.
    Open(usize),
    /// Go to `offset` in the file, and send `reply`.
    Begin { offset: u64, reply: Vec<u8> },
    /// Tell the user what was sent.
    Finish { files: usize, bytes: u64 },
}

/// What a [`SendAction`] says.
#[verifier::ext_equal]
pub enum SendActionView {
    Reply(Seq<u8>),
    Started { files: nat, bytes: nat },
    Open(int),
    Begin { offset: u64, reply: Seq<u8> },
    Finish { files: nat, bytes: nat },
}

impl View for SendAction {
    type V = SendActionView;

    open spec fn view(&self) -> SendActionView {
        match self {
            SendAction::Reply(bytes) => SendActionView::Reply(bytes@),
            SendAction::Started { files, bytes } => SendActionView::Started {
                files: *files as nat,
                bytes: *bytes as nat,
            },
            SendAction::Open(index) => SendActionView::Open(*index as int),
            SendAction::Begin { offset, reply } => SendActionView::Begin {
                offset: *offset,
                reply: reply@,
            },
            SendAction::Finish { files, bytes } => SendActionView::Finish {
                files: *files as nat,
                bytes: *bytes as nat,
            },
        }
    }
}

/// What a [`SendSession`] knows.
#[verifier::ext_equal]
pub struct SendView {
    pub stage: SendStage,
    /// The transfer's identifier.
    pub id: Seq<u8>,
    /// The files that are sent.
    pub sources: Seq<SourceFileView>,
    /// Where each file resumes, once that was accepted.
    pub offsets: Seq<u64>,
    /// The file that is being sent.
    pub index: int,
    /// How far that file was sent.
    pub position: nat,
}

/// What one step leads to: the next state and what is to be done, or why the
/// transfer is broken off.
pub type SendStep = Result<(SendView, SendActionView), SendErrorView>;

/// A breach of the protocol.
pub open spec fn malformed(reason: Seq<char>) -> SendErrorView {
    SendErrorView::Protocol(ProtocolErrorView::Malformed(reason))
}

impl SendView {
    /// A session that has sent its greeting.
    pub open spec fn initial(id: Seq<u8>, sources: Seq<SourceFileView>) -> SendView {
        SendView {
            stage: SendStage::AwaitHelloAck,
            id,
            sources,
            offsets: Seq::empty(),
            index: 0,
            position: 0,
        }
    }

    /// How the files are offered.
    pub open spec fn files(self) -> Seq<FileOfferView> {
        crate::sender::source::offered(self.sources)
    }

    /// The file that is being sent.
    pub open spec fn file(self) -> FileOfferView {
        self.sources[self.index].offer
    }

    /// How many bytes are offered.
    pub open spec fn total(self) -> nat {
        crate::protocol::offer::sum_sizes(self.files())
    }

    /// How many of the offered bytes the receiver has.
    pub open spec fn sent(self) -> nat {
        crate::protocol::offer::sum_sizes(self.files().take(self.index)) + self.position
    }

    /// What holds of every session at every time.
    pub open spec fn valid(self) -> bool {
        &&& self.id.len() == 16
        &&& self.total() <= u64::MAX
        &&& match self.stage {
            SendStage::AwaitHelloAck => self.index == 0 && self.position == 0,
            SendStage::AwaitAccept => {
                &&& self.sources.len() <= MAX_FILES
                &&& self.index == 0
                &&& self.position == 0
            },
            SendStage::Between => {
                &&& self.accepted()
                &&& 0 <= self.index <= self.sources.len()
                &&& self.position == 0
            },
            SendStage::Opening => {
                &&& self.in_file()
                &&& self.position == 0
            },
            SendStage::Sending => {
                &&& self.in_file()
                &&& self.offsets[self.index] <= self.position < self.file().size
            },
            SendStage::Ending => {
                &&& self.in_file()
                &&& self.position == self.file().size
            },
            SendStage::AwaitComplete | SendStage::Finished => {
                &&& self.accepted()
                &&& self.index == self.sources.len()
                &&& self.position == 0
            },
            SendStage::Failed => {
                &&& 0 <= self.index <= self.sources.len()
                &&& self.sent() <= self.total()
            },
        }
    }

    /// Whether the offer was accepted.
    pub open spec fn accepted(self) -> bool {
        &&& self.sources.len() <= MAX_FILES
        &&& self.offsets.len() == self.sources.len()
    }

    /// Whether a file is being sent that resumes within its size.
    pub open spec fn in_file(self) -> bool {
        &&& self.accepted()
        &&& 0 <= self.index < self.sources.len()
        &&& self.offsets[self.index] <= self.file().size
    }

    /// The stage of a file of which `position` bytes were sent.
    pub open spec fn file_stage(self, position: nat) -> SendStage {
        if position < self.file().size {
            SendStage::Sending
        } else {
            SendStage::Ending
        }
    }

    /// What the session waits for.
    pub open spec fn want(self) -> SendWant {
        match self.stage {
            SendStage::AwaitHelloAck
            | SendStage::AwaitAccept
            | SendStage::AwaitComplete => SendWant::Frame,
            SendStage::Between | SendStage::Ending => SendWant::Turn,
            SendStage::Opening => SendWant::Opened,
            SendStage::Sending => {
                let left = self.file().size - self.position;
                SendWant::Data(
                    if left < MAX_CHUNK_BYTES {
                        left as usize
                    } else {
                        MAX_CHUNK_BYTES
                    },
                )
            },
            SendStage::Finished | SendStage::Failed => SendWant::Nothing,
        }
    }

    /// The answer to the greeting: the files are offered.
    pub open spec fn after_hello_ack(self) -> SendStep {
        let offer = TransferOfferView { id: self.id, files: self.files() };
        match crate::protocol::offer::encoded_offer(offer) {
            Err(error) => Err(SendErrorView::Protocol(error)),
            Ok(payload) => if payload.len() > crate::protocol::frame::payload_limit(
                FrameKind::Offer,
            ) {
                Err(
                    SendErrorView::Protocol(
                        ProtocolErrorView::OversizedFrame(payload.len() as u64),
                    ),
                )
            } else {
                Ok(
                    (
                        SendView { stage: SendStage::AwaitAccept, ..self },
                        SendActionView::Reply(
                            crate::protocol::frame::frame_bytes(FrameKind::Offer, payload),
                        ),
                    ),
                )
            },
        }
    }

    /// The acceptance: it is of this transfer, with an offset for each file.
    pub open spec fn after_accept(self, payload: Seq<u8>) -> SendStep {
        match crate::protocol::offer::parse_accept(payload) {
            Err(error) => Err(SendErrorView::Protocol(error)),
            Ok(accept) => if accept.id != self.id {
                Err(malformed("accept used a different transfer ID"@))
            } else if accept.resume_offsets.len() != self.sources.len() {
                Err(malformed("resume offset count does not match offer"@))
            } else {
                Ok(
                    (
                        SendView {
                            stage: SendStage::Between,
                            offsets: accept.resume_offsets,
                            ..self
                        },
                        SendActionView::Started { files: self.sources.len(), bytes: self.total() },
                    ),
                )
            },
        }
    }

    /// Going on between files: the next file is opened, if it resumes within its
    /// size. After the last file the transfer is ended.
    pub open spec fn after_file(self) -> SendStep {
        if self.index == self.sources.len() {
            Ok(
                (
                    SendView { stage: SendStage::AwaitComplete, ..self },
                    SendActionView::Reply(
                        crate::protocol::frame::frame_bytes(
                            FrameKind::Complete,
                            crate::protocol::message::complete_bytes(self.sources.len() as u32),
                        ),
                    ),
                ),
            )
        } else if self.offsets[self.index] > self.file().size {
            Err(malformed("resume offset exceeds file size"@))
        } else {
            Ok(
                (
                    SendView { stage: SendStage::Opening, ..self },
                    SendActionView::Open(self.index),
                ),
            )
        }
    }

    /// The length of the opened file: it is what was offered.
    pub open spec fn after_opened(self, size: u64) -> SendStep {
        let offset = self.offsets[self.index];
        if size != self.file().size {
            Err(SendErrorView::SourceChanged(self.sources[self.index].source))
        } else {
            Ok(
                (
                    SendView {
                        stage: self.file_stage(offset as nat),
                        position: offset as nat,
                        ..self
                    },
                    SendActionView::Begin {
                        offset,
                        reply: crate::protocol::frame::frame_bytes(
                            FrameKind::FileStart,
                            crate::protocol::message::file_start_bytes(self.index as u32, offset),
                        ),
                    },
                ),
            )
        }
    }

    /// The next bytes of the file.
    pub open spec fn after_data(self, bytes: Seq<u8>) -> SendStep {
        if bytes.len() == 0 {
            Err(SendErrorView::SourceChanged(self.sources[self.index].source))
        } else {
            let position = self.position + bytes.len();
            Ok(
                (
                    SendView { stage: self.file_stage(position), position, ..self },
                    SendActionView::Reply(
                        crate::protocol::frame::frame_bytes(
                            FrameKind::FileChunk,
                            crate::protocol::message::file_chunk_bytes(self.index as u32, bytes),
                        ),
                    ),
                ),
            )
        }
    }

    /// Going on behind the last byte of a file: the file is ended.
    pub open spec fn after_last_byte(self) -> SendStep {
        Ok(
            (
                SendView {
                    stage: SendStage::Between,
                    index: self.index + 1,
                    position: 0,
                    ..self
                },
                SendActionView::Reply(
                    crate::protocol::frame::frame_bytes(
                        FrameKind::FileEnd,
                        crate::protocol::message::file_end_bytes(
                            self.index as u32,
                            self.file().hash,
                        ),
                    ),
                ),
            ),
        )
    }

    /// Being told to go on.
    pub open spec fn after_turn(self) -> SendStep {
        if self.stage == SendStage::Ending {
            self.after_last_byte()
        } else {
            self.after_file()
        }
    }

    /// The receiver's word that it has every file.
    pub open spec fn after_complete(self, payload: Seq<u8>) -> SendStep {
        match crate::protocol::message::parse_complete(payload) {
            Err(error) => Err(SendErrorView::Protocol(error)),
            Ok(count) => if count != self.sources.len() {
                Err(malformed("completion count does not match offer"@))
            } else {
                Ok(
                    (
                        SendView { stage: SendStage::Finished, ..self },
                        SendActionView::Finish { files: self.sources.len(), bytes: self.total() },
                    ),
                )
            },
        }
    }

    /// The kind of frame that the session waits for.
    pub open spec fn awaited_kind(self) -> FrameKind {
        match self.stage {
            SendStage::AwaitHelloAck => FrameKind::HelloAck,
            SendStage::AwaitAccept => FrameKind::Accept,
            _ => FrameKind::Complete,
        }
    }

    /// A frame from the receiver: it is of the kind that is waited for.
    pub open spec fn after_frame(self, frame: FrameView) -> SendStep {
        match crate::protocol::frame::expected_payload(frame, self.awaited_kind()) {
            Err(error) => Err(SendErrorView::Protocol(error)),
            Ok(payload) => match self.stage {
                SendStage::AwaitHelloAck => self.after_hello_ack(),
                SendStage::AwaitAccept => self.after_accept(payload),
                _ => self.after_complete(payload),
            },
        }
    }

    /// The state after a step: an error ends the session.
    pub open spec fn then_state(self, step: SendStep) -> SendView {
        match step {
            Ok((state, _)) => state,
            Err(_) => SendView { stage: SendStage::Failed, ..self },
        }
    }

    /// The receiver never has more than was offered.
    pub proof fn lemma_sent_bounded(self)
        requires
            self.valid(),
        ensures
            self.sent() <= self.total(),
            0 <= self.index <= self.sources.len(),
    {
        if self.index < self.sources.len() {
            crate::protocol::offer::lemma_sum_sizes_next(self.files(), self.index);
            crate::protocol::offer::lemma_sum_sizes_take(self.files(), self.index + 1);
        } else {
            crate::protocol::offer::lemma_sum_sizes_take(self.files(), self.index);
        }
    }
}

/// What a step answers.
pub open spec fn step_result(step: SendStep) -> Result<SendActionView, SendErrorView> {
    match step {
        Ok((_, action)) => Ok(action),
        Err(error) => Err(error),
    }
}

/// The view of what a step answered.
pub open spec fn answer(result: Result<SendAction, SendError>) -> Result<
    SendActionView,
    SendErrorView,
> {
    match result {
        Ok(action) => Ok(action@),
        Err(error) => Err(error@),
    }
}

/// The sender's side of one transfer.
#[derive(Debug)]
pub struct SendSession {
    stage: SendStage,
    id: [u8; 16],
    sources: Vec<SourceFile>,
    offsets: Vec<u64>,
    index: usize,
    position: u64,
    sent: u64,
    total: u64,
}

impl View for SendSession {
    type V = SendView;

    closed spec fn view(&self) -> SendView {
        SendView {
            stage: self.stage,
            id: self.id@,
            sources: crate::sender::source::source_views(self.sources@),
            offsets: self.offsets@,
            index: self.index as int,
            position: self.position as nat,
        }
    }
}

impl SendSession {
    /// What holds of every session between its steps.
    pub closed spec fn well_formed(&self) -> bool {
        &&& self@.valid()
        &&& self.sent == self@.sent()
        &&& self.total == self@.total()
    }

    /// A well-formed session is in one of the states that the laws speak of.
    pub proof fn lemma_well_formed(&self)
        requires
            self.well_formed(),
        ensures
            self@.valid(),
    {
    }

    /// A session that sends `sources`, unless they are too large to be counted.
    pub fn new(id: [u8; 16], sources: Vec<SourceFile>) -> (result: Result<SendSession, SendError>)
        ensures
            match result {
                Ok(session) => {
                    &&& session.well_formed()
                    &&& session@ == SendView::initial(
                        id@,
                        crate::sender::source::source_views(sources@),
                    )
                },
                Err(error) => {
                    &&& SendView::initial(
                        id@,
                        crate::sender::source::source_views(sources@),
                    ).total() > u64::MAX
                    &&& error@ == SendErrorView::InvalidInput("transfer size exceeds u64"@)
                },
            },
    {
        let files = file_offers(&sources);
        let total: u64 = match total_size(&files) {
            Some(total) => total,
            None => {
                return Err(SendError::InvalidInput("transfer size exceeds u64".to_owned()));
            },
        };
        let session = SendSession {
            stage: SendStage::AwaitHelloAck,
            id,
            sources,
            offsets: Vec::new(),
            index: 0,
            position: 0,
            sent: 0,
            total,
        };
        proof {
            assert(session@ =~= SendView::initial(
                id@,
                crate::sender::source::source_views(sources@),
            ));
            assert(session@.files().take(0) =~= Seq::empty());
        }
        Ok(session)
    }

    /// The greeting, which is sent first.
    pub fn greeting(&self) -> (bytes: Vec<u8>)
        ensures
            bytes@ == crate::protocol::frame::frame_bytes(FrameKind::Hello, Seq::empty()),
    {
        framed(FrameKind::Hello, &[])
    }

    /// What the session waits for.
    pub fn wants(&self) -> (want: SendWant)
        requires
            self.well_formed(),
        ensures
            want == self@.want(),
    {
        match self.stage {
            SendStage::AwaitHelloAck
            | SendStage::AwaitAccept
            | SendStage::AwaitComplete => SendWant::Frame,
            SendStage::Between | SendStage::Ending => SendWant::Turn,
            SendStage::Opening => SendWant::Opened,
            SendStage::Sending => {
                let left: u64 = self.sources[self.index].offer.size - self.position;
                SendWant::Data(
                    if left < MAX_CHUNK_BYTES as u64 {
                        left as usize
                    } else {
                        MAX_CHUNK_BYTES
                    },
                )
            },
            SendStage::Finished | SendStage::Failed => SendWant::Nothing,
        }
    }

    /// The files that are sent.
    pub fn sources(&self) -> (sources: &Vec<SourceFile>)
        ensures
            crate::sender::source::source_views(sources@) == self@.sources,
    {
        &self.sources
    }

    /// How many of the offered bytes the receiver has.
    pub fn sent(&self) -> (bytes: u64)
        requires
            self.well_formed(),
        ensures
            bytes == self@.sent(),
    {
        self.sent
    }

    /// How many bytes are offered.
    pub fn total(&self) -> (bytes: u64)
        requires
            self.well_formed(),
        ensures
            bytes == self@.total(),
    {
        self.total
    }

    /// Breaks the session off.
    fn fail(&mut self)
        requires
            old(self).well_formed(),
        ensures
            final(self).well_formed(),
            final(self)@ == (SendView { stage: SendStage::Failed, ..old(self)@ }),
    {
        proof {
            self@.lemma_sent_bounded();
        }
        self.stage = SendStage::Failed;
        assert(self@ =~= SendView { stage: SendStage::Failed, ..old(self)@ });
    }

    /// Takes a frame from the receiver.
    pub fn on_frame(&mut self, frame: Frame) -> (result: Result<SendAction, SendError>)
        requires
            old(self).well_formed(),
            old(self)@.want() == SendWant::Frame,
        ensures
            final(self).well_formed(),
            final(self)@ == old(self)@.then_state(old(self)@.after_frame(frame@)),
            answer(result) == step_result(old(self)@.after_frame(frame@)),
    {
        let kind = match self.stage {
            SendStage::AwaitHelloAck => FrameKind::HelloAck,
            SendStage::AwaitAccept => FrameKind::Accept,
            _ => FrameKind::Complete,
        };
        let payload = match expect_frame(frame, kind) {
            Ok(payload) => payload,
            Err(error) => {
                self.fail();
                return Err(SendError::Protocol(error));
            },
        };
        let result = match self.stage {
            SendStage::AwaitHelloAck => self.on_hello_ack(),
            SendStage::AwaitAccept => self.on_accept(payload.as_slice()),
            _ => self.on_complete(payload.as_slice()),
        };
        match result {
            Ok(action) => Ok(action),
            Err(error) => {
                self.fail();
                Err(error)
            },
        }
    }

    /// Takes the answer to the greeting.
    fn on_hello_ack(&mut self) -> (result: Result<SendAction, SendError>)
        requires
            old(self).well_formed(),
            old(self)@.stage == SendStage::AwaitHelloAck,
        ensures
            final(self).well_formed(),
            answer(result) == step_result(old(self)@.after_hello_ack()),
            match old(self)@.after_hello_ack() {
                Ok((state, _)) => final(self)@ == state,
                Err(_) => final(self)@ == old(self)@,
            },
    {
        let offer = TransferOffer { id: self.id, files: file_offers(&self.sources) };
        assert(offer@ =~= TransferOfferView { id: self@.id, files: self@.files() });
        let payload = match encode_offer(&offer) {
            Ok(payload) => payload,
            Err(error) => {
                return Err(SendError::Protocol(error));
            },
        };
        let mut reply: Vec<u8> = Vec::new();
        match write_frame(&mut reply, FrameKind::Offer, payload.as_slice()) {
            Ok(_) => {},
            Err(error) => {
                return Err(SendError::Protocol(error));
            },
        }
        self.stage = SendStage::AwaitAccept;
        proof {
            assert(self@ =~= SendView { stage: SendStage::AwaitAccept, ..old(self)@ });
            assert(reply@ =~= crate::protocol::frame::frame_bytes(FrameKind::Offer, payload@));
        }
        Ok(SendAction::Reply(reply))
    }

    /// Takes the acceptance of the offer.
    fn on_accept(&mut self, payload: &[u8]) -> (result: Result<SendAction, SendError>)
        requires
            old(self).well_formed(),
            old(self)@.stage == SendStage::AwaitAccept,
        ensures
            final(self).well_formed(),
            answer(result) == step_result(old(self)@.after_accept(payload@)),
            match old(self)@.after_accept(payload@) {
                Ok((state, _)) => final(self)@ == state,
                Err(_) => final(self)@ == old(self)@,
            },
    {
        let accept = match decode_accept(payload) {
            Ok(accept) => accept,
            Err(error) => {
                return Err(SendError::Protocol(error));
            },
        };
        if !same_bytes(&accept.id, &self.id) {
            return Err(
                SendError::Protocol(
                    ProtocolError::Malformed("accept used a different transfer ID"),
                ),
            );
        }
        if accept.resume_offsets.len() != self.sources.len() {
            return Err(
                SendError::Protocol(
                    ProtocolError::Malformed("resume offset count does not match offer"),
                ),
            );
        }
        let ghost offsets = accept@.resume_offsets;
        self.stage = SendStage::Between;
        self.offsets = accept.resume_offsets;
        proof {
            assert(self@ =~= SendView { stage: SendStage::Between, offsets, ..old(self)@ });
        }
        Ok(SendAction::Started { files: self.sources.len(), bytes: self.total })
    }

    /// Takes the receiver's word that it has every file.
    fn on_complete(&mut self, payload: &[u8]) -> (result: Result<SendAction, SendError>)
        requires
            old(self).well_formed(),
            old(self)@.stage == SendStage::AwaitComplete,
        ensures
            final(self).well_formed(),
            answer(result) == step_result(old(self)@.after_complete(payload@)),
            match old(self)@.after_complete(payload@) {
                Ok((state, _)) => final(self)@ == state,
                Err(_) => final(self)@ == old(self)@,
            },
    {
        let completed: u32 = match decode_complete(payload) {
            Ok(completed) => completed,
            Err(error) => {
                return Err(SendError::Protocol(error));
            },
        };
        if completed as usize != self.sources.len() {
            return Err(
                SendError::Protocol(
                    ProtocolError::Malformed("completion count does not match offer"),
                ),
            );
        }
        self.stage = SendStage::Finished;
        proof {
            assert(self@ =~= SendView { stage: SendStage::Finished, ..old(self)@ });
        }
        Ok(SendAction::Finish { files: self.sources.len(), bytes: self.total })
    }

    /// Goes on: ends a file, begins the next one, or ends the transfer.
    pub fn on_turn(&mut self) -> (result: Result<SendAction, SendError>)
        requires
            old(self).well_formed(),
            old(self)@.want() == SendWant::Turn,
        ensures
            final(self).well_formed(),
            final(self)@ == old(self)@.then_state(old(self)@.after_turn()),
            answer(result) == step_result(old(self)@.after_turn()),
    {
        if self.stage == SendStage::Ending {
            let payload = encode_file_end(self.index as u32, &self.sources[self.index].offer.hash);
            proof {
                crate::bytes::lemma_be_bytes_len(self.index as nat, 4);
                crate::protocol::offer::lemma_sum_sizes_next(self@.files(), self@.index);
            }
            let reply = framed(FrameKind::FileEnd, payload.as_slice());
            self.stage = SendStage::Between;
            self.index = self.index + 1;
            self.position = 0;
            proof {
                assert(self@ =~= old(self)@.after_last_byte()->Ok_0.0);
            }
            return Ok(SendAction::Reply(reply));
        }
        if self.index == self.sources.len() {
            let payload = encode_complete(self.sources.len() as u32);
            proof {
                crate::bytes::lemma_be_bytes_len(self.sources@.len(), 4);
            }
            let reply = framed(FrameKind::Complete, payload.as_slice());
            self.stage = SendStage::AwaitComplete;
            proof {
                assert(self@ =~= SendView { stage: SendStage::AwaitComplete, ..old(self)@ });
            }
            return Ok(SendAction::Reply(reply));
        }
        if self.offsets[self.index] > self.sources[self.index].offer.size {
            self.fail();
            return Err(
                SendError::Protocol(ProtocolError::Malformed("resume offset exceeds file size")),
            );
        }
        self.stage = SendStage::Opening;
        proof {
            assert(self@ =~= SendView { stage: SendStage::Opening, ..old(self)@ });
        }
        Ok(SendAction::Open(self.index))
    }

    /// Takes the length of the file that was opened.
    pub fn on_opened(&mut self, size: u64) -> (result: Result<SendAction, SendError>)
        requires
            old(self).well_formed(),
            old(self)@.want() == SendWant::Opened,
        ensures
            final(self).well_formed(),
            final(self)@ == old(self)@.then_state(old(self)@.after_opened(size)),
            answer(result) == step_result(old(self)@.after_opened(size)),
    {
        if size != self.sources[self.index].offer.size {
            let source = copied(self.sources[self.index].source.as_slice());
            self.fail();
            return Err(SendError::SourceChanged(source));
        }
        let offset: u64 = self.offsets[self.index];
        let payload = encode_file_start(self.index as u32, offset);
        proof {
            crate::bytes::lemma_be_bytes_len(self.index as nat, 4);
            crate::bytes::lemma_be_bytes_len(offset as nat, 8);
        }
        let reply = framed(FrameKind::FileStart, payload.as_slice());
        self.advance(offset);
        Ok(SendAction::Begin { offset, reply })
    }

    /// Counts bytes that the receiver has of the file.
    fn advance(&mut self, count: u64)
        requires
            old(self).well_formed(),
            old(self)@.in_file(),
            old(self)@.position + count <= old(self)@.file().size,
            old(self)@.position + count >= old(self)@.offsets[old(self)@.index],
        ensures
            final(self).well_formed(),
            final(self)@ == (SendView {
                stage: old(self)@.file_stage((old(self)@.position + count) as nat),
                position: (old(self)@.position + count) as nat,
                ..old(self)@
            }),
    {
        proof {
            crate::protocol::offer::lemma_sum_sizes_next(self@.files(), self@.index);
            crate::protocol::offer::lemma_sum_sizes_take(self@.files(), self@.index + 1);
        }
        self.position = self.position + count;
        self.sent = self.sent + count;
        self.stage =
        if self.position < self.sources[self.index].offer.size {
            SendStage::Sending
        } else {
            SendStage::Ending
        };
        proof {
            assert(self@ =~= SendView {
                stage: old(self)@.file_stage((old(self)@.position + count) as nat),
                position: (old(self)@.position + count) as nat,
                ..old(self)@
            });
        }
    }

    /// Takes the next bytes of the file.
    pub fn on_data(&mut self, bytes: &[u8]) -> (result: Result<SendAction, SendError>)
        requires
            old(self).well_formed(),
            old(self)@.want() matches SendWant::Data(most) && bytes@.len() <= most,
        ensures
            final(self).well_formed(),
            final(self)@ == old(self)@.then_state(old(self)@.after_data(bytes@)),
            answer(result) == step_result(old(self)@.after_data(bytes@)),
    {
        if bytes.len() == 0 {
            let source = copied(self.sources[self.index].source.as_slice());
            self.fail();
            return Err(SendError::SourceChanged(source));
        }
        match encode_file_chunk(self.index as u32, bytes) {
            Ok(payload) => {
                proof {
                    crate::bytes::lemma_be_bytes_len(self.index as nat, 4);
                }
                let reply = framed(FrameKind::FileChunk, payload.as_slice());
                self.advance(bytes.len() as u64);
                Ok(SendAction::Reply(reply))
            },
            Err(error) => Err(SendError::Protocol(error)),
        }
    }
}

/// How the files of a list are offered.
fn file_offers(sources: &Vec<SourceFile>) -> (files: Vec<FileOffer>)
    ensures
        crate::protocol::file_views(files@) == crate::sender::source::offered(
            crate::sender::source::source_views(sources@),
        ),
{
    let mut files: Vec<FileOffer> = Vec::with_capacity(sources.len());
    let mut i: usize = 0;
    while i < sources.len()
        invariant
            i <= sources@.len(),
            files@.len() == i,
            forall|j: int| 0 <= j < i ==> (#[trigger] files@[j])@ == sources@[j].offer@,
        decreases sources@.len() - i,
    {
        files.push(sources[i].offer.clone());
        i = i + 1;
    }
    assert(crate::protocol::file_views(files@) =~= crate::sender::source::offered(
        crate::sender::source::source_views(sources@),
    ));
    files
}

/// Whatever frame comes, a session stays in one of its states.
pub proof fn law_valid_after_frame(state: SendView, frame: FrameView)
    requires
        state.valid(),
        state.want() == SendWant::Frame,
    ensures
        state.then_state(state.after_frame(frame)).valid(),
{
    state.lemma_sent_bounded();
}

/// Going on, a session stays in one of its states.
pub proof fn law_valid_after_turn(state: SendView)
    requires
        state.valid(),
        state.want() == SendWant::Turn,
    ensures
        state.then_state(state.after_turn()).valid(),
{
    state.lemma_sent_bounded();
}

/// However long an opened file is, a session stays in one of its states.
pub proof fn law_valid_after_opened(state: SendView, size: u64)
    requires
        state.valid(),
        state.want() == SendWant::Opened,
    ensures
        state.then_state(state.after_opened(size)).valid(),
{
    state.lemma_sent_bounded();
}

/// Whatever a file holds, a session stays in one of its states.
pub proof fn law_valid_after_data(state: SendView, bytes: Seq<u8>)
    requires
        state.valid(),
        state.want() matches SendWant::Data(most) && bytes.len() <= most,
    ensures
        state.then_state(state.after_data(bytes)).valid(),
{
    state.lemma_sent_bounded();
}

/// A session that is over stays over: it waits for nothing.
pub proof fn law_over_is_over(state: SendView)
    ensures
        state.want() == SendWant::Nothing <==> state.stage == SendStage::Finished || state.stage
            == SendStage::Failed,
{
}

/// The receiver never has more bytes than were offered; when the transfer is
/// finished, it has all of them.
pub proof fn law_sent_counts(state: SendView)
    requires
        state.valid(),
    ensures
        state.sent() <= state.total() <= u64::MAX,
        state.stage == SendStage::Finished ==> state.sent() == state.total(),
{
    state.lemma_sent_bounded();
    if state.stage == SendStage::Finished {
        assert(state.files().take(state.index) =~= state.files());
    }
}

/// Each moment has its one kind of frame: any other is refused, and ends the
/// session.
pub proof fn law_unexpected_frame_is_refused(state: SendView, frame: FrameView)
    requires
        state.valid(),
        state.want() == SendWant::Frame,
        frame.kind != (match state.stage {
            SendStage::AwaitHelloAck => FrameKind::HelloAck,
            SendStage::AwaitAccept => FrameKind::Accept,
            _ => FrameKind::Complete,
        }),
    ensures
        state.after_frame(frame) == Err::<(SendView, SendActionView), SendErrorView>(
            SendErrorView::Protocol(
                ProtocolErrorView::Malformed("peer sent an unexpected frame"@),
            ),
        ),
        state.then_state(state.after_frame(frame)).want() == SendWant::Nothing,
{
}

/// Once the greeting is answered all files are offered, in their order, in a frame
/// that holds the encoded offer. What cannot be encoded, or does not fit into a
/// frame, is refused.
pub proof fn law_all_files_are_offered(state: SendView, payload: Seq<u8>)
    requires
        state.valid(),
        state.stage == SendStage::AwaitHelloAck,
    ensures
        ({
            let step = state.after_frame(FrameView { kind: FrameKind::HelloAck, payload });
            let files = Seq::new(state.sources.len(), |i: int| state.sources[i].offer);
            match crate::protocol::offer::encoded_offer(TransferOfferView { id: state.id, files }) {
                Err(error) => step == Err::<(SendView, SendActionView), SendErrorView>(
                    SendErrorView::Protocol(error),
                ),
                Ok(encoded) => if encoded.len() > 16_777_216 {
                    step == Err::<(SendView, SendActionView), SendErrorView>(
                        SendErrorView::Protocol(
                            ProtocolErrorView::OversizedFrame(encoded.len() as u64),
                        ),
                    )
                } else {
                    &&& step matches Ok((next, SendActionView::Reply(bytes)))
                    &&& next == SendView { stage: SendStage::AwaitAccept, ..state }
                    &&& crate::protocol::frame::parse_frame(bytes) == Ok::<
                        (FrameView, Seq<u8>),
                        ProtocolErrorView,
                    >((FrameView { kind: FrameKind::Offer, payload: encoded }, Seq::empty()))
                },
            }
        }),
{
    let files = Seq::new(state.sources.len(), |i: int| state.sources[i].offer);
    assert(files =~= state.files());
    if let Ok(encoded) = crate::protocol::offer::encoded_offer(
        TransferOfferView { id: state.id, files },
    ) {
        if encoded.len() <= 16_777_216 {
            let bytes = crate::protocol::frame::frame_bytes(FrameKind::Offer, encoded);
            crate::protocol::frame::law_frame_round_trip(FrameKind::Offer, encoded, Seq::empty());
            assert(bytes + Seq::<u8>::empty() =~= bytes);
        }
    }
}

/// An acceptance of this transfer with an offset for each file is taken as it is,
/// and the user is told how many files and bytes are sent. Any other is refused.
pub proof fn law_acceptance_is_taken(state: SendView, payload: Seq<u8>)
    requires
        state.valid(),
        state.stage == SendStage::AwaitAccept,
    ensures
        ({
            let step = state.after_frame(FrameView { kind: FrameKind::Accept, payload });
            match crate::protocol::offer::parse_accept(payload) {
                Err(error) => step == Err::<(SendView, SendActionView), SendErrorView>(
                    SendErrorView::Protocol(error),
                ),
                Ok(accept) => match step {
                    Ok((next, action)) => {
                        &&& accept.id == state.id
                        &&& accept.resume_offsets.len() == state.sources.len()
                        &&& next == SendView {
                            stage: SendStage::Between,
                            offsets: accept.resume_offsets,
                            ..state
                        }
                        &&& action == SendActionView::Started {
                            files: state.sources.len(),
                            bytes: crate::protocol::offer::sum_sizes(state.files()),
                        }
                    },
                    Err(error) => if accept.id != state.id {
                        error == malformed("accept used a different transfer ID"@)
                    } else {
                        &&& accept.resume_offsets.len() != state.sources.len()
                        &&& error == malformed("resume offset count does not match offer"@)
                    },
                },
            }
        }),
{
}

/// The files are sent one after the other, from the first to the last: between
/// files the next one is opened, and behind the last the receiver is told how many
/// there were. A file that would resume beyond its size is refused.
pub proof fn law_files_are_sent_in_turn(state: SendView)
    requires
        state.valid(),
        state.stage == SendStage::Between,
    ensures
        match state.after_turn() {
            Ok((next, SendActionView::Open(index))) => {
                &&& index == state.index && state.index < state.sources.len()
                &&& state.offsets[state.index] <= state.file().size
                &&& next == SendView { stage: SendStage::Opening, ..state }
            },
            Ok((next, SendActionView::Reply(bytes))) => {
                &&& state.index == state.sources.len()
                &&& next == SendView { stage: SendStage::AwaitComplete, ..state }
                &&& crate::protocol::frame::parse_frame(bytes) matches Ok((frame, rest))
                &&& rest.len() == 0 && frame.kind == FrameKind::Complete
                &&& crate::protocol::message::parse_complete(frame.payload) == Ok::<
                    u32,
                    ProtocolErrorView,
                >(state.sources.len() as u32)
            },
            Err(error) => {
                &&& state.index < state.sources.len()
                &&& state.offsets[state.index] > state.file().size
                &&& error == malformed("resume offset exceeds file size"@)
            },
            _ => false,
        },
{
    let count = state.sources.len() as u32;
    let payload = crate::protocol::message::complete_bytes(count);
    let bytes = crate::protocol::frame::frame_bytes(FrameKind::Complete, payload);
    crate::protocol::message::law_complete_round_trip(count, payload);
    crate::bytes::lemma_be_bytes_len(count as nat, 4);
    crate::protocol::frame::law_frame_round_trip(FrameKind::Complete, payload, Seq::empty());
    assert(bytes + Seq::<u8>::empty() =~= bytes);
}

/// A file is begun exactly where the receiver said that it resumes, if it is still
/// as long as it was offered; else it was changed, and is refused.
pub proof fn law_file_begins_at_offset(state: SendView, size: u64)
    requires
        state.valid(),
        state.stage == SendStage::Opening,
    ensures
        ({
            let agreed = state.offsets[state.index];
            match state.after_opened(size) {
                Ok((next, SendActionView::Begin { offset, reply })) => {
                    &&& size == state.file().size
                    &&& offset == agreed
                    &&& next == SendView {
                        stage: if agreed < size {
                            SendStage::Sending
                        } else {
                            SendStage::Ending
                        },
                        position: agreed as nat,
                        ..state
                    }
                    &&& crate::protocol::frame::parse_frame(reply) matches Ok((frame, rest))
                    &&& rest.len() == 0 && frame.kind == FrameKind::FileStart
                    &&& crate::protocol::message::parse_file_start(frame.payload) == Ok::<
                        (u32, u64),
                        ProtocolErrorView,
                    >((state.index as u32, agreed))
                },
                Err(error) => size != state.file().size && error == SendErrorView::SourceChanged(
                    state.sources[state.index].source,
                ),
                _ => false,
            }
        }),
{
    let index = state.index as u32;
    let offset = state.offsets[state.index];
    let payload = crate::protocol::message::file_start_bytes(index, offset);
    let bytes = crate::protocol::frame::frame_bytes(FrameKind::FileStart, payload);
    crate::protocol::message::law_file_start_round_trip(index, offset, payload);
    crate::bytes::lemma_be_bytes_len(index as nat, 4);
    crate::bytes::lemma_be_bytes_len(offset as nat, 8);
    crate::protocol::frame::law_frame_round_trip(FrameKind::FileStart, payload, Seq::empty());
    assert(bytes + Seq::<u8>::empty() =~= bytes);
}

/// The bytes that are read from a file are sent as they are, as a chunk of that
/// file, and no more are asked for than are left of it or fit into a chunk. A file
/// that ends early was changed, and is refused.
pub proof fn law_bytes_are_sent(state: SendView, bytes: Seq<u8>)
    requires
        state.valid(),
        state.stage == SendStage::Sending,
    ensures
        ({
            let left = state.file().size - state.position;
            &&& state.want() matches SendWant::Data(most)
            &&& 0 < most <= left && most <= 262_144
            &&& most == left || most == 262_144
            &&& bytes.len() <= most ==> match state.after_data(bytes) {
                Ok((next, SendActionView::Reply(reply))) => {
                    &&& bytes.len() > 0
                    &&& next == SendView {
                        stage: if bytes.len() < left {
                            SendStage::Sending
                        } else {
                            SendStage::Ending
                        },
                        position: state.position + bytes.len(),
                        ..state
                    }
                    &&& crate::protocol::frame::parse_frame(reply) matches Ok((frame, rest))
                    &&& rest.len() == 0 && frame.kind == FrameKind::FileChunk
                    &&& crate::protocol::message::parse_file_chunk(frame.payload) == Ok::<
                        (u32, Seq<u8>),
                        ProtocolErrorView,
                    >((state.index as u32, bytes))
                },
                Err(error) => bytes.len() == 0 && error == SendErrorView::SourceChanged(
                    state.sources[state.index].source,
                ),
                _ => false,
            }
        }),
{
    let index = state.index as u32;
    let payload = crate::protocol::message::file_chunk_bytes(index, bytes);
    let reply = crate::protocol::frame::frame_bytes(FrameKind::FileChunk, payload);
    crate::protocol::message::law_file_chunk_round_trip(index, bytes, payload);
    crate::bytes::lemma_be_bytes_len(index as nat, 4);
    if bytes.len() <= 262_144 {
        crate::protocol::frame::law_frame_round_trip(FrameKind::FileChunk, payload, Seq::empty());
    }
    assert(reply + Seq::<u8>::empty() =~= reply);
}

/// Behind its last byte a file is ended with its own index and hash, and the next
/// file follows.
pub proof fn law_file_is_ended(state: SendView)
    requires
        state.valid(),
        state.stage == SendStage::Ending,
        state.file().hash.len() == 32,
    ensures
        match state.after_turn() {
            Ok((next, SendActionView::Reply(bytes))) => {
                &&& next == SendView {
                    stage: SendStage::Between,
                    index: state.index + 1,
                    position: 0,
                    ..state
                }
                &&& crate::protocol::frame::parse_frame(bytes) matches Ok((frame, rest))
                &&& rest.len() == 0 && frame.kind == FrameKind::FileEnd
                &&& crate::protocol::message::parse_file_end(frame.payload) == Ok::<
                    (u32, Seq<u8>),
                    ProtocolErrorView,
                >((state.index as u32, state.file().hash))
            },
            _ => false,
        },
{
    let index = state.index as u32;
    let hash = state.file().hash;
    let payload = crate::protocol::message::file_end_bytes(index, hash);
    let bytes = crate::protocol::frame::frame_bytes(FrameKind::FileEnd, payload);
    crate::protocol::message::law_file_end_round_trip(index, hash, payload);
    crate::bytes::lemma_be_bytes_len(index as nat, 4);
    crate::protocol::frame::law_frame_round_trip(FrameKind::FileEnd, payload, Seq::empty());
    assert(bytes + Seq::<u8>::empty() =~= bytes);
}

/// The transfer is finished when the receiver counts every file; the user is told
/// how many files and bytes were sent. Any other answer is refused.
pub proof fn law_transfer_ends_counted(state: SendView, payload: Seq<u8>)
    requires
        state.valid(),
        state.stage == SendStage::AwaitComplete,
    ensures
        ({
            let step = state.after_frame(FrameView { kind: FrameKind::Complete, payload });
            match crate::protocol::message::parse_complete(payload) {
                Err(error) => step == Err::<(SendView, SendActionView), SendErrorView>(
                    SendErrorView::Protocol(error),
                ),
                Ok(count) => match step {
                    Ok((next, action)) => {
                        &&& count == state.sources.len()
                        &&& next == SendView { stage: SendStage::Finished, ..state }
                        &&& action == SendActionView::Finish {
                            files: state.sources.len(),
                            bytes: crate::protocol::offer::sum_sizes(state.files()),
                        }
                    },
                    Err(error) => count != state.sources.len() && error == malformed(
                        "completion count does not match offer"@,
                    ),
                },
            }
        }),
{
}

/// The bytes that the receiver has are counted exactly: those before the offset at
/// which a file begins, and every byte that is sent; ending a file changes nothing.
pub proof fn law_sent_is_exact(state: SendView, size: u64, bytes: Seq<u8>)
    requires
        state.valid(),
    ensures
        state.stage == SendStage::Opening && state.after_opened(size) is Ok ==> state.after_opened(
            size,
        )->Ok_0.0.sent() == state.sent() + state.offsets[state.index],
        state.stage == SendStage::Sending && state.after_data(bytes) is Ok ==> state.after_data(
            bytes,
        )->Ok_0.0.sent() == state.sent() + bytes.len(),
        state.want() == SendWant::Turn && state.after_turn() is Ok
            ==> state.after_turn()->Ok_0.0.sent() == state.sent(),
{
    if state.stage == SendStage::Ending {
        crate::protocol::offer::lemma_sum_sizes_next(state.files(), state.index);
        assert(state.after_turn()->Ok_0.0.files() =~= state.files());
    }
}

/// An error ends the session, whatever it is: nothing more is waited for, and what
/// was agreed and counted stays as it was.
pub proof fn law_error_ends_session(state: SendView, error: SendErrorView)
    ensures
        ({
            let next = state.then_state(Err(error));
            &&& next.want() == SendWant::Nothing
            &&& next.stage == SendStage::Failed
            &&& next.id == state.id && next.sources == state.sources
            &&& next.offsets == state.offsets && next.index == state.index
            &&& next.position == state.position
            &&& next.sent() == state.sent() && next.total() == state.total()
        }),
{
}

} // verus!
