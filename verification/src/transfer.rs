//! Both sides of a transfer together: what a sender and a receiver bring about
//! when each does what its session says.
//!
//! Everything here is stated about the views of the two sessions. A disk that
//! nobody else writes to stands beside the receiver, and the network keeps the
//! order of the frames.

use vstd::prelude::*;

use crate::protocol::{
    FileOfferView, FrameKind, FrameView, ProtocolErrorView, TransferAcceptView, TransferOfferView,
    MAX_FILES,
};
use crate::receiver::session::{
    ReceiveActionView, ReceiveStage, ReceiveStep, ReceiveView, ReceiveWant,
};
use crate::receiver::ReceiveErrorView;
use crate::sender::session::{SendActionView, SendStage, SendStep, SendView, SendWant};
use crate::sender::source::SourceFileView;

verus! {

/// The receiver, its disk, and what it has answered so far.
#[verifier::ext_equal]
pub struct Side {
    pub receiver: ReceiveView,
    /// What the partial file of each offered file holds.
    pub partials: Seq<Seq<u8>>,
    /// The files whose partial file is marked as wrong.
    pub failed: Set<int>,
    /// What the files hold that got their final names.
    pub published: Seq<Seq<u8>>,
    /// The frames that were sent to the sender, from the first on.
    pub replies: Seq<FrameView>,
}

/// A transfer at one moment.
#[verifier::ext_equal]
pub struct Transfer {
    pub sender: SendView,
    /// How many of the receiver's frames the sender has taken.
    pub taken: nat,
    pub side: Side,
    /// The frames that are on their way to the receiver.
    pub queue: Seq<FrameView>,
}

/// What can happen next. Where bytes are read from a disk, the number says how
/// many the disk hands out.
pub enum Move {
    /// The receiver takes a frame.
    ReceiverFrame,
    /// The receiver works with its disk.
    ReceiverDisk(nat),
    /// The sender takes a frame.
    SenderFrame,
    /// The sender goes on, or works with its disk.
    SenderLocal(nat),
}

/// The frame that written bytes are read as.
pub open spec fn frame_of(bytes: Seq<u8>) -> FrameView {
    crate::protocol::frame::parse_frame(bytes)->Ok_0.0
}

impl Side {
    /// What a step of the session does to the disk, and what it answers.
    pub open spec fn after(self, step: ReceiveStep) -> Side {
        let index = self.receiver.index;
        match step {
            Err(error) => Side {
                receiver: self.receiver.then_state(step),
                failed: if error is HashMismatch {
                    self.failed.insert(index)
                } else {
                    self.failed
                },
                ..self
            },
            Ok((state, action)) => match action {
                ReceiveActionView::Reply(bytes) => Side {
                    receiver: state,
                    replies: self.replies.push(frame_of(bytes)),
                    ..self
                },
                ReceiveActionView::Planned { offset, restart, accept } => Side {
                    receiver: state,
                    partials: if restart {
                        self.partials.update(self.receiver.resume.len() as int, Seq::empty())
                    } else {
                        self.partials
                    },
                    failed: if restart {
                        self.failed.remove(self.receiver.resume.len() as int)
                    } else {
                        self.failed
                    },
                    replies: match accept {
                        Some(bytes) => self.replies.push(frame_of(bytes)),
                        None => self.replies,
                    },
                    ..self
                },
                ReceiveActionView::Store(bytes) => Side {
                    receiver: state,
                    partials: self.partials.update(
                        index,
                        crate::receiver::safety::written(self.partials[index], self.receiver.absorbed.len(), bytes),
                    ),
                    ..self
                },
                ReceiveActionView::Publish(published) => Side {
                    receiver: state,
                    published: self.published.push(self.partials[published]),
                    ..self
                },
                ReceiveActionView::Finish { reply, files, bytes } => Side {
                    receiver: state,
                    replies: self.replies.push(frame_of(reply)),
                    ..self
                },
                _ => Side { receiver: state, ..self },
            },
        }
    }

    /// The next `count` bytes of the partial file that is being read.
    pub open spec fn prefix(self, count: nat) -> Seq<u8> {
        let known = self.receiver.absorbed.len() as int;
        self.partials[self.receiver.index].subrange(known, known + count)
    }

    /// The receiver after it worked with its disk once.
    pub open spec fn after_disk(self, count: nat) -> Side {
        match self.receiver.want() {
            ReceiveWant::Partial => self.after(
                self.receiver.after_partial(
                    Some(self.partials[self.receiver.resume.len() as int].len() as u64),
                    self.failed.contains(self.receiver.resume.len() as int),
                ),
            ),
            ReceiveWant::Prefix(_) => self.after(self.receiver.after_prefix(self.prefix(count))),
            _ => self.after(
                self.receiver.after_digest(
                    crate::digest::blake3_digest(self.receiver.absorbed),
                ),
            ),
        }
    }

    /// The receiver after it took a frame.
    pub open spec fn after_frame(self, frame: FrameView) -> Side {
        self.after(self.receiver.after_frame(frame))
    }

    /// The receiver after all that it can do without a frame.
    pub open spec fn settled(self) -> Side
        decreases self.receiver.files.len() - self.receiver.resume.len(),
    {
        match self.receiver.want() {
            ReceiveWant::Partial => if self.receiver.resume.len() < self.receiver.files.len() {
                self.after_disk(0).settled()
            } else {
                self
            },
            ReceiveWant::Prefix(_) => self.after_disk(
                (self.receiver.resume[self.receiver.index] - self.receiver.absorbed.len()) as nat,
            ),
            ReceiveWant::Sync => self.after_disk(0),
            _ => self,
        }
    }

    /// The receiver after it took a frame and did all that it then can do.
    pub open spec fn took(self, frame: FrameView) -> Side {
        if self.receiver.want() == ReceiveWant::Frame {
            self.after_frame(frame).settled()
        } else {
            self
        }
    }

    /// The receiver after it took all of `frames`.
    pub open spec fn took_all(self, frames: Seq<FrameView>) -> Side
        decreases frames.len(),
    {
        if frames.len() == 0 {
            self.settled()
        } else {
            self.took_all(frames.drop_last()).took(frames.last())
        }
    }
}

impl Transfer {
    /// The sender after a step of its session, with the frame that it sends.
    pub open spec fn after_send(self, step: SendStep) -> Transfer {
        let sender = self.sender.then_state(step);
        match step {
            Ok((_, SendActionView::Reply(bytes))) => Transfer {
                sender,
                queue: self.queue.push(frame_of(bytes)),
                ..self
            },
            Ok((_, SendActionView::Begin { offset, reply })) => Transfer {
                sender,
                queue: self.queue.push(frame_of(reply)),
                ..self
            },
            _ => Transfer { sender, ..self },
        }
    }

    /// The step of a sender that goes on, or works with its disk.
    pub open spec fn local_step(self, contents: Seq<Seq<u8>>, count: nat) -> SendStep {
        let index = self.sender.index;
        let position = self.sender.position as int;
        match self.sender.want() {
            SendWant::Opened => self.sender.after_opened(contents[index].len() as u64),
            SendWant::Data(_) => self.sender.after_data(
                contents[index].subrange(position, position + count),
            ),
            _ => self.sender.after_turn(),
        }
    }

    /// Whether a move can be made.
    pub open spec fn enabled(self, contents: Seq<Seq<u8>>, next: Move) -> bool {
        match next {
            Move::ReceiverFrame => {
                &&& self.side.receiver.want() == ReceiveWant::Frame
                &&& self.queue.len() > 0
            },
            Move::ReceiverDisk(count) => match self.side.receiver.want() {
                ReceiveWant::Partial => true,
                ReceiveWant::Sync => true,
                ReceiveWant::Prefix(most) => {
                    &&& 0 < count <= most
                    &&& self.side.receiver.absorbed.len() + count
                        <= self.side.partials[self.side.receiver.index].len()
                },
                _ => false,
            },
            Move::SenderFrame => {
                &&& self.sender.want() == SendWant::Frame
                &&& self.taken < self.side.replies.len()
            },
            Move::SenderLocal(count) => match self.sender.want() {
                SendWant::Turn => true,
                SendWant::Opened => true,
                SendWant::Data(most) => {
                    &&& 0 < count <= most
                    &&& self.sender.position + count <= contents[self.sender.index].len()
                },
                _ => false,
            },
        }
    }

    /// The transfer after a move.
    pub open spec fn after(self, contents: Seq<Seq<u8>>, next: Move) -> Transfer {
        match next {
            Move::ReceiverFrame => Transfer {
                side: self.side.after_frame(self.queue[0]),
                queue: self.queue.drop_first(),
                ..self
            },
            Move::ReceiverDisk(count) => Transfer { side: self.side.after_disk(count), ..self },
            Move::SenderFrame => Transfer { taken: self.taken + 1, ..self }.after_send(
                self.sender.after_frame(self.side.replies[self.taken as int]),
            ),
            Move::SenderLocal(count) => self.after_send(self.local_step(contents, count)),
        }
    }

    /// A transfer whose greeting is on its way.
    pub open spec fn begun(
        id: Seq<u8>,
        sources: Seq<SourceFileView>,
        partials: Seq<Seq<u8>>,
        failed: Set<int>,
    ) -> Transfer {
        Transfer {
            sender: SendView::initial(id, sources),
            taken: 0,
            side: Side {
                receiver: ReceiveView::initial(),
                partials,
                failed,
                published: Seq::empty(),
                replies: Seq::empty(),
            },
            queue: seq![FrameView { kind: FrameKind::Hello, payload: Seq::empty() }],
        }
    }

    /// Whether both sides are done, and the receiver's files hold `contents`.
    pub open spec fn complete(self, contents: Seq<Seq<u8>>) -> bool {
        &&& self.sender.stage == SendStage::Finished
        &&& self.side.receiver.stage == ReceiveStage::Finished
        &&& self.side.published == contents
    }
}

/// Whether files can be offered and hold what is offered of them. No two are
/// offered under one path, so that each has a partial file of its own, and none
/// is offered into the directory of the partial files, which would be refused.
pub open spec fn sendable(
    id: Seq<u8>,
    sources: Seq<SourceFileView>,
    contents: Seq<Seq<u8>>,
) -> bool {
    let files = crate::sender::source::offered(sources);
    &&& id.len() == 16
    &&& 0 < sources.len() <= MAX_FILES
    &&& contents.len() == sources.len()
    &&& crate::sender::source::offered_paths(sources).no_duplicates()
    &&& crate::protocol::offer::sum_sizes(files) <= u64::MAX
    &&& crate::protocol::offer::encoded_offer(
        TransferOfferView { id, files },
    )->Ok_0.len() <= crate::protocol::frame::payload_limit(FrameKind::Offer)
    &&& forall|i: int|
        0 <= i < sources.len() ==> {
            &&& crate::protocol::offer::travels(#[trigger] files[i])
            &&& !crate::receiver::destination::in_partials(files[i].path)
            &&& contents[i].len() == files[i].size
            &&& crate::digest::blake3_digest(contents[i]) == files[i].hash
        }
}

/// Whether a partial file is of use: it is marked as wrong or too long, so that
/// it is emptied, or it is a first part of the file.
pub open spec fn usable(partial: Seq<u8>, failed: bool, content: Seq<u8>) -> bool {
    &&& partial.len() <= u64::MAX
    &&& failed || partial.len() > content.len() || partial == content.take(partial.len() as int)
}

/// Whether the receiver is about to get the file at `index`, has every file
/// before it, and a first part of every file behind it.
pub open spec fn at_file(
    side: Side,
    id: Seq<u8>,
    files: Seq<FileOfferView>,
    contents: Seq<Seq<u8>>,
    index: int,
) -> bool {
    let state = side.receiver;
    &&& 0 <= index <= contents.len()
    &&& state.stage == (if index < contents.len() {
        ReceiveStage::AwaitStart
    } else {
        ReceiveStage::AwaitComplete
    })
    &&& state.absorbed == Seq::<u8>::empty()
    &&& in_transfer(side, id, files, contents, index)
    &&& index < contents.len() ==> side.partials[index] == contents[index].take(
        state.resume[index] as int,
    )
}

/// Whether the receiver is at the file at `index`, has every file before it,
/// and a first part of every file behind it.
pub open spec fn in_transfer(
    side: Side,
    id: Seq<u8>,
    files: Seq<FileOfferView>,
    contents: Seq<Seq<u8>>,
    index: int,
) -> bool {
    let state = side.receiver;
    &&& state.valid()
    &&& state.id == id
    &&& state.files == files
    &&& state.resume.len() == contents.len()
    &&& state.index == index
    &&& side.partials.len() == contents.len()
    &&& side.published == contents.take(index)
    &&& forall|i: int|
        index < i < contents.len() ==> #[trigger] side.partials[i] == contents[i].take(
            state.resume[i] as int,
        )
}

/// Whether the receiver, once it took all that is on its way, is where the
/// sender believes it to be.
pub open spec fn agrees(
    sender: SendView,
    taken: nat,
    side: Side,
    id: Seq<u8>,
    contents: Seq<Seq<u8>>,
) -> bool {
    let files = sender.files();
    let state = side.receiver;
    let hello_ack = FrameView { kind: FrameKind::HelloAck, payload: Seq::empty() };
    let accept = FrameView {
        kind: FrameKind::Accept,
        payload: crate::protocol::offer::encoded_accept(
            TransferAcceptView { id, resume_offsets: state.resume },
        )->Ok_0,
    };
    let complete = FrameView {
        kind: FrameKind::Complete,
        payload: crate::protocol::message::complete_bytes(contents.len() as u32),
    };
    &&& sendable(id, sender.sources, contents)
    &&& sender.valid()
    &&& sender.id == id
    &&& match sender.stage {
        SendStage::AwaitHelloAck => {
            &&& taken == 0
            &&& side.replies == seq![hello_ack]
            &&& state == ReceiveView { stage: ReceiveStage::AwaitOffer, ..ReceiveView::initial() }
            &&& side.partials.len() == contents.len()
            &&& side.published == Seq::<Seq<u8>>::empty()
            &&& forall|i: int|
                0 <= i < contents.len() ==> usable(
                    #[trigger] side.partials[i],
                    side.failed.contains(i),
                    contents[i],
                )
        },
        SendStage::AwaitAccept => {
            &&& taken == 1
            &&& side.replies == seq![hello_ack, accept]
            &&& at_file(side, id, files, contents, 0)
        },
        SendStage::Between => {
            &&& taken == 2
            &&& side.replies == seq![hello_ack, accept]
            &&& sender.offsets == state.resume
            &&& at_file(side, id, files, contents, sender.index)
        },
        SendStage::Opening => {
            &&& taken == 2
            &&& side.replies == seq![hello_ack, accept]
            &&& sender.offsets == state.resume
            &&& at_file(side, id, files, contents, sender.index)
        },
        SendStage::Sending | SendStage::Ending => {
            &&& taken == 2
            &&& side.replies == seq![hello_ack, accept]
            &&& sender.offsets == state.resume
            &&& in_transfer(side, id, files, contents, sender.index)
            &&& state.stage == (if sender.stage == SendStage::Sending {
                ReceiveStage::Receiving
            } else {
                ReceiveStage::AwaitEnd
            })
            &&& state.absorbed == contents[sender.index].take(sender.position as int)
            &&& side.partials[sender.index] == state.absorbed
        },
        SendStage::AwaitComplete => {
            &&& taken == 2
            &&& side.replies == seq![hello_ack, accept, complete]
            &&& state.stage == ReceiveStage::Finished
            &&& side.published == contents
        },
        SendStage::Finished => {
            &&& taken == 3
            &&& side.replies == seq![hello_ack, accept, complete]
            &&& state.stage == ReceiveStage::Finished
            &&& side.published == contents
        },
        SendStage::Failed => false,
    }
}

/// Whether the receiver has answered what it must have answered by now.
pub open spec fn answered_so_far(side: Side) -> bool {
    match side.receiver.stage {
        ReceiveStage::AwaitHello => side.replies.len() == 0,
        ReceiveStage::AwaitOffer | ReceiveStage::Planning => side.replies.len() == 1,
        ReceiveStage::Finished => side.replies.len() == 3,
        ReceiveStage::Failed => true,
        _ => side.replies.len() == 2,
    }
}

/// Whether the receiver works on `files`, has published those before the one
/// that it is at, and its partial files are as long as it believes: those of the
/// files that it has not begun to write to.
pub open spec fn disk_fits(side: Side, files: Seq<FileOfferView>) -> bool {
    let state = side.receiver;
    let count = files.len();
    let untouched = match state.stage {
        ReceiveStage::Planning | ReceiveStage::AwaitStart | ReceiveStage::Rehashing => state.index,
        _ => state.index + 1,
    };
    &&& side.partials.len() == count
    &&& state.stage != ReceiveStage::Failed ==> side.published.len() == state.index
    &&& match state.stage {
        ReceiveStage::AwaitHello | ReceiveStage::AwaitOffer => forall|i: int|
            0 <= i < count ==> (#[trigger] side.partials[i]).len() <= u64::MAX,
        ReceiveStage::Failed => true,
        _ => {
            &&& state.files == files
            &&& forall|i: int|
                untouched <= i < state.resume.len() ==> (#[trigger] side.partials[i]).len()
                    == state.resume[i]
            &&& forall|i: int|
                state.resume.len() <= i < count ==> (#[trigger] side.partials[i]).len() <= u64::MAX
        },
    }
}

/// The frame with which the files are offered.
pub open spec fn offer_frame(sender: SendView) -> FrameView {
    FrameView {
        kind: FrameKind::Offer,
        payload: crate::protocol::offer::encoded_offer(
            TransferOfferView { id: sender.id, files: sender.files() },
        )->Ok_0,
    }
}

/// What holds of a transfer of `contents` at every moment.
pub open spec fn on_course(transfer: Transfer, id: Seq<u8>, contents: Seq<Seq<u8>>) -> bool {
    &&& transfer.side.receiver.valid()
    &&& answered_so_far(transfer.side)
    &&& disk_fits(transfer.side, transfer.sender.files())
    &&& transfer.taken <= transfer.side.replies.len()
    &&& forall|i: int|
        0 <= i < transfer.queue.len() ==> ((#[trigger] transfer.queue[i]).kind == FrameKind::Offer
            ==> transfer.queue[i] == offer_frame(transfer.sender))
    &&& agrees(
        transfer.sender,
        transfer.taken,
        transfer.side.took_all(transfer.queue),
        id,
        contents,
    )
}

/// A written frame is read as that frame.
proof fn lemma_frame_of(kind: FrameKind, payload: Seq<u8>)
    requires
        payload.len() <= crate::protocol::frame::payload_limit(kind),
        kind != FrameKind::Error,
    ensures
        frame_of(crate::protocol::frame::frame_bytes(kind, payload)) == (FrameView { kind, payload }),
{
    let bytes = crate::protocol::frame::frame_bytes(kind, payload);
    assert(bytes + Seq::<u8>::empty() =~= bytes);
    crate::protocol::frame::law_frame_round_trip(kind, payload, Seq::empty());
}

/// A settled receiver has nothing to do without a frame.
proof fn lemma_settled_is_settled(side: Side)
    requires
        side.receiver.want() == ReceiveWant::Frame || side.receiver.want() == ReceiveWant::Nothing,
    ensures
        side.settled() == side,
{
}

/// What the receiver will have done depends on what it can do now.
proof fn lemma_took_all_settled(left: Side, right: Side, frames: Seq<FrameView>)
    requires
        left.settled() == right.settled(),
    ensures
        left.took_all(frames) == right.took_all(frames),
    decreases frames.len(),
{
    if frames.len() > 0 {
        lemma_took_all_settled(left, right, frames.drop_last());
    }
}

/// Taking the first frame now changes nothing of what the receiver will have
/// done.
proof fn lemma_took_all_first(side: Side, frames: Seq<FrameView>)
    requires
        side.receiver.want() == ReceiveWant::Frame,
        frames.len() > 0,
    ensures
        side.took_all(frames) == side.after_frame(frames[0]).took_all(frames.drop_first()),
    decreases frames.len(),
{
    let next = side.after_frame(frames[0]);
    if frames.len() == 1 {
        assert(frames.drop_first().len() == 0);
        assert(frames.drop_last().len() == 0);
        assert(side.took_all(frames.drop_last()) == side);
        assert(next.took_all(frames.drop_first()) == next.settled());
    } else {
        lemma_took_all_first(side, frames.drop_last());
        assert(frames.drop_last()[0] == frames[0]);
        assert(frames.drop_first().drop_last() =~= frames.drop_last().drop_first());
        assert(frames.drop_first().last() == frames.last());
    }
}

/// Working with the disk now changes nothing of what the receiver will have
/// done.
proof fn lemma_disk_settled(side: Side, count: nat, files: Seq<FileOfferView>)
    requires
        side.receiver.valid(),
        disk_fits(side, files),
        match side.receiver.want() {
            ReceiveWant::Partial => true,
            ReceiveWant::Sync => true,
            ReceiveWant::Prefix(most) => 0 < count <= most && side.receiver.absorbed.len() + count
                <= side.partials[side.receiver.index].len(),
            _ => false,
        },
    ensures
        side.after_disk(count).settled() == side.settled(),
{
    let state = side.receiver;
    match state.want() {
        ReceiveWant::Prefix(_) => {
            let next = side.after_disk(count);
            let left = (state.resume[state.index] - state.absorbed.len()) as nat;
            assert(count <= left);
            if count < left {
                let rest = (left - count) as nat;
                assert(next.receiver.stage == ReceiveStage::Rehashing);
                assert(next.receiver.absorbed.len() == state.absorbed.len() + count);
                assert(next.receiver.absorbed + next.prefix(rest) =~= state.absorbed + side.prefix(
                    left,
                ));
                assert(next.settled() =~= side.settled());
            } else {
                assert(next.receiver.stage != ReceiveStage::Rehashing);
                lemma_settled_is_settled(next);
            }
        },
        ReceiveWant::Sync => {
            let next = side.after_disk(count);
            lemma_settled_is_settled(next);
        },
        _ => {},
    }
}

/// What was answered stays answered.
proof fn lemma_settled_replies(side: Side)
    ensures
        side.replies.len() <= side.settled().replies.len(),
        side.settled().replies.take(side.replies.len() as int) == side.replies,
    decreases side.receiver.files.len() - side.receiver.resume.len(),
{
    if side.receiver.want() == ReceiveWant::Partial && side.receiver.resume.len()
        < side.receiver.files.len() {
        let next = side.after_disk(0);
        lemma_settled_replies(next);
        assert(next.replies.take(side.replies.len() as int) =~= side.replies);
        assert(side.settled().replies.take(side.replies.len() as int) =~= next.replies.take(
            side.replies.len() as int,
        )) by {
            assert forall|i: int| 0 <= i < side.replies.len() implies side.settled().replies[i]
                == next.replies[i] by {
                assert(next.settled().replies.take(next.replies.len() as int)[i]
                    == next.replies[i]);
            }
        }
    } else {
        assert(side.settled().replies.take(side.replies.len() as int) =~= side.replies);
    }
}

/// What was answered stays answered, whatever frames come.
proof fn lemma_took_all_replies(side: Side, frames: Seq<FrameView>)
    ensures
        side.replies.len() <= side.took_all(frames).replies.len(),
        side.took_all(frames).replies.take(side.replies.len() as int) == side.replies,
    decreases frames.len(),
{
    if frames.len() == 0 {
        lemma_settled_replies(side);
    } else {
        let before = side.took_all(frames.drop_last());
        lemma_took_all_replies(side, frames.drop_last());
        if before.receiver.want() == ReceiveWant::Frame {
            let next = before.after_frame(frames.last());
            lemma_settled_replies(next);
            assert(next.replies.take(before.replies.len() as int) =~= before.replies);
            let after = next.settled();
            assert forall|i: int| 0 <= i < side.replies.len() implies after.replies[i]
                == side.replies[i] by {
                assert(after.replies.take(next.replies.len() as int)[i] == next.replies[i]);
                assert(next.replies.take(before.replies.len() as int)[i] == before.replies[i]);
                assert(before.replies.take(side.replies.len() as int)[i] == side.replies[i]);
            }
            assert(after.replies.take(side.replies.len() as int) =~= side.replies);
        }
    }
}

/// What an honest sender offers is read as that.
proof fn lemma_offer_read(sender: SendView, id: Seq<u8>, contents: Seq<Seq<u8>>)
    requires
        sendable(id, sender.sources, contents),
        sender.id == id,
    ensures
        crate::protocol::offer::encoded_offer(
            TransferOfferView { id, files: sender.files() },
        ) is Ok,
        crate::protocol::offer::parse_offer(offer_frame(sender).payload) == Ok::<
            TransferOfferView,
            ProtocolErrorView,
        >(TransferOfferView { id, files: sender.files() }),
        crate::receiver::destination::first_in_partials(sender.files()) is None,
{
    let offer = TransferOfferView { id, files: sender.files() };
    crate::receiver::destination::lemma_none_in_partials(offer.files);
    assert forall|i: int| 0 <= i < offer.files.len() implies crate::protocol::offer::travels(
        #[trigger] offer.files[i],
    ) by {}
    crate::protocol::offer::law_offer_round_trip(offer);
}

/// Taking a frame keeps the receiver and its disk in step.
proof fn lemma_frame_keeps(
    side: Side,
    frame: FrameView,
    sender: SendView,
    id: Seq<u8>,
    contents: Seq<Seq<u8>>,
)
    requires
        side.receiver.valid(),
        answered_so_far(side),
        disk_fits(side, sender.files()),
        side.receiver.want() == ReceiveWant::Frame,
        frame.kind == FrameKind::Offer ==> frame == offer_frame(sender),
        sendable(id, sender.sources, contents),
        sender.id == id,
    ensures
        side.after_frame(frame).receiver.valid(),
        answered_so_far(side.after_frame(frame)),
        disk_fits(side.after_frame(frame), sender.files()),
{
    let state = side.receiver;
    let next = side.after_frame(frame);
    crate::receiver::session::law_valid_after_frame(state, frame);
    if state.after_frame(frame) is Ok {
        match state.stage {
            ReceiveStage::AwaitOffer => {
                lemma_offer_read(sender, id, contents);
            },
            ReceiveStage::Receiving => {
                assert forall|i: int|
                    state.index < i < state.resume.len() implies (#[trigger] next.partials[i]).len()
                    == next.receiver.resume[i] by {
                    assert(next.partials[i] == side.partials[i]);
                }
            },
            _ => {},
        }
    }
}

/// Working with the disk keeps the receiver and its disk in step.
proof fn lemma_disk_keeps(side: Side, count: nat, files: Seq<FileOfferView>)
    requires
        side.receiver.valid(),
        answered_so_far(side),
        disk_fits(side, files),
        match side.receiver.want() {
            ReceiveWant::Partial => true,
            ReceiveWant::Sync => true,
            ReceiveWant::Prefix(_) => 0 < count && side.receiver.absorbed.len() + count
                <= side.partials[side.receiver.index].len(),
            _ => false,
        },
    ensures
        side.after_disk(count).receiver.valid(),
        answered_so_far(side.after_disk(count)),
        disk_fits(side.after_disk(count), files),
{
    let state = side.receiver;
    let next = side.after_disk(count);
    match state.want() {
        ReceiveWant::Partial => {
            let j = state.resume.len() as int;
            let length = side.partials[j].len() as u64;
            crate::receiver::session::law_valid_after_partial(
        state,
        Some(length),
        side.failed.contains(j),
    );
            assert(side.partials[j].len() == length);
            assert forall|i: int| 0 <= i < next.receiver.resume.len() implies (
            #[trigger] next.partials[i]).len() == next.receiver.resume[i] by {
                if i < j {
                    assert(next.partials[i] == side.partials[i]);
                }
            }
            assert forall|i: int| next.receiver.resume.len() <= i < files.len() implies (
            #[trigger] next.partials[i]).len() <= u64::MAX by {
                assert(next.partials[i] == side.partials[i]);
            }
        },
        ReceiveWant::Prefix(_) => {
            crate::receiver::session::law_valid_after_prefix(state, side.prefix(count));
        },
        _ => {
            let digest = crate::digest::blake3_digest(state.absorbed);
            crate::receiver::session::law_valid_after_digest(state, digest);
        },
    }
}

/// When every partial file is of use, the receiver accepts the offer and is
/// about to get the first file.
proof fn lemma_planning(side: Side, id: Seq<u8>, files: Seq<FileOfferView>, contents: Seq<Seq<u8>>)
    requires
        side.receiver.valid(),
        side.receiver.stage == ReceiveStage::Planning,
        side.receiver.id == id,
        side.receiver.files == files,
        side.receiver.absorbed == Seq::<u8>::empty(),
        side.partials.len() == contents.len(),
        side.published == Seq::<Seq<u8>>::empty(),
        files.len() == contents.len(),
        id.len() == 16,
        contents.len() <= MAX_FILES,
        forall|i: int| 0 <= i < contents.len() ==> contents[i].len() == (#[trigger] files[i]).size,
        forall|i: int|
            0 <= i < side.receiver.resume.len() ==> #[trigger] side.partials[i]
                == contents[i].take(side.receiver.resume[i] as int),
        forall|i: int|
            side.receiver.resume.len() <= i < contents.len() ==> usable(
                #[trigger] side.partials[i],
                side.failed.contains(i),
                contents[i],
            ),
    ensures
        at_file(side.settled(), id, files, contents, 0),
        side.settled().replies == side.replies.push(
            FrameView {
                kind: FrameKind::Accept,
                payload: crate::protocol::offer::encoded_accept(
                    TransferAcceptView { id, resume_offsets: side.settled().receiver.resume },
                )->Ok_0,
            },
        ),
    decreases files.len() - side.receiver.resume.len(),
{
    let state = side.receiver;
    let j = state.resume.len() as int;
    let length = side.partials[j].len() as u64;
    let next = side.after_disk(0);
    crate::receiver::session::law_valid_after_partial(
        state,
        Some(length),
        side.failed.contains(j),
    );
    assert(usable(side.partials[j], side.failed.contains(j), contents[j]));
    assert(contents[j].len() == files[j].size);
    let offset = next.receiver.resume[j];
    assert(next.partials[j] =~= contents[j].take(offset as int));
    assert forall|i: int| 0 <= i < next.receiver.resume.len() implies #[trigger] next.partials[i]
        == contents[i].take(next.receiver.resume[i] as int) by {
        if i < j {
            assert(next.partials[i] == side.partials[i]);
        }
    }
    assert forall|i: int| next.receiver.resume.len() <= i < contents.len() implies usable(
        #[trigger] next.partials[i],
        next.failed.contains(i),
        contents[i],
    ) by {
        assert(next.partials[i] == side.partials[i]);
    }
    if next.receiver.resume.len() < files.len() {
        lemma_planning(next, id, files, contents);
    } else {
        let accept = TransferAcceptView { id, resume_offsets: next.receiver.resume };
        let payload = crate::protocol::offer::encoded_accept(accept)->Ok_0;
        crate::protocol::offer::lemma_offset_bytes_len(next.receiver.resume);
        crate::bytes::lemma_be_bytes_len(next.receiver.resume.len(), 4);
        lemma_frame_of(FrameKind::Accept, payload);
        lemma_settled_is_settled(next);
        assert(next.published =~= contents.take(0));
    }
}

/// The sender takes the answer to its greeting: the receiver will accept the
/// offer.
proof fn lemma_after_hello_ack(sender: SendView, side: Side, id: Seq<u8>, contents: Seq<Seq<u8>>)
    requires
        agrees(sender, 0, side, id, contents),
        sender.stage == SendStage::AwaitHelloAck,
    ensures
        match sender.after_frame(side.replies[0]) {
            Ok((next, SendActionView::Reply(bytes))) => {
                &&& frame_of(bytes) == offer_frame(sender)
                &&& next.sources == sender.sources
                &&& next.stage == SendStage::AwaitAccept
                &&& agrees(next, 1, side.took(frame_of(bytes)), id, contents)
            },
            _ => false,
        },
{
    let files = sender.files();
    let frame = offer_frame(sender);
    lemma_offer_read(sender, id, contents);
    lemma_frame_of(FrameKind::Offer, frame.payload);
    crate::sender::session::law_valid_after_frame(sender, side.replies[0]);
    crate::receiver::session::law_valid_after_frame(side.receiver, frame);
    let planning = side.after_frame(frame);
    assert(planning.receiver.resume =~= Seq::empty());
    assert(planning.receiver.absorbed =~= Seq::empty());
    assert forall|i: int| 0 <= i < contents.len() implies contents[i].len() == (
    #[trigger] files[i]).size by {}
    lemma_planning(planning, id, files, contents);
    let took = planning.settled();
    assert(took.replies =~= seq![side.replies[0], took.replies[1]]);
}

/// The sender takes the acceptance.
proof fn lemma_after_accept(sender: SendView, side: Side, id: Seq<u8>, contents: Seq<Seq<u8>>)
    requires
        agrees(sender, 1, side, id, contents),
        sender.stage == SendStage::AwaitAccept,
    ensures
        match sender.after_frame(side.replies[1]) {
            Ok((next, SendActionView::Started { files, bytes })) => {
                &&& next.sources == sender.sources
                &&& next.stage == SendStage::Between
                &&& agrees(next, 2, side, id, contents)
            },
            _ => false,
        },
{
    let accept = TransferAcceptView { id, resume_offsets: side.receiver.resume };
    crate::protocol::offer::law_accept_round_trip(
        accept,
        crate::protocol::offer::encoded_accept(accept)->Ok_0,
    );
    crate::sender::session::law_valid_after_frame(sender, side.replies[1]);
}

/// The sender begins the next file.
proof fn lemma_after_begin(sender: SendView, side: Side, id: Seq<u8>, contents: Seq<Seq<u8>>)
    requires
        agrees(sender, 2, side, id, contents),
        sender.stage == SendStage::Between,
        sender.index < sender.sources.len(),
    ensures
        match sender.after_turn() {
            Ok((next, SendActionView::Open(index))) => {
                &&& next.sources == sender.sources
                &&& next.stage == SendStage::Opening
                &&& agrees(next, 2, side, id, contents)
            },
            _ => false,
        },
{
    assert(side.receiver.resume[sender.index] <= side.receiver.files[sender.index].size);
    assert(sender.files()[sender.index] == sender.file());
    crate::sender::session::law_valid_after_turn(sender);
}

/// The sender has opened a file: the receiver will know the first part of it.
proof fn lemma_after_opened(sender: SendView, side: Side, id: Seq<u8>, contents: Seq<Seq<u8>>)
    requires
        agrees(sender, 2, side, id, contents),
        sender.stage == SendStage::Opening,
    ensures
        match sender.after_opened(contents[sender.index].len() as u64) {
            Ok((next, SendActionView::Begin { offset, reply })) => {
                &&& frame_of(reply).kind == FrameKind::FileStart
                &&& next.sources == sender.sources
                &&& next.stage == SendStage::Sending || next.stage == SendStage::Ending
                &&& agrees(next, 2, side.took(frame_of(reply)), id, contents)
            },
            _ => false,
        },
{
    let k = sender.index;
    let files = sender.files();
    let state = side.receiver;
    let offset = sender.offsets[k];
    assert(files[k] == sender.file());
    assert(crate::protocol::offer::travels(files[k]));
    assert(contents[k].len() == files[k].size);
    assert(state.resume[k] <= state.files[k].size);
    crate::sender::session::law_valid_after_opened(sender, contents[k].len() as u64);
    let payload = crate::protocol::message::file_start_bytes(k as u32, offset);
    crate::bytes::lemma_be_bytes_len(k as nat, 4);
    crate::bytes::lemma_be_bytes_len(offset as nat, 8);
    lemma_frame_of(FrameKind::FileStart, payload);
    crate::protocol::message::law_file_start_round_trip(k as u32, offset, payload);
    let frame = FrameView { kind: FrameKind::FileStart, payload };
    crate::receiver::session::law_valid_after_frame(state, frame);
    let started = side.after_frame(frame);
    let took = started.settled();
    let content = contents[k];
    if offset > 0 {
        assert(started.receiver.stage == ReceiveStage::Rehashing);
        assert(started.prefix(offset as nat) =~= content.take(offset as int));
        assert(Seq::<u8>::empty() + content.take(offset as int) =~= content.take(offset as int));
        assert(took.receiver.absorbed =~= content.take(offset as int));
    } else {
        lemma_settled_is_settled(started);
        assert(took.receiver.absorbed =~= content.take(0));
    }
    assert(took.receiver.valid());
}

/// The sender sends a chunk.
proof fn lemma_after_data(
    sender: SendView,
    side: Side,
    id: Seq<u8>,
    contents: Seq<Seq<u8>>,
    count: nat,
)
    requires
        agrees(sender, 2, side, id, contents),
        sender.stage == SendStage::Sending,
        sender.want() matches SendWant::Data(most) && 0 < count <= most,
    ensures
        match sender.after_data(
            contents[sender.index].subrange(
                sender.position as int,
                (sender.position + count) as int,
            ),
        ) {
            Ok((next, SendActionView::Reply(bytes))) => {
                &&& frame_of(bytes).kind == FrameKind::FileChunk
                &&& next.sources == sender.sources
                &&& next.stage == SendStage::Sending || next.stage == SendStage::Ending
                &&& agrees(next, 2, side.took(frame_of(bytes)), id, contents)
            },
            _ => false,
        },
{
    let k = sender.index;
    let content = contents[k];
    let state = side.receiver;
    let files = sender.files();
    assert(files[k] == sender.file());
    assert(crate::protocol::offer::travels(files[k]));
    assert(content.len() == files[k].size);
    let position = sender.position as int;
    let bytes = content.subrange(position, position + count);
    crate::sender::session::law_valid_after_data(sender, bytes);
    let payload = crate::protocol::message::file_chunk_bytes(k as u32, bytes);
    crate::bytes::lemma_be_bytes_len(k as nat, 4);
    lemma_frame_of(FrameKind::FileChunk, payload);
    crate::protocol::message::law_file_chunk_round_trip(k as u32, bytes, payload);
    let frame = FrameView { kind: FrameKind::FileChunk, payload };
    crate::receiver::session::law_valid_after_frame(state, frame);
    assert(content.take(position) + bytes =~= content.take(position + count));
    assert(crate::receiver::safety::written(side.partials[k], state.absorbed.len(), bytes) =~= content.take(
        position + count,
    ));
    let took = side.after_frame(frame);
    lemma_settled_is_settled(took);
    assert forall|i: int| k < i < contents.len() implies #[trigger] took.partials[i]
        == contents[i].take(took.receiver.resume[i] as int) by {
        assert(took.partials[i] == side.partials[i]);
    }
}

/// The sender ends a file: the receiver will give it its name.
proof fn lemma_after_last_byte(sender: SendView, side: Side, id: Seq<u8>, contents: Seq<Seq<u8>>)
    requires
        agrees(sender, 2, side, id, contents),
        sender.stage == SendStage::Ending,
    ensures
        match sender.after_turn() {
            Ok((next, SendActionView::Reply(bytes))) => {
                &&& frame_of(bytes).kind == FrameKind::FileEnd
                &&& next.sources == sender.sources
                &&& next.stage == SendStage::Between
                &&& agrees(next, 2, side.took(frame_of(bytes)), id, contents)
            },
            _ => false,
        },
{
    let k = sender.index;
    let content = contents[k];
    let state = side.receiver;
    let files = sender.files();
    assert(files[k] == sender.file());
    assert(crate::protocol::offer::travels(files[k]));
    assert(content.len() == files[k].size);
    crate::sender::session::law_valid_after_turn(sender);
    let payload = crate::protocol::message::file_end_bytes(k as u32, sender.file().hash);
    crate::bytes::lemma_be_bytes_len(k as nat, 4);
    lemma_frame_of(FrameKind::FileEnd, payload);
    crate::protocol::message::law_file_end_round_trip(k as u32, sender.file().hash, payload);
    let frame = FrameView { kind: FrameKind::FileEnd, payload };
    crate::receiver::session::law_valid_after_frame(state, frame);
    let ended = side.after_frame(frame);
    assert(state.absorbed =~= content);
    crate::receiver::session::law_valid_after_digest(
        ended.receiver,
        crate::digest::blake3_digest(content),
    );
    let took = ended.settled();
    assert(took.published =~= contents.take(k + 1));
    if k + 1 < contents.len() {
        assert(side.partials[k + 1] == contents[k + 1].take(state.resume[k + 1] as int));
    }
    assert(at_file(took, id, files, contents, k + 1));
}

/// The sender ends the transfer: the receiver will confirm it.
proof fn lemma_after_last_file(sender: SendView, side: Side, id: Seq<u8>, contents: Seq<Seq<u8>>)
    requires
        agrees(sender, 2, side, id, contents),
        sender.stage == SendStage::Between,
        sender.index == sender.sources.len(),
    ensures
        match sender.after_turn() {
            Ok((next, SendActionView::Reply(bytes))) => {
                &&& frame_of(bytes).kind == FrameKind::Complete
                &&& next.sources == sender.sources
                &&& next.stage == SendStage::AwaitComplete
                &&& agrees(next, 2, side.took(frame_of(bytes)), id, contents)
            },
            _ => false,
        },
{
    let n = contents.len();
    crate::sender::session::law_valid_after_turn(sender);
    let payload = crate::protocol::message::complete_bytes(n as u32);
    crate::bytes::lemma_be_bytes_len(n, 4);
    lemma_frame_of(FrameKind::Complete, payload);
    crate::protocol::message::law_complete_round_trip(n as u32, payload);
    let frame = FrameView { kind: FrameKind::Complete, payload };
    crate::receiver::session::law_valid_after_frame(side.receiver, frame);
    let took = side.after_frame(frame);
    lemma_settled_is_settled(took);
    assert(contents.take(n as int) =~= contents);
    assert(took.replies =~= seq![side.replies[0], side.replies[1], frame]);
}

/// The sender takes the confirmation.
proof fn lemma_after_complete(sender: SendView, side: Side, id: Seq<u8>, contents: Seq<Seq<u8>>)
    requires
        agrees(sender, 2, side, id, contents),
        sender.stage == SendStage::AwaitComplete,
    ensures
        match sender.after_frame(side.replies[2]) {
            Ok((next, SendActionView::Finish { files, bytes })) => {
                &&& next.sources == sender.sources
                &&& next.stage == SendStage::Finished
                &&& agrees(next, 3, side, id, contents)
            },
            _ => false,
        },
{
    let n = contents.len();
    let payload = crate::protocol::message::complete_bytes(n as u32);
    crate::protocol::message::law_complete_round_trip(n as u32, payload);
    crate::sender::session::law_valid_after_frame(sender, side.replies[2]);
}

/// A receiver that is over takes no more frames.
proof fn lemma_took_all_over(side: Side, frames: Seq<FrameView>)
    requires
        side.receiver.want() == ReceiveWant::Nothing,
    ensures
        side.took_all(frames) == side,
    decreases frames.len(),
{
    if frames.len() > 0 {
        lemma_took_all_over(side, frames.drop_last());
    }
}

/// A transfer that begins is on course: whatever the files are, as long as they
/// can be offered and hold what is offered of them, and whatever partial files
/// there are, as long as each is too long or a first part of its file.
pub proof fn law_transfer_begins(
    id: Seq<u8>,
    sources: Seq<SourceFileView>,
    partials: Seq<Seq<u8>>,
    failed: Set<int>,
    contents: Seq<Seq<u8>>,
)
    requires
        sendable(id, sources, contents),
        partials.len() == contents.len(),
        forall|i: int|
            0 <= i < contents.len() ==> usable(
                #[trigger] partials[i],
                failed.contains(i),
                contents[i],
            ),
    ensures
        on_course(Transfer::begun(id, sources, partials, failed), id, contents),
        holds(Transfer::begun(id, sources, partials, failed).side, contents),
{
    let transfer = Transfer::begun(id, sources, partials, failed);
    let side = transfer.side;
    let hello = transfer.queue[0];
    assert(transfer.queue.drop_last() =~= Seq::empty());
    assert(side.took_all(Seq::empty()) == side);
    lemma_frame_of(FrameKind::HelloAck, Seq::empty());
    let took = side.after_frame(hello);
    lemma_settled_is_settled(took);
    assert(side.took_all(transfer.queue) == took);
    assert(took.replies =~= seq![
        FrameView { kind: FrameKind::HelloAck, payload: Seq::<u8>::empty() },
    ]);
    assert(transfer.sender.files().take(0) =~= Seq::empty());
    assert(ReceiveView::initial().valid());
}

/// A receiver that takes a frame stays on course.
proof fn lemma_course_receiver_frame(transfer: Transfer, id: Seq<u8>, contents: Seq<Seq<u8>>)
    requires
        on_course(transfer, id, contents),
        transfer.enabled(contents, Move::ReceiverFrame),
    ensures
        on_course(transfer.after(contents, Move::ReceiverFrame), id, contents),
{
    let side = transfer.side;
    let queue = transfer.queue;
    let after = transfer.after(contents, Move::ReceiverFrame);
    lemma_frame_keeps(side, queue[0], transfer.sender, id, contents);
    lemma_took_all_first(side, queue);
    lemma_after_replies(side, side.receiver.after_frame(queue[0]));
    assert forall|i: int| 0 <= i < after.queue.len() && (#[trigger] after.queue[i]).kind
        == FrameKind::Offer implies after.queue[i] == offer_frame(transfer.sender) by {
        assert(after.queue[i] == queue[i + 1]);
    }
}

/// A receiver that works with its disk stays on course.
proof fn lemma_course_receiver_disk(
    transfer: Transfer,
    id: Seq<u8>,
    contents: Seq<Seq<u8>>,
    count: nat,
)
    requires
        on_course(transfer, id, contents),
        transfer.enabled(contents, Move::ReceiverDisk(count)),
    ensures
        on_course(transfer.after(contents, Move::ReceiverDisk(count)), id, contents),
{
    let side = transfer.side;
    let after = transfer.after(contents, Move::ReceiverDisk(count));
    let files = transfer.sender.files();
    lemma_disk_keeps(side, count, files);
    lemma_disk_settled(side, count, files);
    lemma_took_all_settled(after.side, side, transfer.queue);
    lemma_after_disk_replies(side, count);
}

/// A sender that sends a frame stays on course if the receiver will then be
/// where the sender believes it to be.
proof fn lemma_course_sender(
    transfer: Transfer,
    after: Transfer,
    frame: FrameView,
    id: Seq<u8>,
    contents: Seq<Seq<u8>>,
)
    requires
        on_course(transfer, id, contents),
        after.side == transfer.side,
        after.queue == transfer.queue.push(frame),
        after.taken <= transfer.side.replies.len(),
        after.sender.sources == transfer.sender.sources,
        after.sender.id == transfer.sender.id,
        frame.kind == FrameKind::Offer ==> frame == offer_frame(transfer.sender),
        agrees(
            after.sender,
            after.taken,
            transfer.side.took_all(transfer.queue).took(frame),
            id,
            contents,
        ),
    ensures
        on_course(after, id, contents),
{
    assert(after.queue.drop_last() =~= transfer.queue);
    lemma_push_queue(transfer, after);
}

/// A sender that takes a frame stays on course.
#[verifier::rlimit(50)]
proof fn lemma_course_sender_frame(transfer: Transfer, id: Seq<u8>, contents: Seq<Seq<u8>>)
    requires
        on_course(transfer, id, contents),
        transfer.enabled(contents, Move::SenderFrame),
    ensures
        on_course(transfer.after(contents, Move::SenderFrame), id, contents),
{
    let sender = transfer.sender;
    let side = transfer.side;
    let after = transfer.after(contents, Move::SenderFrame);
    let reached = side.took_all(transfer.queue);
    let taken = transfer.taken as int;
    lemma_took_all_replies(side, transfer.queue);
    assert(reached.replies.take(side.replies.len() as int)[taken] == side.replies[taken]);
    if sender.stage == SendStage::AwaitHelloAck {
        lemma_after_hello_ack(sender, reached, id, contents);
        lemma_course_sender(transfer, after, offer_frame(sender), id, contents);
    } else if sender.stage == SendStage::AwaitAccept {
        lemma_after_accept(sender, reached, id, contents);
    } else {
        lemma_after_complete(sender, reached, id, contents);
    }
}

/// A sender that goes on between files stays on course.
#[verifier::rlimit(50)]
proof fn lemma_course_sender_turn(transfer: Transfer, id: Seq<u8>, contents: Seq<Seq<u8>>)
    requires
        on_course(transfer, id, contents),
        transfer.sender.want() == SendWant::Turn,
    ensures
        on_course(transfer.after(contents, Move::SenderLocal(0)), id, contents),
{
    let sender = transfer.sender;
    let after = transfer.after(contents, Move::SenderLocal(0));
    let reached = transfer.side.took_all(transfer.queue);
    if sender.stage == SendStage::Ending {
        lemma_after_last_byte(sender, reached, id, contents);
        lemma_course_sender(transfer, after, after.queue.last(), id, contents);
    } else if sender.index < sender.sources.len() {
        lemma_after_begin(sender, reached, id, contents);
    } else {
        lemma_after_last_file(sender, reached, id, contents);
        lemma_course_sender(transfer, after, after.queue.last(), id, contents);
    }
}

/// A sender that works with its disk stays on course.
proof fn lemma_course_sender_disk(
    transfer: Transfer,
    id: Seq<u8>,
    contents: Seq<Seq<u8>>,
    count: nat,
)
    requires
        on_course(transfer, id, contents),
        transfer.enabled(contents, Move::SenderLocal(count)),
        transfer.sender.want() != SendWant::Turn,
    ensures
        on_course(transfer.after(contents, Move::SenderLocal(count)), id, contents),
{
    let sender = transfer.sender;
    let after = transfer.after(contents, Move::SenderLocal(count));
    let reached = transfer.side.took_all(transfer.queue);
    if sender.stage == SendStage::Opening {
        lemma_after_opened(sender, reached, id, contents);
    } else {
        lemma_after_data(sender, reached, id, contents, count);
    }
    lemma_course_sender(transfer, after, after.queue.last(), id, contents);
}

/// Every move keeps a transfer on course: in whatever order the two sides go on,
/// and in whatever pieces their disks hand out the files.
#[verifier::rlimit(50)]
pub proof fn law_transfer_stays_on_course(
    transfer: Transfer,
    id: Seq<u8>,
    contents: Seq<Seq<u8>>,
    next: Move,
)
    requires
        on_course(transfer, id, contents),
        transfer.enabled(contents, next),
    ensures
        on_course(transfer.after(contents, next), id, contents),
{
    match next {
        Move::ReceiverFrame => {
            lemma_course_receiver_frame(transfer, id, contents);
        },
        Move::ReceiverDisk(count) => {
            lemma_course_receiver_disk(transfer, id, contents, count);
        },
        Move::SenderFrame => {
            lemma_course_sender_frame(transfer, id, contents);
        },
        Move::SenderLocal(count) => {
            if transfer.sender.want() == SendWant::Turn {
                lemma_course_sender_turn(transfer, id, contents);
                assert(transfer.local_step(contents, count) == transfer.local_step(contents, 0));
            } else {
                lemma_course_sender_disk(transfer, id, contents, count);
            }
        },
    }
}

/// A frame behind the others is taken after them.
proof fn lemma_push_queue(transfer: Transfer, after: Transfer)
    requires
        after.side == transfer.side,
        after.queue.len() == transfer.queue.len() + 1,
        after.queue.drop_last() == transfer.queue,
    ensures
        after.side.took_all(after.queue) == transfer.side.took_all(transfer.queue).took(
            after.queue.last(),
        ),
        forall|i: int| 0 <= i < transfer.queue.len() ==> after.queue[i] == transfer.queue[i],
{
    assert forall|i: int| 0 <= i < transfer.queue.len() implies after.queue[i]
        == transfer.queue[i] by {
        assert(after.queue.drop_last()[i] == after.queue[i]);
    }
}

/// A step takes back no answer.
proof fn lemma_after_replies(side: Side, step: ReceiveStep)
    ensures
        side.replies.len() <= side.after(step).replies.len(),
{
}

/// Working with the disk takes back no answer.
proof fn lemma_after_disk_replies(side: Side, count: nat)
    ensures
        side.replies.len() <= side.after_disk(count).replies.len(),
{
}

/// A transfer on course has not failed.
proof fn lemma_not_failed(transfer: Transfer, id: Seq<u8>, contents: Seq<Seq<u8>>)
    requires
        on_course(transfer, id, contents),
    ensures
        transfer.sender.stage != SendStage::Failed,
        transfer.side.receiver.stage != ReceiveStage::Failed,
{
    if transfer.side.receiver.stage == ReceiveStage::Failed {
        lemma_took_all_over(transfer.side, transfer.queue);
    }
}

/// When the sender of a transfer on course is finished, the transfer is complete:
/// the receiver is finished too, and its files hold what was sent.
pub proof fn law_finished_is_complete(transfer: Transfer, id: Seq<u8>, contents: Seq<Seq<u8>>)
    requires
        on_course(transfer, id, contents),
        transfer.sender.stage == SendStage::Finished,
    ensures
        transfer.complete(contents),
{
    lemma_not_failed(transfer, id, contents);
    lemma_took_all_replies(transfer.side, transfer.queue);
    assert(transfer.side.replies.len() == 3);
    assert(transfer.side.receiver.stage == ReceiveStage::Finished);
    lemma_took_all_over(transfer.side, transfer.queue);
}

/// A transfer on course never stops short: until the sender is finished there is
/// a move that can be made.
#[verifier::rlimit(50)]
pub proof fn law_transfer_goes_on(transfer: Transfer, id: Seq<u8>, contents: Seq<Seq<u8>>)
    requires
        on_course(transfer, id, contents),
        transfer.sender.stage != SendStage::Finished,
    ensures
        exists|next: Move| #[trigger] transfer.enabled(contents, next),
{
    let sender = transfer.sender;
    let side = transfer.side;
    lemma_not_failed(transfer, id, contents);
    lemma_took_all_replies(side, transfer.queue);
    match sender.want() {
        SendWant::Turn | SendWant::Opened => {
            assert(transfer.enabled(contents, Move::SenderLocal(0)));
        },
        SendWant::Data(_) => {
            assert(sender.files()[sender.index] == sender.file());
            assert(crate::protocol::offer::travels(sender.files()[sender.index]));
            assert(transfer.enabled(contents, Move::SenderLocal(1)));
        },
        _ => {
            if transfer.taken < side.replies.len() {
                assert(transfer.enabled(contents, Move::SenderFrame));
            } else {
                assert(side.took_all(transfer.queue).replies.len() > side.replies.len());
                match side.receiver.want() {
                    ReceiveWant::Frame => {
                        lemma_settled_is_settled(side);
                        assert(transfer.enabled(contents, Move::ReceiverFrame));
                    },
                    ReceiveWant::Partial | ReceiveWant::Sync => {
                        assert(transfer.enabled(contents, Move::ReceiverDisk(0)));
                    },
                    ReceiveWant::Prefix(_) => {
                        assert(transfer.enabled(contents, Move::ReceiverDisk(1)));
                    },
                    ReceiveWant::Nothing => {
                        lemma_took_all_over(side, transfer.queue);
                    },
                }
            }
        },
    }
}

/// How many moves the sender has left at most.
pub open spec fn sender_left(sender: SendView) -> int {
    let files = sender.sources.len() as int;
    let bytes = sender.total() - sender.sent();
    match sender.stage {
        SendStage::AwaitHelloAck => 3 * files + bytes + 4,
        SendStage::AwaitAccept => 3 * files + bytes + 3,
        SendStage::Between => 3 * (files - sender.index) + bytes + 2,
        SendStage::Opening => 3 * (files - sender.index) + bytes + 1,
        SendStage::Sending | SendStage::Ending => 3 * (files - sender.index) + bytes,
        SendStage::AwaitComplete => 1,
        SendStage::Finished | SendStage::Failed => 0,
    }
}

/// How many moves with its disk the receiver has left at most.
pub open spec fn receiver_left(side: Side, sender: SendView) -> int {
    let files = sender.sources.len() as int;
    (files - side.receiver.resume.len()) + (sender.total() - side.receiver.received()) + (files
        - side.published.len())
}

/// How many moves a transfer has left at most.
pub open spec fn moves_left(transfer: Transfer) -> int {
    2 * sender_left(transfer.sender) + transfer.queue.len() + receiver_left(
        transfer.side,
        transfer.sender,
    )
}

/// The number of moves that are left is never negative.
proof fn lemma_moves_left(transfer: Transfer, id: Seq<u8>, contents: Seq<Seq<u8>>)
    requires
        on_course(transfer, id, contents),
    ensures
        moves_left(transfer) >= 0,
{
    lemma_not_failed(transfer, id, contents);
    transfer.sender.lemma_sent_bounded();
    let state = transfer.side.receiver;
    state.lemma_received_bounded();
    if state.files.len() == 0 {
        assert(state.files.take(state.index) =~= Seq::empty());
    }
}

/// A frame that the receiver takes leaves it no more work with its disk.
proof fn lemma_frame_nearer(side: Side, frame: FrameView, sender: SendView)
    requires
        side.receiver.valid(),
        side.receiver.want() == ReceiveWant::Frame,
        side.after_frame(frame).receiver.stage != ReceiveStage::Failed,
    ensures
        receiver_left(side.after_frame(frame), sender) <= receiver_left(side, sender),
{
    let state = side.receiver;
    let next = side.after_frame(frame).receiver;
    assert(state.after_frame(frame) is Ok);
    if state.stage == ReceiveStage::AwaitOffer {
        assert(next.files.take(0) =~= state.files.take(0));
    }
}

/// Work with its disk leaves the receiver less of it.
proof fn lemma_disk_nearer(side: Side, count: nat, sender: SendView)
    requires
        side.receiver.valid(),
        side.after_disk(count).receiver.stage != ReceiveStage::Failed,
        match side.receiver.want() {
            ReceiveWant::Partial => true,
            ReceiveWant::Sync => true,
            ReceiveWant::Prefix(most) => 0 < count <= most && side.receiver.absorbed.len() + count
                <= side.partials[side.receiver.index].len(),
            _ => false,
        },
    ensures
        receiver_left(side.after_disk(count), sender) < receiver_left(side, sender),
{
    let state = side.receiver;
    if state.want() == ReceiveWant::Sync {
        assert(state.after_digest(crate::digest::blake3_digest(state.absorbed)) is Ok);
        crate::protocol::offer::lemma_sum_sizes_next(state.files, state.index);
    }
}

/// Every move brings a transfer on course nearer to its end, so that it comes
/// there after finitely many moves.
#[verifier::rlimit(50)]
pub proof fn law_transfer_comes_nearer(
    transfer: Transfer,
    id: Seq<u8>,
    contents: Seq<Seq<u8>>,
    next: Move,
)
    requires
        on_course(transfer, id, contents),
        transfer.enabled(contents, next),
    ensures
        0 <= moves_left(transfer.after(contents, next)) < moves_left(transfer),
{
    let sender = transfer.sender;
    let after = transfer.after(contents, next);
    law_transfer_stays_on_course(transfer, id, contents, next);
    lemma_moves_left(after, id, contents);
    lemma_not_failed(after, id, contents);
    match next {
        Move::ReceiverFrame => {
            lemma_frame_nearer(transfer.side, transfer.queue[0], sender);
        },
        Move::ReceiverDisk(count) => {
            lemma_disk_nearer(transfer.side, count, sender);
        },
        Move::SenderFrame => {
            assert(sender_left(after.sender) < sender_left(sender));
        },
        Move::SenderLocal(count) => {
            if sender.stage == SendStage::Ending {
                crate::protocol::offer::lemma_sum_sizes_next(sender.files(), sender.index);
            } else if sender.stage == SendStage::Between && sender.index == sender.sources.len() {
                assert(sender.files().take(sender.index) =~= sender.files());
            }
            assert(sender_left(after.sender) < sender_left(sender));
        },
    }
}

/// Whether the receiver knows what its open file holds, and the partial files
/// that it has not looked at yet are of use.
pub open spec fn holds(side: Side, contents: Seq<Seq<u8>>) -> bool {
    let state = side.receiver;
    match state.stage {
        ReceiveStage::AwaitHello | ReceiveStage::AwaitOffer | ReceiveStage::Planning => forall|i: int|
            state.resume.len() <= i < contents.len() ==> usable(
                #[trigger] side.partials[i],
                side.failed.contains(i),
                contents[i],
            ),
        ReceiveStage::Rehashing => state.absorbed == side.partials[state.index].take(
            state.absorbed.len() as int,
        ),
        ReceiveStage::Receiving | ReceiveStage::AwaitEnd | ReceiveStage::Syncing =>
            side.partials[state.index] == state.absorbed,
        _ => true,
    }
}

/// Taking a frame, the receiver still knows what its open file holds.
proof fn lemma_frame_holds(
    side: Side,
    frame: FrameView,
    files: Seq<FileOfferView>,
    contents: Seq<Seq<u8>>,
)
    requires
        side.receiver.valid(),
        disk_fits(side, files),
        holds(side, contents),
        side.receiver.want() == ReceiveWant::Frame,
    ensures
        holds(side.after_frame(frame), contents),
{
    let state = side.receiver;
    let step = state.after_frame(frame);
    let next = side.after_frame(frame);
    if step is Ok {
        match state.stage {
            ReceiveStage::AwaitStart => {
                let partial = side.partials[state.index];
                assert(partial.len() == state.resume[state.index]);
                assert(state.absorbed =~= partial.take(0));
                if next.receiver.stage != ReceiveStage::Rehashing {
                    assert(partial =~= state.absorbed);
                }
            },
            ReceiveStage::Receiving => {
                let bytes = step->Ok_0.1->Store_0;
                assert(crate::receiver::safety::written(
                    side.partials[state.index],
                    state.absorbed.len(),
                    bytes,
                ) =~= state.absorbed + bytes);
            },
            _ => {},
        }
    }
}

/// Working with its disk, the receiver still knows what its open file holds.
proof fn lemma_disk_holds(
    side: Side,
    count: nat,
    files: Seq<FileOfferView>,
    contents: Seq<Seq<u8>>,
)
    requires
        files.len() == contents.len(),
        side.receiver.valid(),
        disk_fits(side, files),
        holds(side, contents),
        match side.receiver.want() {
            ReceiveWant::Partial => true,
            ReceiveWant::Sync => true,
            ReceiveWant::Prefix(_) => side.receiver.absorbed.len() + count
                <= side.receiver.resume[side.receiver.index],
            _ => false,
        },
    ensures
        holds(side.after_disk(count), contents),
{
    let state = side.receiver;
    let next = side.after_disk(count);
    match state.want() {
        ReceiveWant::Partial => {
            crate::receiver::session::law_valid_after_partial(
                state,
                Some(side.partials[state.resume.len() as int].len() as u64),
                side.failed.contains(state.resume.len() as int),
            );
            assert forall|i: int| next.receiver.resume.len() <= i < contents.len() implies usable(
                #[trigger] next.partials[i],
                next.failed.contains(i),
                contents[i],
            ) by {
                assert(next.partials[i] == side.partials[i]);
            }
        },
        ReceiveWant::Prefix(_) => {
            let partial = side.partials[state.index];
            let known = state.absorbed.len() as int;
            assert(partial.len() == state.resume[state.index]);
            assert(state.absorbed + side.prefix(count) =~= partial.take(known + count));
            if known + count == partial.len() {
                assert(partial.take(known + count) =~= partial);
            }
        },
        _ => {},
    }
}

/// What the receiver has of a file: its contents, once it is published, and its
/// partial file before that.
pub open spec fn has(side: Side, i: int) -> Seq<u8> {
    if i < side.published.len() {
        side.published[i]
    } else {
        side.partials[i]
    }
}

/// Whether one moment of a receiver follows from another without loss: what was
/// published is the same, and of each file whose partial file was looked at
/// there is as much or more.
pub open spec fn grows(before: Side, after: Side) -> bool {
    &&& before.published.len() <= after.published.len()
    &&& before.receiver.resume.len() <= after.receiver.resume.len()
    &&& forall|i: int|
        0 <= i < before.published.len() ==> #[trigger] after.published[i] == before.published[i]
    &&& forall|i: int|
        0 <= i < before.receiver.resume.len() ==> (#[trigger] has(before, i)).is_prefix_of(
            has(after, i),
        )
}

/// Growth goes on.
proof fn lemma_grows_transitive(first: Side, second: Side, third: Side)
    requires
        grows(first, second),
        grows(second, third),
    ensures
        grows(first, third),
{
    assert forall|i: int| 0 <= i < first.published.len() implies #[trigger] third.published[i]
        == first.published[i] by {
        assert(second.published[i] == first.published[i]);
    }
    assert forall|i: int| 0 <= i < first.receiver.resume.len() implies (
    #[trigger] has(first, i)).is_prefix_of(has(third, i)) by {
        let a = has(first, i);
        let b = has(second, i);
        let c = has(third, i);
        assert(a.is_prefix_of(b));
        assert(b.is_prefix_of(c));
        assert(a =~= c.subrange(0, a.len() as int)) by {
            assert forall|j: int| 0 <= j < a.len() implies a[j] == c[j] by {
                assert(b.subrange(0, a.len() as int)[j] == b[j]);
                assert(c.subrange(0, b.len() as int)[j] == c[j]);
            }
        }
    }
}

/// Nothing is lost where nothing is written.
proof fn lemma_grows_same(before: Side, after: Side)
    requires
        after.partials == before.partials,
        after.published == before.published,
        before.receiver.resume.len() <= after.receiver.resume.len(),
    ensures
        grows(before, after),
{
    assert forall|i: int| 0 <= i < before.receiver.resume.len() implies (
    #[trigger] has(before, i)).is_prefix_of(has(after, i)) by {
        assert(has(before, i) =~= has(after, i).subrange(0, has(before, i).len() as int));
    }
}

/// Taking a frame loses nothing.
proof fn lemma_frame_grows(
    side: Side,
    frame: FrameView,
    files: Seq<FileOfferView>,
    contents: Seq<Seq<u8>>,
)
    requires
        side.receiver.valid(),
        disk_fits(side, files),
        holds(side, contents),
        side.receiver.want() == ReceiveWant::Frame,
        side.after_frame(frame).receiver.stage != ReceiveStage::Failed,
    ensures
        grows(side, side.after_frame(frame)),
{
    let state = side.receiver;
    let next = side.after_frame(frame);
    let step = state.after_frame(frame);
    assert(step is Ok);
    if state.stage == ReceiveStage::Receiving {
        let bytes = step->Ok_0.1->Store_0;
        let k = state.index;
        assert forall|i: int| 0 <= i < state.resume.len() implies (
        #[trigger] has(side, i)).is_prefix_of(has(next, i)) by {
            if i == k {
                assert(next.partials[k] =~= side.partials[k] + bytes);
                assert(side.partials[k] =~= next.partials[k].subrange(
                    0,
                    side.partials[k].len() as int,
                ));
            } else {
                assert(has(side, i) =~= has(next, i).subrange(0, has(side, i).len() as int));
            }
        }
    } else {
        lemma_grows_same(side, next);
    }
}

/// Working with the disk loses nothing.
proof fn lemma_disk_grows(side: Side, count: nat, files: Seq<FileOfferView>)
    requires
        side.receiver.valid(),
        disk_fits(side, files),
        side.after_disk(count).receiver.stage != ReceiveStage::Failed,
        match side.receiver.want() {
            ReceiveWant::Partial => true,
            ReceiveWant::Sync => true,
            ReceiveWant::Prefix(_) => true,
            _ => false,
        },
    ensures
        grows(side, side.after_disk(count)),
{
    let state = side.receiver;
    let next = side.after_disk(count);
    match state.want() {
        ReceiveWant::Partial => {
            let j = state.resume.len() as int;
            crate::receiver::session::law_valid_after_partial(
                state,
                Some(side.partials[j].len() as u64),
                side.failed.contains(j),
            );
            assert forall|i: int| 0 <= i < state.resume.len() implies (
            #[trigger] has(side, i)).is_prefix_of(has(next, i)) by {
                assert(has(side, i) =~= has(next, i).subrange(0, has(side, i).len() as int));
            }
        },
        ReceiveWant::Prefix(_) => {
            lemma_grows_same(side, next);
        },
        _ => {
            let k = state.index;
            assert(state.after_digest(crate::digest::blake3_digest(state.absorbed)) is Ok);
            assert forall|i: int| 0 <= i < state.resume.len() implies (
            #[trigger] has(side, i)).is_prefix_of(has(next, i)) by {
                assert(has(side, i) =~= has(next, i).subrange(0, has(side, i).len() as int));
            }
        },
    }
}

/// All that the receiver can do without a frame loses nothing.
proof fn lemma_settled_grows(side: Side, files: Seq<FileOfferView>, contents: Seq<Seq<u8>>)
    requires
        files.len() == contents.len(),
        side.receiver.valid(),
        answered_so_far(side),
        disk_fits(side, files),
        holds(side, contents),
        side.settled().receiver.stage != ReceiveStage::Failed,
    ensures
        side.settled().receiver.valid(),
        answered_so_far(side.settled()),
        disk_fits(side.settled(), files),
        holds(side.settled(), contents),
        grows(side, side.settled()),
    decreases side.receiver.files.len() - side.receiver.resume.len(),
{
    let state = side.receiver;
    match state.want() {
        ReceiveWant::Partial => {
            let next = side.after_disk(0);
            lemma_disk_keeps(side, 0, files);
            lemma_disk_holds(side, 0, files, contents);
            assert(next.receiver.stage != ReceiveStage::Failed);
            lemma_disk_grows(side, 0, files);
            lemma_settled_grows(next, files, contents);
            lemma_grows_transitive(side, next, next.settled());
        },
        ReceiveWant::Prefix(_) => {
            let left = (state.resume[state.index] - state.absorbed.len()) as nat;
            assert(side.partials[state.index].len() == state.resume[state.index]);
            lemma_disk_keeps(side, left, files);
            lemma_disk_holds(side, left, files, contents);
            lemma_disk_grows(side, left, files);
        },
        ReceiveWant::Sync => {
            lemma_disk_keeps(side, 0, files);
            lemma_disk_holds(side, 0, files, contents);
            lemma_disk_grows(side, 0, files);
        },
        _ => {
            lemma_grows_same(side, side);
        },
    }
}

/// All that the receiver does with the frames on their way loses nothing.
proof fn lemma_took_all_grows(
    side: Side,
    frames: Seq<FrameView>,
    sender: SendView,
    id: Seq<u8>,
    contents: Seq<Seq<u8>>,
)
    requires
        sendable(id, sender.sources, contents),
        sender.id == id,
        side.receiver.valid(),
        answered_so_far(side),
        disk_fits(side, sender.files()),
        holds(side, contents),
        forall|i: int|
            0 <= i < frames.len() ==> ((#[trigger] frames[i]).kind == FrameKind::Offer
                ==> frames[i] == offer_frame(sender)),
        side.took_all(frames).receiver.stage != ReceiveStage::Failed,
    ensures
        side.took_all(frames).receiver.valid(),
        answered_so_far(side.took_all(frames)),
        disk_fits(side.took_all(frames), sender.files()),
        holds(side.took_all(frames), contents),
        grows(side, side.took_all(frames)),
    decreases frames.len(),
{
    let files = sender.files();
    if frames.len() == 0 {
        lemma_settled_grows(side, files, contents);
    } else {
        let front = frames.drop_last();
        let before = side.took_all(front);
        let after = side.took_all(frames);
        assert forall|i: int| 0 <= i < front.len() && (#[trigger] front[i]).kind
            == FrameKind::Offer implies front[i] == offer_frame(sender) by {
            assert(front[i] == frames[i]);
        }
        assert(before.receiver.stage != ReceiveStage::Failed);
        lemma_took_all_grows(side, front, sender, id, contents);
        if before.receiver.want() == ReceiveWant::Frame {
            let frame = frames.last();
            let next = before.after_frame(frame);
            assert(frames[frames.len() - 1] == frame);
            assert(next.receiver.stage != ReceiveStage::Failed);
            lemma_frame_keeps(before, frame, sender, id, contents);
            lemma_frame_holds(before, frame, files, contents);
            lemma_frame_grows(before, frame, files, contents);
            lemma_settled_grows(next, files, contents);
            lemma_grows_transitive(before, next, after);
            lemma_grows_transitive(side, before, after);
        }
    }
}

/// Every move keeps the receiver's knowledge of its disk.
pub proof fn law_transfer_holds(
    transfer: Transfer,
    id: Seq<u8>,
    contents: Seq<Seq<u8>>,
    next: Move,
)
    requires
        on_course(transfer, id, contents),
        holds(transfer.side, contents),
        transfer.enabled(contents, next),
    ensures
        holds(transfer.after(contents, next).side, contents),
{
    let side = transfer.side;
    let files = transfer.sender.files();
    match next {
        Move::ReceiverFrame => {
            lemma_frame_holds(side, transfer.queue[0], files, contents);
        },
        Move::ReceiverDisk(count) => {
            if let ReceiveWant::Prefix(_) = side.receiver.want() {
                assert(side.partials[side.receiver.index].len()
                    == side.receiver.resume[side.receiver.index]);
            }
            lemma_disk_holds(side, count, files, contents);
        },
        _ => {},
    }
}

/// When the receiver is where the sender believes it to be, it has the contents
/// of the published files and a first part of every other file that it has
/// looked at.
proof fn lemma_agrees_has(
    sender: SendView,
    taken: nat,
    side: Side,
    id: Seq<u8>,
    contents: Seq<Seq<u8>>,
)
    requires
        agrees(sender, taken, side, id, contents),
        disk_fits(side, sender.files()),
        side.receiver.valid(),
    ensures
        side.receiver.resume.len() <= contents.len(),
        side.published.len() <= contents.len(),
        forall|i: int| 0 <= i < side.published.len() ==> #[trigger] side.published[i] == contents[i],
        forall|i: int|
            0 <= i < side.receiver.resume.len() ==> (#[trigger] has(side, i)).is_prefix_of(
                contents[i],
            ),
{
    let state = side.receiver;
    assert forall|i: int| 0 <= i < state.resume.len() implies (
    #[trigger] has(side, i)).is_prefix_of(contents[i]) by {
        let part = has(side, i);
        assert(sender.files()[i].size == contents[i].len());
        if i < side.published.len() {
            assert(part == contents[i]);
        } else if i == state.index && (sender.stage == SendStage::Sending || sender.stage
            == SendStage::Ending) {
            assert(part == contents[i].take(sender.position as int));
        } else {
            assert(state.resume[i] <= state.files[i].size);
            assert(side.partials[i] == contents[i].take(state.resume[i] as int));
        }
        assert(part =~= contents[i].subrange(0, part.len() as int));
    }
}

/// What a transfer that is broken off leaves for the next one: the partial files,
/// of which those that were published are gone.
pub open spec fn leftovers(side: Side) -> Seq<Seq<u8>> {
    Seq::new(
        side.partials.len(),
        |i: int|
            if i < side.published.len() {
                Seq::empty()
            } else {
                side.partials[i]
            },
    )
}

/// Breaking off loses nothing: at whatever moment a transfer on course ends, each
/// published file holds its whole contents, and each partial file is of use to
/// the next transfer.
pub proof fn law_broken_off_is_resumable(transfer: Transfer, id: Seq<u8>, contents: Seq<Seq<u8>>)
    requires
        on_course(transfer, id, contents),
        holds(transfer.side, contents),
    ensures
        transfer.side.published == contents.take(transfer.side.published.len() as int),
        leftovers(transfer.side).len() == contents.len(),
        forall|i: int|
            0 <= i < contents.len() ==> usable(
                #[trigger] leftovers(transfer.side)[i],
                transfer.side.failed.contains(i),
                contents[i],
            ),
{
    let side = transfer.side;
    let state = side.receiver;
    let sender = transfer.sender;
    let reached = side.took_all(transfer.queue);
    lemma_not_failed(transfer, id, contents);
    lemma_took_all_grows(side, transfer.queue, sender, id, contents);
    lemma_agrees_has(sender, transfer.taken, reached, id, contents);
    assert forall|i: int| 0 <= i < side.published.len() implies side.published[i]
        == contents[i] by {
        assert(reached.published[i] == side.published[i]);
    }
    assert(side.published =~= contents.take(side.published.len() as int));
    assert forall|i: int| 0 <= i < contents.len() implies usable(
        #[trigger] leftovers(side)[i],
        side.failed.contains(i),
        contents[i],
    ) by {
        let left = leftovers(side)[i];
        assert(sender.files()[i].size == contents[i].len());
        if i < side.published.len() {
            assert(left =~= contents[i].take(0));
        } else if i < state.resume.len() {
            assert(has(side, i).is_prefix_of(has(reached, i)));
            assert(has(reached, i).is_prefix_of(contents[i]));
            assert(left =~= contents[i].take(left.len() as int)) by {
                let b = has(reached, i);
                assert forall|j: int| 0 <= j < left.len() implies left[j] == contents[i][j] by {
                    assert(b.subrange(0, left.len() as int)[j] == b[j]);
                    assert(contents[i].subrange(0, b.len() as int)[j] == contents[i][j]);
                }
            }
        } else {
            assert(usable(side.partials[i], side.failed.contains(i), contents[i]));
        }
    }
}

/// A transfer that is broken off can be taken up again: the next one, whatever
/// identifier it has, is on course with what the broken one left.
pub proof fn law_taken_up_again(
    transfer: Transfer,
    id: Seq<u8>,
    next_id: Seq<u8>,
    contents: Seq<Seq<u8>>,
)
    requires
        on_course(transfer, id, contents),
        holds(transfer.side, contents),
        sendable(next_id, transfer.sender.sources, contents),
    ensures
        on_course(
            Transfer::begun(
                next_id,
                transfer.sender.sources,
                leftovers(transfer.side),
                transfer.side.failed,
            ),
            next_id,
            contents,
        ),
        holds(
            Transfer::begun(
                next_id,
                transfer.sender.sources,
                leftovers(transfer.side),
                transfer.side.failed,
            ).side,
            contents,
        ),
{
    let partials = leftovers(transfer.side);
    law_broken_off_is_resumable(transfer, id, contents);
    law_transfer_begins(
        next_id,
        transfer.sender.sources,
        partials,
        transfer.side.failed,
        contents,
    );
}

/// A file whose bytes do not have the offered digest fails the transfer, and its
/// partial file is kept: nothing is published or lost, and the partial file is
/// marked, so that the next transfer is not hindered by what it holds.
pub proof fn law_mismatch_keeps_partials(side: Side, files: Seq<FileOfferView>, content: Seq<u8>)
    requires
        side.receiver.valid(),
        disk_fits(side, files),
        side.receiver.want() == ReceiveWant::Sync,
        side.partials[side.receiver.index] == side.receiver.absorbed,
        crate::digest::blake3_digest(side.receiver.absorbed)
            != side.receiver.files[side.receiver.index].hash,
    ensures
        ({
            let index = side.receiver.index;
            let next = side.after_disk(0);
            &&& side.receiver.after_digest(
                crate::digest::blake3_digest(side.receiver.absorbed),
            ) matches Err(ReceiveErrorView::HashMismatch(path))
            &&& path == side.receiver.files[index].path
            &&& next.receiver.stage == ReceiveStage::Failed
            &&& next.partials == side.partials
            &&& next.published == side.published
            &&& next.replies == side.replies
            &&& next.failed == side.failed.insert(index)
            &&& usable(leftovers(next)[index], next.failed.contains(index), content)
        }),
{
    side.receiver.lemma_received_bounded();
}

impl Transfer {
    /// The transfer after a run of moves.
    pub open spec fn after_all(self, contents: Seq<Seq<u8>>, run: Seq<Move>) -> Transfer
        decreases run.len(),
    {
        if run.len() == 0 {
            self
        } else {
            self.after_all(contents, run.drop_last()).after(contents, run.last())
        }
    }

    /// Whether each move of a run can be made when its turn comes.
    pub open spec fn enabled_all(self, contents: Seq<Seq<u8>>, run: Seq<Move>) -> bool
        decreases run.len(),
    {
        run.len() == 0 || {
            &&& self.enabled_all(contents, run.drop_last())
            &&& self.after_all(contents, run.drop_last()).enabled(contents, run.last())
        }
    }
}

/// A run keeps a transfer on course, and each of its moves uses one up.
proof fn lemma_run(transfer: Transfer, id: Seq<u8>, contents: Seq<Seq<u8>>, run: Seq<Move>)
    requires
        on_course(transfer, id, contents),
        holds(transfer.side, contents),
        transfer.enabled_all(contents, run),
    ensures
        on_course(transfer.after_all(contents, run), id, contents),
        holds(transfer.after_all(contents, run).side, contents),
        run.len() + moves_left(transfer.after_all(contents, run)) <= moves_left(transfer),
    decreases run.len(),
{
    if run.len() > 0 {
        let before = transfer.after_all(contents, run.drop_last());
        lemma_run(transfer, id, contents, run.drop_last());
        law_transfer_stays_on_course(before, id, contents, run.last());
        law_transfer_holds(before, id, contents, run.last());
        law_transfer_comes_nearer(before, id, contents, run.last());
    }
}

/// What a transfer is for: however the two sides take turns, and in whatever
/// pieces their disks hand out the files, a transfer of files that can be offered
/// makes only so many moves, never fails, and when no move is left the receiver
/// has published exactly the contents of the files, in the order of the offer.
/// A partial file of an earlier transfer is put to use when it is a first part
/// of its file. At every moment what is published is whole, and what is left
/// besides is of use to another transfer.
pub proof fn law_transfer_completes(
    id: Seq<u8>,
    sources: Seq<SourceFileView>,
    partials: Seq<Seq<u8>>,
    failed: Set<int>,
    contents: Seq<Seq<u8>>,
    run: Seq<Move>,
)
    requires
        sendable(id, sources, contents),
        partials.len() == contents.len(),
        forall|i: int|
            0 <= i < contents.len() ==> usable(
                #[trigger] partials[i],
                failed.contains(i),
                contents[i],
            ),
        Transfer::begun(id, sources, partials, failed).enabled_all(contents, run),
    ensures
        run.len() <= moves_left(Transfer::begun(id, sources, partials, failed)),
        ({
            let reached = Transfer::begun(id, sources, partials, failed).after_all(contents, run);
            &&& reached.sender.stage != SendStage::Failed
            &&& reached.side.receiver.stage != ReceiveStage::Failed
            &&& reached.complete(contents) || exists|next: Move| #[trigger]
                reached.enabled(contents, next)
            &&& reached.side.published == contents.take(reached.side.published.len() as int)
            &&& forall|i: int|
                0 <= i < contents.len() ==> usable(
                    #[trigger] leftovers(reached.side)[i],
                    reached.side.failed.contains(i),
                    contents[i],
                )
        }),
{
    let begun = Transfer::begun(id, sources, partials, failed);
    law_transfer_begins(id, sources, partials, failed, contents);
    lemma_run(begun, id, contents, run);
    let reached = begun.after_all(contents, run);
    lemma_moves_left(reached, id, contents);
    lemma_not_failed(reached, id, contents);
    law_broken_off_is_resumable(reached, id, contents);
    if reached.sender.stage == SendStage::Finished {
        law_finished_is_complete(reached, id, contents);
    } else {
        law_transfer_goes_on(reached, id, contents);
    }
}

/// Looking at one partial file settles where its file resumes, and changes nothing of
/// the others.
#[verifier::spinoff_prover]
proof fn lemma_looked_at(side: Side)
    requires
        side.receiver.valid(),
        side.receiver.want() == ReceiveWant::Partial,
        side.partials.len() == side.receiver.files.len(),
        forall|j: int|
            0 <= j < side.partials.len() ==> (#[trigger] side.partials[j]).len() <= u64::MAX,
    ensures
        ({
            let next = side.after_disk(0);
            let k = side.receiver.resume.len() as int;
            let partial = side.partials[k];
            let emptied = side.failed.contains(k) || partial.len() > side.receiver.files[k].size;
            &&& k < side.receiver.files.len()
            &&& next.receiver.valid()
            &&& next.receiver.files == side.receiver.files
            &&& next.published == side.published
            &&& next.receiver.resume.len() == k + 1
            &&& next.receiver.resume[k] == (if emptied {
                0
            } else {
                partial.len()
            })
            &&& forall|j: int|
                0 <= j < k ==> #[trigger] next.receiver.resume[j] == side.receiver.resume[j]
            &&& next.partials.len() == side.partials.len()
            &&& next.partials[k] == (if emptied {
                Seq::<u8>::empty()
            } else {
                partial
            })
            &&& forall|j: int|
                0 <= j < side.partials.len() && j != k ==> #[trigger] next.partials[j]
                    == side.partials[j]
            &&& forall|j: int|
                0 <= j < side.partials.len() ==> (#[trigger] next.partials[j]).len() <= u64::MAX
            &&& forall|j: int|
                j != k ==> (#[trigger] next.failed.contains(j) <==> side.failed.contains(j))
            &&& next.receiver.want() == (if k + 1 < side.receiver.files.len() {
                ReceiveWant::Partial
            } else {
                ReceiveWant::Frame
            })
            &&& k + 1 == side.receiver.files.len() ==> next.receiver.stage
                == ReceiveStage::AwaitStart
            &&& side.settled() == next.settled()
        }),
{
    let state = side.receiver;
    let k = state.resume.len() as int;
    let length = side.partials[k].len() as u64;
    assert(side.partials[k].len() == length);
    crate::receiver::session::law_valid_after_partial(
        state,
        Some(length),
        side.failed.contains(k),
    );
    let next = side.after_disk(0);
    assert forall|j: int| 0 <= j < side.partials.len() implies (#[trigger] next.partials[j]).len()
        <= u64::MAX by {
        if j != k {
            assert(next.partials[j] == side.partials[j]);
        }
    }
}

/// What one step fixed for a file, and the following steps left, is so in the end.
proof fn lemma_kept_along(
    resume: Seq<u64>,
    next_resume: Seq<u64>,
    last_resume: Seq<u64>,
    partials: Seq<Seq<u8>>,
    next_partials: Seq<Seq<u8>>,
    last_partials: Seq<Seq<u8>>,
)
    requires
        next_resume.len() == resume.len() + 1,
        resume.len() < partials.len(),
        forall|j: int| 0 <= j < resume.len() ==> #[trigger] next_resume[j] == resume[j],
        forall|j: int|
            0 <= j < partials.len() && j != resume.len() ==> #[trigger] next_partials[j]
                == partials[j],
        forall|j: int|
            0 <= j < next_resume.len() ==> #[trigger] last_resume[j] == next_resume[j]
                && last_partials[j] == next_partials[j],
    ensures
        last_resume[resume.len() as int] == next_resume[resume.len() as int],
        last_partials[resume.len() as int] == next_partials[resume.len() as int],
        forall|j: int|
            0 <= j < resume.len() ==> #[trigger] last_resume[j] == resume[j] && last_partials[j]
                == partials[j],
{
    let k = resume.len() as int;
    assert(last_resume[k] == next_resume[k]);
    assert forall|j: int| 0 <= j < k implies #[trigger] last_resume[j] == resume[j]
        && last_partials[j] == partials[j] by {
        assert(last_resume[j] == next_resume[j]);
        assert(next_resume[j] == resume[j]);
        assert(next_partials[j] == partials[j]);
    }
}

/// Nothing that a receiver already has is asked for again: once all partial files
/// were looked at, each file resumes exactly where its partial file ends, and that is
/// kept as it was, unless it is marked as wrong or longer than the file; then it is
/// emptied, and the file starts from nothing.
#[verifier::spinoff_prover]
pub proof fn law_all_partials_are_resumed(side: Side, i: int)
    requires
        side.receiver.valid(),
        side.receiver.want() == ReceiveWant::Partial,
        side.partials.len() == side.receiver.files.len(),
        forall|j: int|
            0 <= j < side.partials.len() ==> (#[trigger] side.partials[j]).len() <= u64::MAX,
        side.receiver.resume.len() <= i < side.receiver.files.len(),
    ensures
        ({
            let settled = side.settled();
            let partial = side.partials[i];
            let emptied = side.failed.contains(i) || partial.len() > side.receiver.files[i].size;
            &&& settled.receiver.resume.len() == side.receiver.files.len()
            &&& settled.receiver.resume[i] == (if emptied {
                0
            } else {
                partial.len()
            })
            &&& settled.partials[i] == (if emptied {
                Seq::<u8>::empty()
            } else {
                partial
            })
            &&& settled.receiver.stage == ReceiveStage::AwaitStart
            &&& settled.published == side.published
            &&& forall|j: int|
                0 <= j < side.receiver.resume.len() ==> #[trigger] settled.receiver.resume[j]
                    == side.receiver.resume[j] && settled.partials[j] == side.partials[j]
        }),
    decreases side.receiver.files.len() - side.receiver.resume.len(),
{
    let k = side.receiver.resume.len() as int;
    let next = side.after_disk(0);
    let settled = side.settled();
    lemma_looked_at(side);
    if k + 1 < side.receiver.files.len() {
        let inner = if i == k {
            k + 1
        } else {
            i
        };
        law_all_partials_are_resumed(next, inner);
        lemma_kept_along(
            side.receiver.resume,
            next.receiver.resume,
            settled.receiver.resume,
            side.partials,
            next.partials,
            settled.partials,
        );
        assert(i > k ==> next.partials[i] == side.partials[i]);
        assert(i > k ==> (next.failed.contains(i) <==> side.failed.contains(i)));
    } else {
        lemma_settled_is_settled(next);
    }
}

} // verus!
