//! What ends up under final names, whatever the sender does and whatever the
//! partial files hold.

use vstd::prelude::*;

use crate::protocol::FrameView;
use crate::receiver::session::{ReceiveActionView, ReceiveStage, ReceiveView, ReceiveWant};

verus! {

/// A receiver with the partial file that it has open, and what the files hold
/// that got their final names.
#[verifier::ext_equal]
pub struct Shelf {
    pub receiver: ReceiveView,
    pub open: Seq<u8>,
    pub published: Seq<Seq<u8>>,
}

/// What can happen to a receiver.
pub enum Event {
    /// A frame comes. If it announces a file, the file's partial file holds
    /// `found`.
    Frame { frame: FrameView, found: Seq<u8> },
    /// The length of a partial file is found out, and whether it failed before.
    Partial { length: Option<u64>, failed: bool },
    /// So many bytes are read from the open partial file.
    Prefix(nat),
    /// The open partial file was brought to the disk.
    Synced,
}

/// A file after bytes were written into it at a position.
pub open spec fn written(file: Seq<u8>, position: nat, bytes: Seq<u8>) -> Seq<u8> {
    if position + bytes.len() <= file.len() {
        file.take(position as int) + bytes + file.skip((position + bytes.len()) as int)
    } else {
        file.take(position as int) + bytes
    }
}

impl Shelf {
    /// A receiver before the greeting.
    pub open spec fn initial() -> Shelf {
        Shelf {
            receiver: ReceiveView::initial(),
            open: Seq::empty(),
            published: Seq::empty(),
        }
    }

    /// Whether an event can come now. A partial file is no longer than it was
    /// when its length was found out, unless the receiver wrote to it.
    pub open spec fn allows(self, event: Event) -> bool {
        let state = self.receiver;
        match event {
            Event::Frame { frame, found } => {
                &&& state.want() == ReceiveWant::Frame
                &&& state.stage == ReceiveStage::AwaitStart ==> found.len()
                    <= state.resume[state.index]
            },
            Event::Partial { .. } => state.want() == ReceiveWant::Partial,
            Event::Prefix(count) => {
                &&& state.want() matches ReceiveWant::Prefix(most) && count <= most
                &&& state.absorbed.len() + count <= self.open.len()
            },
            Event::Synced => state.want() == ReceiveWant::Sync,
        }
    }

    /// The receiver after an event.
    pub open spec fn after(self, event: Event) -> Shelf {
        let state = self.receiver;
        let known = state.absorbed.len();
        match event {
            Event::Frame { frame, found } => {
                let step = state.after_frame(frame);
                let receiver = state.then_state(step);
                match step {
                    Ok((_, ReceiveActionView::Begin { index, offset, ready })) => Shelf {
                        receiver,
                        open: found,
                        ..self
                    },
                    Ok((_, ReceiveActionView::Store(bytes))) => Shelf {
                        receiver,
                        open: written(self.open, known, bytes),
                        ..self
                    },
                    _ => Shelf { receiver, ..self },
                }
            },
            Event::Partial { length, failed } => Shelf {
                receiver: state.then_state(state.after_partial(length, failed)),
                ..self
            },
            Event::Prefix(count) => Shelf {
                receiver: state.then_state(
                    state.after_prefix(self.open.subrange(known as int, (known + count) as int)),
                ),
                ..self
            },
            Event::Synced => {
                let step = state.after_digest(crate::digest::blake3_digest(state.absorbed));
                let receiver = state.then_state(step);
                match step {
                    Ok((_, ReceiveActionView::Publish(_))) => Shelf {
                        receiver,
                        published: self.published.push(self.open),
                        ..self
                    },
                    _ => Shelf { receiver, ..self },
                }
            },
        }
    }

    /// Whether every file with a final name has the size and the digest that
    /// were offered, and the receiver knows what its open file holds.
    pub open spec fn verified(self) -> bool {
        let state = self.receiver;
        &&& state.valid()
        &&& self.published.len() == state.index
        &&& forall|i: int|
            0 <= i < self.published.len() ==> {
                &&& (#[trigger] self.published[i]).len() == state.files[i].size
                &&& crate::digest::blake3_digest(self.published[i]) == state.files[i].hash
            }
        &&& match state.stage {
            ReceiveStage::Rehashing => {
                &&& state.absorbed.len() <= self.open.len() <= state.resume[state.index]
                &&& state.absorbed == self.open.take(state.absorbed.len() as int)
            },
            ReceiveStage::Receiving | ReceiveStage::AwaitEnd | ReceiveStage::Syncing => self.open
                == state.absorbed,
            _ => true,
        }
    }
}

/// At first no file has a final name.
pub proof fn law_initially_verified()
    ensures
        Shelf::initial().verified(),
{
    assert(ReceiveView::initial().files.take(0) =~= Seq::empty());
}

/// Whatever comes, every file with a final name has the size and the digest that
/// were offered: no frame, no partial file and no order of events brings another
/// file under a final name.
pub proof fn law_stays_verified(shelf: Shelf, event: Event)
    requires
        shelf.verified(),
        shelf.allows(event),
    ensures
        shelf.after(event).verified(),
{
    let state = shelf.receiver;
    let next = shelf.after(event);
    match event {
        Event::Frame { frame, found } => {
            crate::receiver::session::law_valid_after_frame(state, frame);
            let step = state.after_frame(frame);
            if step is Ok {
                if state.stage == ReceiveStage::AwaitStart {
                    assert(state.absorbed =~= found.take(0));
                    if next.receiver.stage != ReceiveStage::Rehashing {
                        assert(found =~= Seq::empty());
                        assert(state.absorbed =~= Seq::empty());
                    }
                } else if state.stage == ReceiveStage::Receiving {
                    let bytes = step->Ok_0.1->Store_0;
                    assert(written(shelf.open, state.absorbed.len(), bytes) =~= state.absorbed
                        + bytes);
                }
            }
        },
        Event::Partial { length, failed } => {
            crate::receiver::session::law_valid_after_partial(state, length, failed);
        },
        Event::Prefix(count) => {
            let known = state.absorbed.len() as int;
            let bytes = shelf.open.subrange(known, known + count);
            crate::receiver::session::law_valid_after_prefix(state, bytes);
            assert(state.absorbed + bytes =~= shelf.open.take(known + count));
            if state.after_prefix(bytes) is Ok && next.receiver.stage != ReceiveStage::Rehashing {
                assert(shelf.open.take(known + count) =~= shelf.open);
            }
        },
        Event::Synced => {
            crate::receiver::session::law_valid_after_digest(
                state,
                crate::digest::blake3_digest(state.absorbed),
            );
        },
    }
}

} // verus!
