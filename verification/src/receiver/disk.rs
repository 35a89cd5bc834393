//! What becomes of the files in the receive directory, whatever the sender does.
//!
//! Nobody but the receiver writes to the directory while a transfer goes on.
//! What stood there before is unchanged, apart from the partial files of the
//! offered files and their marks.

use vstd::prelude::*;

use crate::protocol::{FileOfferView, FrameView};
use crate::receiver::safety::{Event, Shelf};
use crate::receiver::session::{ReceiveActionView, ReceiveStage, ReceiveWant};

verus! {

/// A receiver with all the files in its directory.
#[verifier::ext_equal]
pub struct Disk {
    pub shelf: Shelf,
    pub root: Seq<u8>,
    /// What each file holds, by its path.
    pub files: Map<Seq<u8>, Seq<u8>>,
    /// The paths that were given out, one for each file that was planned.
    pub places: Seq<Seq<u8>>,
}

/// What can happen to a receiver.
pub enum DiskEvent {
    /// A frame comes.
    Frame(FrameView),
    /// The next file is given a path, and its partial file is looked at.
    Plan(Seq<u8>),
    /// So many bytes are read from the open partial file.
    Prefix(nat),
    /// The open partial file was brought to the disk.
    Synced,
}

/// Whether a path is that of an offered file's partial file or of its mark.
pub open spec fn is_own(root: Seq<u8>, offered: Seq<FileOfferView>, path: Seq<u8>) -> bool {
    exists|i: int|
        0 <= i < offered.len() && {
            ||| path == crate::receiver::destination::partial_place(root, #[trigger] offered[i])
            ||| path == crate::receiver::destination::failed_place(root, offered[i])
        }
}

/// Whether a path is one of those that are tried for a file.
pub open spec fn is_variant(root: Seq<u8>, file: FileOfferView, place: Seq<u8>) -> bool {
    exists|number: nat|
        place == #[trigger] crate::receiver::destination::candidate(
            crate::path::placed(root, file.path),
            number,
        )
}

impl Disk {
    /// A receiver before the greeting, and the files that are there.
    pub open spec fn initial(root: Seq<u8>, files: Map<Seq<u8>, Seq<u8>>) -> Disk {
        Disk { shelf: Shelf::initial(), root, files, places: Seq::empty() }
    }

    /// The path of the partial file of the offered file at `i`.
    pub open spec fn partial(self, i: int) -> Seq<u8> {
        crate::receiver::destination::partial_place(self.root, self.shelf.receiver.files[i])
    }

    /// The path of the mark that this partial file is wrong.
    pub open spec fn mark(self, i: int) -> Seq<u8> {
        crate::receiver::destination::failed_place(self.root, self.shelf.receiver.files[i])
    }

    /// What a file holds; nothing, if it is not there.
    pub open spec fn content(self, path: Seq<u8>) -> Seq<u8> {
        if self.files.dom().contains(path) {
            self.files[path]
        } else {
            Seq::empty()
        }
    }

    /// Whether a path can be given out to the next file: it is one of those that
    /// are tried for the file, nothing stands there, and it was not given out
    /// before.
    pub open spec fn is_free(self, place: Seq<u8>) -> bool {
        let state = self.shelf.receiver;
        &&& is_variant(self.root, state.files[state.resume.len() as int], place)
        &&& !self.files.dom().contains(place)
        &&& !self.places.contains(place)
    }

    /// What the session sees of an event.
    pub open spec fn seen(self, event: DiskEvent) -> Event {
        let state = self.shelf.receiver;
        match event {
            DiskEvent::Frame(frame) => Event::Frame {
                frame,
                found: self.content(self.partial(state.index)),
            },
            DiskEvent::Plan(_) => {
                let next = state.resume.len() as int;
                Event::Partial {
                    length: if self.files.dom().contains(self.partial(next)) {
                        Some(self.files[self.partial(next)].len() as u64)
                    } else {
                        None
                    },
                    failed: self.files.dom().contains(self.mark(next)),
                }
            },
            DiskEvent::Prefix(count) => Event::Prefix(count),
            DiskEvent::Synced => Event::Synced,
        }
    }

    /// Whether an event can come now.
    pub open spec fn allows(self, event: DiskEvent) -> bool {
        let state = self.shelf.receiver;
        match event {
            DiskEvent::Frame(_) => state.want() == ReceiveWant::Frame,
            DiskEvent::Plan(place) => {
                &&& state.want() == ReceiveWant::Partial
                &&& self.is_free(place)
                &&& self.content(self.partial(state.resume.len() as int)).len() <= u64::MAX
            },
            DiskEvent::Prefix(count) => {
                &&& state.want() matches ReceiveWant::Prefix(most)
                &&& count <= most
                &&& state.absorbed.len() + count <= self.shelf.open.len()
            },
            DiskEvent::Synced => state.want() == ReceiveWant::Sync,
        }
    }

    /// The receiver and its files after an event.
    pub open spec fn after(self, event: DiskEvent) -> Disk {
        let state = self.shelf.receiver;
        let shelf = self.shelf.after(self.seen(event));
        match event {
            DiskEvent::Frame(frame) => match state.after_frame(frame) {
                Ok((_, ReceiveActionView::Begin { .. })) | Ok((_, ReceiveActionView::Store(_))) => {
                    Disk {
                        shelf,
                        files: self.files.insert(self.partial(state.index), shelf.open),
                        ..self
                    }
                },
                _ => Disk { shelf, ..self },
            },
            DiskEvent::Plan(place) => {
                let next = state.resume.len() as int;
                let places = self.places.push(place);
                let seen = self.seen(event);
                match state.after_partial(seen->length, seen->failed) {
                    Ok((_, ReceiveActionView::Planned { restart: true, .. })) => Disk {
                        shelf,
                        files: self.files.insert(self.partial(next), Seq::empty()).remove(
                            self.mark(next),
                        ),
                        places,
                        ..self
                    },
                    _ => Disk { shelf, places, ..self },
                }
            },
            DiskEvent::Prefix(_) => Disk { shelf, ..self },
            DiskEvent::Synced => match state.after_digest(
                crate::digest::blake3_digest(state.absorbed),
            ) {
                Ok(_) => Disk {
                    shelf,
                    files: self.files.remove(self.partial(state.index)).insert(
                        self.places[state.index],
                        self.shelf.open,
                    ),
                    ..self
                },
                Err(_) => Disk {
                    shelf,
                    files: self.files.insert(self.mark(state.index), Seq::empty()),
                    ..self
                },
            },
        }
    }

    /// The receiver and its files after a run of events.
    pub open spec fn after_all(self, run: Seq<DiskEvent>) -> Disk
        decreases run.len(),
    {
        if run.len() == 0 {
            self
        } else {
            self.after_all(run.drop_last()).after(run.last())
        }
    }

    /// Whether each event of a run can come when its turn comes.
    pub open spec fn allows_all(self, run: Seq<DiskEvent>) -> bool
        decreases run.len(),
    {
        run.len() == 0 || {
            &&& self.allows_all(run.drop_last())
            &&& self.after_all(run.drop_last()).allows(run.last())
        }
    }

    /// Whether the receiver knows what its open file holds, no partial file that
    /// it will open is longer than when it was looked at, and each path that was
    /// given out is one of its file's and not that of a partial file or a mark.
    pub open spec fn is_known(self) -> bool {
        let state = self.shelf.receiver;
        &&& self.shelf.verified()
        &&& self.places.len() == state.resume.len()
        &&& forall|i: int|
            0 <= i < self.places.len() ==> {
                &&& is_variant(self.root, state.files[i], #[trigger] self.places[i])
                &&& !is_own(self.root, state.files, self.places[i])
            }
        &&& match state.stage {
            ReceiveStage::Planning | ReceiveStage::AwaitStart => forall|i: int|
                state.index <= i < state.resume.len() ==> self.content(self.partial(i)).len()
                    <= #[trigger] state.resume[i],
            ReceiveStage::Rehashing
            | ReceiveStage::Receiving
            | ReceiveStage::AwaitEnd
            | ReceiveStage::Syncing => {
                &&& self.content(self.partial(state.index)) == self.shelf.open
                &&& forall|i: int|
                    state.index < i < state.resume.len() && self.partial(i) != self.partial(
                        state.index,
                    ) ==> self.content(self.partial(i)).len() <= #[trigger] state.resume[i]
            },
            _ => true,
        }
    }

    /// Whether the files that were there before, those in `before`, are as they
    /// were, apart from partial files and marks.
    pub open spec fn keeps(self, before: Map<Seq<u8>, Seq<u8>>) -> bool {
        forall|path: Seq<u8>|
            #![trigger before.dom().contains(path)]
            before.dom().contains(path) && !is_own(self.root, self.shelf.receiver.files, path)
                ==> self.files.dom().contains(path) && self.files[path] == before[path]
    }

    /// Whether each path that was given out holds the file that was published
    /// there, and nothing as long as none was. No file was there before.
    pub open spec fn fills(self, before: Map<Seq<u8>, Seq<u8>>) -> bool {
        let published = self.shelf.published;
        &&& self.places.no_duplicates()
        &&& forall|i: int|
            0 <= i < self.places.len() ==> {
                &&& !before.dom().contains(#[trigger] self.places[i])
                &&& self.files.dom().contains(self.places[i]) <==> i < published.len()
                &&& i < published.len() ==> self.files[self.places[i]] == published[i]
            }
    }

    /// Whether every file was there before, or was published, or is a partial
    /// file or a mark.
    pub open spec fn adds_nothing(self, before: Map<Seq<u8>, Seq<u8>>) -> bool {
        forall|path: Seq<u8>|
            #![trigger self.files.dom().contains(path)]
            self.files.dom().contains(path) ==> {
                ||| before.dom().contains(path)
                ||| is_own(self.root, self.shelf.receiver.files, path)
                ||| self.places.take(self.shelf.published.len() as int).contains(path)
            }
    }
}

/// A path that was claimed for the next file can be given out to it, as long as
/// what stands somewhere was never denied.
pub proof fn law_claimed_can_be_planned<F: Fn(&Vec<u8>) -> bool>(
    disk: Disk,
    reserved: Seq<Seq<u8>>,
    occupied: F,
    place: Seq<u8>,
)
    requires
        crate::receiver::destination::is_first_free(
            crate::path::placed(
                disk.root,
                disk.shelf.receiver.files[disk.shelf.receiver.resume.len() as int].path,
            ),
            reserved,
            occupied,
            Ok(place),
        ),
        forall|given: Seq<u8>| #[trigger]
            disk.places.contains(given) ==> reserved.contains(given),
        forall|asked: Seq<u8>| #[trigger]
            disk.files.dom().contains(asked) ==> !crate::receiver::destination::answered(
                occupied,
                asked,
                false,
            ),
    ensures
        disk.is_free(place),
{
    let next = disk.shelf.receiver.files[disk.shelf.receiver.resume.len() as int];
    crate::receiver::destination::law_claimed_is_free(
        crate::path::placed(disk.root, next.path),
        reserved,
        occupied,
        place,
        disk.files.dom(),
    );
}

/// No path that can be given out is that of a partial file or of its mark.
proof fn lemma_free_is_not_own(disk: Disk, place: Seq<u8>)
    requires
        disk.shelf.receiver.valid(),
        disk.shelf.receiver.want() == ReceiveWant::Partial,
        disk.is_free(place),
    ensures
        !is_own(disk.root, disk.shelf.receiver.files, place),
{
    let offered = disk.shelf.receiver.files;
    let next = offered[disk.shelf.receiver.resume.len() as int];
    let requested = crate::path::placed(disk.root, next.path);
    let number = choose|number: nat|
        place == #[trigger] crate::receiver::destination::candidate(requested, number);
    if is_own(disk.root, offered, place) {
        let i = choose|i: int|
            0 <= i < offered.len() && {
                ||| place == crate::receiver::destination::partial_place(
                    disk.root,
                    #[trigger] offered[i],
                )
                ||| place == crate::receiver::destination::failed_place(disk.root, offered[i])
            };
        crate::receiver::destination::law_candidate_is_no_partial(
            disk.root,
            next.path,
            number,
            offered[i],
        );
    }
}

/// Partial files and marks of offered files are the receiver's own.
proof fn lemma_own(root: Seq<u8>, offered: Seq<FileOfferView>, i: int)
    requires
        0 <= i < offered.len(),
    ensures
        is_own(root, offered, crate::receiver::destination::partial_place(root, offered[i])),
        is_own(root, offered, crate::receiver::destination::failed_place(root, offered[i])),
{
}

/// Taking a frame, the receiver knows what its open file holds.
proof fn lemma_frame_known(disk: Disk, frame: FrameView)
    requires
        disk.is_known(),
        disk.allows(DiskEvent::Frame(frame)),
        disk.after(DiskEvent::Frame(frame)).shelf.verified(),
    ensures
        disk.after(DiskEvent::Frame(frame)).is_known(),
{
    let state = disk.shelf.receiver;
    let next = disk.after(DiskEvent::Frame(frame));
    if state.after_frame(frame) is Ok {
        match state.stage {
            ReceiveStage::AwaitStart | ReceiveStage::Receiving => {
                assert(next.content(next.partial(state.index)) == next.shelf.open);
                assert forall|i: int|
                    state.index < i < state.resume.len() && next.partial(i) != next.partial(
                        state.index,
                    ) implies next.content(next.partial(i)).len()
                    <= #[trigger] next.shelf.receiver.resume[i] by {
                    assert(next.content(next.partial(i)) == disk.content(disk.partial(i)));
                    assert(disk.content(disk.partial(i)).len() <= state.resume[i]);
                }
            },
            _ => {},
        }
    }
}

/// Planning, the receiver knows what its open file holds.
proof fn lemma_plan_known(disk: Disk, place: Seq<u8>)
    requires
        disk.is_known(),
        disk.allows(DiskEvent::Plan(place)),
        disk.after(DiskEvent::Plan(place)).shelf.verified(),
    ensures
        disk.after(DiskEvent::Plan(place)).is_known(),
{
    let state = disk.shelf.receiver;
    let next = disk.after(DiskEvent::Plan(place));
    let k = state.resume.len() as int;
    lemma_free_is_not_own(disk, place);
    assert(next.shelf.receiver.index == 0);
    assert forall|i: int| 0 <= i < next.shelf.receiver.resume.len() implies next.content(
        next.partial(i),
    ).len() <= #[trigger] next.shelf.receiver.resume[i] by {
        if i < k {
            assert(disk.content(disk.partial(i)).len() <= state.resume[i]);
        }
    }
    assert forall|i: int| 0 <= i < next.places.len() implies {
        &&& is_variant(next.root, next.shelf.receiver.files[i], #[trigger] next.places[i])
        &&& !is_own(next.root, next.shelf.receiver.files, next.places[i])
    } by {
        if i < k {
            assert(next.places[i] == disk.places[i]);
        }
    }
}

/// Publishing a file or refusing it, the receiver knows what its open file holds.
proof fn lemma_synced_known(disk: Disk)
    requires
        disk.is_known(),
        disk.allows(DiskEvent::Synced),
        disk.after(DiskEvent::Synced).shelf.verified(),
    ensures
        disk.after(DiskEvent::Synced).is_known(),
{
    let state = disk.shelf.receiver;
    let next = disk.after(DiskEvent::Synced);
    let place = disk.places[state.index];
    if next.shelf.receiver.stage == ReceiveStage::AwaitStart {
        assert forall|i: int|
            state.index < i < next.shelf.receiver.resume.len() implies next.content(
            next.partial(i),
        ).len() <= #[trigger] next.shelf.receiver.resume[i] by {
            lemma_own(disk.root, state.files, i);
            assert(next.partial(i) != place);
            if disk.partial(i) != disk.partial(state.index) {
                assert(disk.content(disk.partial(i)).len() <= state.resume[i]);
            }
        }
    }
}

/// Whatever comes, the receiver knows what its open file holds.
pub proof fn law_stays_known(disk: Disk, event: DiskEvent)
    requires
        disk.is_known(),
        disk.allows(event),
    ensures
        disk.after(event).is_known(),
{
    let state = disk.shelf.receiver;
    if state.stage == ReceiveStage::AwaitStart {
        assert(disk.content(disk.partial(state.index)).len() <= state.resume[state.index]);
    }
    crate::receiver::safety::law_stays_verified(disk.shelf, disk.seen(event));
    match event {
        DiskEvent::Frame(frame) => {
            lemma_frame_known(disk, frame);
        },
        DiskEvent::Plan(place) => {
            lemma_plan_known(disk, place);
        },
        DiskEvent::Prefix(count) => {},
        DiskEvent::Synced => {
            lemma_synced_known(disk);
        },
    }
}

/// Taking a frame changes partial files alone.
proof fn lemma_frame_files(disk: Disk, frame: FrameView, before: Map<Seq<u8>, Seq<u8>>)
    requires
        disk.is_known(),
        disk.allows(DiskEvent::Frame(frame)),
        disk.keeps(before) && disk.fills(before) && disk.adds_nothing(before),
    ensures
        disk.after(DiskEvent::Frame(frame)).keeps(before),
        disk.after(DiskEvent::Frame(frame)).fills(before),
        disk.after(DiskEvent::Frame(frame)).adds_nothing(before),
{
    let state = disk.shelf.receiver;
    let next = disk.after(DiskEvent::Frame(frame));
    assert(next.shelf.published == disk.shelf.published);
    if state.after_frame(frame) is Ok {
        match state.stage {
            ReceiveStage::AwaitStart | ReceiveStage::Receiving => {
                lemma_own(disk.root, state.files, state.index);
                assert(next.shelf.receiver.files == state.files);
            },
            _ => {
                assert(next.files == disk.files);
            },
        }
    }
}

/// Planning changes partial files and marks alone.
proof fn lemma_plan_files(disk: Disk, place: Seq<u8>, before: Map<Seq<u8>, Seq<u8>>)
    requires
        disk.is_known(),
        disk.allows(DiskEvent::Plan(place)),
        disk.keeps(before) && disk.fills(before) && disk.adds_nothing(before),
    ensures
        disk.after(DiskEvent::Plan(place)).keeps(before),
        disk.after(DiskEvent::Plan(place)).fills(before),
        disk.after(DiskEvent::Plan(place)).adds_nothing(before),
{
    let state = disk.shelf.receiver;
    let next = disk.after(DiskEvent::Plan(place));
    let k = state.resume.len() as int;
    let published = disk.shelf.published;
    assert(next.shelf.published == published);
    assert(next.shelf.receiver.files == state.files);
    lemma_own(disk.root, state.files, k);
    lemma_free_is_not_own(disk, place);
    assert(!before.dom().contains(place));
    assert forall|i: int| 0 <= i < next.places.len() implies {
        &&& !before.dom().contains(#[trigger] next.places[i])
        &&& next.files.dom().contains(next.places[i]) <==> i < published.len()
        &&& i < published.len() ==> next.files[next.places[i]] == published[i]
    } by {
        if i < k {
            assert(next.places[i] == disk.places[i]);
        }
    }
    assert(next.places.take(published.len() as int) =~= disk.places.take(published.len() as int));
}

/// Publishing a file puts it where nothing was, and takes its partial file away;
/// refusing it leaves a mark.
proof fn lemma_synced_files(disk: Disk, before: Map<Seq<u8>, Seq<u8>>)
    requires
        disk.is_known(),
        disk.allows(DiskEvent::Synced),
        disk.keeps(before) && disk.fills(before) && disk.adds_nothing(before),
    ensures
        disk.after(DiskEvent::Synced).keeps(before),
        disk.after(DiskEvent::Synced).fills(before),
        disk.after(DiskEvent::Synced).adds_nothing(before),
{
    let state = disk.shelf.receiver;
    let next = disk.after(DiskEvent::Synced);
    let k = state.index;
    let place = disk.places[k];
    lemma_own(disk.root, state.files, k);
    assert(next.shelf.receiver.files == state.files);
    if state.after_digest(crate::digest::blake3_digest(state.absorbed)) is Ok {
        let published = next.shelf.published;
        assert(published == disk.shelf.published.push(disk.shelf.open));
        assert forall|i: int| 0 <= i < next.places.len() implies {
            &&& !before.dom().contains(#[trigger] next.places[i])
            &&& next.files.dom().contains(next.places[i]) <==> i < published.len()
            &&& i < published.len() ==> next.files[next.places[i]] == published[i]
        } by {
            assert(next.places[i] == disk.places[i]);
            if i != k {
                assert(disk.places[i] != place);
            }
        }
        let shown = next.places.take(published.len() as int);
        assert(shown[k] == place);
        assert forall|path: Seq<u8>|
            #![trigger next.files.dom().contains(path)]
            next.files.dom().contains(path) implies {
            ||| before.dom().contains(path)
            ||| is_own(disk.root, state.files, path)
            ||| shown.contains(path)
        } by {
            let earlier = disk.places.take(k);
            if earlier.contains(path) {
                let i = choose|i: int| 0 <= i < earlier.len() && earlier[i] == path;
                assert(shown[i] == path);
            }
        }
    } else {
        assert(next.shelf.published == disk.shelf.published);
    }
}

/// Whatever comes, every file that was there before is as it was, apart from
/// partial files and marks; each path that was given out holds what was
/// published there, or nothing; and no other file comes to be.
pub proof fn law_other_files_stay(disk: Disk, event: DiskEvent, before: Map<Seq<u8>, Seq<u8>>)
    requires
        disk.is_known(),
        disk.allows(event),
        disk.keeps(before),
        disk.fills(before),
        disk.adds_nothing(before),
    ensures
        disk.after(event).keeps(before),
        disk.after(event).fills(before),
        disk.after(event).adds_nothing(before),
{
    match event {
        DiskEvent::Frame(frame) => {
            lemma_frame_files(disk, frame, before);
        },
        DiskEvent::Plan(place) => {
            lemma_plan_files(disk, place, before);
        },
        DiskEvent::Prefix(count) => {},
        DiskEvent::Synced => {
            lemma_synced_files(disk, before);
        },
    }
}

/// At whatever moment a transfer ends, well or not, and whatever was offered: each
/// path that was given out to a published file is one of those that are tried for
/// it, and holds as many bytes as were offered, with the offered digest; at the
/// path of any other file there is nothing; and every file that was there before is
/// as it was, apart from partial files and marks.
pub proof fn law_received_safely(root: Seq<u8>, before: Map<Seq<u8>, Seq<u8>>, run: Seq<DiskEvent>)
    requires
        Disk::initial(root, before).allows_all(run),
    ensures
        ({
            let reached = Disk::initial(root, before).after_all(run);
            let offered = reached.shelf.receiver.files;
            &&& reached.root == root
            &&& reached.is_known()
            &&& reached.keeps(before)
            &&& reached.fills(before)
            &&& reached.adds_nothing(before)
            &&& reached.shelf.published.len() <= reached.places.len() <= offered.len()
            &&& forall|i: int|
                0 <= i < reached.shelf.published.len() ==> {
                    &&& is_variant(root, offered[i], reached.places[i])
                    &&& reached.files[#[trigger] reached.places[i]].len() == offered[i].size
                    &&& crate::digest::blake3_digest(reached.files[reached.places[i]])
                        == offered[i].hash
                }
        }),
    decreases run.len(),
{
    let initial = Disk::initial(root, before);
    let reached = initial.after_all(run);
    if run.len() == 0 {
        crate::receiver::safety::law_initially_verified();
    } else {
        let earlier = initial.after_all(run.drop_last());
        law_received_safely(root, before, run.drop_last());
        law_stays_known(earlier, run.last());
        law_other_files_stay(earlier, run.last(), before);
    }
    let published = reached.shelf.published;
    assert(reached.root == root);
    assert forall|i: int| 0 <= i < published.len() implies {
        &&& is_variant(root, reached.shelf.receiver.files[i], reached.places[i])
        &&& reached.files[#[trigger] reached.places[i]].len()
            == reached.shelf.receiver.files[i].size
        &&& crate::digest::blake3_digest(reached.files[reached.places[i]])
            == reached.shelf.receiver.files[i].hash
    } by {
        assert(reached.files[reached.places[i]] == published[i]);
    }
}

} // verus!
