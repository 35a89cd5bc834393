use std::collections::{BTreeMap, VecDeque};

use sdft::protocol::{read_frame, FileOffer, Frame};
use sdft::receiver::{
    failed_path, partial_path, Destinations, ReceiveAction, ReceiveError, ReceiveSession,
    ReceiveWant,
};
use sdft::sender::{SendAction, SendSession, SendWant, SourceFile};
use sdft::SafeRelativePath;

const ROOT: &[u8] = b"/in";

/// A receiver's disk: what each path holds.
type Disk = BTreeMap<Vec<u8>, Vec<u8>>;

fn source(path: &str, content: &[u8]) -> SourceFile {
    SourceFile {
        source: path.as_bytes().to_vec(),
        offer: FileOffer {
            path: SafeRelativePath::new(path.as_bytes()).unwrap(),
            size: content.len() as u64,
            hash: *blake3::hash(content).as_bytes(),
        },
    }
}

fn frame(bytes: &[u8]) -> Frame {
    let mut rest = bytes;
    let frame = read_frame(&mut rest).unwrap();
    assert!(rest.is_empty());
    frame
}

struct Receiver {
    session: ReceiveSession,
    disk: Disk,
    claimed: Vec<Vec<u8>>,
    partials: Vec<Vec<u8>>,
    marks: Vec<Vec<u8>>,
    replies: VecDeque<Vec<u8>>,
    position: usize,
    open: usize,
}

impl Receiver {
    fn new(disk: Disk) -> Receiver {
        Receiver {
            session: ReceiveSession::new(),
            disk,
            claimed: Vec::new(),
            partials: Vec::new(),
            marks: Vec::new(),
            replies: VecDeque::new(),
            position: 0,
            open: 0,
        }
    }

    fn act(&mut self, action: ReceiveAction) {
        match action {
            ReceiveAction::Reply(bytes) => self.replies.push_back(bytes),
            ReceiveAction::Offered { .. } => {
                let mut destinations = Destinations::new();
                let disk = &self.disk;
                for file in self.session.files() {
                    let occupied = |path: &Vec<u8>| disk.contains_key(path);
                    self.claimed.push(destinations.claim(ROOT, &file.path, occupied).unwrap());
                    self.partials.push(partial_path(ROOT, file));
                    self.marks.push(failed_path(ROOT, file));
                }
            }
            ReceiveAction::Planned { restart, accept, .. } => {
                if restart {
                    let path = self.partials[self.open].clone();
                    self.disk.insert(path, Vec::new());
                    self.disk.remove(&self.marks[self.open]);
                }
                self.open += 1;
                self.replies.extend(accept);
            }
            ReceiveAction::Begin { index, offset, ready } => {
                self.open = index;
                self.disk.entry(self.partials[index].clone()).or_default();
                self.position = if ready { offset as usize } else { 0 };
            }
            ReceiveAction::Rehashed { .. } | ReceiveAction::Sync => {}
            ReceiveAction::Store(bytes) => {
                let file = self.disk.get_mut(&self.partials[self.open]).unwrap();
                file.truncate(self.position);
                file.extend_from_slice(&bytes);
                self.position += bytes.len();
            }
            ReceiveAction::Publish(index) => {
                let content = self.disk.remove(&self.partials[index]).unwrap();
                self.disk.insert(self.claimed[index].clone(), content);
            }
            ReceiveAction::Finish { reply, .. } => self.replies.push_back(reply),
        }
    }

    /// Does all that can be done without a frame.
    fn settle(&mut self) -> Result<(), ReceiveError> {
        loop {
            let action = match self.session.wants() {
                ReceiveWant::Partial => {
                    let length = self
                        .disk
                        .get(&self.partials[self.open])
                        .map(|partial| partial.len() as u64);
                    let failed = self.disk.contains_key(&self.marks[self.open]);
                    self.session.on_partial(length, failed)?
                }
                ReceiveWant::Prefix(most) => {
                    let partial = &self.disk[&self.partials[self.open]];
                    let end = partial.len().min(self.position + most);
                    let bytes = partial[self.position..end].to_vec();
                    self.position = end;
                    self.session.on_prefix(&bytes)?
                }
                ReceiveWant::Sync => match self.session.on_synced() {
                    Err(ReceiveError::HashMismatch(path)) => {
                        self.disk.insert(self.marks[self.open].clone(), Vec::new());
                        return Err(ReceiveError::HashMismatch(path));
                    }
                    result => result?,
                },
                ReceiveWant::Frame | ReceiveWant::Nothing => return Ok(()),
            };
            self.act(action);
        }
    }

    fn take(&mut self, bytes: &[u8]) -> Result<(), ReceiveError> {
        let action = self.session.on_frame(frame(bytes))?;
        self.act(action);
        self.settle()
    }
}

/// Transfers files to a disk. The sender reads at most `piece` bytes at a time.
fn transfer(files: &[(&str, Vec<u8>)], disk: Disk, piece: usize) -> Result<Disk, ReceiveError> {
    transfer_until(files, disk, piece, usize::MAX)
}

/// Transfers files to a disk, and breaks off after so many frames.
fn transfer_until(
    files: &[(&str, Vec<u8>)],
    disk: Disk,
    piece: usize,
    frames: usize,
) -> Result<Disk, ReceiveError> {
    let (disk, result) = attempt(files, disk, piece, frames);
    result.map(|()| disk)
}

/// Transfers files to a disk, breaks off after so many frames, and gives back
/// what is on the disk in any case.
fn attempt(
    files: &[(&str, Vec<u8>)],
    disk: Disk,
    piece: usize,
    frames: usize,
) -> (Disk, Result<(), ReceiveError>) {
    let sources = files.iter().map(|(path, content)| source(path, content)).collect();
    let mut sender = SendSession::new([4; 16], sources).unwrap();
    let mut receiver = Receiver::new(disk);
    let mut queue = VecDeque::from([sender.greeting()]);
    let mut index = 0;
    let mut position = 0;
    let mut arrived = 0;
    loop {
        let action = match sender.wants() {
            SendWant::Frame => {
                while let Some(bytes) = queue.pop_front() {
                    if arrived == frames {
                        return (receiver.disk, Ok(()));
                    }
                    arrived += 1;
                    if let Err(error) = receiver.take(&bytes) {
                        return (receiver.disk, Err(error));
                    }
                }
                let reply = receiver.replies.pop_front().unwrap();
                sender.on_frame(frame(&reply)).unwrap()
            }
            SendWant::Turn => sender.on_turn().unwrap(),
            SendWant::Opened => sender.on_opened(files[index].1.len() as u64).unwrap(),
            SendWant::Data(most) => {
                let end = position + most.min(piece);
                let bytes = &files[index].1[position..end];
                position = end;
                sender.on_data(bytes).unwrap()
            }
            SendWant::Nothing => break,
        };
        match action {
            SendAction::Reply(bytes) => queue.push_back(bytes),
            SendAction::Open(at) => index = at,
            SendAction::Begin { offset, reply } => {
                position = offset as usize;
                queue.push_back(reply);
            }
            SendAction::Started { .. } | SendAction::Finish { .. } => {}
        }
    }
    assert_eq!(receiver.session.wants(), ReceiveWant::Nothing);
    assert_eq!(receiver.session.received(), sender.sent());
    assert_eq!(sender.sent(), sender.total());
    (receiver.disk, Ok(()))
}

fn at(path: &str) -> Vec<u8> {
    format!("/in/{path}").into_bytes()
}

#[test]
fn sessions_transfer_and_verify_a_file() {
    let contents = vec![0x5a; 700_000];
    let disk = transfer(&[("source.bin", contents.clone())], Disk::new(), usize::MAX).unwrap();
    assert_eq!(disk.len(), 1);
    assert_eq!(disk[&at("source.bin")], contents);
}

#[test]
fn sessions_resume_an_existing_partial_file() {
    let contents: Vec<u8> = (0_u32..800_000)
        .map(|value| u8::try_from(value % 251).unwrap())
        .collect();
    let offer = source("resume.bin", &contents).offer;
    let partial = partial_path(ROOT, &offer);
    let mut disk = Disk::new();
    disk.insert(partial.clone(), contents[..333_333].to_vec());
    let disk = transfer(&[("resume.bin", contents.clone())], disk, usize::MAX).unwrap();
    assert_eq!(disk[&at("resume.bin")], contents);
    assert!(!disk.contains_key(&partial));
}

#[test]
fn sessions_keep_both_when_a_destination_exists() {
    let mut disk = Disk::new();
    disk.insert(at("photo.jpg"), b"old photo".to_vec());
    let disk = transfer(&[("photo.jpg", b"new photo".to_vec())], disk, usize::MAX).unwrap();
    assert_eq!(disk[&at("photo.jpg")], b"old photo");
    assert_eq!(disk[&at("photo (1).jpg")], b"new photo");
}

#[test]
fn sessions_transfer_many_files_in_small_pieces() {
    let files = [
        ("a", Vec::new()),
        ("b/c", b"one".to_vec()),
        ("b/d.txt", vec![7; 1000]),
        ("z", b"last".to_vec()),
    ];
    for piece in [1, 3, 999] {
        let disk = transfer(&files, Disk::new(), piece).unwrap();
        assert_eq!(disk.len(), files.len());
        for (path, content) in &files {
            assert_eq!(&disk[&at(path)], content);
        }
    }
}

#[test]
fn a_partial_file_that_is_too_long_is_emptied() {
    let contents = b"short".to_vec();
    let partial = partial_path(ROOT, &source("a", &contents).offer);
    let mut disk = Disk::new();
    disk.insert(partial, b"much too long".to_vec());
    let disk = transfer(&[("a", contents.clone())], disk, usize::MAX).unwrap();
    assert_eq!(disk[&at("a")], contents);
    assert_eq!(disk.len(), 1);
}

#[test]
fn a_partial_file_of_something_else_is_not_published() {
    let contents = b"hello world".to_vec();
    let offer = source("a", &contents).offer;
    let partial = partial_path(ROOT, &offer);
    let mut disk = Disk::new();
    disk.insert(at("b"), b"other".to_vec());
    disk.insert(partial.clone(), b"jello".to_vec());
    let (disk, result) = attempt(&[("a", contents)], disk, usize::MAX, usize::MAX);
    assert!(matches!(result, Err(ReceiveError::HashMismatch(path)) if path == b"a"));
    assert_eq!(disk.len(), 3);
    assert_eq!(disk[&at("b")], b"other");
    assert_eq!(disk[&partial], b"jello world");
    assert!(disk.contains_key(&failed_path(ROOT, &offer)));
}

#[test]
fn a_file_that_failed_is_sent_again_as_a_whole() {
    let files = [("a", b"hello world".to_vec()), ("b", b"second".to_vec())];
    let mut disk = Disk::new();
    disk.insert(partial_path(ROOT, &source("a", &files[0].1).offer), b"jello".to_vec());
    disk.insert(partial_path(ROOT, &source("b", &files[1].1).offer), b"sec".to_vec());
    let (disk, result) = attempt(&files, disk, usize::MAX, usize::MAX);
    assert!(matches!(result, Err(ReceiveError::HashMismatch(_))));
    let disk = transfer(&files, disk, usize::MAX).unwrap();
    assert_eq!(disk.len(), 2);
    for (path, content) in &files {
        assert_eq!(&disk[&at(path)], content);
    }
}

#[test]
fn no_file_is_put_in_place_of_a_partial_file_or_its_mark() {
    let short = b"short".to_vec();
    let offer = source("b", &short).offer;
    for place in [partial_path(ROOT, &offer), failed_path(ROOT, &offer)] {
        let path = String::from_utf8(place[ROOT.len() + 1..].to_vec()).unwrap();
        let files = [(path.as_str(), vec![7; 100]), ("b", short.clone())];
        let mut disk = Disk::new();
        disk.insert(at("b"), b"other".to_vec());
        let (after, result) = attempt(&files, disk.clone(), usize::MAX, usize::MAX);
        assert!(matches!(result, Err(ReceiveError::UnsafeDestination(_))));
        assert_eq!(after, disk);
    }
}

#[test]
fn files_that_were_there_stay_as_they_were() {
    let mut disk = Disk::new();
    for path in ["a", "a (1)", "c/d", "e"] {
        disk.insert(at(path), path.as_bytes().to_vec());
    }
    let files = [("a", b"new".to_vec()), ("c/d", vec![9; 40]), ("f", Vec::new())];
    for frames in 0..15 {
        let after = transfer_until(&files, disk.clone(), 10, frames).unwrap();
        for (path, content) in &disk {
            assert_eq!(&after[path], content);
        }
        for (path, content) in [("a (2)", &files[0].1), ("c/d (1)", &files[1].1)] {
            if let Some(published) = after.get(&at(path)) {
                assert_eq!(published, content);
            }
        }
    }
    assert_eq!(transfer(&files, disk.clone(), 10).unwrap().len(), disk.len() + 3);
}

#[test]
fn a_broken_off_transfer_is_taken_up_again() {
    let files = [
        ("a", (0..100).collect::<Vec<u8>>()),
        ("b", Vec::new()),
        ("c", vec![3; 50]),
    ];
    for frames in 0..30 {
        let disk = transfer_until(&files, Disk::new(), 10, frames).unwrap();
        for (path, content) in &files {
            if let Some(published) = disk.get(&at(path)) {
                assert_eq!(published, content);
            }
            if let Some(partial) = disk.get(&partial_path(ROOT, &source(path, content).offer)) {
                assert_eq!(partial[..], content[..partial.len()]);
            }
        }
        let published: Vec<_> = files
            .iter()
            .filter(|(path, _)| disk.contains_key(&at(path)))
            .cloned()
            .collect();
        let disk = transfer(&files, disk, 7).unwrap();
        assert_eq!(disk.len(), files.len() + published.len());
        for (path, content) in &files {
            assert_eq!(&disk[&at(path)], content);
        }
        for (path, content) in published {
            assert_eq!(disk[&at(&format!("{path} (1)"))], content);
        }
    }
}
