use sdft::digest::ContentHasher;
use sdft::path::EntryKind;
use sdft::protocol::{
    decode_offer, encode_accept, encode_complete, encode_file_chunk, encode_file_end,
    encode_file_start, read_frame, FileOffer, Frame, FrameKind, ProtocolError, TransferAccept,
};
use sdft::sender::source::id_from_digest;
use sdft::sender::{
    check_entry, check_input, check_inputs, file_name, inspection_error, transfer_id, SendAction,
    SendError, SendSession, SendWant, SourceFile, SourceKind, SourceList,
};
use sdft::SafeRelativePath;

fn source(path: &str, content: &[u8]) -> SourceFile {
    SourceFile {
        source: format!("/home/{path}").into_bytes(),
        offer: FileOffer {
            path: SafeRelativePath::new(path.as_bytes()).unwrap(),
            size: content.len() as u64,
            hash: *blake3::hash(content).as_bytes(),
        },
    }
}

fn frame(kind: FrameKind, payload: Vec<u8>) -> Frame {
    Frame { kind, payload }
}

fn read_reply(bytes: &[u8]) -> Frame {
    let mut rest = bytes;
    let frame = read_frame(&mut rest).unwrap();
    assert!(rest.is_empty());
    frame
}

fn sent(action: SendAction) -> Frame {
    match action {
        SendAction::Reply(bytes) => read_reply(&bytes),
        other => panic!("{other:?}"),
    }
}

fn malformed(result: Result<SendAction, SendError>) -> &'static str {
    match result {
        Err(SendError::Protocol(ProtocolError::Malformed(reason))) => reason,
        other => panic!("{other:?}"),
    }
}

/// A session whose offer was accepted with these offsets.
fn accepted(sources: Vec<SourceFile>, resume_offsets: Vec<u64>) -> SendSession {
    let mut session = SendSession::new([6; 16], sources).unwrap();
    session.on_frame(frame(FrameKind::HelloAck, Vec::new())).unwrap();
    let accept = TransferAccept { id: [6; 16], resume_offsets };
    session
        .on_frame(frame(FrameKind::Accept, encode_accept(&accept).unwrap()))
        .unwrap();
    session
}

#[test]
fn a_session_greets_and_offers() {
    let mut session =
        SendSession::new([6; 16], vec![source("a", b"12"), source("b", b"345")]).unwrap();
    assert_eq!(session.total(), 5);
    assert_eq!(read_reply(&session.greeting()), frame(FrameKind::Hello, Vec::new()));
    assert_eq!(session.wants(), SendWant::Frame);
    let offer = sent(session.on_frame(frame(FrameKind::HelloAck, vec![1, 2])).unwrap());
    assert_eq!(offer.kind, FrameKind::Offer);
    let offer = decode_offer(&offer.payload).unwrap();
    assert_eq!(offer.id, [6; 16]);
    assert_eq!(offer.files[1], session.sources()[1].offer);
    assert_eq!(offer.files.len(), 2);
}

#[test]
fn a_file_is_sent_from_its_offset_on() {
    let content = b"hello world";
    let mut session = accepted(vec![source("a", content)], vec![4]);
    assert_eq!(session.wants(), SendWant::Turn);
    assert!(matches!(session.on_turn().unwrap(), SendAction::Open(0)));
    assert_eq!(session.wants(), SendWant::Opened);
    match session.on_opened(11).unwrap() {
        SendAction::Begin { offset: 4, reply } => {
            assert_eq!(
                read_reply(&reply),
                frame(FrameKind::FileStart, encode_file_start(0, 4))
            );
        }
        other => panic!("{other:?}"),
    }
    assert_eq!(session.sent(), 4);
    assert_eq!(session.wants(), SendWant::Data(7));
    assert_eq!(
        sent(session.on_data(b"o w").unwrap()),
        frame(FrameKind::FileChunk, encode_file_chunk(0, b"o w").unwrap())
    );
    assert_eq!(session.wants(), SendWant::Data(4));
    session.on_data(b"orld").unwrap();
    assert_eq!(session.sent(), 11);
    assert_eq!(session.wants(), SendWant::Turn);
    assert_eq!(
        sent(session.on_turn().unwrap()),
        frame(
            FrameKind::FileEnd,
            encode_file_end(0, blake3::hash(content).as_bytes())
        )
    );
    assert_eq!(
        sent(session.on_turn().unwrap()),
        frame(FrameKind::Complete, encode_complete(1))
    );
    match session.on_frame(frame(FrameKind::Complete, encode_complete(1))).unwrap() {
        SendAction::Finish { files, bytes } => assert_eq!((files, bytes), (1, 11)),
        other => panic!("{other:?}"),
    }
    assert_eq!(session.wants(), SendWant::Nothing);
}

#[test]
fn files_that_are_there_are_sent_without_data() {
    let mut session = accepted(vec![source("a", b"abc"), source("b", b"")], vec![3, 0]);
    for (index, size) in [(0, 3), (1, 0)] {
        assert!(matches!(session.on_turn().unwrap(), SendAction::Open(at) if at == index));
        session.on_opened(size).unwrap();
        assert_eq!(session.wants(), SendWant::Turn);
        assert_eq!(sent(session.on_turn().unwrap()).kind, FrameKind::FileEnd);
    }
    assert_eq!(sent(session.on_turn().unwrap()).kind, FrameKind::Complete);
}

#[test]
fn large_files_are_read_in_chunks() {
    let content = vec![1; 600_000];
    let mut session = accepted(vec![source("a", &content)], vec![0]);
    session.on_turn().unwrap();
    session.on_opened(600_000).unwrap();
    let mut pieces = Vec::new();
    while let SendWant::Data(most) = session.wants() {
        pieces.push(most);
        session.on_data(&vec![1; most]).unwrap();
    }
    assert_eq!(pieces, [262_144, 262_144, 75_712]);
}

#[test]
fn acceptances_that_do_not_fit_are_refused() {
    let greeted = || {
        let mut session = SendSession::new([6; 16], vec![source("a", b"12")]).unwrap();
        session.on_frame(frame(FrameKind::HelloAck, Vec::new())).unwrap();
        session
    };
    let accept = |id, resume_offsets| {
        frame(
            FrameKind::Accept,
            encode_accept(&TransferAccept { id, resume_offsets }).unwrap(),
        )
    };
    assert_eq!(
        malformed(greeted().on_frame(accept([7; 16], vec![0]))),
        "accept used a different transfer ID"
    );
    assert_eq!(
        malformed(greeted().on_frame(accept([6; 16], vec![0, 0]))),
        "resume offset count does not match offer"
    );
    assert_eq!(
        malformed(greeted().on_frame(frame(FrameKind::Complete, Vec::new()))),
        "peer sent an unexpected frame"
    );
    let mut session = accepted(vec![source("a", b"12")], vec![3]);
    assert_eq!(malformed(session.on_turn()), "resume offset exceeds file size");
    assert_eq!(session.wants(), SendWant::Nothing);
}

#[test]
fn a_changed_source_ends_the_session() {
    let mut session = accepted(vec![source("a", b"12")], vec![0]);
    session.on_turn().unwrap();
    match session.on_opened(3) {
        Err(error) => {
            assert_eq!(
                error.message(),
                "source file changed while it was being sent: /home/a"
            );
            assert!(matches!(error, SendError::SourceChanged(path) if path == b"/home/a"));
        }
        other => panic!("{other:?}"),
    }

    let mut session = accepted(vec![source("a", b"12")], vec![0]);
    session.on_turn().unwrap();
    session.on_opened(2).unwrap();
    session.on_data(b"1").unwrap();
    assert!(matches!(session.on_data(b""), Err(SendError::SourceChanged(_))));
    assert_eq!(session.wants(), SendWant::Nothing);
}

#[test]
fn a_confirmation_counts_every_file() {
    let mut session = accepted(vec![source("a", b"")], vec![0]);
    session.on_turn().unwrap();
    session.on_opened(0).unwrap();
    session.on_turn().unwrap();
    session.on_turn().unwrap();
    assert_eq!(
        malformed(session.on_frame(frame(FrameKind::Complete, encode_complete(0)))),
        "completion count does not match offer"
    );
}

#[test]
fn offers_that_cannot_be_written_are_not_sent() {
    let mut unwritable = source("a", b"");
    unwritable.offer.path = SafeRelativePath::new(b"\xff").unwrap();
    let mut session = SendSession::new([6; 16], vec![unwritable]).unwrap();
    assert_eq!(
        malformed(session.on_frame(frame(FrameKind::HelloAck, Vec::new()))),
        "path is not valid Unicode"
    );

    let long = "a".repeat(4096);
    let sources = (0..4200).map(|_| source(&long, b"")).collect();
    let mut session = SendSession::new([6; 16], sources).unwrap();
    assert!(matches!(
        session.on_frame(frame(FrameKind::HelloAck, Vec::new())),
        Err(SendError::Protocol(ProtocolError::OversizedFrame(17_388_020)))
    ));
}

#[test]
fn sources_beyond_counting_are_refused() {
    let mut huge = source("a", b"");
    huge.offer.size = u64::MAX;
    assert_eq!(
        SendSession::new([0; 16], vec![huge, source("b", b"x")])
            .unwrap_err()
            .message(),
        "transfer size exceeds u64"
    );
}

#[test]
fn sources_are_kept_in_the_order_of_their_paths() {
    let mut list = SourceList::new();
    for path in ["b", "a.b", "a/z", "a"] {
        let checked = list.check_path(path.as_bytes()).unwrap();
        assert_eq!(checked.as_path(), path.as_bytes());
        list.add(source(path, path.as_bytes()));
    }
    assert_eq!(
        list.check_path(b"./a//z").unwrap_err().message(),
        "two inputs produce the same destination path: a/z"
    );
    let paths: Vec<Vec<u8>> = list
        .finish()
        .unwrap()
        .iter()
        .map(|source| source.offer.path.as_path().to_vec())
        .collect();
    assert_eq!(paths, [&b"a"[..], b"a/z", b"a.b", b"b"]);
}

#[test]
fn inputs_are_checked() {
    assert!(check_inputs(1).is_ok());
    assert_eq!(
        check_inputs(0).unwrap_err().message(),
        "choose at least one file or folder"
    );
    assert_eq!(
        SourceList::new().finish().unwrap_err().message(),
        "the selected folders contain no regular files"
    );
    assert_eq!(
        SourceList::new().check_path(b"a/../b").unwrap_err().message(),
        "unsafe input path a/../b: the path contains parent traversal"
    );

    let entry = check_input(EntryKind::File, b"/home/x.txt").unwrap();
    assert_eq!((entry.kind, entry.name.as_slice()), (SourceKind::File, &b"x.txt"[..]));
    let entry = check_input(EntryKind::Directory, b"/home/dir/.").unwrap();
    assert_eq!((entry.kind, entry.name.as_slice()), (SourceKind::Directory, &b"dir"[..]));
    assert_eq!(
        check_input(EntryKind::Symlink, b"/..").unwrap_err().message(),
        "symbolic links are not supported: /.."
    );
    assert_eq!(
        check_input(EntryKind::Other, b"/..").unwrap_err().message(),
        "path has no filename: /.."
    );
    assert_eq!(
        check_input(EntryKind::Other, b"/dev/null").unwrap_err().message(),
        "unsupported file type: /dev/null"
    );
    assert_eq!(check_entry(EntryKind::File, b"f").unwrap(), SourceKind::File);
    assert_eq!(check_entry(EntryKind::Directory, b"f").unwrap(), SourceKind::Directory);
    assert_eq!(
        check_entry(EntryKind::Symlink, b"f").unwrap_err().message(),
        "symbolic links are not supported: f"
    );
    assert_eq!(
        check_entry(EntryKind::Other, b"f").unwrap_err().message(),
        "unsupported file type: f"
    );
}

#[test]
fn file_names_are_those_of_the_platform() {
    for path in ["", "/", "a", "a/", "a/.", "a/..", "..", ".", "./a", "/a/b", "a//b//", "/.."] {
        let expected = std::path::Path::new(path)
            .file_name()
            .map(|name| name.to_str().unwrap().as_bytes().to_vec());
        assert_eq!(file_name(path.as_bytes()), expected, "{path:?}");
    }
}

#[test]
fn inputs_that_cannot_be_looked_at_are_named() {
    let error = std::io::Error::from(std::io::ErrorKind::NotFound);
    assert_eq!(
        inspection_error(b"/x", &error).message(),
        format!("cannot inspect /x: {error}")
    );
}

#[test]
fn transfers_are_identified_by_time_process_and_files() {
    let sources = vec![source("a", b"one"), source("b", b"two")];
    let mut key = 77_u128.to_be_bytes().to_vec();
    key.extend_from_slice(&5_u32.to_be_bytes());
    for content in [b"one", b"two"] {
        key.extend_from_slice(blake3::hash(content).as_bytes());
        key.extend_from_slice(&3_u64.to_be_bytes());
    }
    assert_eq!(
        transfer_id(77, 5, &sources),
        blake3::hash(&key).as_bytes()[..16]
    );
    let mut digest = [0; 32];
    digest[..16].copy_from_slice(&[4; 16]);
    assert_eq!(id_from_digest(&digest), [4; 16]);
}

#[test]
fn content_is_hashed_piece_by_piece() {
    let mut content = ContentHasher::new();
    content.update(b"hello ");
    content.update(b"");
    content.update(b"world");
    assert_eq!(content.finish(), *blake3::hash(b"hello world").as_bytes());
    assert_eq!(ContentHasher::new().finish(), *blake3::hash(b"").as_bytes());
}

#[test]
fn send_errors_are_worded() {
    let error = std::io::Error::from(std::io::ErrorKind::NotFound);
    let expected = format!("file I/O failed: {error}");
    assert_eq!(SendError::from(error).message(), expected);
    assert_eq!(
        SendError::from(ProtocolError::BadMagic).message(),
        "peer used an unknown protocol"
    );
    assert_eq!(SendError::InvalidInput("no".to_owned()).message(), "no");
}
