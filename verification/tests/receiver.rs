use sdft::order::PathSet;
use sdft::path::EntryKind;
use sdft::protocol::{
    encode_accept, encode_complete, encode_file_chunk, encode_file_end, encode_file_start,
    encode_offer, read_frame, FileOffer, Frame, FrameKind, ProtocolError, TransferAccept,
    TransferOffer,
};
use sdft::receiver::{
    check_component, check_created, check_offered, check_partial, check_root, directories_beneath,
    failed_path, parent_directory, partial_name, partial_path, partial_root, unique_destination,
    Destinations, ReceiveAction, ReceiveError, ReceiveSession, ReceiveWant,
};
use sdft::receiver::destination::partial_file_name;
use sdft::SafeRelativePath;

fn file(path: &str, content: &[u8]) -> FileOffer {
    FileOffer {
        path: SafeRelativePath::new(path.as_bytes()).unwrap(),
        size: content.len() as u64,
        hash: *blake3::hash(content).as_bytes(),
    }
}

fn frame(kind: FrameKind, payload: Vec<u8>) -> Frame {
    Frame { kind, payload }
}

fn offer_frame(files: Vec<FileOffer>) -> Frame {
    let offer = TransferOffer { id: [5; 16], files };
    frame(FrameKind::Offer, encode_offer(&offer).unwrap())
}

fn read_reply(bytes: &[u8]) -> Frame {
    let mut rest = bytes;
    let frame = read_frame(&mut rest).unwrap();
    assert!(rest.is_empty());
    frame
}

/// A session that waits for the first file, with a partial file of each length.
fn planned(files: Vec<FileOffer>, partials: &[Option<u64>]) -> ReceiveSession {
    let mut session = ReceiveSession::new();
    session.on_frame(frame(FrameKind::Hello, Vec::new())).unwrap();
    session.on_frame(offer_frame(files)).unwrap();
    for length in partials {
        session.on_partial(*length, false).unwrap();
    }
    session
}

fn malformed(result: Result<ReceiveAction, ReceiveError>) -> &'static str {
    match result {
        Err(ReceiveError::Protocol(ProtocolError::Malformed(reason))) => reason,
        other => panic!("{other:?}"),
    }
}

#[test]
fn a_greeting_is_answered() {
    let mut session = ReceiveSession::new();
    assert_eq!(session.wants(), ReceiveWant::Frame);
    match session.on_frame(frame(FrameKind::Hello, Vec::new())).unwrap() {
        ReceiveAction::Reply(bytes) => {
            assert_eq!(read_reply(&bytes), frame(FrameKind::HelloAck, Vec::new()));
        }
        other => panic!("{other:?}"),
    }
    assert_eq!(session.wants(), ReceiveWant::Frame);
}

#[test]
fn a_greeting_out_of_turn_ends_the_session() {
    let mut session = ReceiveSession::new();
    assert_eq!(
        malformed(session.on_frame(frame(FrameKind::Offer, Vec::new()))),
        "peer sent an unexpected frame"
    );
    assert_eq!(session.wants(), ReceiveWant::Nothing);

    let mut session = ReceiveSession::new();
    assert_eq!(
        malformed(session.on_frame(frame(FrameKind::Hello, vec![0]))),
        "expected an empty frame"
    );
    assert_eq!(session.wants(), ReceiveWant::Nothing);
}

#[test]
fn an_offer_is_announced_and_accepted() {
    let mut session = ReceiveSession::new();
    session.on_frame(frame(FrameKind::Hello, Vec::new())).unwrap();
    match session
        .on_frame(offer_frame(vec![file("a", b"12345"), file("b", b"123"), file("c", b"1")]))
        .unwrap()
    {
        ReceiveAction::Offered { files, bytes } => assert_eq!((files, bytes), (3, 9)),
        other => panic!("{other:?}"),
    }
    assert_eq!(session.files().len(), 3);
    assert_eq!(session.total(), 9);
    assert_eq!(session.wants(), ReceiveWant::Partial);
    assert!(matches!(
        session.on_partial(Some(2), false).unwrap(),
        ReceiveAction::Planned { offset: 2, restart: false, accept: None }
    ));
    assert!(matches!(
        session.on_partial(Some(4), false).unwrap(),
        ReceiveAction::Planned { offset: 0, restart: true, accept: None }
    ));
    match session.on_partial(None, false).unwrap() {
        ReceiveAction::Planned { offset: 0, restart: false, accept: Some(bytes) } => {
            let accept = TransferAccept { id: [5; 16], resume_offsets: vec![2, 0, 0] };
            assert_eq!(
                read_reply(&bytes),
                frame(FrameKind::Accept, encode_accept(&accept).unwrap())
            );
        }
        other => panic!("{other:?}"),
    }
    assert_eq!(session.wants(), ReceiveWant::Frame);
}

#[test]
fn offers_into_the_directory_of_partial_files_are_refused() {
    let target = file("b", b"short");
    let name = partial_name(&target);
    for path in [
        format!(".sdft-partials/{name}"),
        format!(".sdft-partials/{name}.failed"),
        "./.sdft-partials//x".to_string(),
        ".sdft-partials/x/y".to_string(),
    ] {
        let mut session = ReceiveSession::new();
        session.on_frame(frame(FrameKind::Hello, Vec::new())).unwrap();
        let offered = file(&path, b"longer than short");
        let shown = String::from_utf8(offered.path.as_path().to_vec()).unwrap();
        match session.on_frame(offer_frame(vec![file("a", b"1"), offered, target.clone()])) {
            Err(ReceiveError::UnsafeDestination(message)) => assert_eq!(
                message,
                format!("destination is in the directory of partial files: {shown}")
            ),
            other => panic!("{other:?}"),
        }
        assert_eq!(session.wants(), ReceiveWant::Nothing);
        assert!(session.files().is_empty());
    }
}

#[test]
fn offers_beside_the_directory_of_partial_files_are_taken() {
    let files: Vec<FileOffer> = [
        ".sdft-partials",
        ".sdft-partials2/x",
        ".sdft-partial/x",
        "a/.sdft-partials/x",
        ".sdft",
    ]
    .iter()
    .map(|path| file(path, b"1"))
    .collect();
    assert!(check_offered(&files).is_ok());
    assert!(check_offered(&Vec::new()).is_ok());
    let session = planned(files, &[None; 5]);
    assert_eq!(session.wants(), ReceiveWant::Frame);
}

#[test]
fn the_first_offer_into_the_directory_of_partial_files_is_named() {
    let files = vec![
        file("a", b"1"),
        file(".sdft-partials/y", b"1"),
        file(".sdft-partials/x", b"1"),
    ];
    assert!(matches!(
        check_offered(&files),
        Err(ReceiveError::UnsafeDestination(message))
            if message == "destination is in the directory of partial files: .sdft-partials/y"
    ));
}

#[test]
fn a_partial_file_that_failed_is_not_resumed() {
    let files = vec![file("a", b"12345"), file("b", b"123"), file("c", b"1")];
    let mut session = planned(files, &[]);
    assert!(matches!(
        session.on_partial(Some(5), true).unwrap(),
        ReceiveAction::Planned { offset: 0, restart: true, accept: None }
    ));
    assert!(matches!(
        session.on_partial(Some(3), false).unwrap(),
        ReceiveAction::Planned { offset: 3, restart: false, accept: None }
    ));
    assert!(matches!(
        session.on_partial(None, true).unwrap(),
        ReceiveAction::Planned { offset: 0, restart: true, accept: Some(_) }
    ));
}

#[test]
fn offers_without_files_or_beyond_counting_are_refused() {
    let mut session = ReceiveSession::new();
    session.on_frame(frame(FrameKind::Hello, Vec::new())).unwrap();
    assert_eq!(
        malformed(session.on_frame(offer_frame(Vec::new()))),
        "offer contains no files"
    );

    let mut huge = file("a", b"");
    huge.size = u64::MAX;
    let mut session = ReceiveSession::new();
    session.on_frame(frame(FrameKind::Hello, Vec::new())).unwrap();
    assert_eq!(
        malformed(session.on_frame(offer_frame(vec![huge, file("b", b"x")]))),
        "transfer size exceeds u64"
    );
}

#[test]
fn a_file_is_stored_verified_and_published() {
    let content = b"hello world";
    let mut session = planned(vec![file("a", content)], &[None]);
    match session.on_frame(frame(FrameKind::FileStart, encode_file_start(0, 0))).unwrap() {
        ReceiveAction::Begin { index: 0, offset: 0, ready: true } => {}
        other => panic!("{other:?}"),
    }
    let mut stored = Vec::new();
    for piece in [&content[..4], &content[4..]] {
        let chunk = encode_file_chunk(0, piece).unwrap();
        match session.on_frame(frame(FrameKind::FileChunk, chunk)).unwrap() {
            ReceiveAction::Store(bytes) => stored.extend_from_slice(&bytes),
            other => panic!("{other:?}"),
        }
        assert_eq!(session.received(), stored.len() as u64);
    }
    assert_eq!(stored, content);
    let end = encode_file_end(0, blake3::hash(content).as_bytes());
    assert!(matches!(
        session.on_frame(frame(FrameKind::FileEnd, end)).unwrap(),
        ReceiveAction::Sync
    ));
    assert_eq!(session.wants(), ReceiveWant::Sync);
    assert!(matches!(session.on_synced().unwrap(), ReceiveAction::Publish(0)));
    match session.on_frame(frame(FrameKind::Complete, encode_complete(1))).unwrap() {
        ReceiveAction::Finish { reply, files, bytes } => {
            assert_eq!((files, bytes), (1, 11));
            assert_eq!(read_reply(&reply), frame(FrameKind::Complete, encode_complete(1)));
        }
        other => panic!("{other:?}"),
    }
    assert_eq!(session.wants(), ReceiveWant::Nothing);
    assert_eq!(session.received(), session.total());
}

#[test]
fn a_partial_file_is_read_before_the_rest_comes() {
    let content = b"hello world";
    let mut session = planned(vec![file("a", content)], &[Some(5)]);
    match session.on_frame(frame(FrameKind::FileStart, encode_file_start(0, 5))).unwrap() {
        ReceiveAction::Begin { index: 0, offset: 5, ready: false } => {}
        other => panic!("{other:?}"),
    }
    assert_eq!(session.wants(), ReceiveWant::Prefix(5));
    assert!(matches!(
        session.on_prefix(b"hel").unwrap(),
        ReceiveAction::Rehashed { ready: false }
    ));
    assert_eq!(session.wants(), ReceiveWant::Prefix(2));
    assert!(matches!(
        session.on_prefix(b"lo").unwrap(),
        ReceiveAction::Rehashed { ready: true }
    ));
    assert_eq!(session.received(), 5);
    let chunk = encode_file_chunk(0, b" world").unwrap();
    session.on_frame(frame(FrameKind::FileChunk, chunk)).unwrap();
    let end = encode_file_end(0, blake3::hash(content).as_bytes());
    session.on_frame(frame(FrameKind::FileEnd, end)).unwrap();
    assert!(matches!(session.on_synced().unwrap(), ReceiveAction::Publish(0)));
}

#[test]
fn large_partial_files_are_read_in_pieces() {
    let content = vec![7; 300_000];
    let mut session = planned(vec![file("a", &content)], &[Some(300_000)]);
    session.on_frame(frame(FrameKind::FileStart, encode_file_start(0, 300_000))).unwrap();
    let mut pieces = Vec::new();
    while let ReceiveWant::Prefix(most) = session.wants() {
        pieces.push(most);
        session.on_prefix(&vec![7; most]).unwrap();
    }
    assert_eq!(pieces, [131_072, 131_072, 37_856]);
    let end = encode_file_end(0, blake3::hash(&content).as_bytes());
    session.on_frame(frame(FrameKind::FileEnd, end)).unwrap();
    assert!(matches!(session.on_synced().unwrap(), ReceiveAction::Publish(0)));
}

#[test]
fn a_partial_file_that_shrank_ends_the_session() {
    let mut session = planned(vec![file("a", b"hello")], &[Some(5)]);
    session.on_frame(frame(FrameKind::FileStart, encode_file_start(0, 5))).unwrap();
    assert_eq!(
        malformed(session.on_prefix(b"")),
        "partial file is shorter than resume offset"
    );
    assert_eq!(session.wants(), ReceiveWant::Nothing);
}

#[test]
fn a_wrong_digest_publishes_nothing() {
    let mut session = planned(vec![file("dir/a", b"hello")], &[None]);
    session.on_frame(frame(FrameKind::FileStart, encode_file_start(0, 0))).unwrap();
    let chunk = encode_file_chunk(0, b"jello").unwrap();
    session.on_frame(frame(FrameKind::FileChunk, chunk)).unwrap();
    let end = encode_file_end(0, blake3::hash(b"hello").as_bytes());
    session.on_frame(frame(FrameKind::FileEnd, end)).unwrap();
    match session.on_synced() {
        Err(error) => {
            assert_eq!(
                error.message(),
                "received data failed hash verification: dir/a"
            );
            assert!(matches!(error, ReceiveError::HashMismatch(path) if path == b"dir/a"));
        }
        other => panic!("{other:?}"),
    }
    assert_eq!(session.wants(), ReceiveWant::Nothing);
}

#[test]
fn a_given_digest_decides() {
    for (digest, published) in [([9; 32], true), ([8; 32], false)] {
        let mut offered = file("a", b"");
        offered.hash = [9; 32];
        let mut session = planned(vec![offered], &[None]);
        session.on_frame(frame(FrameKind::FileStart, encode_file_start(0, 0))).unwrap();
        session.on_frame(frame(FrameKind::FileEnd, encode_file_end(0, &[9; 32]))).unwrap();
        assert_eq!(session.settle(&digest).is_ok(), published);
    }
}

#[test]
fn files_come_in_the_accepted_order_and_place() {
    let files = || vec![file("a", b"hello"), file("b", b"x")];
    for start in [encode_file_start(1, 0), encode_file_start(0, 1)] {
        let mut session = planned(files(), &[None, None]);
        assert_eq!(
            malformed(session.on_frame(frame(FrameKind::FileStart, start))),
            "file start does not match accept"
        );
    }

    let mut session = planned(files(), &[None, None]);
    session.on_frame(frame(FrameKind::FileStart, encode_file_start(0, 0))).unwrap();
    let chunk = encode_file_chunk(1, b"hello").unwrap();
    assert_eq!(
        malformed(session.on_frame(frame(FrameKind::FileChunk, chunk))),
        "file chunk index is out of sequence"
    );

    for bytes in [&b""[..], &b"hello!"[..]] {
        let mut session = planned(files(), &[None, None]);
        session.on_frame(frame(FrameKind::FileStart, encode_file_start(0, 0))).unwrap();
        let chunk = encode_file_chunk(0, bytes).unwrap();
        assert_eq!(
            malformed(session.on_frame(frame(FrameKind::FileChunk, chunk))),
            "file chunk exceeds offered size"
        );
    }

    let hash = *blake3::hash(b"hello").as_bytes();
    for end in [encode_file_end(1, &hash), encode_file_end(0, &[0; 32])] {
        let mut session = planned(files(), &[None, None]);
        session.on_frame(frame(FrameKind::FileStart, encode_file_start(0, 0))).unwrap();
        let chunk = encode_file_chunk(0, b"hello").unwrap();
        session.on_frame(frame(FrameKind::FileChunk, chunk)).unwrap();
        assert_eq!(
            malformed(session.on_frame(frame(FrameKind::FileEnd, end))),
            "file end does not match offer"
        );
    }
}

#[test]
fn the_end_counts_every_file() {
    let mut session = planned(vec![file("a", b"")], &[None]);
    session.on_frame(frame(FrameKind::FileStart, encode_file_start(0, 0))).unwrap();
    let end = encode_file_end(0, blake3::hash(b"").as_bytes());
    session.on_frame(frame(FrameKind::FileEnd, end)).unwrap();
    session.on_synced().unwrap();
    assert_eq!(
        malformed(session.on_frame(frame(FrameKind::Complete, encode_complete(2)))),
        "completion count does not match offer"
    );
}

#[test]
fn partial_files_are_named_by_what_they_are_for() {
    let offer = file("resume.bin", b"content");
    let mut key = b"resume.bin".to_vec();
    key.extend_from_slice(&7_u64.to_be_bytes());
    key.extend_from_slice(blake3::hash(b"content").as_bytes());
    let expected = format!("{}.part", blake3::hash(&key).to_hex());
    assert_eq!(partial_name(&offer), expected);
    assert_eq!(partial_root(b"/in"), b"/in/.sdft-partials");
    assert_eq!(
        partial_path(b"/in", &offer),
        format!("/in/.sdft-partials/{expected}").into_bytes()
    );
    assert_eq!(
        failed_path(b"/in", &offer),
        format!("/in/.sdft-partials/{expected}.failed").into_bytes()
    );
    assert_ne!(partial_name(&file("other.bin", b"content")), expected);
}

#[test]
fn partial_names_take_unreadable_paths_as_text() {
    let mut offer = file("x", b"content");
    offer.path = SafeRelativePath::new(b"x\xff").unwrap();
    let mut key = "x\u{fffd}".as_bytes().to_vec();
    key.extend_from_slice(&7_u64.to_be_bytes());
    key.extend_from_slice(blake3::hash(b"content").as_bytes());
    assert_eq!(
        partial_name(&offer),
        format!("{}.part", blake3::hash(&key).to_hex())
    );
}

#[test]
fn digests_are_written_in_lower_case() {
    let mut digest = [0; 32];
    digest[0] = 0xab;
    digest[31] = 0x09;
    let name = partial_file_name(&digest);
    assert_eq!(name, format!("ab{}09.part", "00".repeat(30)));
}

fn found(requested: &str, taken: &[&str]) -> Result<String, String> {
    let path = SafeRelativePath::new(requested.as_bytes()).unwrap();
    unique_destination(b"/in", &path, &PathSet::new(), |candidate: &Vec<u8>| {
        taken.iter().any(|name| format!("/in/{name}").as_bytes() == candidate.as_slice())
    })
    .map(|path| String::from_utf8(path).unwrap())
    .map_err(|error| error.message())
}

#[test]
fn a_taken_name_gets_a_number() {
    assert_eq!(found("photo.jpg", &[]).unwrap(), "/in/photo.jpg");
    assert_eq!(found("photo.jpg", &["photo.jpg"]).unwrap(), "/in/photo (1).jpg");
    assert_eq!(
        found("d/photo.jpg", &["d/photo.jpg", "d/photo (1).jpg"]).unwrap(),
        "/in/d/photo (2).jpg"
    );
    assert_eq!(found("notes", &["notes"]).unwrap(), "/in/notes (1)");
    assert_eq!(found(".hidden", &[".hidden"]).unwrap(), "/in/.hidden (1)");
    assert_eq!(found("a.tar.gz", &["a.tar.gz"]).unwrap(), "/in/a.tar (1).gz");
    assert_eq!(found("a.", &["a."]).unwrap(), "/in/a (1).");
}

#[test]
fn stems_and_extensions_are_those_of_the_platform() {
    for name in ["a", "a.b", ".a", ".a.b", "a.b.c", "a.", "..a", "...", "a..b", "x y.z w"] {
        let path = std::path::Path::new(name);
        let stem = path.file_stem().unwrap().to_str().unwrap();
        let expected = match path.extension() {
            Some(extension) => format!("/in/{stem} (1).{}", extension.to_str().unwrap()),
            None => format!("/in/{stem} (1)"),
        };
        assert_eq!(found(name, &[name]).unwrap(), expected);
    }
}

#[test]
fn names_run_out() {
    let path = SafeRelativePath::new(b"a.b").unwrap();
    let asked = std::cell::Cell::new(0);
    let result = unique_destination(b"/in", &path, &PathSet::new(), |_: &Vec<u8>| {
        asked.set(asked.get() + 1);
        true
    });
    assert_eq!(
        result.unwrap_err().message(),
        "could not find a free destination name for /in/a.b"
    );
    assert_eq!(asked.get(), 10_001);
}

#[test]
fn names_that_are_no_text_get_no_number() {
    let path = SafeRelativePath::new(b"a\xff.txt").unwrap();
    assert_eq!(
        unique_destination(b"/in", &path, &PathSet::new(), |_: &Vec<u8>| false).unwrap(),
        b"/in/a\xff.txt"
    );
    assert_eq!(
        unique_destination(b"/in", &path, &PathSet::new(), |_: &Vec<u8>| true)
            .unwrap_err()
            .message(),
        "invalid destination filename"
    );
    let path = SafeRelativePath::new(b"a.\xff").unwrap();
    let result = unique_destination(b"/in", &path, &PathSet::new(), |candidate: &Vec<u8>| {
        candidate == b"/in/a.\xff"
    });
    assert_eq!(result.unwrap(), b"/in/a (1)");
}

#[test]
fn no_destination_is_given_out_twice() {
    let path = SafeRelativePath::new(b"a.b").unwrap();
    let mut destinations = Destinations::new();
    let mut claimed = Vec::new();
    for _ in 0..3 {
        claimed.push(destinations.claim(b"/in", &path, |_: &Vec<u8>| false).unwrap());
    }
    assert_eq!(claimed, [&b"/in/a.b"[..], b"/in/a (1).b", b"/in/a (2).b"]);
}

#[test]
fn directories_lead_down_from_the_root() {
    assert_eq!(parent_directory(b"/in/a/b.txt"), b"/in/a");
    assert_eq!(parent_directory(b"/b.txt"), b"/");
    assert_eq!(parent_directory(b"b.txt"), b"");
    assert_eq!(
        directories_beneath(b"/in", b"/in/a/b").unwrap(),
        [&b"/in/a"[..], b"/in/a/b"]
    );
    assert!(directories_beneath(b"/in", b"/in").unwrap().is_empty());
    assert_eq!(
        directories_beneath(b"/in", b"/inner/a").unwrap_err().message(),
        "destination escapes receive root: /inner/a"
    );
    assert_eq!(
        directories_beneath(b"/in/x", b"/in").unwrap_err().message(),
        "destination escapes receive root: /in"
    );
}

#[test]
fn only_real_directories_and_files_are_used() {
    assert!(check_root(EntryKind::Directory, b"/in").is_ok());
    for kind in [EntryKind::Symlink, EntryKind::File, EntryKind::Other] {
        assert_eq!(
            check_root(kind, b"/in").unwrap_err().message(),
            "receive root is not a real directory: /in"
        );
        assert_eq!(
            check_component(Some(kind), b"/in/a").unwrap_err().message(),
            "destination component is not a real directory: /in/a"
        );
        assert_eq!(
            check_created(kind, b"/in/a").unwrap_err().message(),
            "created destination component is unsafe: /in/a"
        );
    }
    assert!(!check_component(Some(EntryKind::Directory), b"/in/a").unwrap());
    assert!(check_component(None, b"/in/a").unwrap());
    assert!(check_created(EntryKind::Directory, b"/in/a").is_ok());
    assert!(check_partial(EntryKind::File, b"/p").is_ok());
    for kind in [EntryKind::Symlink, EntryKind::Directory, EntryKind::Other] {
        assert_eq!(
            check_partial(kind, b"/p").unwrap_err().message(),
            "partial path is not a regular file: /p"
        );
    }
}

#[test]
fn receive_errors_are_worded() {
    let error = std::io::Error::from(std::io::ErrorKind::NotFound);
    let expected = format!("file I/O failed: {error}");
    assert_eq!(ReceiveError::from(error).message(), expected);
    assert_eq!(
        ReceiveError::from(ProtocolError::BadMagic).message(),
        "peer used an unknown protocol"
    );
    assert_eq!(
        ReceiveError::UnsafeDestination("no".to_owned()).message(),
        "no"
    );
}
