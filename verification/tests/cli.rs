use sdft::cli::{deck_argument, default_output, pc_command, DeckArgument, PcCommand};

fn arguments(texts: &[&str]) -> Vec<Vec<u8>> {
    texts.iter().map(|text| text.as_bytes().to_vec()).collect()
}

#[test]
fn the_receiver_takes_an_address_and_a_directory() {
    let line = arguments(&["--listen", "0.0.0.0:1", "-o", "/in", "-l", "x", "--output", "y"]);
    match deck_argument(&line, 0).unwrap() {
        (DeckArgument::Listen(address), 2) => assert_eq!(address, "0.0.0.0:1"),
        other => panic!("{other:?}"),
    }
    match deck_argument(&line, 2).unwrap() {
        (DeckArgument::Output(directory), 4) => assert_eq!(directory, b"/in"),
        other => panic!("{other:?}"),
    }
    assert!(matches!(deck_argument(&line, 4).unwrap(), (DeckArgument::Listen(_), 6)));
    assert!(matches!(deck_argument(&line, 6).unwrap(), (DeckArgument::Output(_), 8)));
    assert!(matches!(deck_argument(&line, 8).unwrap(), (DeckArgument::End, 8)));
    for help in ["--help", "-h"] {
        assert!(matches!(
            deck_argument(&arguments(&[help]), 0).unwrap(),
            (DeckArgument::Help, 1)
        ));
    }
}

#[test]
fn the_receiver_says_what_is_wrong() {
    let cases = [
        (arguments(&["--listen"]), "--listen requires an IP:port value"),
        (arguments(&["-o"]), "--output requires a directory path"),
        (arguments(&["--send"]), "unknown argument: --send"),
        (
            vec![b"-l".to_vec(), b"\xff".to_vec()],
            "listen address is not valid Unicode",
        ),
        (vec![b"x\xff".to_vec()], "unknown argument: x\u{fffd}"),
    ];
    for (line, expected) in cases {
        assert_eq!(deck_argument(&line, 0).unwrap_err(), expected);
    }
}

#[test]
fn the_sender_takes_a_host_and_inputs() {
    match pc_command(&arguments(&["a", "--host", "deck", "b", "-h", "other"])).unwrap() {
        PcCommand::Send { host, inputs } => {
            assert_eq!(host, "other");
            assert_eq!(inputs, [b"a", b"b"]);
        }
        other => panic!("{other:?}"),
    }
    assert!(matches!(
        pc_command(&arguments(&["a", "--help", "--host"])).unwrap(),
        PcCommand::Help
    ));
}

#[test]
fn the_sender_says_what_is_wrong() {
    let cases = [
        (arguments(&["a", "--host"]), "--host requires an IP address or hostname"),
        (arguments(&["a"]), "missing --host; use --help for usage"),
        (arguments(&["--host", "deck"]), "choose at least one file or folder"),
        (
            vec![b"-h".to_vec(), b"\xff".to_vec(), b"a".to_vec()],
            "host is not valid Unicode",
        ),
    ];
    for (line, expected) in cases {
        assert_eq!(pc_command(&line).unwrap_err(), expected);
    }
}

#[test]
fn files_are_received_into_the_downloads() {
    assert_eq!(
        default_output(Some(b"/home/deck")),
        b"/home/deck/Downloads/SteamDeckFileTransfer"
    );
    assert_eq!(default_output(None), b"SteamDeckFileTransfer");
}
