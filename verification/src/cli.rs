//! The command lines of the two applications.
//!
//! An argument is a byte string in the platform's encoding.

use vstd::prelude::*;
use vstd::string::*;
use vstd::utf8::*;

use crate::bytes::{copied, same_bytes};
use crate::path::join_beneath;
use crate::text::{text_from_utf8, text_from_utf8_lossy};

verus! {

/// What the receiver's command line says at one place.
#[derive(Debug)]
pub enum DeckArgument {
    /// Listen on this address.
    Listen(String),
    /// Receive into this directory.
    Output(Vec<u8>),
    /// Show how the program is used, and nothing else.
    Help,
    /// There is nothing more.
    End,
}

/// What a [`DeckArgument`] says.
#[verifier::ext_equal]
pub enum DeckArgumentView {
    Listen(Seq<char>),
    Output(Seq<u8>),
    Help,
    End,
}

impl View for DeckArgument {
    type V = DeckArgumentView;

    open spec fn view(&self) -> DeckArgumentView {
        match self {
            DeckArgument::Listen(address) => DeckArgumentView::Listen(address@),
            DeckArgument::Output(directory) => DeckArgumentView::Output(directory@),
            DeckArgument::Help => DeckArgumentView::Help,
            DeckArgument::End => DeckArgumentView::End,
        }
    }
}

/// Whether an argument is this option, under its long or its short name.
pub open spec fn is_option(argument: Seq<u8>, long: Seq<char>, short: Seq<char>) -> bool {
    argument == encode_utf8(long) || argument == encode_utf8(short)
}

/// What the receiver's command line says at place `at`, and the place behind
/// that; or what is wrong there.
pub open spec fn deck_argument_at(arguments: Seq<Seq<u8>>, at: int) -> Result<
    (DeckArgumentView, int),
    Seq<char>,
> {
    if at >= arguments.len() {
        Ok((DeckArgumentView::End, at))
    } else if is_option(arguments[at], "--listen"@, "-l"@) {
        if at + 1 >= arguments.len() {
            Err("--listen requires an IP:port value"@)
        } else if !valid_utf8(arguments[at + 1]) {
            Err("listen address is not valid Unicode"@)
        } else {
            Ok((DeckArgumentView::Listen(decode_utf8(arguments[at + 1])), at + 2))
        }
    } else if is_option(arguments[at], "--output"@, "-o"@) {
        if at + 1 >= arguments.len() {
            Err("--output requires a directory path"@)
        } else {
            Ok((DeckArgumentView::Output(arguments[at + 1]), at + 2))
        }
    } else if is_option(arguments[at], "--help"@, "-h"@) {
        Ok((DeckArgumentView::Help, at + 1))
    } else {
        Err("unknown argument: "@ + crate::text::lossy_text(arguments[at]))
    }
}

/// What the sender's command line says.
#[derive(Debug)]
pub enum PcCommand {
    /// Show how the program is used, and nothing else.
    Help,
    /// Send the inputs to the host.
    Send { host: String, inputs: Vec<Vec<u8>> },
}

/// What a [`PcCommand`] says.
#[verifier::ext_equal]
pub enum PcCommandView {
    Help,
    Send { host: Seq<char>, inputs: Seq<Seq<u8>> },
}

impl View for PcCommand {
    type V = PcCommandView;

    open spec fn view(&self) -> PcCommandView {
        match self {
            PcCommand::Help => PcCommandView::Help,
            PcCommand::Send { host, inputs } => PcCommandView::Send {
                host: host@,
                inputs: crate::order::path_views(inputs@),
            },
        }
    }
}

/// What the sender's command line says from place `at` on, when `host` and
/// `inputs` stand before that; or what is wrong.
pub open spec fn pc_command_from(
    arguments: Seq<Seq<u8>>,
    at: int,
    host: Option<Seq<u8>>,
    inputs: Seq<Seq<u8>>,
) -> Result<PcCommandView, Seq<char>>
    decreases arguments.len() - at,
{
    if at >= arguments.len() {
        match host {
            None => Err("missing --host; use --help for usage"@),
            Some(name) => if inputs.len() == 0 {
                Err("choose at least one file or folder"@)
            } else if !valid_utf8(name) {
                Err("host is not valid Unicode"@)
            } else {
                Ok(PcCommandView::Send { host: decode_utf8(name), inputs })
            },
        }
    } else if is_option(arguments[at], "--host"@, "-h"@) {
        if at + 1 >= arguments.len() {
            Err("--host requires an IP address or hostname"@)
        } else {
            pc_command_from(arguments, at + 2, Some(arguments[at + 1]), inputs)
        }
    } else if arguments[at] == encode_utf8("--help"@) {
        Ok(PcCommandView::Help)
    } else {
        pc_command_from(arguments, at + 1, host, inputs.push(arguments[at]))
    }
}

/// Whether an argument is this option, under its long or its short name.
fn names_option(argument: &Vec<u8>, long: &str, short: &str) -> (named: bool)
    ensures
        named == is_option(argument@, long@, short@),
{
    same_bytes(argument.as_slice(), long.as_bytes()) || same_bytes(
        argument.as_slice(),
        short.as_bytes(),
    )
}

/// What the receiver's command line says at place `at`, and the place behind
/// that.
pub fn deck_argument(arguments: &Vec<Vec<u8>>, at: usize) -> (result: Result<
    (DeckArgument, usize),
    String,
>)
    ensures
        match (result, deck_argument_at(crate::order::path_views(arguments@), at as int)) {
            (Ok((argument, next)), Ok((expected, place))) => argument@ == expected && next == place,
            (Err(message), Err(expected)) => message@ == expected,
            _ => false,
        },
{
    let ghost all = crate::order::path_views(arguments@);
    if at >= arguments.len() {
        return Ok((DeckArgument::End, at));
    }
    assert(all[at as int] == arguments@[at as int]@);
    if names_option(&arguments[at], "--listen", "-l") {
        if arguments.len() - at < 2 {
            return Err("--listen requires an IP:port value".to_owned());
        }
        assert(all[at + 1] == arguments@[at + 1]@);
        return match text_from_utf8(copied(arguments[at + 1].as_slice())) {
            Some(address) => Ok((DeckArgument::Listen(address), at + 2)),
            None => Err("listen address is not valid Unicode".to_owned()),
        };
    }
    if names_option(&arguments[at], "--output", "-o") {
        if arguments.len() - at < 2 {
            return Err("--output requires a directory path".to_owned());
        }
        assert(all[at + 1] == arguments@[at + 1]@);
        return Ok((DeckArgument::Output(copied(arguments[at + 1].as_slice())), at + 2));
    }
    if names_option(&arguments[at], "--help", "-h") {
        return Ok((DeckArgument::Help, at + 1));
    }
    let mut message: String = String::new();
    message.append("unknown argument: ");
    let shown = text_from_utf8_lossy(arguments[at].as_slice());
    message.append(shown.as_str());
    assert(message@ =~= "unknown argument: "@ + crate::text::lossy_text(all[at as int]));
    Err(message)
}

/// What the sender's command line says.
pub fn pc_command(arguments: &Vec<Vec<u8>>) -> (result: Result<PcCommand, String>)
    ensures
        match (
            result,
            pc_command_from(crate::order::path_views(arguments@), 0, None, Seq::empty()),
        ) {
            (Ok(command), Ok(expected)) => command@ == expected,
            (Err(message), Err(expected)) => message@ == expected,
            _ => false,
        },
{
    let ghost all = crate::order::path_views(arguments@);
    let mut host: Option<Vec<u8>> = None;
    let mut inputs: Vec<Vec<u8>> = Vec::new();
    let mut at: usize = 0;
    assert(crate::order::path_views(inputs@) =~= Seq::empty());
    while at < arguments.len()
        invariant
            at <= arguments@.len(),
            all == crate::order::path_views(arguments@),
            pc_command_from(all, 0, None, Seq::empty()) == pc_command_from(
                all,
                at as int,
                match host {
                    Some(name) => Some(name@),
                    None => None,
                },
                crate::order::path_views(inputs@),
            ),
        decreases arguments@.len() - at,
    {
        assert(all[at as int] == arguments@[at as int]@);
        if names_option(&arguments[at], "--host", "-h") {
            if arguments.len() - at < 2 {
                return Err("--host requires an IP address or hostname".to_owned());
            }
            assert(all[at + 1] == arguments@[at + 1]@);
            host = Some(copied(arguments[at + 1].as_slice()));
            at = at + 2;
        } else if same_bytes(arguments[at].as_slice(), "--help".as_bytes()) {
            return Ok(PcCommand::Help);
        } else {
            let ghost before = crate::order::path_views(inputs@);
            inputs.push(copied(arguments[at].as_slice()));
            assert(crate::order::path_views(inputs@) =~= before.push(all[at as int]));
            at = at + 1;
        }
    }
    match host {
        None => Err("missing --host; use --help for usage".to_owned()),
        Some(name) => {
            if inputs.len() == 0 {
                return Err("choose at least one file or folder".to_owned());
            }
            match text_from_utf8(name) {
                Some(host) => Ok(PcCommand::Send { host, inputs }),
                None => Err("host is not valid Unicode".to_owned()),
            }
        },
    }
}

/// The directory that is received into if none is chosen.
pub open spec fn default_directory(home: Option<Seq<u8>>) -> Seq<u8> {
    match home {
        None => encode_utf8("SteamDeckFileTransfer"@),
        Some(directory) => crate::path::placed(
            crate::path::placed(directory, encode_utf8("Downloads"@)),
            encode_utf8("SteamDeckFileTransfer"@),
        ),
    }
}

/// The directory that is received into if none is chosen: in the home directory,
/// where there is one.
pub fn default_output(home: Option<&[u8]>) -> (directory: Vec<u8>)
    ensures
        directory@ == default_directory(
            match home {
                Some(bytes) => Some(bytes@),
                None => None,
            },
        ),
{
    match home {
        None => copied("SteamDeckFileTransfer".as_bytes()),
        Some(bytes) => {
            let downloads = join_beneath(bytes, "Downloads".as_bytes());
            join_beneath(downloads.as_slice(), "SteamDeckFileTransfer".as_bytes())
        },
    }
}

/// One thing that the sender's user says: a host, behind the option for it, or a
/// file or folder.
pub enum PcPart {
    Host { option: Seq<u8>, name: Seq<u8> },
    Input(Seq<u8>),
}

impl PcPart {
    /// Whether this is a host behind `--host` or `-h`, or an input that is no
    /// option.
    pub open spec fn is_proper(self) -> bool {
        match self {
            PcPart::Host { option, name } => option == encode_utf8("--host"@) || option
                == encode_utf8("-h"@),
            PcPart::Input(input) => {
                &&& input != encode_utf8("--host"@)
                &&& input != encode_utf8("-h"@)
                &&& input != encode_utf8("--help"@)
            },
        }
    }

    /// The arguments with which this is said.
    pub open spec fn words(self) -> Seq<Seq<u8>> {
        match self {
            PcPart::Host { option, name } => seq![option, name],
            PcPart::Input(input) => seq![input],
        }
    }
}

/// The command line with which `parts` are said one after the other.
pub open spec fn pc_line(parts: Seq<PcPart>) -> Seq<Seq<u8>> {
    parts.map_values(|part: PcPart| part.words()).flatten()
}

/// The hosts among `parts`.
pub open spec fn hosts_of(parts: Seq<PcPart>) -> Seq<PcPart> {
    parts.filter(|part: PcPart| part is Host)
}

/// The inputs among `parts`, in their order.
pub open spec fn inputs_of(parts: Seq<PcPart>) -> Seq<Seq<u8>> {
    parts.filter(|part: PcPart| part is Input).map_values(|part: PcPart| part->Input_0)
}

/// Whether all of `parts` are proper.
pub open spec fn are_proper(parts: Seq<PcPart>) -> bool {
    forall|i: int| 0 <= i < parts.len() ==> (#[trigger] parts[i]).is_proper()
}

/// One more thing is said behind the others.
proof fn lemma_one_more_part(parts: Seq<PcPart>, part: PcPart)
    ensures
        pc_line(parts.push(part)) == pc_line(parts) + part.words(),
        hosts_of(parts.push(part)) == (if part is Host {
            hosts_of(parts).push(part)
        } else {
            hosts_of(parts)
        }),
        inputs_of(parts.push(part)) == (if part is Input {
            inputs_of(parts).push(part->Input_0)
        } else {
            inputs_of(parts)
        }),
{
    reveal(Seq::filter);
    let longer = parts.push(part);
    let words = |part: PcPart| part.words();
    assert(longer.drop_last() =~= parts);
    assert(longer.map_values(words) =~= parts.map_values(words).push(part.words()));
    parts.map_values(words).lemma_flatten_push(part.words());
    assert(inputs_of(longer) =~= (if part is Input {
        inputs_of(parts).push(part->Input_0)
    } else {
        inputs_of(parts)
    }));
}

/// The last of the hosts.
pub open spec fn last_host(parts: Seq<PcPart>) -> Option<Seq<u8>> {
    if hosts_of(parts).len() == 0 {
        None
    } else {
        Some(hosts_of(parts).last()->name)
    }
}

/// Reading on behind `parts`, the last host and all the inputs are known.
proof fn lemma_pc_read(parts: Seq<PcPart>, rest: Seq<Seq<u8>>)
    requires
        are_proper(parts),
    ensures
        pc_command_from(pc_line(parts) + rest, 0, None, Seq::empty()) == pc_command_from(
            pc_line(parts) + rest,
            pc_line(parts).len() as int,
            last_host(parts),
            inputs_of(parts),
        ),
        inputs_of(parts).len() + 2 * hosts_of(parts).len() == pc_line(parts).len(),
    decreases parts.len(),
{
    reveal(Seq::filter);
    if parts.len() == 0 {
        assert(inputs_of(parts) =~= Seq::empty());
        assert(pc_line(parts) =~= Seq::empty());
    } else {
        let front = parts.drop_last();
        let part = parts.last();
        assert(front.push(part) =~= parts);
        assert(parts[parts.len() - 1].is_proper());
        assert(are_proper(front)) by {
            assert forall|i: int| 0 <= i < front.len() implies (
            #[trigger] front[i]).is_proper() by {
                assert(parts[i].is_proper());
            }
        }
        lemma_one_more_part(front, part);
        lemma_pc_read(front, part.words() + rest);
        let line = pc_line(parts) + rest;
        let at = pc_line(front).len() as int;
        assert(pc_line(front) + (part.words() + rest) =~= line);
        assert(line[at] == part.words()[0]);
        if part is Host {
            assert(line[at + 1] == part.words()[1]);
        }
    }
}

/// The options of the sender are different words.
proof fn lemma_pc_options()
    ensures
        !is_option(encode_utf8("--help"@), "--host"@, "-h"@),
{
    reveal_strlit("--host");
    reveal_strlit("-h");
    reveal_strlit("--help");
    is_ascii_chars_encode_utf8("--host"@);
    is_ascii_chars_encode_utf8("-h"@);
    is_ascii_chars_encode_utf8("--help"@);
    assert("--host"@[3] as u8 != "--help"@[3] as u8);
}

/// The sender's command line gives every input in its order, and the last host:
/// the inputs are all arguments but the host options and their values. Without a
/// host or without an input it is refused. `--help` is answered whatever follows
/// it, and a host option needs a value.
pub proof fn law_pc_command_reads_line(parts: Seq<PcPart>, option: Seq<u8>, rest: Seq<Seq<u8>>)
    requires
        are_proper(parts),
        option == encode_utf8("--host"@) || option == encode_utf8("-h"@),
    ensures
        inputs_of(parts).len() + 2 * hosts_of(parts).len() == pc_line(parts).len(),
        pc_command_from(pc_line(parts), 0, None, Seq::empty()) == (if hosts_of(parts).len() == 0 {
            Err::<PcCommandView, Seq<char>>("missing --host; use --help for usage"@)
        } else if inputs_of(parts).len() == 0 {
            Err("choose at least one file or folder"@)
        } else if !valid_utf8(hosts_of(parts).last()->name) {
            Err("host is not valid Unicode"@)
        } else {
            Ok(
                PcCommandView::Send {
                    host: decode_utf8(hosts_of(parts).last()->name),
                    inputs: inputs_of(parts),
                },
            )
        }),
        pc_command_from(
            pc_line(parts).push(encode_utf8("--help"@)) + rest,
            0,
            None,
            Seq::empty(),
        ) == Ok::<PcCommandView, Seq<char>>(PcCommandView::Help),
        pc_command_from(pc_line(parts).push(option), 0, None, Seq::empty()) == Err::<
            PcCommandView,
            Seq<char>,
        >("--host requires an IP address or hostname"@),
{
    let line = pc_line(parts);
    let help = encode_utf8("--help"@);
    lemma_pc_options();
    lemma_pc_read(parts, Seq::empty());
    lemma_pc_read(parts, seq![help] + rest);
    lemma_pc_read(parts, seq![option]);
    assert(line + Seq::<Seq<u8>>::empty() =~= line);
    assert(line + (seq![help] + rest) =~= line.push(help) + rest);
    assert((line.push(help) + rest)[line.len() as int] == help);
    assert(line + seq![option] =~= line.push(option));
}

/// Every command line of the sender says some things, and then ends, asks for
/// help, or breaks off behind a host option.
pub proof fn law_pc_lines_are_covered(arguments: Seq<Seq<u8>>) -> (parts: Seq<PcPart>)
    ensures
        are_proper(parts),
        pc_line(parts).is_prefix_of(arguments),
        ({
            let n = pc_line(parts).len() as int;
            ||| n == arguments.len()
            ||| arguments[n] == encode_utf8("--help"@)
            ||| n + 1 == arguments.len() && (arguments[n] == encode_utf8("--host"@)
                || arguments[n] == encode_utf8("-h"@))
        }),
{
    let parts = Seq::<PcPart>::empty();
    assert(pc_line(parts) =~= Seq::empty());
    assert(pc_line(parts) =~= arguments.subrange(0, 0));
    lemma_pc_covered(arguments, parts)
}

/// What is covered up to some place can be covered on.
proof fn lemma_pc_covered(arguments: Seq<Seq<u8>>, front: Seq<PcPart>) -> (parts: Seq<PcPart>)
    requires
        are_proper(front),
        pc_line(front).is_prefix_of(arguments),
    ensures
        are_proper(parts),
        pc_line(parts).is_prefix_of(arguments),
        ({
            let n = pc_line(parts).len() as int;
            ||| n == arguments.len()
            ||| arguments[n] == encode_utf8("--help"@)
            ||| n + 1 == arguments.len() && (arguments[n] == encode_utf8("--host"@)
                || arguments[n] == encode_utf8("-h"@))
        }),
    decreases arguments.len() - pc_line(front).len(),
{
    let n = pc_line(front).len() as int;
    if n == arguments.len() || arguments[n] == encode_utf8("--help"@) {
        front
    } else {
        let is_host = arguments[n] == encode_utf8("--host"@) || arguments[n] == encode_utf8("-h"@);
        if is_host && n + 1 == arguments.len() {
            front
        } else {
            let part = if is_host {
                PcPart::Host { option: arguments[n], name: arguments[n + 1] }
            } else {
                PcPart::Input(arguments[n])
            };
            lemma_one_more_part(front, part);
            let longer = front.push(part);
            assert(pc_line(longer) =~= arguments.subrange(0, pc_line(longer).len() as int)) by {
                assert(pc_line(front) =~= arguments.subrange(0, n));
                assert forall|i: int| 0 <= i < n implies pc_line(front)[i] == arguments[i] by {
                    assert(arguments.subrange(0, n)[i] == arguments[i]);
                }
            }
            assert(are_proper(longer)) by {
                assert forall|i: int| 0 <= i < longer.len() implies (
                #[trigger] longer[i]).is_proper() by {
                    if i < front.len() {
                        assert(front[i].is_proper());
                    }
                }
            }
            lemma_pc_covered(arguments, longer)
        }
    }
}

/// One more input on the command line is one more input that is sent, behind the
/// others; and one more host takes the place of the one before.
pub proof fn law_pc_command_grows(
    arguments: Seq<Seq<u8>>,
    host: Seq<char>,
    inputs: Seq<Seq<u8>>,
    more: PcPart,
)
    requires
        pc_command_from(arguments, 0, None, Seq::empty()) == Ok::<PcCommandView, Seq<char>>(
            PcCommandView::Send { host, inputs },
        ),
        more.is_proper(),
    ensures
        pc_command_from(arguments + more.words(), 0, None, Seq::empty()) == (match more {
            PcPart::Input(input) => Ok::<PcCommandView, Seq<char>>(
                PcCommandView::Send { host, inputs: inputs.push(input) },
            ),
            PcPart::Host { option, name } => if valid_utf8(name) {
                Ok(PcCommandView::Send { host: decode_utf8(name), inputs })
            } else {
                Err("host is not valid Unicode"@)
            },
        }),
{
    let parts = law_pc_lines_are_covered(arguments);
    let line = pc_line(parts);
    let n = line.len() as int;
    assert(line =~= arguments.subrange(0, n));
    if n < arguments.len() && arguments[n] == encode_utf8("--help"@) {
        law_pc_command_reads_line(parts, encode_utf8("-h"@), arguments.skip(n + 1));
        assert(line.push(arguments[n]) + arguments.skip(n + 1) =~= arguments);
    } else if n < arguments.len() {
        law_pc_command_reads_line(parts, arguments[n], Seq::empty());
        assert(line.push(arguments[n]) =~= arguments);
    } else {
        assert(line =~= arguments);
        let longer = parts.push(more);
        assert(are_proper(longer)) by {
            assert forall|i: int| 0 <= i < longer.len() implies (
            #[trigger] longer[i]).is_proper() by {
                if i < parts.len() {
                    assert(parts[i].is_proper());
                }
            }
        }
        lemma_one_more_part(parts, more);
        law_pc_command_reads_line(parts, encode_utf8("-h"@), Seq::empty());
        law_pc_command_reads_line(longer, encode_utf8("-h"@), Seq::empty());
    }
}

/// The options of the receiver are different words.
proof fn lemma_deck_options()
    ensures
        forall|word: Seq<u8>| #[trigger]
            is_option(word, "--listen"@, "-l"@) ==> !is_option(word, "--output"@, "-o"@)
                && !is_option(word, "--help"@, "-h"@),
        forall|word: Seq<u8>| #[trigger]
            is_option(word, "--output"@, "-o"@) ==> !is_option(word, "--help"@, "-h"@),
{
    reveal_strlit("--listen");
    reveal_strlit("-l");
    reveal_strlit("--output");
    reveal_strlit("-o");
    reveal_strlit("--help");
    reveal_strlit("-h");
    is_ascii_chars_encode_utf8("--listen"@);
    is_ascii_chars_encode_utf8("-l"@);
    is_ascii_chars_encode_utf8("--output"@);
    is_ascii_chars_encode_utf8("-o"@);
    is_ascii_chars_encode_utf8("--help"@);
    is_ascii_chars_encode_utf8("-h"@);
    assert("--listen"@[2] as u8 != "--output"@[2] as u8);
    assert("-l"@[1] as u8 != "-o"@[1] as u8);
    assert("-l"@[1] as u8 != "-h"@[1] as u8);
    assert("-o"@[1] as u8 != "-h"@[1] as u8);
}

/// Whatever stands before it and behind it, an option of the receiver with its
/// value is read as that option and that value, and reading goes on behind both.
pub proof fn law_deck_argument_reads_option(
    before: Seq<Seq<u8>>,
    option: Seq<u8>,
    value: Seq<u8>,
    rest: Seq<Seq<u8>>,
)
    ensures
        ({
            let read = deck_argument_at(
                before + seq![option, value] + rest,
                before.len() as int,
            );
            let behind = before.len() as int + 2;
            &&& (option == encode_utf8("--listen"@) || option == encode_utf8("-l"@)) ==> read == (
            if valid_utf8(value) {
                Ok::<(DeckArgumentView, int), Seq<char>>(
                    (DeckArgumentView::Listen(decode_utf8(value)), behind),
                )
            } else {
                Err("listen address is not valid Unicode"@)
            })
            &&& (option == encode_utf8("--output"@) || option == encode_utf8("-o"@)) ==> read
                == Ok::<(DeckArgumentView, int), Seq<char>>(
                (DeckArgumentView::Output(value), behind),
            )
        }),
{
    lemma_deck_options();
    let line = before + seq![option, value] + rest;
    assert(line[before.len() as int] == option);
    assert(line[before.len() as int + 1] == value);
}

/// Whatever stands before it and behind it, `--help` of the receiver is read as
/// such, an unknown word is named, and behind the last argument is the end. An
/// option without its value is refused.
pub proof fn law_deck_argument_reads_word(
    before: Seq<Seq<u8>>,
    word: Seq<u8>,
    rest: Seq<Seq<u8>>,
    beyond: nat,
)
    ensures
        ({
            let read = deck_argument_at(before.push(word) + rest, before.len() as int);
            let last = deck_argument_at(before.push(word), before.len() as int);
            let is_listen = word == encode_utf8("--listen"@) || word == encode_utf8("-l"@);
            let is_output = word == encode_utf8("--output"@) || word == encode_utf8("-o"@);
            let is_help = word == encode_utf8("--help"@) || word == encode_utf8("-h"@);
            &&& is_help ==> read == Ok::<(DeckArgumentView, int), Seq<char>>(
                (DeckArgumentView::Help, before.len() as int + 1),
            )
            &&& !is_listen && !is_output && !is_help ==> read == Err::<
                (DeckArgumentView, int),
                Seq<char>,
            >("unknown argument: "@ + crate::text::lossy_text(word))
            &&& is_listen ==> last == Err::<(DeckArgumentView, int), Seq<char>>(
                "--listen requires an IP:port value"@,
            )
            &&& is_output ==> last == Err::<(DeckArgumentView, int), Seq<char>>(
                "--output requires a directory path"@,
            )
        }),
        deck_argument_at(before, (before.len() + beyond) as int) == Ok::<
            (DeckArgumentView, int),
            Seq<char>,
        >((DeckArgumentView::End, (before.len() + beyond) as int)),
{
    lemma_deck_options();
    assert((before.push(word) + rest)[before.len() as int] == word);
}

/// What is received without a choice goes two names below the home directory,
/// however deep that is; without one, one name below the working directory.
pub proof fn law_default_directory(home: Seq<u8>)
    ensures
        crate::path::components(default_directory(Some(home))) == crate::path::components(home)
            + seq![
            crate::path::PathPartView::Normal(encode_utf8("Downloads"@)),
            crate::path::PathPartView::Normal(encode_utf8("SteamDeckFileTransfer"@)),
        ],
        crate::path::components(default_directory(None)) == seq![
            crate::path::PathPartView::Normal(encode_utf8("SteamDeckFileTransfer"@)),
        ],
{
    let downloads = encode_utf8("Downloads"@);
    let own = encode_utf8("SteamDeckFileTransfer"@);
    reveal_strlit("Downloads");
    reveal_strlit("SteamDeckFileTransfer");
    lemma_letters_plain("Downloads"@);
    lemma_letters_plain("SteamDeckFileTransfer"@);
    crate::path::law_placed_name(home, downloads);
    crate::path::law_placed_name(crate::path::placed(home, downloads), own);
    crate::path::law_placed_name(Seq::empty(), own);
    assert(crate::path::placed(Seq::empty(), own) =~= own);
    crate::path::law_components_empty();
    assert(crate::path::components(default_directory(Some(home))) =~= crate::path::components(home)
        + seq![
        crate::path::PathPartView::Normal(downloads),
        crate::path::PathPartView::Normal(own),
    ]);
    assert(crate::path::components(own) =~= seq![crate::path::PathPartView::Normal(own)]);
}

/// Letters make a plain name.
proof fn lemma_letters_plain(text: Seq<char>)
    requires
        text.len() > 0,
        forall|i: int| 0 <= i < text.len() ==> 'A' <= #[trigger] text[i] <= 'z',
    ensures
        crate::path::is_plain(encode_utf8(text)),
{
    let name = encode_utf8(text);
    is_ascii_chars_encode_utf8(text);
    assert forall|i: int| 0 <= i < name.len() implies name[i] >= 65 by {
        assert(text[i] as u8 == name[i]);
    }
    assert(name[0] >= 65);
}

} // verus!
