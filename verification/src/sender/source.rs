//! The files that are sent: which entries are taken, under which paths, and in
//! which order.

use vstd::prelude::*;
use vstd::string::*;

use crate::bytes::{append, push_be, to_array};
use crate::digest::digest_of;
use crate::order::PathSet;
use crate::path::{path_components, EntryKind, PathPart, PathPartView, SafeRelativePath, UnsafePath};
use crate::protocol::{FileOffer, FileOfferView};
use crate::sender::{SendError, SendErrorView};
use crate::text::{io_error_text, text_from_utf8_lossy};

verus! {

/// A file that is sent: where it is read from, and how it is offered.
#[derive(Debug)]
pub struct SourceFile {
    pub source: Vec<u8>,
    pub offer: FileOffer,
}

/// What a [`SourceFile`] says.
#[verifier::ext_equal]
pub struct SourceFileView {
    pub source: Seq<u8>,
    pub offer: FileOfferView,
}

impl View for SourceFile {
    type V = SourceFileView;

    open spec fn view(&self) -> SourceFileView {
        SourceFileView { source: self.source@, offer: self.offer@ }
    }
}

/// The views of a list of sources.
pub open spec fn source_views(sources: Seq<SourceFile>) -> Seq<SourceFileView> {
    Seq::new(sources.len(), |i: int| sources[i]@)
}

/// How the files of a list are offered.
pub open spec fn offered(sources: Seq<SourceFileView>) -> Seq<FileOfferView> {
    Seq::new(sources.len(), |i: int| sources[i].offer)
}

/// The paths under which the files of a list are offered.
pub open spec fn offered_paths(sources: Seq<SourceFileView>) -> Seq<Seq<u8>> {
    Seq::new(sources.len(), |i: int| sources[i].offer.path)
}

/// What is done with an entry.
#[derive(Clone, Copy, Debug, Eq, PartialEq, Structural)]
pub enum SourceKind {
    /// It is sent.
    File,
    /// Its entries are sent.
    Directory,
}

/// What is done with an input of the user, and under which name.
#[derive(Debug)]
pub struct SourceEntry {
    pub kind: SourceKind,
    pub name: Vec<u8>,
}

/// The name of the file or directory that a path leads to.
pub open spec fn name_of(path: Seq<u8>) -> Option<Seq<u8>> {
    let parts = crate::path::components(path);
    if parts.len() == 0 {
        None
    } else {
        match parts.last() {
            PathPartView::Normal(name) => Some(name),
            _ => None,
        }
    }
}

/// The name of the file or directory that a path leads to.
pub fn file_name(path: &[u8]) -> (name: Option<Vec<u8>>)
    ensures
        match (name, name_of(path@)) {
            (Some(bytes), Some(expected)) => bytes@ == expected,
            (None, None) => true,
            _ => false,
        },
{
    let mut parts = path_components(path);
    let ghost all = parts@;
    match parts.pop() {
        Some(part) => {
            assert(crate::path::part_views(all).last() == part@);
            match part {
                PathPart::Normal(name) => Some(name),
                _ => None,
            }
        },
        None => None,
    }
}

/// An input that cannot be sent, named behind what is wrong with it.
pub open spec fn invalid(reason: Seq<char>, path: Seq<u8>) -> SendErrorView {
    SendErrorView::InvalidInput(reason + crate::text::lossy_text(path))
}

/// An input that cannot be sent, named behind what is wrong with it.
fn refuse(reason: &str, path: &[u8]) -> (error: SendError)
    ensures
        error@ == invalid(reason@, path@),
{
    let mut message: String = String::new();
    message.append(reason);
    let name = text_from_utf8_lossy(path);
    message.append(name.as_str());
    assert(message@ =~= reason@ + crate::text::lossy_text(path@));
    SendError::InvalidInput(message)
}

/// Decides whether there is anything to send at all.
pub fn check_inputs(count: usize) -> (result: Result<(), SendError>)
    ensures
        match result {
            Ok(_) => count > 0,
            Err(error) => count == 0 && error@ == SendErrorView::InvalidInput(
                "choose at least one file or folder"@,
            ),
        },
{
    if count == 0 {
        return Err(SendError::InvalidInput("choose at least one file or folder".to_owned()));
    }
    Ok(())
}

/// The error for an input that could not be looked at. What the operating
/// system says of it is left open.
pub fn inspection_error(input: &[u8], error: &std::io::Error) -> (refused: SendError)
    ensures
        refused@ matches SendErrorView::InvalidInput(message) && ("cannot inspect "@
            + crate::text::lossy_text(input@) + ": "@).is_prefix_of(message),
{
    let mut message: String = String::new();
    message.append("cannot inspect ");
    let name = text_from_utf8_lossy(input);
    message.append(name.as_str());
    message.append(": ");
    let ghost head = message@;
    assert(head =~= "cannot inspect "@ + crate::text::lossy_text(input@) + ": "@);
    let reason = io_error_text(error);
    message.append(reason.as_str());
    assert(head.is_prefix_of(message@));
    SendError::InvalidInput(message)
}

/// What is done with an entry of a directory.
pub open spec fn entry_plan(kind: EntryKind, source: Seq<u8>) -> Result<
    SourceKind,
    SendErrorView,
> {
    match kind {
        EntryKind::Symlink => Err(invalid("symbolic links are not supported: "@, source)),
        EntryKind::Directory => Ok(SourceKind::Directory),
        EntryKind::File => Ok(SourceKind::File),
        EntryKind::Other => Err(invalid("unsupported file type: "@, source)),
    }
}

/// Decides what is done with an entry of a directory.
pub fn check_entry(kind: EntryKind, source: &[u8]) -> (result: Result<SourceKind, SendError>)
    ensures
        match (result, entry_plan(kind, source@)) {
            (Ok(plan), Ok(expected)) => plan == expected,
            (Err(error), Err(expected)) => error@ == expected,
            _ => false,
        },
{
    match kind {
        EntryKind::Symlink => Err(refuse("symbolic links are not supported: ", source)),
        EntryKind::Directory => Ok(SourceKind::Directory),
        EntryKind::File => Ok(SourceKind::File),
        EntryKind::Other => Err(refuse("unsupported file type: ", source)),
    }
}

/// What is done with an input of the user, and under which name.
pub open spec fn input_plan(kind: EntryKind, input: Seq<u8>) -> Result<
    (SourceKind, Seq<u8>),
    SendErrorView,
> {
    if kind == EntryKind::Symlink {
        Err(invalid("symbolic links are not supported: "@, input))
    } else {
        match name_of(input) {
            None => Err(invalid("path has no filename: "@, input)),
            Some(name) => match entry_plan(kind, input) {
                Ok(plan) => Ok((plan, name)),
                Err(error) => Err(error),
            },
        }
    }
}

/// Decides what is done with an input of the user, and under which name.
pub fn check_input(kind: EntryKind, input: &[u8]) -> (result: Result<SourceEntry, SendError>)
    ensures
        match (result, input_plan(kind, input@)) {
            (Ok(entry), Ok((plan, name))) => entry.kind == plan && entry.name@ == name,
            (Err(error), Err(expected)) => error@ == expected,
            _ => false,
        },
{
    if kind == EntryKind::Symlink {
        return Err(refuse("symbolic links are not supported: ", input));
    }
    let name = match file_name(input) {
        Some(name) => name,
        None => {
            return Err(refuse("path has no filename: ", input));
        },
    };
    match check_entry(kind, input) {
        Ok(kind) => Ok(SourceEntry { kind, name }),
        Err(error) => Err(error),
    }
}

/// The files that are sent, in the order of their paths.
#[derive(Debug)]
pub struct SourceList {
    paths: PathSet,
    sources: Vec<SourceFile>,
}

impl View for SourceList {
    type V = Seq<SourceFileView>;

    closed spec fn view(&self) -> Seq<SourceFileView> {
        source_views(self.sources@)
    }
}

/// The path under which a file may be sent, or why it may not.
pub open spec fn admission(sources: Seq<SourceFileView>, relative: Seq<u8>) -> Result<
    Seq<u8>,
    SendErrorView,
> {
    match crate::path::safe_path(relative) {
        Err(error) => Err(
            SendErrorView::InvalidInput(
                "unsafe input path "@ + crate::text::lossy_text(relative) + ": "@ + error.text(),
            ),
        ),
        Ok(path) => if offered_paths(sources).contains(path) {
            Err(invalid("two inputs produce the same destination path: "@, path))
        } else {
            Ok(path)
        },
    }
}

impl SourceList {
    /// The paths of the set are those of the files, in the same order.
    #[verifier::type_invariant]
    spec fn well_formed(self) -> bool {
        &&& self.paths@ == offered_paths(source_views(self.sources@))
        &&& crate::order::is_ordered(self.paths@)
    }

    /// No file yet.
    pub fn new() -> (list: SourceList)
        ensures
            list@ == Seq::<SourceFileView>::empty(),
    {
        let sources: Vec<SourceFile> = Vec::new();
        assert(offered_paths(source_views(sources@)) =~= Seq::empty());
        let list = SourceList { paths: PathSet::new(), sources };
        assert(list@ =~= Seq::empty());
        list
    }

    /// Checks the path under which a file is to be sent.
    pub fn check_path(&self, relative: &[u8]) -> (result: Result<SafeRelativePath, SendError>)
        ensures
            match (result, admission(self@, relative@)) {
                (Ok(path), Ok(expected)) => path@ == expected,
                (Err(error), Err(expected)) => error@ == expected,
                _ => false,
            },
    {
        proof {
            use_type_invariant(self);
        }
        let path = match SafeRelativePath::new(relative) {
            Ok(path) => path,
            Err(error) => {
                return Err(Self::unsafe_input(relative, error));
            },
        };
        if self.paths.contains(path.as_path()) {
            return Err(refuse("two inputs produce the same destination path: ", path.as_path()));
        }
        Ok(path)
    }

    /// The error for a path that is no transfer path.
    fn unsafe_input(relative: &[u8], error: UnsafePath) -> (refused: SendError)
        ensures
            refused@ == SendErrorView::InvalidInput(
                "unsafe input path "@ + crate::text::lossy_text(relative@) + ": "@ + error.text(),
            ),
    {
        let mut message: String = String::new();
        message.append("unsafe input path ");
        let name = text_from_utf8_lossy(relative);
        message.append(name.as_str());
        message.append(": ");
        message.append(error.message());
        assert(message@ =~= "unsafe input path "@ + crate::text::lossy_text(relative@) + ": "@
            + error.text());
        SendError::InvalidInput(message)
    }

    /// Adds a file in its place. Its path is not in the list yet.
    pub fn add(&mut self, file: SourceFile)
        requires
            !offered_paths(old(self)@).contains(file@.offer.path),
        ensures
            exists|place: int|
                0 <= place <= old(self)@.len() && final(self)@ == #[trigger] old(self)@.insert(
                    place,
                    file@,
                ),
            crate::order::is_ordered(offered_paths(final(self)@)),
    {
        proof {
            use_type_invariant(&*self);
        }
        let mut taken = SourceList::new();
        core::mem::swap(&mut taken, self);
        let SourceList { mut paths, mut sources } = taken;
        let ghost held = source_views(sources@);
        let ghost added = file@;
        match paths.insert(file.offer.path.as_path()) {
            Some(place) => {
                assert(held.len() == offered_paths(held).len());
                sources.insert(place, file);
                proof {
                    let longer = held.insert(place as int, added);
                    assert(source_views(sources@) =~= longer);
                    assert(offered_paths(longer) =~= offered_paths(held).insert(
                        place as int,
                        added.offer.path,
                    ));
                }
            },
            None => {},
        }
        *self = SourceList { paths, sources };
    }

    /// The files, if there are any.
    pub fn finish(self) -> (result: Result<Vec<SourceFile>, SendError>)
        ensures
            match result {
                Ok(sources) => self@.len() > 0 && source_views(sources@) == self@
                    && crate::order::is_ordered(offered_paths(self@)),
                Err(error) => self@.len() == 0 && error@ == SendErrorView::InvalidInput(
                    "the selected folders contain no regular files"@,
                ),
            },
    {
        proof {
            use_type_invariant(&self);
        }
        if self.sources.len() == 0 {
            return Err(
                SendError::InvalidInput("the selected folders contain no regular files".to_owned()),
            );
        }
        Ok(self.sources)
    }
}

/// What the files add to a transfer's identifier: their hashes and sizes.
pub open spec fn files_key(files: Seq<FileOfferView>) -> Seq<u8>
    decreases files.len(),
{
    if files.len() == 0 {
        Seq::empty()
    } else {
        files_key(files.drop_last()) + files.last().hash + crate::bytes::be_bytes(
            files.last().size as nat,
            8,
        )
    }
}

/// What a transfer's identifier is made of: the time in nanoseconds, the
/// process, and the files.
pub open spec fn transfer_key(timestamp: u128, process: u32, files: Seq<FileOfferView>) -> Seq<u8> {
    crate::bytes::be_bytes(timestamp as nat, 16) + crate::bytes::be_bytes(process as nat, 4)
        + files_key(files)
}

/// The identifier of a transfer.
pub fn transfer_id(timestamp: u128, process: u32, sources: &Vec<SourceFile>) -> (id: [u8; 16])
    ensures
        id@ == crate::digest::blake3_digest(
            transfer_key(timestamp, process, offered(source_views(sources@))),
        ).take(16),
{
    let ghost files = offered(source_views(sources@));
    let mut key: Vec<u8> = Vec::new();
    push_be(&mut key, timestamp, 16);
    push_be(&mut key, process as u128, 4);
    let ghost head = key@;
    let mut i: usize = 0;
    proof {
        assert(head =~= crate::bytes::be_bytes(timestamp as nat, 16) + crate::bytes::be_bytes(
            process as nat,
            4,
        ));
        assert(files.take(0) =~= Seq::empty());
        assert(head + files_key(files.take(0)) =~= head);
    }
    while i < sources.len()
        invariant
            i <= sources@.len(),
            files == offered(source_views(sources@)),
            key@ == head + files_key(files.take(i as int)),
        decreases sources@.len() - i,
    {
        proof {
            assert(files.take(i + 1).drop_last() =~= files.take(i as int));
            assert(files.take(i + 1).last() == sources@[i as int]@.offer);
        }
        append(&mut key, &sources[i].offer.hash);
        push_be(&mut key, sources[i].offer.size as u128, 8);
        i = i + 1;
        assert(key@ =~= head + files_key(files.take(i as int)));
    }
    assert(files.take(i as int) =~= files);
    id_from_digest(&digest_of(key.as_slice()))
}

/// The identifier with a given digest: its first half.
pub fn id_from_digest(digest: &[u8; 32]) -> (id: [u8; 16])
    ensures
        id@ == digest@.take(16),
{
    let (half, _) = digest.as_slice().split_at(16);
    assert(half@ =~= digest@.take(16));
    to_array::<16>(half)
}

/// The name of what a path leads to is its last piece that is neither empty nor
/// `.`, whatever stands before it, unless that piece is `..`. Any other path
/// leads to nothing with a name.
pub proof fn law_file_name_is_last_piece(path: Seq<u8>, name: Seq<u8>)
    ensures
        name_of(path) == Some(name) <==> exists|k: int|
            {
                &&& 0 <= k < crate::path::split(path).len()
                &&& #[trigger] crate::path::split(path)[k] == name
                &&& name.len() > 0 && name != seq![46u8] && name != seq![46u8, 46u8]
                &&& forall|j: int|
                    k < j < crate::path::split(path).len() ==> (#[trigger] crate::path::split(
                        path,
                    )[j]).len() == 0 || crate::path::split(path)[j] == seq![46u8]
            },
{
    let pieces = crate::path::split(path);
    crate::path::lemma_last_component(path);
    if name_of(path) == Some(name) {
        assert(crate::path::kept(pieces).len() > 0);
        let k = crate::path::lemma_kept_place(pieces);
        assert(pieces[k] == name);
    }
    if exists|k: int|
        {
            &&& 0 <= k < pieces.len()
            &&& #[trigger] pieces[k] == name
            &&& name.len() > 0 && name != seq![46u8] && name != seq![46u8, 46u8]
            &&& forall|j: int|
                k < j < pieces.len() ==> (#[trigger] pieces[j]).len() == 0 || pieces[j] == seq![46u8]
        } {
        let k = choose|k: int|
            {
                &&& 0 <= k < pieces.len()
                &&& #[trigger] pieces[k] == name
                &&& name.len() > 0 && name != seq![46u8] && name != seq![46u8, 46u8]
                &&& forall|j: int|
                    k < j < pieces.len() ==> (#[trigger] pieces[j]).len() == 0 || pieces[j] == seq![
                        46u8,
                    ]
            };
        crate::path::lemma_kept_last(pieces, k);
    }
}

/// A name placed in a directory is the name of what the path leads to, however
/// deep the directory is; separators and `.` behind it change nothing.
pub proof fn law_file_name_of_placed(directory: Seq<u8>, name: Seq<u8>)
    requires
        name.len() > 0,
        name != seq![46u8],
        name != seq![46u8, 46u8],
        !name.contains(47u8),
    ensures
        name_of(crate::path::placed(directory, name)) == Some(name),
        name_of(crate::path::placed(directory, name).push(47u8)) == Some(name),
        name_of(crate::path::placed(directory, name).push(47u8).push(46u8)) == Some(name),
{
    let path = crate::path::placed(directory, name);
    let nothing = Seq::<u8>::empty();
    let dot = seq![46u8];
    crate::path::lemma_split_name(name);
    crate::path::lemma_split_name(nothing);
    crate::path::lemma_split_name(dot);
    if directory.len() == 0 {
        assert(path =~= name);
    } else {
        let base = if directory.last() == 47 {
            directory.drop_last()
        } else {
            directory
        };
        assert(path =~= base.push(47u8) + name);
        crate::path::lemma_split_concat(base, name);
    }
    let pieces = crate::path::split(path);
    let k = pieces.len() - 1;
    assert(pieces[k] == name);
    law_file_name_is_last_piece(path, name);
    crate::path::lemma_split_concat(path, nothing);
    assert(path.push(47u8) + nothing =~= path.push(47u8));
    assert(crate::path::split(path.push(47u8))[k] == name);
    law_file_name_is_last_piece(path.push(47u8), name);
    crate::path::lemma_split_concat(path, dot);
    assert(path.push(47u8) + dot =~= path.push(47u8).push(46u8));
    assert(crate::path::split(path.push(47u8).push(46u8))[k] == name);
    law_file_name_is_last_piece(path.push(47u8).push(46u8), name);
}

/// Which inputs are sent: files and directories that have a name, each under that
/// name. Links are refused first, then what has no name, then everything else.
pub proof fn law_inputs_that_are_sent(kind: EntryKind, input: Seq<u8>)
    ensures
        ({
            let shown = crate::text::lossy_text(input);
            &&& input_plan(kind, input) is Ok <==> (kind == EntryKind::File || kind
                == EntryKind::Directory) && name_of(input) is Some
            &&& input_plan(kind, input) matches Ok((plan, name)) ==> {
                &&& name_of(input) == Some(name)
                &&& plan == SourceKind::File <==> kind == EntryKind::File
                &&& plan == SourceKind::Directory <==> kind == EntryKind::Directory
            }
            &&& kind == EntryKind::Symlink ==> input_plan(kind, input) == Err::<
                (SourceKind, Seq<u8>),
                SendErrorView,
            >(SendErrorView::InvalidInput("symbolic links are not supported: "@ + shown))
            &&& kind != EntryKind::Symlink && name_of(input) is None ==> input_plan(kind, input)
                == Err::<(SourceKind, Seq<u8>), SendErrorView>(
                SendErrorView::InvalidInput("path has no filename: "@ + shown),
            )
            &&& kind == EntryKind::Other && name_of(input) is Some ==> input_plan(kind, input)
                == Err::<(SourceKind, Seq<u8>), SendErrorView>(
                SendErrorView::InvalidInput("unsupported file type: "@ + shown),
            )
        }),
{
}

/// Which entries of a directory are sent: files, and directories with their own
/// entries. Everything else is refused, wherever it lies.
pub proof fn law_entries_that_are_sent(kind: EntryKind, source: Seq<u8>)
    ensures
        ({
            let plan = entry_plan(kind, source);
            let shown = crate::text::lossy_text(source);
            &&& plan == Ok::<SourceKind, SendErrorView>(SourceKind::File) <==> kind
                == EntryKind::File
            &&& plan == Ok::<SourceKind, SendErrorView>(SourceKind::Directory) <==> kind
                == EntryKind::Directory
            &&& kind == EntryKind::Symlink ==> plan == Err::<SourceKind, SendErrorView>(
                SendErrorView::InvalidInput("symbolic links are not supported: "@ + shown),
            )
            &&& kind == EntryKind::Other ==> plan == Err::<SourceKind, SendErrorView>(
                SendErrorView::InvalidInput("unsupported file type: "@ + shown),
            )
        }),
{
}

/// A file may be sent under the transfer path that its path stands for, unless
/// another file is: no file is refused for anything else, and none is sent under
/// a path that is not its own.
pub proof fn law_admission_is_new(sources: Seq<SourceFileView>, relative: Seq<u8>)
    ensures
        admission(sources, relative) is Ok <==> {
            &&& crate::path::safe_path(relative) is Ok
            &&& forall|i: int|
                0 <= i < sources.len() ==> (#[trigger] sources[i]).offer.path
                    != crate::path::safe_path(relative)->Ok_0
        },
        admission(sources, relative) is Ok ==> admission(sources, relative)->Ok_0
            == crate::path::safe_path(relative)->Ok_0,
        crate::path::safe_path(relative) is Ok && admission(sources, relative) is Err ==> admission(
            sources,
            relative,
        )->Err_0 == SendErrorView::InvalidInput(
            "two inputs produce the same destination path: "@ + crate::text::lossy_text(
                crate::path::safe_path(relative)->Ok_0,
            ),
        ),
        crate::path::safe_path(relative) is Err ==> admission(sources, relative) == Err::<
            Seq<u8>,
            SendErrorView,
        >(
            SendErrorView::InvalidInput(
                "unsafe input path "@ + crate::text::lossy_text(relative) + ": "@
                    + crate::path::safe_path(relative)->Err_0.text(),
            ),
        ),
{
    if let Ok(path) = crate::path::safe_path(relative) {
        let paths = offered_paths(sources);
        if paths.contains(path) {
            let i = choose|i: int| 0 <= i < paths.len() && paths[i] == path;
            assert(sources[i].offer.path == path);
        } else {
            assert forall|i: int| 0 <= i < sources.len() implies (
            #[trigger] sources[i]).offer.path != path by {
                assert(paths[i] == sources[i].offer.path);
                assert(paths.contains(paths[i]));
            }
        }
    }
}

/// What a transfer's identifier is made of holds the time, the process, and the
/// hash and the size of every file, each in its place.
pub proof fn law_transfer_key_holds_all(
    timestamp: u128,
    process: u32,
    files: Seq<FileOfferView>,
    i: int,
)
    requires
        forall|j: int| 0 <= j < files.len() ==> (#[trigger] files[j]).hash.len() == 32,
        0 <= i < files.len(),
    ensures
        ({
            let key = transfer_key(timestamp, process, files);
            &&& key.len() == 20 + 40 * files.len()
            &&& crate::bytes::be_value(key.subrange(0, 16)) == timestamp
            &&& crate::bytes::be_value(key.subrange(16, 20)) == process
            &&& key.subrange(20 + 40 * i, 52 + 40 * i) == files[i].hash
            &&& crate::bytes::be_value(key.subrange(52 + 40 * i, 60 + 40 * i)) == files[i].size
        }),
{
    let key = transfer_key(timestamp, process, files);
    let rest = files_key(files);
    crate::bytes::lemma_be_limits();
    crate::bytes::lemma_be_bytes_len(timestamp as nat, 16);
    crate::bytes::lemma_be_bytes_len(process as nat, 4);
    crate::bytes::lemma_be_round_trip(timestamp as nat, 16);
    crate::bytes::lemma_be_round_trip(process as nat, 4);
    lemma_files_key(files, i);
    assert(key.subrange(0, 16) =~= crate::bytes::be_bytes(timestamp as nat, 16));
    assert(key.subrange(16, 20) =~= crate::bytes::be_bytes(process as nat, 4));
    assert(key.subrange(20 + 40 * i, 52 + 40 * i) =~= rest.subrange(40 * i, 40 * i + 32));
    assert(key.subrange(52 + 40 * i, 60 + 40 * i) =~= rest.subrange(40 * i + 32, 40 * i + 40));
}

/// Where each file stands in what the files add to the identifier.
proof fn lemma_files_key(files: Seq<FileOfferView>, i: int)
    requires
        forall|j: int| 0 <= j < files.len() ==> (#[trigger] files[j]).hash.len() == 32,
        0 <= i < files.len(),
    ensures
        files_key(files).len() == 40 * files.len(),
        files_key(files).subrange(40 * i, 40 * i + 32) == files[i].hash,
        crate::bytes::be_value(files_key(files).subrange(40 * i + 32, 40 * i + 40))
            == files[i].size,
    decreases files.len(),
{
    let front = files.drop_last();
    let last = files.last();
    assert(files[files.len() - 1] == last);
    crate::bytes::lemma_be_limits();
    crate::bytes::lemma_be_bytes_len(last.size as nat, 8);
    crate::bytes::lemma_be_round_trip(last.size as nat, 8);
    assert forall|j: int| 0 <= j < front.len() implies (#[trigger] front[j]).hash.len() == 32 by {
        assert(front[j] == files[j]);
    }
    if front.len() > 0 {
        lemma_files_key(
            front,
            if i < front.len() {
                i
            } else {
                0
            },
        );
    }
    assert(files_key(front).len() == 40 * front.len());
    if i < front.len() {
        assert(files_key(files).subrange(40 * i, 40 * i + 32) =~= files_key(front).subrange(
            40 * i,
            40 * i + 32,
        ));
        assert(files_key(files).subrange(40 * i + 32, 40 * i + 40) =~= files_key(front).subrange(
            40 * i + 32,
            40 * i + 40,
        ));
    } else {
        assert(files_key(files).subrange(40 * i, 40 * i + 32) =~= last.hash);
        assert(files_key(files).subrange(40 * i + 32, 40 * i + 40) =~= crate::bytes::be_bytes(
            last.size as nat,
            8,
        ));
    }
}

} // verus!
