//! Transfer paths that cannot leave the directory they are placed in.
//!
//! A path is a byte string in the platform's path encoding, with `/` between
//! its components.

use vstd::prelude::*;
use vstd::utf8::*;

use crate::bytes::{append, copied};

verus! {

/// The byte between two components.
pub const SEPARATOR: u8 = 47;

/// The byte that `.` and `..` are made of, and that starts a file extension.
pub const DOT: u8 = 46;

/// The byte behind the letter of a drive.
pub const COLON: u8 = 58;

/// One component of a path, as the platform's path syntax names it.
#[derive(Debug, Eq, PartialEq)]
pub enum PathPart {
    /// A drive or share that the platform puts in front of a path.
    Prefix,
    /// The root directory.
    RootDir,
    /// A `.` at the start of the path.
    CurDir,
    /// A `..`.
    ParentDir,
    /// Any other name.
    Normal(Vec<u8>),
}

/// What a [`PathPart`] says, with the name as a sequence.
pub enum PathPartView {
    Prefix,
    RootDir,
    CurDir,
    ParentDir,
    Normal(Seq<u8>),
}

impl View for PathPart {
    type V = PathPartView;

    open spec fn view(&self) -> PathPartView {
        match self {
            PathPart::Prefix => PathPartView::Prefix,
            PathPart::RootDir => PathPartView::RootDir,
            PathPart::CurDir => PathPartView::CurDir,
            PathPart::ParentDir => PathPartView::ParentDir,
            PathPart::Normal(name) => PathPartView::Normal(name@),
        }
    }
}

/// The views of a sequence of parts.
pub open spec fn part_views(parts: Seq<PathPart>) -> Seq<PathPartView> {
    Seq::new(parts.len(), |i: int| parts[i]@)
}

/// What an entry of a directory is.
#[derive(Clone, Copy, Debug, Eq, PartialEq, Structural)]
pub enum EntryKind {
    Symlink,
    Directory,
    File,
    Other,
}

/// Why a path was rejected.
#[derive(Clone, Copy, Debug, Eq, PartialEq, Structural)]
pub enum UnsafePath {
    Empty,
    EmptyComponent,
    ParentTraversal,
    AbsoluteOrPrefixed,
    NulByte,
}

impl UnsafePath {
    /// The sentence that `message` returns.
    pub open spec fn text(self) -> Seq<char> {
        match self {
            UnsafePath::Empty => "the path is empty"@,
            UnsafePath::EmptyComponent => "the path contains an empty component"@,
            UnsafePath::ParentTraversal => "the path contains parent traversal"@,
            UnsafePath::AbsoluteOrPrefixed => "the path is absolute or platform-prefixed"@,
            UnsafePath::NulByte => "the path contains a NUL byte"@,
        }
    }

    /// A sentence for the user.
    pub fn message(&self) -> (message: &'static str)
        ensures
            message@ == self.text(),
    {
        match self {
            UnsafePath::Empty => "the path is empty",
            UnsafePath::EmptyComponent => "the path contains an empty component",
            UnsafePath::ParentTraversal => "the path contains parent traversal",
            UnsafePath::AbsoluteOrPrefixed => "the path is absolute or platform-prefixed",
            UnsafePath::NulByte => "the path contains a NUL byte",
        }
    }
}

/// The pieces of `text` between its separators; one more than separators.
pub open spec fn split(text: Seq<u8>) -> Seq<Seq<u8>>
    decreases text.len(),
{
    if text.len() == 0 {
        seq![Seq::<u8>::empty()]
    } else {
        let front = split(text.drop_last());
        if text.last() == SEPARATOR {
            front.push(Seq::empty())
        } else {
            front.drop_last().push(front.last().push(text.last()))
        }
    }
}

/// The names one after the other, with a separator between each two.
pub open spec fn join(names: Seq<Seq<u8>>) -> Seq<u8>
    decreases names.len(),
{
    if names.len() == 0 {
        Seq::empty()
    } else if names.len() == 1 {
        names[0]
    } else {
        join(names.drop_last()).push(SEPARATOR) + names.last()
    }
}

/// `.`
pub open spec fn single_dot() -> Seq<u8> {
    seq![DOT]
}

/// `..`
pub open spec fn double_dot() -> Seq<u8> {
    seq![DOT, DOT]
}

/// A name as the path syntax yields it: it stands for an entry of the directory
/// before it.
pub open spec fn is_name(name: Seq<u8>) -> bool {
    &&& name.len() > 0
    &&& name != single_dot()
    &&& name != double_dot()
    &&& !name.contains(SEPARATOR)
}

/// A name that every platform takes as a name: it holds no NUL byte.
pub open spec fn is_plain(name: Seq<u8>) -> bool {
    &&& is_name(name)
    &&& !name.contains(0u8)
}

/// Whether a byte is a letter that can stand for a drive.
pub open spec fn is_letter(byte: u8) -> bool {
    65 <= byte <= 90 || 97 <= byte <= 122
}

/// Whether `text` begins with a drive, such as `C:`.
pub open spec fn has_drive(text: Seq<u8>) -> bool {
    text.len() >= 2 && is_letter(text[0]) && text[1] == COLON
}

/// What is wrong with a name of a transfer path; `first` says whether no name
/// stands before it.
pub open spec fn name_fault(first: bool, name: Seq<u8>) -> Option<UnsafePath> {
    if name.len() == 0 {
        Some(UnsafePath::EmptyComponent)
    } else if first && has_drive(name) {
        Some(UnsafePath::AbsoluteOrPrefixed)
    } else if name.contains(0u8) {
        Some(UnsafePath::NulByte)
    } else {
        None
    }
}

/// What stands before the names of a path: its root, or a leading `.`.
pub open spec fn leading_part(text: Seq<u8>) -> Seq<PathPartView> {
    if text.len() > 0 && text[0] == SEPARATOR {
        seq![PathPartView::RootDir]
    } else if text.len() > 0 && text[0] == DOT && (text.len() == 1 || text[1] == SEPARATOR) {
        seq![PathPartView::CurDir]
    } else {
        Seq::empty()
    }
}

/// The component that a piece between separators is, if it is one: empty
/// pieces and `.` are none.
pub open spec fn piece_part(piece: Seq<u8>) -> Seq<PathPartView> {
    if piece.len() == 0 || piece == single_dot() {
        Seq::empty()
    } else if piece == double_dot() {
        seq![PathPartView::ParentDir]
    } else {
        seq![PathPartView::Normal(piece)]
    }
}

/// The components that the pieces between separators are.
pub open spec fn piece_parts(pieces: Seq<Seq<u8>>) -> Seq<PathPartView>
    decreases pieces.len(),
{
    if pieces.len() == 0 {
        Seq::empty()
    } else {
        piece_parts(pieces.drop_last()) + piece_part(pieces.last())
    }
}

/// The components of a path.
pub open spec fn components(text: Seq<u8>) -> Seq<PathPartView> {
    leading_part(text) + piece_parts(split(text))
}

/// The names that `parts` holds, or what is wrong with the first part that a
/// transfer path must not have.
pub open spec fn checked_names(parts: Seq<PathPartView>) -> Result<Seq<Seq<u8>>, UnsafePath>
    decreases parts.len(),
{
    if parts.len() == 0 {
        Ok(Seq::empty())
    } else {
        match checked_names(parts.drop_last()) {
            Err(error) => Err(error),
            Ok(names) => match parts.last() {
                PathPartView::Normal(name) => match name_fault(names.len() == 0, name) {
                    Some(error) => Err(error),
                    None => Ok(names.push(name)),
                },
                PathPartView::CurDir => Ok(names),
                PathPartView::ParentDir => Err(UnsafePath::ParentTraversal),
                PathPartView::RootDir => Err(UnsafePath::AbsoluteOrPrefixed),
                PathPartView::Prefix => Err(UnsafePath::AbsoluteOrPrefixed),
            },
        }
    }
}

/// The transfer path that `parts` make, or why they make none.
pub open spec fn checked_path(parts: Seq<PathPartView>) -> Result<Seq<u8>, UnsafePath> {
    match checked_names(parts) {
        Err(error) => Err(error),
        Ok(names) => if names.len() == 0 {
            Err(UnsafePath::Empty)
        } else {
            Ok(join(names))
        },
    }
}

/// The transfer path that `text` names, or why it names none.
pub open spec fn safe_path(text: Seq<u8>) -> Result<Seq<u8>, UnsafePath> {
    checked_path(components(text))
}

/// Whether `text` is names alone, with one separator between each two.
pub open spec fn is_names(text: Seq<u8>) -> bool {
    forall|i: int| 0 <= i < split(text).len() ==> is_plain(#[trigger] split(text)[i])
}

/// Whether `text` is a transfer path: names alone, with one separator between
/// each two, and no drive before them.
pub open spec fn is_safe(text: Seq<u8>) -> bool {
    is_names(text) && !has_drive(text)
}

/// Whether the path syntax can yield `part`.
pub open spec fn is_component(part: PathPartView) -> bool {
    part matches PathPartView::Normal(name) ==> name.len() == 0 || is_name(name)
}

/// `path` placed in the directory `root`.
pub open spec fn placed(root: Seq<u8>, path: Seq<u8>) -> Seq<u8> {
    if root.len() == 0 || root.last() == SEPARATOR {
        root + path
    } else {
        root.push(SEPARATOR) + path
    }
}

/// There is always a piece.
pub proof fn lemma_split_nonempty(text: Seq<u8>)
    ensures
        split(text).len() > 0,
    decreases text.len(),
{
    if text.len() > 0 {
        lemma_split_nonempty(text.drop_last());
    }
}

/// No piece holds a separator.
pub proof fn lemma_split_no_separator(text: Seq<u8>, i: int)
    requires
        0 <= i < split(text).len(),
    ensures
        !split(text)[i].contains(SEPARATOR),
    decreases text.len(),
{
    if text.len() > 0 {
        let front = split(text.drop_last());
        lemma_split_nonempty(text.drop_last());
        if i < front.len() {
            lemma_split_no_separator(text.drop_last(), i);
        }
        if text.last() != SEPARATOR && i == front.len() - 1 {
            let piece = front.last().push(text.last());
            assert(split(text)[i] == piece);
            if piece.contains(SEPARATOR) {
                let k = choose|k: int| 0 <= k < piece.len() && piece[k] == SEPARATOR;
                assert(k < front.last().len());
                assert(front.last()[k] == SEPARATOR);
                assert(front.last().contains(SEPARATOR));
            }
        }
    }
}

/// A separator cuts the pieces of a path in two.
pub proof fn lemma_split_concat(left: Seq<u8>, right: Seq<u8>)
    ensures
        split(left.push(SEPARATOR) + right) == split(left) + split(right),
    decreases right.len(),
{
    let text = left.push(SEPARATOR) + right;
    if right.len() == 0 {
        assert(text =~= left.push(SEPARATOR));
        assert(text.drop_last() =~= left);
        assert(split(text) =~= split(left) + split(right));
    } else {
        lemma_split_concat(left, right.drop_last());
        lemma_split_nonempty(right.drop_last());
        assert(text.drop_last() =~= left.push(SEPARATOR) + right.drop_last());
        assert(text.last() == right.last());
        assert(split(text) =~= split(left) + split(right));
    }
}

/// A name without separators is its own only piece.
pub proof fn lemma_split_name(name: Seq<u8>)
    requires
        !name.contains(SEPARATOR),
    ensures
        split(name) == seq![name],
    decreases name.len(),
{
    if name.len() == 0 {
        assert(name =~= Seq::<u8>::empty());
    } else {
        let front = name.drop_last();
        assert(!front.contains(SEPARATOR)) by {
            if front.contains(SEPARATOR) {
                let k = choose|k: int| 0 <= k < front.len() && front[k] == SEPARATOR;
                assert(name[k] == SEPARATOR);
            }
        }
        lemma_split_name(front);
        assert(name.last() != SEPARATOR) by {
            assert(name[name.len() - 1] == name.last());
        }
        assert(front.push(name.last()) =~= name);
        assert(split(name) =~= seq![name]);
    }
}

/// Splitting what was joined gives the names back.
pub proof fn lemma_split_join(names: Seq<Seq<u8>>)
    requires
        names.len() > 0,
        forall|i: int| 0 <= i < names.len() ==> !(#[trigger] names[i]).contains(SEPARATOR),
    ensures
        split(join(names)) == names,
    decreases names.len(),
{
    if names.len() == 1 {
        lemma_split_name(names[0]);
        assert(names =~= seq![names[0]]);
    } else {
        let front = names.drop_last();
        assert forall|i: int| 0 <= i < front.len() implies !(#[trigger] front[i]).contains(
            SEPARATOR,
        ) by {
            assert(front[i] == names[i]);
        }
        lemma_split_join(front);
        assert(!names.last().contains(SEPARATOR)) by {
            assert(names[names.len() - 1] == names.last());
        }
        lemma_split_name(names.last());
        lemma_split_concat(join(front), names.last());
        assert(front + seq![names.last()] =~= names);
    }
}

/// Joining the pieces of a path gives the path back.
pub proof fn lemma_join_split(text: Seq<u8>)
    ensures
        join(split(text)) == text,
    decreases text.len(),
{
    if text.len() == 0 {
        assert(text =~= Seq::<u8>::empty());
    } else {
        let front = split(text.drop_last());
        lemma_join_split(text.drop_last());
        lemma_split_nonempty(text.drop_last());
        if text.last() == SEPARATOR {
            assert(split(text).drop_last() =~= front);
            assert(split(text).last() =~= Seq::<u8>::empty());
            assert(join(split(text)) =~= text);
        } else {
            let pieces = split(text);
            let piece = front.last().push(text.last());
            assert(pieces.drop_last() =~= front.drop_last());
            if front.len() == 1 {
                assert(join(pieces) == piece);
            } else {
                assert(join(pieces) == join(front.drop_last()).push(SEPARATOR) + piece);
            }
            assert(join(pieces) =~= join(front).push(text.last()));
            assert(join(pieces) =~= text);
        }
    }
}

/// Parts of concatenated pieces are the parts of the pieces, concatenated.
pub proof fn lemma_piece_parts_concat(left: Seq<Seq<u8>>, right: Seq<Seq<u8>>)
    ensures
        piece_parts(left + right) == piece_parts(left) + piece_parts(right),
    decreases right.len(),
{
    if right.len() == 0 {
        assert(left + right =~= left);
        assert(piece_parts(left) + piece_parts(right) =~= piece_parts(left));
    } else {
        lemma_piece_parts_concat(left, right.drop_last());
        assert((left + right).drop_last() =~= left + right.drop_last());
        assert((left + right).last() == right.last());
        assert(piece_parts(left + right) =~= piece_parts(left) + piece_parts(right));
    }
}

/// The pieces that count as names: those that are neither empty nor `.`.
pub open spec fn kept(pieces: Seq<Seq<u8>>) -> Seq<Seq<u8>>
    decreases pieces.len(),
{
    if pieces.len() == 0 {
        Seq::empty()
    } else if pieces.last().len() == 0 || pieces.last() == single_dot() {
        kept(pieces.drop_last())
    } else {
        kept(pieces.drop_last()).push(pieces.last())
    }
}

/// A rooted path is rejected for its root, whatever follows.
proof fn lemma_checked_rooted(parts: Seq<PathPartView>)
    requires
        parts.len() > 0,
        parts[0] == PathPartView::RootDir,
    ensures
        checked_names(parts) == Err::<Seq<Seq<u8>>, UnsafePath>(UnsafePath::AbsoluteOrPrefixed),
    decreases parts.len(),
{
    if parts.len() == 1 {
        assert(parts.drop_last() =~= Seq::empty());
    } else {
        lemma_checked_rooted(parts.drop_last());
    }
}

/// What is wrong with a piece of a transfer path; `first` says whether no name
/// stands before it.
pub open spec fn piece_fault(first: bool, piece: Seq<u8>) -> Option<UnsafePath> {
    if piece.len() == 0 || piece == single_dot() {
        None
    } else if piece == double_dot() {
        Some(UnsafePath::ParentTraversal)
    } else {
        name_fault(first, piece)
    }
}

/// What is wrong with the first piece that a transfer path must not have.
pub open spec fn first_fault(pieces: Seq<Seq<u8>>) -> Option<UnsafePath>
    decreases pieces.len(),
{
    if pieces.len() == 0 {
        None
    } else {
        match first_fault(pieces.drop_last()) {
            Some(error) => Some(error),
            None => piece_fault(kept(pieces.drop_last()).len() == 0, pieces.last()),
        }
    }
}

/// Checking the parts of pieces behind an optional leading `.`.
proof fn lemma_checked_pieces(leading: Seq<PathPartView>, pieces: Seq<Seq<u8>>)
    requires
        leading.len() == 0 || leading == seq![PathPartView::CurDir],
    ensures
        checked_names(leading + piece_parts(pieces)) == (match first_fault(pieces) {
            Some(error) => Err::<Seq<Seq<u8>>, UnsafePath>(error),
            None => Ok(kept(pieces)),
        }),
    decreases pieces.len(),
{
    reveal_with_fuel(checked_names, 2);
    if pieces.len() == 0 {
        assert(leading + piece_parts(pieces) =~= leading);
        if leading.len() > 0 {
            assert(leading.drop_last() =~= Seq::empty());
            assert(leading.last() == PathPartView::CurDir);
        } else {
            assert(leading =~= Seq::empty());
        }
    } else {
        let front = pieces.drop_last();
        lemma_checked_pieces(leading, front);
        assert(double_dot().len() == 2 && single_dot().len() == 1);
        let parts = leading + piece_parts(pieces);
        let part = piece_part(pieces.last());
        if part.len() == 0 {
            assert(parts =~= leading + piece_parts(front));
        } else {
            assert(parts.drop_last() =~= leading + piece_parts(front));
            assert(parts.last() == part[0]);
        }
    }
}

/// Whether one of the pieces holds a NUL byte.
pub open spec fn holds_nul(pieces: Seq<Seq<u8>>) -> bool {
    exists|i: int| 0 <= i < pieces.len() && (#[trigger] pieces[i]).contains(0u8)
}

/// Whether the first name among the pieces begins with a drive.
pub open spec fn starts_with_drive(pieces: Seq<Seq<u8>>) -> bool {
    kept(pieces).len() > 0 && has_drive(kept(pieces)[0])
}

/// Pieces that keep no name have no fault.
proof fn lemma_kept_none(pieces: Seq<Seq<u8>>)
    requires
        kept(pieces).len() == 0,
    ensures
        first_fault(pieces) is None,
    decreases pieces.len(),
{
    if pieces.len() > 0 {
        lemma_kept_none(pieces.drop_last());
    }
}

/// What the faults of pieces come from.
proof fn lemma_first_fault(pieces: Seq<Seq<u8>>)
    ensures
        first_fault(pieces) is None <==> !pieces.contains(double_dot()) && !holds_nul(pieces)
            && !starts_with_drive(pieces),
        starts_with_drive(pieces) ==> first_fault(pieces) == Some(UnsafePath::AbsoluteOrPrefixed),
        !starts_with_drive(pieces) && !pieces.contains(double_dot()) && holds_nul(pieces)
            ==> first_fault(pieces) == Some(UnsafePath::NulByte),
        !starts_with_drive(pieces) && pieces.contains(double_dot()) && !holds_nul(pieces)
            ==> first_fault(pieces) == Some(UnsafePath::ParentTraversal),
    decreases pieces.len(),
{
    if pieces.len() > 0 {
        let front = pieces.drop_last();
        let last = pieces.last();
        lemma_first_fault(front);
        assert(pieces =~= front.push(last));
        assert(double_dot()[0] == DOT && double_dot()[1] == DOT && single_dot()[0] == DOT);
        assert(pieces.contains(double_dot()) <==> (front.contains(double_dot()) || last
            == double_dot())) by {
            if front.contains(double_dot()) {
                let k = choose|k: int| 0 <= k < front.len() && front[k] == double_dot();
                assert(pieces[k] == double_dot());
            }
            if last == double_dot() {
                assert(pieces[pieces.len() - 1] == double_dot());
            }
        }
        assert(holds_nul(pieces) <==> (holds_nul(front) || last.contains(0u8))) by {
            if holds_nul(front) {
                let k = choose|k: int| 0 <= k < front.len() && (#[trigger] front[k]).contains(0u8);
                assert(pieces[k] == front[k]);
            }
            if last.contains(0u8) {
                assert(pieces[pieces.len() - 1].contains(0u8));
            }
            if holds_nul(pieces) && !last.contains(0u8) {
                let k = choose|k: int|
                    0 <= k < pieces.len() && (#[trigger] pieces[k]).contains(0u8);
                assert(front[k] == pieces[k]);
            }
        }
        if kept(front).len() > 0 {
            assert(kept(pieces)[0] == kept(front)[0]);
        } else if starts_with_drive(pieces) {
            lemma_kept_none(front);
            assert(kept(pieces)[0] == last);
        }
        assert(!has_drive(double_dot()) && !double_dot().contains(0u8)
            && !single_dot().contains(0u8));
    }
}

/// A byte that is no separator is in a path when it is in one of its pieces.
proof fn lemma_split_contains(text: Seq<u8>, byte: u8)
    requires
        byte != SEPARATOR,
    ensures
        text.contains(byte) <==> exists|i: int|
            0 <= i < split(text).len() && (#[trigger] split(text)[i]).contains(byte),
    decreases text.len(),
{
    let pieces = split(text);
    if text.len() == 0 {
        assert(!pieces[0].contains(byte));
    } else {
        let rest = text.drop_last();
        let front = split(rest);
        lemma_split_contains(rest, byte);
        lemma_split_nonempty(rest);
        let end = front.len() - 1;
        assert(text.contains(byte) <==> rest.contains(byte) || text.last() == byte) by {
            if text.contains(byte) && text.last() != byte {
                let k = choose|k: int| 0 <= k < text.len() && text[k] == byte;
                assert(rest[k] == byte);
            }
            if rest.contains(byte) {
                let k = choose|k: int| 0 <= k < rest.len() && rest[k] == byte;
                assert(text[k] == byte);
            }
            if text.last() == byte {
                assert(text[text.len() - 1] == byte);
            }
        }
        if text.last() == SEPARATOR {
            assert forall|i: int| 0 <= i < front.len() implies pieces[i] == front[i] by {}
            if rest.contains(byte) {
                let k = choose|k: int|
                    0 <= k < front.len() && (#[trigger] front[k]).contains(byte);
                assert(pieces[k].contains(byte));
            }
            assert(!pieces[front.len() as int].contains(byte));
        } else {
            let piece = front[end].push(text.last());
            assert(pieces[end] == piece);
            assert forall|i: int| 0 <= i < end implies pieces[i] == front[i] by {}
            assert(piece.contains(byte) <==> front[end].contains(byte) || text.last() == byte) by {
                if front[end].contains(byte) {
                    let k = choose|k: int| 0 <= k < front[end].len() && front[end][k] == byte;
                    assert(piece[k] == byte);
                }
                if text.last() == byte {
                    assert(piece[piece.len() - 1] == byte);
                }
            }
            if rest.contains(byte) {
                let k = choose|k: int|
                    0 <= k < front.len() && (#[trigger] front[k]).contains(byte);
                assert(pieces[k].contains(byte));
            }
            if exists|i: int| 0 <= i < pieces.len() && (#[trigger] pieces[i]).contains(byte) {
                let k = choose|k: int|
                    0 <= k < pieces.len() && (#[trigger] pieces[k]).contains(byte);
                if k < end {
                    assert(front[k].contains(byte));
                }
            }
        }
    }
}

/// The names that are kept are plain when the pieces come from a path without
/// `..` and without NUL bytes.
proof fn lemma_kept_plain(pieces: Seq<Seq<u8>>)
    requires
        forall|i: int| 0 <= i < pieces.len() ==> !(#[trigger] pieces[i]).contains(SEPARATOR),
        !pieces.contains(double_dot()),
        !holds_nul(pieces),
    ensures
        forall|i: int| 0 <= i < kept(pieces).len() ==> is_plain(#[trigger] kept(pieces)[i]),
    decreases pieces.len(),
{
    if pieces.len() > 0 {
        let front = pieces.drop_last();
        assert forall|i: int| 0 <= i < front.len() implies !(#[trigger] front[i]).contains(
            SEPARATOR,
        ) by {
            assert(front[i] == pieces[i]);
        }
        assert(!front.contains(double_dot())) by {
            if front.contains(double_dot()) {
                let k = choose|k: int| 0 <= k < front.len() && front[k] == double_dot();
                assert(pieces[k] == double_dot());
            }
        }
        assert(!holds_nul(front)) by {
            if holds_nul(front) {
                let k = choose|k: int| 0 <= k < front.len() && (#[trigger] front[k]).contains(0u8);
                assert(pieces[k].contains(0u8));
            }
        }
        lemma_kept_plain(front);
        assert(pieces[pieces.len() - 1] == pieces.last());
        assert(pieces.contains(pieces.last()));
        assert forall|i: int| 0 <= i < kept(pieces).len() implies is_plain(
            #[trigger] kept(pieces)[i],
        ) by {
            if i < kept(front).len() {
                assert(kept(pieces)[i] == kept(front)[i]);
            }
        }
    }
}

/// Plain pieces are all kept.
proof fn lemma_kept_all(pieces: Seq<Seq<u8>>)
    requires
        forall|i: int| 0 <= i < pieces.len() ==> is_plain(#[trigger] pieces[i]),
    ensures
        kept(pieces) == pieces,
    decreases pieces.len(),
{
    if pieces.len() > 0 {
        let front = pieces.drop_last();
        assert forall|i: int| 0 <= i < front.len() implies is_plain(#[trigger] front[i]) by {
            assert(front[i] == pieces[i]);
        }
        lemma_kept_all(front);
        assert(is_plain(pieces[pieces.len() - 1]));
        assert(front.push(pieces.last()) =~= pieces);
    } else {
        assert(kept(pieces) =~= pieces);
    }
}

/// A path is rejected when it is absolute, else for the first of its pieces that
/// is `..`, holds a NUL byte, or is a first name that begins with a drive, else
/// when it holds no name; every other path is accepted, and keeps its names.
pub proof fn law_safe_path_cases(text: Seq<u8>)
    ensures
        safe_path(text) == (if text.len() > 0 && text[0] == SEPARATOR {
            Err::<Seq<u8>, UnsafePath>(UnsafePath::AbsoluteOrPrefixed)
        } else {
            match first_fault(split(text)) {
                Some(error) => Err(error),
                None => if kept(split(text)).len() == 0 {
                    Err(UnsafePath::Empty)
                } else {
                    Ok(join(kept(split(text))))
                },
            }
        }),
        first_fault(split(text)) is None <==> !split(text).contains(double_dot())
            && !text.contains(0u8) && !starts_with_drive(split(text)),
        starts_with_drive(split(text)) ==> first_fault(split(text)) == Some(
            UnsafePath::AbsoluteOrPrefixed,
        ),
        text.contains(0u8) && !split(text).contains(double_dot()) && !starts_with_drive(split(text))
            ==> first_fault(split(text)) == Some(UnsafePath::NulByte),
        split(text).contains(double_dot()) && !text.contains(0u8) && !starts_with_drive(split(text))
            ==> first_fault(split(text)) == Some(UnsafePath::ParentTraversal),
{
    if text.len() > 0 && text[0] == SEPARATOR {
        lemma_checked_rooted(components(text));
    } else {
        lemma_checked_pieces(leading_part(text), split(text));
    }
    lemma_first_fault(split(text));
    lemma_split_contains(text, 0u8);
}

/// What is accepted is a transfer path: plain names alone, and no drive.
pub proof fn law_safe_path_is_safe(text: Seq<u8>)
    ensures
        safe_path(text) matches Ok(path) ==> is_safe(path) && path.len() > 0,
{
    law_safe_path_cases(text);
    if safe_path(text) is Ok {
        let pieces = split(text);
        assert forall|i: int| 0 <= i < pieces.len() implies !(#[trigger] pieces[i]).contains(
            SEPARATOR,
        ) by {
            lemma_split_no_separator(text, i);
        }
        lemma_first_fault(pieces);
        lemma_kept_plain(pieces);
        lemma_join_is_safe(kept(pieces));
    }
}

/// The pieces of a text in UTF-8 are UTF-8.
proof fn lemma_pieces_utf8(pieces: Seq<Seq<u8>>)
    requires
        valid_utf8(join(pieces)),
    ensures
        forall|i: int| 0 <= i < pieces.len() ==> valid_utf8(#[trigger] pieces[i]),
    decreases pieces.len(),
{
    if pieces.len() > 1 {
        let text = join(pieces);
        let front = pieces.drop_last();
        let index = join(front).len() as int;
        assert(text[index] == SEPARATOR);
        is_char_boundary_iff_is_leading_byte(text, index);
        valid_utf8_split(text, index);
        assert(text.subrange(0, index) =~= join(front));
        let end = text.subrange(index, text.len() as int);
        assert(end[0] == SEPARATOR);
        assert(pop_first_scalar(end) =~= pieces.last());
        lemma_pieces_utf8(front);
        assert forall|i: int| 0 <= i < pieces.len() implies valid_utf8(#[trigger] pieces[i]) by {
            if i < front.len() {
                assert(front[i] == pieces[i]);
            }
        }
    }
}

/// The names that are kept of pieces in UTF-8 are joined to UTF-8, and to no
/// more bytes than the pieces.
proof fn lemma_kept_text(pieces: Seq<Seq<u8>>)
    ensures
        join(kept(pieces)).len() <= join(pieces).len(),
        (forall|i: int| 0 <= i < pieces.len() ==> valid_utf8(#[trigger] pieces[i])) ==> valid_utf8(
            join(kept(pieces)),
        ),
    decreases pieces.len(),
{
    if pieces.len() > 0 {
        let front = pieces.drop_last();
        let last = pieces.last();
        lemma_kept_text(front);
        if front.len() == 0 {
            assert(join(front).len() == 0);
        }
        let names = kept(pieces);
        if names.len() > kept(front).len() {
            assert(names.drop_last() =~= kept(front));
        }
        if forall|i: int| 0 <= i < pieces.len() ==> valid_utf8(#[trigger] pieces[i]) {
            assert forall|i: int| 0 <= i < front.len() implies valid_utf8(#[trigger] front[i]) by {
                assert(front[i] == pieces[i]);
            }
            assert(valid_utf8(pieces[pieces.len() - 1]));
            if names.len() > 1 && names.len() > kept(front).len() {
                let between = seq![SEPARATOR];
                reveal_with_fuel(valid_utf8, 2);
                assert(pop_first_scalar(between) =~= Seq::empty());
                assert(valid_utf8(between));
                valid_utf8_concat(join(kept(front)), between);
                assert(join(kept(front)) + between =~= join(kept(front)).push(SEPARATOR));
                valid_utf8_concat(join(kept(front)).push(SEPARATOR), last);
            }
        }
    }
}

/// What is accepted takes no more bytes than what it was made from, and is
/// UTF-8 if that was.
pub proof fn law_safe_path_text(text: Seq<u8>)
    ensures
        safe_path(text) matches Ok(path) ==> path.len() <= text.len() && (valid_utf8(text)
            ==> valid_utf8(path)),
{
    law_safe_path_cases(text);
    lemma_join_split(text);
    if valid_utf8(text) {
        lemma_pieces_utf8(split(text));
    }
    lemma_kept_text(split(text));
}

/// A path begins with a drive when its first name does.
proof fn lemma_join_drive(names: Seq<Seq<u8>>)
    requires
        names.len() > 0,
        forall|i: int| 0 <= i < names.len() ==> is_plain(#[trigger] names[i]),
    ensures
        has_drive(join(names)) == has_drive(names[0]),
        names[0].is_prefix_of(join(names)),
        join(names).len() > names[0].len() ==> join(names)[names[0].len() as int] == SEPARATOR,
    decreases names.len(),
{
    assert(is_plain(names[0]));
    let text = join(names);
    if names.len() > 1 {
        let front = names.drop_last();
        assert forall|i: int| 0 <= i < front.len() implies is_plain(#[trigger] front[i]) by {
            assert(front[i] == names[i]);
        }
        lemma_join_drive(front);
        assert(names[0] =~= text.subrange(0, names[0].len() as int));
        if names[0].len() == 1 {
            assert(text[1] == SEPARATOR);
        } else {
            assert(text[0] == names[0][0] && text[1] == names[0][1]);
        }
    } else {
        assert(names[0] =~= text.subrange(0, names[0].len() as int));
    }
}

/// A transfer path begins with its first name, and a separator behind it if more
/// names follow.
pub proof fn lemma_first_name(path: Seq<u8>)
    requires
        is_names(path),
    ensures
        split(path).len() > 0,
        split(path)[0].is_prefix_of(path),
        split(path).len() > 1 ==> path.len() > split(path)[0].len()
            && path[split(path)[0].len() as int] == SEPARATOR,
{
    lemma_split_nonempty(path);
    lemma_join_split(path);
    lemma_join_drive(split(path));
    lemma_join_longer(split(path));
}

/// More than one name takes more bytes than the first.
pub proof fn lemma_join_longer(names: Seq<Seq<u8>>)
    requires
        names.len() > 0,
    ensures
        join(names).len() >= names[0].len(),
        names.len() > 1 ==> join(names).len() > names[0].len(),
    decreases names.len(),
{
    if names.len() > 1 {
        lemma_join_longer(names.drop_last());
    }
}

/// Plain names make a transfer path, unless the first begins with a drive.
proof fn lemma_join_is_safe(names: Seq<Seq<u8>>)
    requires
        names.len() > 0,
        forall|i: int| 0 <= i < names.len() ==> is_plain(#[trigger] names[i]),
        !has_drive(names[0]),
    ensures
        is_safe(join(names)),
        join(names).len() > 0,
        split(join(names)) == names,
{
    lemma_split_join(names);
    lemma_join_drive(names);
    if join(names).len() == 0 {
        assert(split(join(names))[0].len() == 0);
        assert(is_plain(names[0]));
    }
}

/// A transfer path is accepted unchanged.
pub proof fn law_safe_path_idempotent(text: Seq<u8>)
    requires
        is_safe(text),
    ensures
        safe_path(text) == Ok::<Seq<u8>, UnsafePath>(text),
{
    law_safe_path_cases(text);
    let pieces = split(text);
    lemma_split_nonempty(text);
    lemma_kept_all(pieces);
    lemma_join_split(text);
    lemma_join_drive(pieces);
    lemma_first_fault(pieces);
    assert(!pieces.contains(double_dot())) by {
        if pieces.contains(double_dot()) {
            let k = choose|k: int| 0 <= k < pieces.len() && pieces[k] == double_dot();
            assert(is_plain(pieces[k]));
        }
    }
    assert(!holds_nul(pieces)) by {
        if holds_nul(pieces) {
            let k = choose|k: int| 0 <= k < pieces.len() && (#[trigger] pieces[k]).contains(0u8);
            assert(is_plain(pieces[k]));
        }
    }
    if text.len() > 0 && text[0] == SEPARATOR {
        lemma_split_concat(Seq::empty(), text.drop_first());
        assert(Seq::<u8>::empty().push(SEPARATOR) + text.drop_first() =~= text);
        assert(pieces[0] =~= Seq::<u8>::empty());
        assert(is_plain(pieces[0]));
    }
}

/// A transfer path placed in a directory names what lies below it: its
/// components are those of the directory, and then names alone.
pub proof fn law_placed_stays_beneath(root: Seq<u8>, path: Seq<u8>)
    requires
        is_names(path),
    ensures
        components(placed(root, path)) == components(root) + Seq::new(
            split(path).len(),
            |i: int| PathPartView::Normal(split(path)[i]),
        ),
{
    let names = Seq::new(split(path).len(), |i: int| PathPartView::Normal(split(path)[i]));
    lemma_plain_parts(split(path));
    let whole = placed(root, path);
    if root.len() == 0 {
        assert(whole =~= path);
        assert(split(root).drop_last() =~= Seq::empty());
        assert(piece_parts(split(root)) =~= Seq::empty()) by {
            reveal_with_fuel(piece_parts, 2);
        }
        lemma_no_leading(path);
        assert(components(whole) =~= components(root) + names);
    } else {
        let base = if root.last() == SEPARATOR {
            root.drop_last()
        } else {
            root
        };
        assert(whole =~= base.push(SEPARATOR) + path);
        lemma_split_concat(base, path);
        lemma_piece_parts_concat(split(base), split(path));
        if root.last() == SEPARATOR {
            assert(split(root).drop_last() =~= split(base));
            assert(piece_parts(split(root)) =~= piece_parts(split(base)));
        }
        assert(leading_part(whole) =~= leading_part(root));
        assert(components(whole) =~= components(root) + names);
    }
}

/// The parts of plain pieces are the pieces, as names.
proof fn lemma_plain_parts(pieces: Seq<Seq<u8>>)
    requires
        forall|i: int| 0 <= i < pieces.len() ==> is_plain(#[trigger] pieces[i]),
    ensures
        piece_parts(pieces) == Seq::new(
            pieces.len(),
            |i: int| PathPartView::Normal(pieces[i]),
        ),
    decreases pieces.len(),
{
    if pieces.len() > 0 {
        let front = pieces.drop_last();
        assert forall|i: int| 0 <= i < front.len() implies is_plain(#[trigger] front[i]) by {
            assert(front[i] == pieces[i]);
        }
        lemma_plain_parts(front);
        assert(is_plain(pieces[pieces.len() - 1]));
    }
    assert(piece_parts(pieces) =~= Seq::new(
        pieces.len(),
        |i: int| PathPartView::Normal(pieces[i]),
    ));
}

/// A transfer path starts with a name.
proof fn lemma_no_leading(path: Seq<u8>)
    requires
        is_names(path),
    ensures
        leading_part(path) == Seq::<PathPartView>::empty(),
{
    lemma_split_nonempty(path);
    if path.len() > 0 && path[0] == SEPARATOR {
        lemma_split_concat(Seq::empty(), path.drop_first());
        assert(Seq::<u8>::empty().push(SEPARATOR) + path.drop_first() =~= path);
        assert(split(path)[0] =~= Seq::<u8>::empty());
        assert(is_plain(split(path)[0]));
    } else if path.len() > 0 && path[0] == DOT && path.len() == 1 {
        assert(path =~= single_dot());
        assert(!path.contains(SEPARATOR));
        lemma_split_name(path);
        assert(is_plain(split(path)[0]));
    } else if path.len() > 1 && path[0] == DOT && path[1] == SEPARATOR {
        let rest = path.skip(2);
        assert(single_dot().push(SEPARATOR) + rest =~= path);
        lemma_split_concat(single_dot(), rest);
        assert(!single_dot().contains(SEPARATOR));
        lemma_split_name(single_dot());
        assert(split(path)[0] == single_dot());
        assert(is_plain(split(path)[0]));
    }
}

/// The components of a path.
pub fn path_components(text: &[u8]) -> (parts: Vec<PathPart>)
    ensures
        part_views(parts@) == components(text@),
        forall|i: int|
            0 <= i < parts@.len() ==> is_component(#[trigger] part_views(parts@)[i]),
{
    let mut parts: Vec<PathPart> = Vec::new();
    if text.len() > 0 && text[0] == SEPARATOR {
        parts.push(PathPart::RootDir);
    } else if text.len() > 0 && text[0] == DOT && (text.len() == 1 || text[1] == SEPARATOR) {
        parts.push(PathPart::CurDir);
    }
    let mut piece: Vec<u8> = Vec::new();
    let mut i: usize = 0;
    let ghost mut done: Seq<Seq<u8>> = Seq::empty();
    proof {
        assert(part_views(parts@) =~= leading_part(text@) + piece_parts(done));
        assert(text@.take(0) =~= Seq::<u8>::empty());
        assert(split(text@.take(0)) =~= done.push(piece@));
    }
    while i < text.len()
        invariant
            i <= text@.len(),
            split(text@.take(i as int)) == done.push(piece@),
            part_views(parts@) == leading_part(text@) + piece_parts(done),
            forall|j: int|
                0 <= j < parts@.len() ==> is_component(#[trigger] part_views(parts@)[j]),
        decreases text@.len() - i,
    {
        let byte: u8 = text[i];
        let ghost before = done.push(piece@);
        proof {
            let next = text@.take(i + 1);
            assert(next.drop_last() =~= text@.take(i as int));
            assert(next.last() == byte);
            lemma_split_no_separator(text@.take(i as int), before.len() - 1);
        }
        if byte == SEPARATOR {
            proof {
                assert(before.drop_last() =~= done);
                done = before;
            }
            push_piece(&mut parts, piece);
            proof {
                assert(part_views(parts@) =~= leading_part(text@) + piece_parts(done));
            }
            piece = Vec::new();
            assert(split(text@.take(i + 1)) =~= done.push(piece@));
        } else {
            piece.push(byte);
            proof {
                assert(before.drop_last() =~= done);
                assert(split(text@.take(i + 1)) =~= done.push(piece@));
            }
        }
        i = i + 1;
    }
    proof {
        assert(text@.take(i as int) =~= text@);
        lemma_split_no_separator(text@, done.len() as int);
    }
    let ghost pieces = done.push(piece@);
    push_piece(&mut parts, piece);
    proof {
        assert(pieces.drop_last() =~= done);
        assert(part_views(parts@) =~= components(text@));
    }
    parts
}

/// Appends the component that `piece` is, if it is one.
fn push_piece(parts: &mut Vec<PathPart>, piece: Vec<u8>)
    requires
        !piece@.contains(SEPARATOR),
        forall|i: int|
            0 <= i < old(parts)@.len() ==> is_component(#[trigger] part_views(old(parts)@)[i]),
    ensures
        part_views(final(parts)@) == part_views(old(parts)@) + piece_part(piece@),
        forall|i: int|
            0 <= i < final(parts)@.len() ==> is_component(#[trigger] part_views(final(parts)@)[i]),
{
    let ghost before = part_views(parts@);
    let ghost bytes = piece@;
    if piece.len() == 0 || (piece.len() == 1 && piece[0] == DOT) {
        assert(bytes.len() == 1 ==> bytes =~= single_dot());
        assert(part_views(parts@) =~= before + piece_part(bytes));
    } else if piece.len() == 2 && piece[0] == DOT && piece[1] == DOT {
        assert(bytes =~= double_dot());
        parts.push(PathPart::ParentDir);
        assert(part_views(parts@) =~= before + piece_part(bytes));
    } else {
        assert(bytes != single_dot() && bytes != double_dot());
        parts.push(PathPart::Normal(piece));
        assert(part_views(parts@) =~= before + piece_part(bytes));
    }
    assert forall|i: int| 0 <= i < parts@.len() implies is_component(
        #[trigger] part_views(parts@)[i],
    ) by {
        if i < before.len() {
            assert(part_views(parts@)[i] == before[i]);
        }
    }
}

/// A normalized transfer path that cannot escape a receiver-selected root.
#[derive(Debug, Eq, PartialEq)]
pub struct SafeRelativePath {
    text: Vec<u8>,
}

impl View for SafeRelativePath {
    type V = Seq<u8>;

    closed spec fn view(&self) -> Seq<u8> {
        self.text@
    }
}

impl Clone for SafeRelativePath {
    fn clone(&self) -> (copy: Self)
        ensures
            copy@ == self@,
    {
        proof {
            use_type_invariant(self);
        }
        SafeRelativePath { text: copied(self.text.as_slice()) }
    }
}

/// What a checked path is, as a value of the model.
pub open spec fn path_result(result: Result<SafeRelativePath, UnsafePath>) -> Result<
    Seq<u8>,
    UnsafePath,
> {
    match result {
        Ok(path) => Ok(path@),
        Err(error) => Err(error),
    }
}

impl SafeRelativePath {
    /// Only transfer paths are made.
    #[verifier::type_invariant]
    spec fn is_transfer_path(self) -> bool {
        is_safe(self.text@)
    }

    /// Validates and normalizes a path supplied by a remote peer.
    ///
    /// Empty paths, absolute paths, drive prefixes, NUL bytes, and parent
    /// traversal are rejected. `.` components are ignored.
    pub fn new(path: &[u8]) -> (result: Result<SafeRelativePath, UnsafePath>)
        ensures
            path_result(result) == safe_path(path@),
            result matches Ok(safe) ==> is_safe(safe@),
    {
        let parts = path_components(path);
        proof {
            law_safe_path_is_safe(path@);
        }
        Self::from_components(&parts)
    }

    /// Validates and normalizes a path that is already cut into components,
    /// platform prefixes among them.
    pub fn from_components(parts: &Vec<PathPart>) -> (result: Result<SafeRelativePath, UnsafePath>)
        requires
            forall|i: int|
                0 <= i < parts@.len() ==> is_component(#[trigger] part_views(parts@)[i]),
        ensures
            path_result(result) == checked_path(part_views(parts@)),
            result matches Ok(safe) ==> is_safe(safe@),
    {
        let mut text: Vec<u8> = Vec::new();
        let ghost all = part_views(parts@);
        let ghost mut names: Seq<Seq<u8>> = Seq::empty();
        let mut i: usize = 0;
        proof {
            assert(all.take(0) =~= Seq::empty());
        }
        while i < parts.len()
            invariant
                i <= parts@.len(),
                all == part_views(parts@),
                forall|j: int|
                    0 <= j < parts@.len() ==> is_component(#[trigger] part_views(parts@)[j]),
                checked_names(all.take(i as int)) == Ok::<Seq<Seq<u8>>, UnsafePath>(names),
                forall|j: int| 0 <= j < names.len() ==> is_plain(#[trigger] names[j]),
                names.len() > 0 ==> !has_drive(names[0]),
                text@ == join(names),
                text@.len() == 0 <==> names.len() == 0,
            decreases parts@.len() - i,
        {
            proof {
                assert(all.take(i + 1).drop_last() =~= all.take(i as int));
                assert(all.take(i + 1).last() == all[i as int]);
                assert(is_component(all[i as int]));
            }
            match &parts[i] {
                PathPart::Normal(name) => {
                    if name.len() == 0 {
                        proof {
                            lemma_checked_error(all, i + 1);
                        }
                        return Err(UnsafePath::EmptyComponent);
                    }
                    if text.len() == 0 && begins_with_drive(name.as_slice()) {
                        proof {
                            lemma_checked_error(all, i + 1);
                        }
                        return Err(UnsafePath::AbsoluteOrPrefixed);
                    }
                    if contains_nul(name.as_slice()) {
                        proof {
                            lemma_checked_error(all, i + 1);
                        }
                        return Err(UnsafePath::NulByte);
                    }
                    if text.len() > 0 {
                        text.push(SEPARATOR);
                    }
                    append(&mut text, name.as_slice());
                    proof {
                        let longer = names.push(name@);
                        assert(longer.drop_last() =~= names);
                        assert(text@ =~= join(longer));
                        names = longer;
                    }
                },
                PathPart::CurDir => {},
                PathPart::ParentDir => {
                    proof {
                        lemma_checked_error(all, i + 1);
                    }
                    return Err(UnsafePath::ParentTraversal);
                },
                PathPart::RootDir | PathPart::Prefix => {
                    proof {
                        lemma_checked_error(all, i + 1);
                    }
                    return Err(UnsafePath::AbsoluteOrPrefixed);
                },
            }
            i = i + 1;
        }
        proof {
            assert(all.take(i as int) =~= all);
        }
        if text.len() == 0 {
            return Err(UnsafePath::Empty);
        }
        proof {
            lemma_join_is_safe(names);
        }
        Ok(SafeRelativePath { text })
    }

    /// The path's bytes.
    pub fn as_path(&self) -> (text: &[u8])
        ensures
            text@ == self@,
            is_safe(self@),
    {
        proof {
            use_type_invariant(self);
        }
        self.text.as_slice()
    }

    /// The path, placed in the directory `root`.
    pub fn beneath(&self, root: &[u8]) -> (whole: Vec<u8>)
        ensures
            whole@ == placed(root@, self@),
    {
        join_beneath(root, self.text.as_slice())
    }
}

/// Whether `text` begins with a drive, such as `C:`.
fn begins_with_drive(text: &[u8]) -> (found: bool)
    ensures
        found == has_drive(text@),
{
    text.len() >= 2 && ((65 <= text[0] && text[0] <= 90) || (97 <= text[0] && text[0] <= 122))
        && text[1] == COLON
}

/// Whether `text` holds a NUL byte.
fn contains_nul(text: &[u8]) -> (found: bool)
    ensures
        found == text@.contains(0u8),
{
    let mut i: usize = 0;
    while i < text.len()
        invariant
            i <= text@.len(),
            forall|j: int| 0 <= j < i ==> text@[j] != 0,
        decreases text@.len() - i,
    {
        if text[i] == 0 {
            assert(text@.contains(text@[i as int]));
            return true;
        }
        i = i + 1;
    }
    false
}

/// `path` placed in the directory `root`.
pub fn join_beneath(root: &[u8], path: &[u8]) -> (whole: Vec<u8>)
    ensures
        whole@ == placed(root@, path@),
{
    let mut whole: Vec<u8> = copied(root);
    if root.len() > 0 && root[root.len() - 1] != SEPARATOR {
        whole.push(SEPARATOR);
    }
    append(&mut whole, path);
    assert(whole@ =~= placed(root@, path@));
    whole
}

/// The first part that is refused decides, whatever follows it.
proof fn lemma_checked_error(parts: Seq<PathPartView>, n: int)
    requires
        0 <= n <= parts.len(),
        checked_names(parts.take(n)) is Err,
    ensures
        checked_names(parts) == checked_names(parts.take(n)),
    decreases parts.len(),
{
    if n == parts.len() {
        assert(parts.take(n) =~= parts);
    } else {
        assert(parts.drop_last().take(n) =~= parts.take(n));
        lemma_checked_error(parts.drop_last(), n);
    }
}

/// The empty path has no components.
pub proof fn law_components_empty()
    ensures
        components(Seq::empty()) == Seq::<PathPartView>::empty(),
{
    reveal_with_fuel(piece_parts, 2);
    let pieces = split(Seq::empty());
    assert(pieces.drop_last() =~= Seq::empty());
    assert(components(Seq::empty()) =~= Seq::empty());
}

/// A name placed in a directory is one more component, however many the directory
/// has.
pub proof fn law_placed_name(root: Seq<u8>, name: Seq<u8>)
    requires
        is_plain(name),
    ensures
        components(placed(root, name)) == components(root).push(PathPartView::Normal(name)),
{
    lemma_split_name(name);
    assert(is_names(name));
    law_placed_stays_beneath(root, name);
    assert(components(placed(root, name)) =~= components(root).push(PathPartView::Normal(name)));
}

/// The pieces that count are those that are neither empty nor `.`.
proof fn lemma_kept_is_filter(pieces: Seq<Seq<u8>>)
    ensures
        kept(pieces) == pieces.filter(
            |piece: Seq<u8>| piece.len() > 0 && piece != seq![46u8],
        ),
    decreases pieces.len(),
{
    reveal(Seq::filter);
    if pieces.len() > 0 {
        lemma_kept_is_filter(pieces.drop_last());
        assert(single_dot() == seq![46u8]);
    }
}

/// The pieces of a text are what stands between its separators: joined with one
/// separator between each two they are the text, none holds a separator, and no
/// other pieces are like that.
pub proof fn law_split_is_unique(text: Seq<u8>, pieces: Seq<Seq<u8>>)
    ensures
        split(text) == pieces <==> {
            &&& pieces.len() > 0
            &&& join(pieces) == text
            &&& forall|i: int| 0 <= i < pieces.len() ==> !(#[trigger] pieces[i]).contains(47u8)
        },
{
    lemma_split_nonempty(text);
    lemma_join_split(text);
    assert forall|i: int| 0 <= i < split(text).len() implies !(#[trigger] split(text)[i]).contains(
        47u8,
    ) by {
        lemma_split_no_separator(text, i);
    }
    if pieces.len() > 0 && join(pieces) == text && (forall|i: int|
        0 <= i < pieces.len() ==> !(#[trigger] pieces[i]).contains(47u8)) {
        lemma_split_join(pieces);
    }
}

/// Joining names puts each behind the others, with one separator before it.
pub proof fn law_join_grows(names: Seq<Seq<u8>>, name: Seq<u8>)
    ensures
        join(seq![name]) == name,
        names.len() > 0 ==> join(names.push(name)) == join(names) + seq![47u8] + name,
{
    assert(names.push(name).drop_last() =~= names);
    assert(join(names).push(SEPARATOR) + name =~= join(names) + seq![47u8] + name);
}

/// The parts of pieces are found by leaving out the pieces that do not count.
proof fn lemma_piece_parts_filter(pieces: Seq<Seq<u8>>)
    ensures
        piece_parts(pieces) == kept(pieces).map_values(
            |piece: Seq<u8>|
                if piece == seq![46u8, 46u8] {
                    PathPartView::ParentDir
                } else {
                    PathPartView::Normal(piece)
                },
        ),
    decreases pieces.len(),
{
    let part = |piece: Seq<u8>|
        if piece == seq![46u8, 46u8] {
            PathPartView::ParentDir
        } else {
            PathPartView::Normal(piece)
        };
    if pieces.len() > 0 {
        lemma_piece_parts_filter(pieces.drop_last());
        assert(double_dot() == seq![46u8, 46u8]);
        assert(piece_parts(pieces) =~= kept(pieces).map_values(part));
    } else {
        assert(piece_parts(pieces) =~= kept(pieces).map_values(part));
    }
}

/// The components of a path are its root or leading `.`, if it has one, and then
/// one for each piece between separators that is neither empty nor `.`, in their
/// order: `..` is the parent directory, and any other piece is a name.
pub proof fn law_components_are_pieces(text: Seq<u8>)
    ensures
        components(text) == (if text.len() > 0 && text[0] == 47 {
            seq![PathPartView::RootDir]
        } else if split(text)[0] == seq![46u8] {
            seq![PathPartView::CurDir]
        } else {
            Seq::empty()
        }) + split(text).filter(
            |piece: Seq<u8>| piece.len() > 0 && piece != seq![46u8],
        ).map_values(
            |piece: Seq<u8>|
                if piece == seq![46u8, 46u8] {
                    PathPartView::ParentDir
                } else {
                    PathPartView::Normal(piece)
                },
        ),
{
    lemma_kept_is_filter(split(text));
    lemma_piece_parts_filter(split(text));
    lemma_leading_dot(text);
}

/// A path starts with the piece `.` when it is `.` or a separator follows that.
proof fn lemma_leading_dot(text: Seq<u8>)
    ensures
        split(text)[0] == single_dot() <==> text.len() > 0 && text[0] == DOT && (text.len() == 1
            || text[1] == SEPARATOR),
{
    let pieces = split(text);
    lemma_split_nonempty(text);
    lemma_join_split(text);
    lemma_join_longer(pieces);
    lemma_join_starts(pieces);
    if pieces[0] == single_dot() {
        assert(text[0] == pieces[0][0]);
    }
    if text.len() == 1 && text[0] == DOT {
        assert(text =~= single_dot());
        lemma_split_name(text);
    } else if text.len() > 1 && text[0] == DOT && text[1] == SEPARATOR {
        let rest = text.skip(2);
        assert(single_dot().push(SEPARATOR) + rest =~= text);
        lemma_split_concat(single_dot(), rest);
        lemma_split_name(single_dot());
    }
}

/// What is joined starts with the first name, and a separator behind it.
pub proof fn lemma_join_starts(names: Seq<Seq<u8>>)
    requires
        names.len() > 0,
    ensures
        join(names).len() >= names[0].len(),
        forall|i: int| 0 <= i < names[0].len() ==> join(names)[i] == names[0][i],
        join(names).len() > names[0].len() ==> join(names)[names[0].len() as int] == SEPARATOR,
    decreases names.len(),
{
    if names.len() > 1 {
        let front = names.drop_last();
        lemma_join_starts(front);
        assert(front[0] == names[0]);
    }
}

/// What is accepted as a transfer path, and what comes of it: every text that is
/// not absolute, has a piece that is neither empty nor `.`, the first of them
/// without a drive, none of them `..`, and no NUL byte. The names of the transfer
/// path are exactly those pieces, in their order.
pub proof fn law_safe_path_keeps_names(text: Seq<u8>)
    ensures
        ({
            let names = split(text).filter(
                |piece: Seq<u8>| piece.len() > 0 && piece != seq![46u8],
            );
            &&& safe_path(text) is Ok <==> {
                &&& !(text.len() > 0 && text[0] == 47)
                &&& !text.contains(0u8)
                &&& !split(text).contains(seq![46u8, 46u8])
                &&& names.len() > 0
                &&& !(names[0].len() >= 2 && (65 <= names[0][0] <= 90 || 97 <= names[0][0] <= 122)
                    && names[0][1] == 58)
            }
            &&& safe_path(text) matches Ok(path) ==> split(path) == names
            &&& text.len() > 0 && text[0] == 47 ==> safe_path(text) == Err::<Seq<u8>, UnsafePath>(
                UnsafePath::AbsoluteOrPrefixed,
            )
            &&& !(text.len() > 0 && text[0] == 47) && names.len() == 0 ==> safe_path(text) == Err::<
                Seq<u8>,
                UnsafePath,
            >(UnsafePath::Empty)
        }),
{
    let pieces = split(text);
    lemma_kept_is_filter(pieces);
    law_safe_path_cases(text);
    lemma_first_fault(pieces);
    assert(double_dot() == seq![46u8, 46u8]);
    if kept(pieces).len() == 0 {
        lemma_kept_none(pieces);
    }
    if safe_path(text) is Ok {
        assert forall|i: int| 0 <= i < pieces.len() implies !(#[trigger] pieces[i]).contains(
            SEPARATOR,
        ) by {
            lemma_split_no_separator(text, i);
        }
        lemma_kept_plain(pieces);
        lemma_join_is_safe(kept(pieces));
    }
}

/// Of several faults the one that comes first decides: what follows a piece that
/// is refused changes nothing, and a piece behind an accepted path is refused for
/// what it is.
pub proof fn law_first_fault_decides(text: Seq<u8>, piece: Seq<u8>)
    requires
        text.len() > 0,
        !piece.contains(47u8),
    ensures
        safe_path(text) is Err && safe_path(text)->Err_0 != UnsafePath::Empty ==> safe_path(
            text.push(47u8) + piece,
        ) == safe_path(text),
        safe_path(text) matches Ok(path) ==> safe_path(text.push(47u8) + piece) == (if piece.len()
            == 0 || piece == seq![46u8] {
            Ok::<Seq<u8>, UnsafePath>(path)
        } else if piece == seq![46u8, 46u8] {
            Err(UnsafePath::ParentTraversal)
        } else if piece.contains(0u8) {
            Err(UnsafePath::NulByte)
        } else {
            Ok(path + seq![47u8] + piece)
        }),
{
    let longer = text.push(47u8) + piece;
    let pieces = split(text);
    law_safe_path_cases(text);
    law_safe_path_cases(longer);
    lemma_split_concat(text, piece);
    lemma_split_name(piece);
    assert(split(longer) =~= pieces.push(piece));
    assert(split(longer).drop_last() =~= pieces);
    assert(longer[0] == text[0]);
    assert(double_dot() == seq![46u8, 46u8] && single_dot() == seq![46u8]);
    if safe_path(text) is Ok && kept(split(longer)).len() > kept(pieces).len() {
        assert(kept(split(longer)).drop_last() =~= kept(pieces));
        assert(join(kept(pieces)).push(47u8) + piece =~= join(kept(pieces)) + seq![47u8] + piece);
    }
}

/// The checks of a path's components: one more name is accepted behind what was
/// accepted, and comes behind it; `.` changes nothing; anything else is refused,
/// and what was refused stays refused.
pub proof fn law_checked_parts_grow(parts: Seq<PathPartView>, part: PathPartView)
    ensures
        checked_path(parts) is Err && checked_path(parts)->Err_0 != UnsafePath::Empty
            ==> checked_path(parts.push(part)) == checked_path(parts),
        checked_path(parts) is Ok || checked_path(parts) == Err::<Seq<u8>, UnsafePath>(
            UnsafePath::Empty,
        ) ==> checked_path(parts.push(part)) == (match part {
            PathPartView::CurDir => checked_path(parts),
            PathPartView::ParentDir => Err::<Seq<u8>, UnsafePath>(UnsafePath::ParentTraversal),
            PathPartView::RootDir => Err(UnsafePath::AbsoluteOrPrefixed),
            PathPartView::Prefix => Err(UnsafePath::AbsoluteOrPrefixed),
            PathPartView::Normal(name) => if name.len() == 0 {
                Err(UnsafePath::EmptyComponent)
            } else if checked_path(parts) is Err && name.len() >= 2 && (65 <= name[0] <= 90 || 97
                <= name[0] <= 122) && name[1] == 58 {
                Err(UnsafePath::AbsoluteOrPrefixed)
            } else if name.contains(0u8) {
                Err(UnsafePath::NulByte)
            } else if checked_path(parts) is Err {
                Ok(name)
            } else {
                Ok(checked_path(parts)->Ok_0 + seq![47u8] + name)
            },
        }),
        checked_path(Seq::empty()) == Err::<Seq<u8>, UnsafePath>(UnsafePath::Empty),
{
    let longer = parts.push(part);
    assert(longer.drop_last() =~= parts);
    if let Ok(names) = checked_names(parts) {
        if let PathPartView::Normal(name) = part {
            assert(names.push(name).drop_last() =~= names);
            assert(join(names).push(SEPARATOR) + name =~= join(names) + seq![47u8] + name);
        }
    } else {
        lemma_checked_not_empty(parts);
    }
}

/// No single component is refused for being empty as a path.
proof fn lemma_checked_not_empty(parts: Seq<PathPartView>)
    ensures
        checked_names(parts) != Err::<Seq<Seq<u8>>, UnsafePath>(UnsafePath::Empty),
    decreases parts.len(),
{
    if parts.len() > 0 {
        lemma_checked_not_empty(parts.drop_last());
    }
}

/// A path placed in a directory is the directory's text and then its own, with
/// one separator between them unless the directory ends in one or is empty.
pub proof fn law_placed_text(root: Seq<u8>, path: Seq<u8>)
    ensures
        root.is_prefix_of(placed(root, path)),
        placed(root, path).skip(placed(root, path).len() - path.len()) == path,
        placed(root, path).len() == root.len() + path.len() + (if root.len() == 0 || root.last()
            == 47 {
            0nat
        } else {
            1
        }),
        root.len() > 0 ==> placed(root, path)[placed(root, path).len() - path.len() - 1] == 47,
{
    let whole = placed(root, path);
    assert(root =~= whole.subrange(0, root.len() as int));
    assert(whole.skip(whole.len() - path.len()) =~= path);
}

/// The last piece that counts is the last of those that are kept.
pub proof fn lemma_kept_last(pieces: Seq<Seq<u8>>, k: int)
    requires
        0 <= k < pieces.len(),
        pieces[k].len() > 0 && pieces[k] != seq![46u8],
        forall|j: int| k < j < pieces.len() ==> (#[trigger] pieces[j]).len() == 0 || pieces[j]
            == seq![46u8],
    ensures
        kept(pieces).len() > 0,
        kept(pieces).last() == pieces[k],
    decreases pieces.len(),
{
    if k < pieces.len() - 1 {
        let front = pieces.drop_last();
        assert(pieces.last() == pieces[pieces.len() - 1]);
        assert forall|j: int| k < j < front.len() implies (#[trigger] front[j]).len() == 0
            || front[j] == seq![46u8] by {
            assert(front[j] == pieces[j]);
        }
        lemma_kept_last(front, k);
    }
}

/// Where the last piece that counts stands.
pub proof fn lemma_kept_place(pieces: Seq<Seq<u8>>) -> (k: int)
    requires
        kept(pieces).len() > 0,
    ensures
        0 <= k < pieces.len(),
        pieces[k] == kept(pieces).last(),
        pieces[k].len() > 0 && pieces[k] != seq![46u8],
        forall|j: int| k < j < pieces.len() ==> (#[trigger] pieces[j]).len() == 0 || pieces[j]
            == seq![46u8],
    decreases pieces.len(),
{
    if pieces.last().len() == 0 || pieces.last() == single_dot() {
        let front = pieces.drop_last();
        let k = lemma_kept_place(front);
        assert forall|j: int| k < j < pieces.len() implies (#[trigger] pieces[j]).len() == 0
            || pieces[j] == seq![46u8] by {
            if j < front.len() {
                assert(front[j] == pieces[j]);
            }
        }
        k
    } else {
        pieces.len() - 1
    }
}

/// The last component of a path is its last piece that counts, if there is one.
pub proof fn lemma_last_component(text: Seq<u8>)
    ensures
        kept(split(text)).len() > 0 ==> components(text).len() > 0 && components(text).last() == (
        if kept(split(text)).last() == seq![46u8, 46u8] {
            PathPartView::ParentDir
        } else {
            PathPartView::Normal(kept(split(text)).last())
        }),
        kept(split(text)).len() == 0 ==> components(text) == leading_part(text),
{
    lemma_piece_parts_filter(split(text));
    if kept(split(text)).len() == 0 {
        assert(components(text) =~= leading_part(text));
    }
}

} // verus!
