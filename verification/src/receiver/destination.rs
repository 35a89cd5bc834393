//! Where received files go: the directories, the final names, and the partial
//! files.

use vstd::prelude::*;
use vstd::string::*;
use vstd::utf8::*;

use crate::bytes::{append, copied, push_be, same_bytes};
use crate::digest::{digest_hex, digest_of};
use crate::order::PathSet;
use crate::path::{
    join_beneath, path_components, EntryKind, PathPart, PathPartView, SafeRelativePath, DOT,
    SEPARATOR,
};
use crate::protocol::{FileOffer, FileOfferView};
use crate::receiver::{ReceiveError, ReceiveErrorView};
use crate::text::{is_utf8, text_from_utf8_lossy};

verus! {

/// The highest number that is tried behind a name that is taken.
pub const MAX_NUMBER: u64 = 10_000;

/// The last name of a path.
pub open spec fn last_name(path: Seq<u8>) -> Seq<u8> {
    crate::path::split(path).last()
}

/// What stands before the last name of a path, with the separator.
pub open spec fn before_name(path: Seq<u8>) -> Seq<u8> {
    path.take(path.len() - last_name(path).len())
}

/// The directory that a path's last name is in.
pub open spec fn directory_of(path: Seq<u8>) -> Seq<u8> {
    if before_name(path).len() <= 1 {
        before_name(path)
    } else {
        before_name(path).drop_last()
    }
}

/// Where the last dot of a name is; -1 without one.
pub open spec fn last_dot(name: Seq<u8>) -> int
    decreases name.len(),
{
    if name.len() == 0 {
        -1
    } else if name.last() == DOT {
        name.len() - 1
    } else {
        last_dot(name.drop_last())
    }
}

/// A name without its extension. A dot at the start of a name starts no
/// extension.
pub open spec fn stem(name: Seq<u8>) -> Seq<u8> {
    if last_dot(name) <= 0 {
        name
    } else {
        name.take(last_dot(name))
    }
}

/// What follows the last dot of a name.
pub open spec fn extension(name: Seq<u8>) -> Option<Seq<u8>> {
    if last_dot(name) <= 0 {
        None
    } else {
        Some(name.skip(last_dot(name) + 1))
    }
}

/// A number in decimal.
pub open spec fn decimal_bytes(value: nat) -> Seq<u8>
    decreases value,
{
    if value < 10 {
        seq![(48 + value) as u8]
    } else {
        decimal_bytes(value / 10).push((48 + value % 10) as u8)
    }
}

/// A name with a number behind its stem: `photo.jpg` becomes `photo (1).jpg`.
/// An extension that is not UTF-8 is left out.
pub open spec fn numbered_name(name: Seq<u8>, number: nat) -> Seq<u8> {
    let marked = stem(name) + seq![32u8, 40u8] + decimal_bytes(number) + seq![41u8];
    match extension(name) {
        Some(ending) if valid_utf8(ending) => marked.push(DOT) + ending,
        _ => marked,
    }
}

/// The paths that are tried for a file: the requested one, and the same with a
/// number.
pub open spec fn candidate(requested: Seq<u8>, number: nat) -> Seq<u8> {
    if number == 0 {
        requested
    } else {
        before_name(requested) + numbered_name(last_name(requested), number)
    }
}

/// Whether `occupied` may have answered `answer` for `path`.
pub open spec fn answered<F: Fn(&Vec<u8>) -> bool>(
    occupied: F,
    path: Seq<u8>,
    answer: bool,
) -> bool {
    exists|asked: Vec<u8>| asked@ == path && #[trigger] call_ensures(occupied, (&asked,), answer)
}

/// Whether a path is taken: by an entry of its directory, or by another file of
/// the transfer.
pub open spec fn refused<F: Fn(&Vec<u8>) -> bool>(
    occupied: F,
    reserved: Seq<Seq<u8>>,
    path: Seq<u8>,
) -> bool {
    reserved.contains(path) || answered(occupied, path, true)
}

/// Appends a number in decimal.
fn push_decimal_bytes(output: &mut Vec<u8>, value: u64)
    ensures
        final(output)@ == old(output)@ + decimal_bytes(value as nat),
    decreases value,
{
    if value >= 10 {
        push_decimal_bytes(output, value / 10);
    }
    output.push((48 + value % 10) as u8);
    assert(output@ =~= old(output)@ + decimal_bytes(value as nat));
}

/// How long the last name of a path is.
fn last_name_len(path: &[u8]) -> (length: usize)
    ensures
        length == last_name(path@).len(),
        length <= path@.len(),
        path@.skip(path@.len() - length) == last_name(path@),
{
    let mut i: usize = path.len();
    proof {
        lemma_last_name(path@);
    }
    while i > 0 && path[i - 1] != SEPARATOR
        invariant
            i <= path@.len(),
            !path@.skip(i as int).contains(SEPARATOR),
        decreases i,
    {
        proof {
            let longer = path@.skip(i - 1);
            assert(longer =~= seq![path@[i - 1]] + path@.skip(i as int));
            assert forall|j: int| 0 <= j < longer.len() implies longer[j] != SEPARATOR by {
                if j > 0 {
                    assert(longer[j] == path@.skip(i as int)[j - 1]);
                }
            }
        }
        i = i - 1;
    }
    proof {
        lemma_last_name_is(path@, i as int);
    }
    path.len() - i
}

/// The last name is what follows the last separator.
proof fn lemma_last_name_is(path: Seq<u8>, start: int)
    requires
        0 <= start <= path.len(),
        start > 0 ==> path[start - 1] == SEPARATOR,
        !path.skip(start).contains(SEPARATOR),
    ensures
        last_name(path) == path.skip(start),
{
    let tail = path.skip(start);
    crate::path::lemma_split_name(tail);
    if start > 0 {
        let head = path.take(start - 1);
        crate::path::lemma_split_concat(head, tail);
        assert(head.push(SEPARATOR) + tail =~= path);
    } else {
        assert(tail =~= path);
    }
}

/// The last name ends the path, holds no separator, and follows one.
proof fn lemma_last_name(path: Seq<u8>)
    ensures
        last_name(path).len() <= path.len(),
        !last_name(path).contains(SEPARATOR),
        path == before_name(path) + last_name(path),
        before_name(path).len() > 0 ==> before_name(path).last() == SEPARATOR,
    decreases path.len(),
{
    crate::path::lemma_split_nonempty(path);
    crate::path::lemma_split_no_separator(path, crate::path::split(path).len() - 1);
    lemma_last_name_end(path);
    assert(path =~= before_name(path) + last_name(path));
}

/// The last name ends the path, and follows a separator.
proof fn lemma_last_name_end(path: Seq<u8>)
    ensures
        last_name(path).len() <= path.len(),
        path.skip(path.len() - last_name(path).len()) == last_name(path),
        path.len() > last_name(path).len() ==> path[path.len() - last_name(path).len() - 1]
            == SEPARATOR,
    decreases path.len(),
{
    if path.len() == 0 {
        assert(last_name(path) =~= Seq::empty());
        assert(path.skip(0) =~= last_name(path));
    } else {
        let front = path.drop_last();
        lemma_last_name_end(front);
        crate::path::lemma_split_nonempty(front);
        if path.last() == SEPARATOR {
            assert(last_name(path) =~= Seq::empty());
            assert(path.skip(path.len() as int) =~= Seq::empty());
        } else {
            assert(last_name(path) == last_name(front).push(path.last()));
            assert(path.skip(path.len() - last_name(path).len()) =~= front.skip(
                front.len() - last_name(front).len(),
            ).push(path.last()));
        }
    }
}

/// Where the last dot of a name is, if it starts an extension.
fn extension_dot(name: &[u8]) -> (dot: Option<usize>)
    ensures
        match dot {
            Some(at) => at == last_dot(name@) && 0 < at < name@.len() && name@[at as int] == DOT,
            None => last_dot(name@) <= 0,
        },
{
    let mut i: usize = name.len();
    assert(name@.take(i as int) =~= name@);
    while i > 0
        invariant
            i <= name@.len(),
            last_dot(name@) == last_dot(name@.take(i as int)),
        decreases i,
    {
        assert(name@.take(i as int).drop_last() =~= name@.take(i - 1));
        assert(name@.take(i as int).last() == name@[i - 1]);
        i = i - 1;
        if name[i] == DOT {
            return if i > 0 {
                Some(i)
            } else {
                None
            };
        }
    }
    assert(last_dot(name@.take(0)) == -1);
    None
}

/// The directory that a path's last name is in.
pub fn parent_directory(path: &[u8]) -> (directory: Vec<u8>)
    ensures
        directory@ == directory_of(path@),
{
    let length: usize = last_name_len(path);
    let (front, _) = path.split_at(path.len() - length);
    assert(front@ =~= before_name(path@));
    if front.len() <= 1 {
        return copied(front);
    }
    let (directory, _) = front.split_at(front.len() - 1);
    assert(directory@ =~= before_name(path@).drop_last());
    copied(directory)
}

/// Whether `result` is what a search for a free path answers: the first of
/// `requested` and its numbered variants that is not taken, or why there is
/// none.
pub open spec fn is_first_free<F: Fn(&Vec<u8>) -> bool>(
    requested: Seq<u8>,
    reserved: Seq<Seq<u8>>,
    occupied: F,
    result: Result<Seq<u8>, ReceiveErrorView>,
) -> bool {
    match result {
        Ok(path) => exists|number: nat|
            {
                &&& number <= MAX_NUMBER
                &&& path == #[trigger] candidate(requested, number)
                &&& !reserved.contains(path)
                &&& answered(occupied, path, false)
                &&& number > 0 ==> valid_utf8(stem(last_name(requested)))
                &&& forall|lower: nat|
                    lower < number ==> refused(
                        occupied,
                        reserved,
                        #[trigger] candidate(requested, lower),
                    )
            },
        Err(error) => if valid_utf8(stem(last_name(requested))) {
            &&& error == ReceiveErrorView::UnsafeDestination(
                "could not find a free destination name for "@ + crate::text::lossy_text(requested),
            )
            &&& forall|number: nat|
                number <= MAX_NUMBER ==> refused(
                    occupied,
                    reserved,
                    #[trigger] candidate(requested, number),
                )
        } else {
            &&& error == ReceiveErrorView::UnsafeDestination("invalid destination filename"@)
            &&& refused(occupied, reserved, requested)
        },
    }
}

/// The view of a path that was found, or of why there is none.
pub open spec fn found(result: Result<Vec<u8>, ReceiveError>) -> Result<Seq<u8>, ReceiveErrorView> {
    match result {
        Ok(path) => Ok(path@),
        Err(error) => Err(error@),
    }
}

/// The path of a file in `root` that is not taken: the offered one, or the first
/// numbered variant of it. `occupied` says whether a path has an entry.
pub fn unique_destination<F: Fn(&Vec<u8>) -> bool>(
    root: &[u8],
    path: &SafeRelativePath,
    reserved: &PathSet,
    occupied: F,
) -> (result: Result<Vec<u8>, ReceiveError>)
    requires
        forall|asked: Vec<u8>| call_requires(occupied, (&asked,)),
    ensures
        is_first_free(crate::path::placed(root@, path@), reserved@, occupied, found(result)),
{
    let requested = path.beneath(root);
    first_free(requested.as_slice(), reserved, occupied)
}

/// The first of `requested` and its numbered variants that is not taken.
fn first_free<F: Fn(&Vec<u8>) -> bool>(
    requested: &[u8],
    reserved: &PathSet,
    occupied: F,
) -> (result: Result<Vec<u8>, ReceiveError>)
    requires
        forall|asked: Vec<u8>| call_requires(occupied, (&asked,)),
    ensures
        is_first_free(requested@, reserved@, occupied, found(result)),
{
    let whole = copied(requested);
    let present = occupied(&whole);
    assert(answered(occupied, requested@, present));
    assert(candidate(requested@, 0) == requested@);
    if !present && !reserved.contains(requested) {
        return Ok(whole);
    }
    let length: usize = last_name_len(requested);
    let (front, name) = requested.split_at(requested.len() - length);
    proof {
        assert(front@ =~= before_name(requested@));
        assert(name@ =~= last_name(requested@));
    }
    let dot = extension_dot(name);
    let stem_len: usize = match dot {
        Some(at) => at,
        None => name.len(),
    };
    let (stem_bytes, tail) = name.split_at(stem_len);
    proof {
        assert(stem_bytes@ =~= stem(name@));
        if let Some(at) = dot {
            assert(tail@.skip(1) =~= name@.skip(at + 1));
            assert(tail@ =~= seq![DOT] + name@.skip(at + 1));
        }
    }
    if !is_utf8(stem_bytes) {
        return Err(ReceiveError::UnsafeDestination("invalid destination filename".to_owned()));
    }
    let ending: &[u8] = match dot {
        Some(_) => {
            let (_, after_dot) = tail.split_at(1);
            assert(after_dot@ =~= tail@.skip(1));
            if is_utf8(after_dot) {
                tail
            } else {
                &[]
            }
        },
        None => &[],
    };
    let ghost ending_bytes = match extension(name@) {
        Some(bytes) if valid_utf8(bytes) => seq![DOT] + bytes,
        _ => Seq::empty(),
    };
    assert(ending@ =~= ending_bytes);
    let mut number: u64 = 1;
    while number <= MAX_NUMBER
        invariant
            1 <= number <= MAX_NUMBER + 1,
            front@ == before_name(requested@),
            name@ == last_name(requested@),
            stem_bytes@ == stem(name@),
            valid_utf8(stem(name@)),
            ending@ == ending_bytes,
            ending_bytes == (match extension(name@) {
                Some(bytes) if valid_utf8(bytes) => seq![DOT] + bytes,
                _ => Seq::empty(),
            }),
            forall|asked: Vec<u8>| call_requires(occupied, (&asked,)),
            forall|lower: nat|
                lower < number ==> refused(
                    occupied,
                    reserved@,
                    #[trigger] candidate(requested@, lower),
                ),
        decreases MAX_NUMBER + 1 - number,
    {
        let mut path: Vec<u8> = copied(front);
        append(&mut path, stem_bytes);
        path.push(32);
        path.push(40);
        push_decimal_bytes(&mut path, number);
        path.push(41);
        append(&mut path, ending);
        assert(path@ =~= candidate(requested@, number as nat));
        let present = occupied(&path);
        assert(answered(occupied, path@, present));
        if !present && !reserved.contains(path.as_slice()) {
            return Ok(path);
        }
        assert(refused(occupied, reserved@, candidate(requested@, number as nat)));
        number = number + 1;
    }
    Err(refusal("could not find a free destination name for ", requested))
}

/// A refused destination, named behind what is wrong with it.
fn refusal(reason: &str, path: &[u8]) -> (error: ReceiveError)
    ensures
        error@ == ReceiveErrorView::UnsafeDestination(reason@ + crate::text::lossy_text(path@)),
{
    let mut message: String = String::new();
    message.append(reason);
    let name = text_from_utf8_lossy(path);
    message.append(name.as_str());
    assert(message@ =~= reason@ + crate::text::lossy_text(path@));
    ReceiveError::UnsafeDestination(message)
}

/// The final paths of a transfer's files, in one directory.
#[derive(Debug)]
pub struct Destinations {
    reserved: PathSet,
}

impl View for Destinations {
    type V = Seq<Seq<u8>>;

    /// The paths that were given out.
    closed spec fn view(&self) -> Seq<Seq<u8>> {
        self.reserved@
    }
}

impl Destinations {
    /// No path was given out yet.
    pub fn new() -> (destinations: Destinations)
        ensures
            destinations@ == Seq::<Seq<u8>>::empty(),
    {
        Destinations { reserved: PathSet::new() }
    }

    /// Gives out a free path for a file. No path is given out twice.
    pub fn claim<F: Fn(&Vec<u8>) -> bool>(
        &mut self,
        root: &[u8],
        path: &SafeRelativePath,
        occupied: F,
    ) -> (result: Result<Vec<u8>, ReceiveError>)
        requires
            forall|asked: Vec<u8>| call_requires(occupied, (&asked,)),
        ensures
            is_first_free(
                crate::path::placed(root@, path@),
                old(self)@,
                occupied,
                found(result),
            ),
            match result {
                Ok(claimed) => {
                    &&& !old(self)@.contains(claimed@)
                    &&& forall|held: Seq<u8>| #[trigger]
                        final(self)@.contains(held) <==> old(self)@.contains(held) || held
                            == claimed@
                },
                Err(_) => final(self)@ == old(self)@,
            },
    {
        match unique_destination(root, path, &self.reserved, occupied) {
            Ok(claimed) => {
                let place = self.reserved.insert(claimed.as_slice());
                proof {
                    let before = old(self)@;
                    let n = place->Some_0 as int;
                    let after = before.insert(n, claimed@);
                    assert(after[n] == claimed@);
                    assert forall|held: Seq<u8>| #[trigger] after.contains(held) <==> before.contains(
                        held,
                    ) || held == claimed@ by {
                        if before.contains(held) {
                            let i = choose|i: int| 0 <= i < before.len() && before[i] == held;
                            if i < n {
                                assert(after[i] == held);
                            } else {
                                assert(after[i + 1] == held);
                            }
                        }
                        if after.contains(held) {
                            let i = choose|i: int| 0 <= i < after.len() && after[i] == held;
                            if i < n {
                                assert(before[i] == held);
                            } else if i > n {
                                assert(before[i - 1] == held);
                            }
                        }
                    }
                }
                Ok(claimed)
            },
            Err(error) => Err(error),
        }
    }
}

/// What a part of a path adds to the path before it.
pub open spec fn pushed(current: Seq<u8>, part: PathPartView) -> Seq<u8> {
    match part {
        PathPartView::Normal(name) => crate::path::placed(current, name),
        PathPartView::ParentDir => crate::path::placed(current, crate::path::double_dot()),
        PathPartView::CurDir => crate::path::placed(current, crate::path::single_dot()),
        PathPartView::RootDir => seq![SEPARATOR],
        PathPartView::Prefix => current,
    }
}

/// The directories on the way from `root` along `parts`, outermost first.
pub open spec fn chain(root: Seq<u8>, parts: Seq<PathPartView>) -> Seq<Seq<u8>>
    decreases parts.len(),
{
    if parts.len() == 0 {
        Seq::empty()
    } else {
        let outer = chain(root, parts.drop_last());
        outer.push(
            pushed(
                if outer.len() == 0 {
                    root
                } else {
                    outer.last()
                },
                parts.last(),
            ),
        )
    }
}

/// The directories from below `root` down to `directory`, outermost first;
/// none if `directory` is not in `root`.
pub open spec fn way_down(root: Seq<u8>, directory: Seq<u8>) -> Option<Seq<Seq<u8>>> {
    let above = crate::path::components(root);
    let whole = crate::path::components(directory);
    if above.is_prefix_of(whole) {
        Some(chain(root, whole.skip(above.len() as int)))
    } else {
        None
    }
}

/// Whether two parts are the same.
fn same_part(left: &PathPart, right: &PathPart) -> (same: bool)
    ensures
        same == (left@ == right@),
{
    match (left, right) {
        (PathPart::Prefix, PathPart::Prefix) => true,
        (PathPart::RootDir, PathPart::RootDir) => true,
        (PathPart::CurDir, PathPart::CurDir) => true,
        (PathPart::ParentDir, PathPart::ParentDir) => true,
        (PathPart::Normal(a), PathPart::Normal(b)) => same_bytes(a.as_slice(), b.as_slice()),
        _ => false,
    }
}

/// A path with one more part.
fn push_part(current: &[u8], part: &PathPart) -> (longer: Vec<u8>)
    ensures
        longer@ == pushed(current@, part@),
{
    match part {
        PathPart::Normal(name) => join_beneath(current, name.as_slice()),
        PathPart::ParentDir => {
            let name: [u8; 2] = [DOT, DOT];
            assert(name@ =~= crate::path::double_dot());
            join_beneath(current, &name)
        },
        PathPart::CurDir => {
            let name: [u8; 1] = [DOT];
            assert(name@ =~= crate::path::single_dot());
            join_beneath(current, &name)
        },
        PathPart::RootDir => {
            let name: [u8; 1] = [SEPARATOR];
            assert(name@ =~= seq![SEPARATOR]);
            copied(&name)
        },
        PathPart::Prefix => copied(current),
    }
}

/// The directories that have to be real ones before a file is put into
/// `directory`: all from below `root` down to it, outermost first.
pub fn directories_beneath(root: &[u8], directory: &[u8]) -> (result: Result<
    Vec<Vec<u8>>,
    ReceiveError,
>)
    ensures
        match (result, way_down(root@, directory@)) {
            (Ok(directories), Some(expected)) => crate::order::path_views(directories@) == expected,
            (Err(error), None) => error@ == ReceiveErrorView::UnsafeDestination(
                "destination escapes receive root: "@ + crate::text::lossy_text(directory@),
            ),
            _ => false,
        },
{
    let above = path_components(root);
    let whole = path_components(directory);
    let ghost above_view = crate::path::components(root@);
    let ghost whole_view = crate::path::components(directory@);
    if above.len() > whole.len() {
        return Err(refusal("destination escapes receive root: ", directory));
    }
    let mut i: usize = 0;
    while i < above.len()
        invariant
            i <= above@.len() <= whole@.len(),
            above_view == crate::path::part_views(above@),
            whole_view == crate::path::part_views(whole@),
            above_view == crate::path::components(root@),
            whole_view == crate::path::components(directory@),
            forall|j: int| 0 <= j < i ==> above_view[j] == whole_view[j],
        decreases above@.len() - i,
    {
        assert(above_view[i as int] == above@[i as int]@);
        assert(whole_view[i as int] == whole@[i as int]@);
        if !same_part(&above[i], &whole[i]) {
            return Err(refusal("destination escapes receive root: ", directory));
        }
        i = i + 1;
    }
    let ghost below = whole_view.skip(above_view.len() as int);
    assert(above_view.is_prefix_of(whole_view)) by {
        assert(above_view =~= whole_view.subrange(0, above_view.len() as int));
    }
    let mut current: Vec<u8> = copied(root);
    let mut directories: Vec<Vec<u8>> = Vec::new();
    proof {
        assert(crate::order::path_views(directories@) =~= Seq::empty());
        assert(below.take(0) =~= Seq::empty());
    }
    while i < whole.len()
        invariant
            above_view.len() <= i <= whole@.len(),
            whole_view == crate::path::part_views(whole@),
            below == whole_view.skip(above_view.len() as int),
            crate::order::path_views(directories@) == chain(
                root@,
                below.take(i - above_view.len()),
            ),
            current@ == (if directories@.len() == 0 {
                root@
            } else {
                directories@.last()@
            }),
        decreases whole@.len() - i,
    {
        let ghost n = i - above_view.len();
        let ghost held = directories@;
        proof {
            assert(below.take(n + 1).drop_last() =~= below.take(n));
            assert(below.take(n + 1).last() == whole@[i as int]@);
            if held.len() > 0 {
                assert(crate::order::path_views(held).last() == held.last()@);
            }
        }
        current = push_part(current.as_slice(), &whole[i]);
        directories.push(copied(current.as_slice()));
        proof {
            assert(crate::order::path_views(directories@) =~= crate::order::path_views(held).push(
                current@,
            ));
        }
        i = i + 1;
    }
    assert(below.take(i - above_view.len()) =~= below);
    Ok(directories)
}

/// Decides about the receive directory: only a real directory will do.
pub fn check_root(kind: EntryKind, root: &[u8]) -> (result: Result<(), ReceiveError>)
    ensures
        match result {
            Ok(_) => kind == EntryKind::Directory,
            Err(error) => kind != EntryKind::Directory && error@
                == ReceiveErrorView::UnsafeDestination(
                "receive root is not a real directory: "@ + crate::text::lossy_text(root@),
            ),
        },
{
    if kind != EntryKind::Directory {
        return Err(refusal("receive root is not a real directory: ", root));
    }
    Ok(())
}

/// Decides about a directory on the way to a file, by what was found in its
/// place: a real directory is kept, nothing means that one is to be made, and
/// anything else is refused.
pub fn check_component(found: Option<EntryKind>, path: &[u8]) -> (result: Result<
    bool,
    ReceiveError,
>)
    ensures
        match result {
            Ok(missing) => if missing {
                found is None
            } else {
                found == Some(EntryKind::Directory)
            },
            Err(error) => found is Some && found != Some(EntryKind::Directory) && error@
                == ReceiveErrorView::UnsafeDestination(
                "destination component is not a real directory: "@ + crate::text::lossy_text(path@),
            ),
        },
{
    match found {
        None => Ok(true),
        Some(EntryKind::Directory) => Ok(false),
        Some(_) => Err(refusal("destination component is not a real directory: ", path)),
    }
}

/// Decides about a directory that was just made.
pub fn check_created(kind: EntryKind, path: &[u8]) -> (result: Result<(), ReceiveError>)
    ensures
        match result {
            Ok(_) => kind == EntryKind::Directory,
            Err(error) => kind != EntryKind::Directory && error@
                == ReceiveErrorView::UnsafeDestination(
                "created destination component is unsafe: "@ + crate::text::lossy_text(path@),
            ),
        },
{
    if kind != EntryKind::Directory {
        return Err(refusal("created destination component is unsafe: ", path));
    }
    Ok(())
}

/// Decides about what is in the place of a partial file: only a regular file
/// will do.
pub fn check_partial(kind: EntryKind, path: &[u8]) -> (result: Result<(), ReceiveError>)
    ensures
        match result {
            Ok(_) => kind == EntryKind::File,
            Err(error) => kind != EntryKind::File && error@ == ReceiveErrorView::UnsafeDestination(
                "partial path is not a regular file: "@ + crate::text::lossy_text(path@),
            ),
        },
{
    if kind != EntryKind::File {
        return Err(refusal("partial path is not a regular file: ", path));
    }
    Ok(())
}

/// The directory of the partial files.
pub open spec fn partial_directory(root: Seq<u8>) -> Seq<u8> {
    crate::path::placed(root, encode_utf8(".sdft-partials"@))
}

/// The directory of the partial files.
pub fn partial_root(root: &[u8]) -> (directory: Vec<u8>)
    ensures
        directory@ == partial_directory(root@),
{
    join_beneath(root, ".sdft-partials".as_bytes())
}

/// Whether a path leads into the directory of the partial files.
pub open spec fn in_partials(path: Seq<u8>) -> bool {
    let names = crate::path::split(path);
    names.len() > 1 && names[0] == encode_utf8(".sdft-partials"@)
}

/// The path of the first file that was offered into the directory of the partial
/// files.
pub open spec fn first_in_partials(files: Seq<FileOfferView>) -> Option<Seq<u8>>
    decreases files.len(),
{
    if files.len() == 0 {
        None
    } else {
        match first_in_partials(files.drop_last()) {
            Some(path) => Some(path),
            None => if in_partials(files.last().path) {
                Some(files.last().path)
            } else {
                None
            },
        }
    }
}

/// No file was offered into the directory of the partial files when none is the
/// first.
pub proof fn lemma_none_in_partials(files: Seq<FileOfferView>)
    ensures
        first_in_partials(files) is None <==> forall|i: int|
            0 <= i < files.len() ==> !in_partials((#[trigger] files[i]).path),
    decreases files.len(),
{
    if files.len() > 0 {
        let front = files.drop_last();
        lemma_none_in_partials(front);
        if first_in_partials(files) is None {
            assert forall|i: int| 0 <= i < files.len() implies !in_partials(
                (#[trigger] files[i]).path,
            ) by {
                if i < front.len() {
                    assert(front[i] == files[i]);
                }
            }
        } else {
            if first_in_partials(front) is Some {
                let i = choose|i: int|
                    0 <= i < front.len() && in_partials((#[trigger] front[i]).path);
                assert(in_partials(files[i].path));
            } else {
                assert(in_partials(files[files.len() - 1].path));
            }
        }
    }
}

/// The first files decide, whatever follows them.
proof fn lemma_first_in_partials(files: Seq<FileOfferView>, n: int)
    requires
        0 <= n <= files.len(),
        first_in_partials(files.take(n)) is Some,
    ensures
        first_in_partials(files) == first_in_partials(files.take(n)),
    decreases files.len(),
{
    if n == files.len() {
        assert(files.take(n) =~= files);
    } else {
        assert(files.drop_last().take(n) =~= files.take(n));
        lemma_first_in_partials(files.drop_last(), n);
    }
}

/// Whether a path leads into the directory of the partial files.
fn leads_into_partials(path: &SafeRelativePath) -> (found: bool)
    ensures
        found == in_partials(path@),
{
    let text = path.as_path();
    let name = ".sdft-partials".as_bytes();
    let ghost names = crate::path::split(text@);
    proof {
        lemma_partials_name();
        crate::path::lemma_first_name(text@);
    }
    if text.len() <= name.len() {
        return false;
    }
    let (front, rest) = text.split_at(name.len());
    let found = same_bytes(front, name) && rest[0] == SEPARATOR;
    proof {
        if found {
            let end = rest@.skip(1);
            assert(text@ =~= name@.push(SEPARATOR) + end);
            crate::path::lemma_split_concat(name@, end);
            crate::path::lemma_split_name(name@);
            crate::path::lemma_split_nonempty(end);
        } else if in_partials(text@) {
            assert(front@ =~= names[0]);
        }
    }
    found
}

/// Refuses files that were offered into the directory of the partial files: only
/// the receiver puts files there.
pub fn check_offered(files: &Vec<FileOffer>) -> (result: Result<(), ReceiveError>)
    ensures
        match (result, first_in_partials(crate::protocol::file_views(files@))) {
            (Ok(_), None) => true,
            (Err(error), Some(path)) => error@ == ReceiveErrorView::UnsafeDestination(
                "destination is in the directory of partial files: "@ + crate::text::lossy_text(
                    path,
                ),
            ),
            _ => false,
        },
{
    let ghost views = crate::protocol::file_views(files@);
    let mut i: usize = 0;
    assert(views.take(0) =~= Seq::empty());
    while i < files.len()
        invariant
            i <= files@.len(),
            views == crate::protocol::file_views(files@),
            first_in_partials(views.take(i as int)) is None,
        decreases files@.len() - i,
    {
        proof {
            assert(views.take(i + 1).drop_last() =~= views.take(i as int));
            assert(views.take(i + 1).last() == files@[i as int]@);
        }
        if leads_into_partials(&files[i].path) {
            proof {
                lemma_first_in_partials(views, i + 1);
            }
            return Err(
                refusal(
                    "destination is in the directory of partial files: ",
                    files[i].path.as_path(),
                ),
            );
        }
        i = i + 1;
    }
    assert(views.take(i as int) =~= views);
    Ok(())
}

/// What the name of a partial file is made of: the path as text, the size and
/// the hash.
pub open spec fn partial_key(file: FileOfferView) -> Seq<u8> {
    encode_utf8(crate::text::lossy_text(file.path)) + crate::bytes::be_bytes(file.size as nat, 8)
        + file.hash
}

/// The name of a partial file with a given digest.
pub open spec fn digest_name(digest: Seq<u8>) -> Seq<char> {
    crate::digest::lower_hex(digest) + ".part"@
}

/// The name of a file's partial file: a later transfer of the same file finds
/// it by that.
pub fn partial_name(file: &FileOffer) -> (name: String)
    ensures
        name@ == digest_name(crate::digest::blake3_digest(partial_key(file@))),
{
    let mut key: Vec<u8> = Vec::new();
    let text = text_from_utf8_lossy(file.path.as_path());
    append(&mut key, text.as_str().as_bytes());
    push_be(&mut key, file.size as u128, 8);
    append(&mut key, &file.hash);
    assert(key@ =~= partial_key(file@));
    partial_file_name(&digest_of(key.as_slice()))
}

/// The name of a partial file with a given digest.
pub fn partial_file_name(digest: &[u8; 32]) -> (name: String)
    ensures
        name@ == digest_name(digest@),
{
    let mut name = digest_hex(digest);
    name.append(".part");
    name
}

/// The path of a file's partial file.
pub open spec fn partial_place(root: Seq<u8>, file: FileOfferView) -> Seq<u8> {
    crate::path::placed(
        partial_directory(root),
        encode_utf8(digest_name(crate::digest::blake3_digest(partial_key(file)))),
    )
}

/// The path of the mark that a file's partial file is wrong.
pub open spec fn failed_place(root: Seq<u8>, file: FileOfferView) -> Seq<u8> {
    partial_place(root, file) + encode_utf8(".failed"@)
}

/// The path of a file's partial file.
pub fn partial_path(root: &[u8], file: &FileOffer) -> (path: Vec<u8>)
    ensures
        path@ == partial_place(root@, file@),
{
    let directory = partial_root(root);
    let name = partial_name(file);
    join_beneath(directory.as_slice(), name.as_str().as_bytes())
}

/// The path of the mark that a file's partial file is wrong: it stands beside the
/// partial file from when its bytes did not have the offered digest until the
/// file starts again from nothing.
pub fn failed_path(root: &[u8], file: &FileOffer) -> (path: Vec<u8>)
    ensures
        path@ == failed_place(root@, file@),
{
    let mut path = partial_path(root, file);
    append(&mut path, ".failed".as_bytes());
    path
}

/// A name behind a directory is one more component.
proof fn lemma_components_name(front: Seq<u8>, name: Seq<u8>)
    requires
        front.len() > 0 ==> front.last() == SEPARATOR,
        crate::path::is_plain(name),
    ensures
        crate::path::components(front + name) == crate::path::components(front).push(
            PathPartView::Normal(name),
        ),
{
    crate::path::lemma_split_name(name);
    assert(crate::path::split(name) =~= seq![name]);
    assert(crate::path::is_names(name));
    crate::path::law_placed_stays_beneath(front, name);
    assert(crate::path::components(front + name) =~= crate::path::components(front).push(
        PathPartView::Normal(name),
    ));
}

/// A separator at the end adds no component.
proof fn lemma_components_trailing(directory: Seq<u8>)
    requires
        directory.len() > 0,
    ensures
        crate::path::components(directory.push(SEPARATOR)) == crate::path::components(directory),
{
    let nothing = Seq::<u8>::empty();
    let longer = directory.push(SEPARATOR);
    crate::path::lemma_split_concat(directory, nothing);
    assert(directory.push(SEPARATOR) + nothing =~= longer);
    let pieces = crate::path::split(directory);
    assert(crate::path::split(nothing) =~= seq![nothing]);
    assert(crate::path::split(longer).drop_last() =~= pieces);
    assert(crate::path::piece_parts(crate::path::split(longer)) =~= crate::path::piece_parts(
        pieces,
    ));
    assert(crate::path::leading_part(longer) =~= crate::path::leading_part(directory));
}

/// Where a file is requested ends in a plain name.
proof fn lemma_requested_name(root: Seq<u8>, path: Seq<u8>)
    requires
        crate::path::is_safe(path),
    ensures
        crate::path::is_plain(last_name(crate::path::placed(root, path))),
{
    let whole = crate::path::placed(root, path);
    let pieces = crate::path::split(path);
    crate::path::lemma_split_nonempty(path);
    assert(crate::path::is_plain(pieces[pieces.len() - 1]));
    if root.len() == 0 {
        assert(whole =~= path);
    } else {
        let base = if root.last() == SEPARATOR {
            root.drop_last()
        } else {
            root
        };
        assert(whole =~= base.push(SEPARATOR) + path);
        crate::path::lemma_split_concat(base, path);
    }
}

/// The directory of a requested file is found by cutting off its last name.
pub proof fn law_parent_directory(root: Seq<u8>, path: Seq<u8>)
    requires
        crate::path::is_safe(path),
    ensures
        crate::path::components(directory_of(crate::path::placed(root, path)))
            == crate::path::components(crate::path::placed(root, path)).drop_last(),
{
    let whole = crate::path::placed(root, path);
    lemma_requested_name(root, path);
    lemma_last_name(whole);
    let front = before_name(whole);
    lemma_components_name(front, last_name(whole));
    assert(crate::path::components(whole).drop_last() =~= crate::path::components(front));
    if front.len() > 1 {
        assert(front =~= front.drop_last().push(SEPARATOR));
        lemma_components_trailing(front.drop_last());
    }
}

/// On the way along plain names every directory lies one name below the one
/// before it.
proof fn lemma_chain_components(root: Seq<u8>, parts: Seq<PathPartView>)
    requires
        forall|i: int|
            0 <= i < parts.len() ==> ((#[trigger] parts[i]) matches PathPartView::Normal(name)
                && crate::path::is_plain(name)),
    ensures
        chain(root, parts).len() == parts.len(),
        forall|i: int|
            0 <= i < parts.len() ==> crate::path::components(#[trigger] chain(root, parts)[i])
                == crate::path::components(root) + parts.take(i + 1),
    decreases parts.len(),
{
    if parts.len() > 0 {
        let outer_parts = parts.drop_last();
        let outer = chain(root, outer_parts);
        assert forall|i: int| 0 <= i < outer_parts.len() implies ((
        #[trigger] outer_parts[i]) matches PathPartView::Normal(name)
            && crate::path::is_plain(name)) by {
            assert(outer_parts[i] == parts[i]);
        }
        lemma_chain_components(root, outer_parts);
        let n = parts.len() - 1;
        assert(parts[n] is Normal);
        let name = parts[n]->Normal_0;
        let above = if n == 0 {
            root
        } else {
            outer.last()
        };
        crate::path::lemma_split_name(name);
        assert(crate::path::split(name) =~= seq![name]);
        assert(crate::path::is_names(name));
        crate::path::law_placed_stays_beneath(above, name);
        assert(crate::path::components(above) =~= crate::path::components(root) + parts.take(n)) by {
            if n > 0 {
                assert(outer_parts.take(n) =~= parts.take(n));
            } else {
                assert(parts.take(0) =~= Seq::empty());
            }
        }
        assert forall|i: int| 0 <= i < parts.len() implies crate::path::components(
            #[trigger] chain(root, parts)[i],
        ) == crate::path::components(root) + parts.take(i + 1) by {
            if i < n {
                assert(chain(root, parts)[i] == outer[i]);
                assert(outer_parts.take(i + 1) =~= parts.take(i + 1));
            } else {
                assert(crate::path::components(chain(root, parts)[i]) =~= crate::path::components(
                    root,
                ) + parts.take(i + 1));
            }
        }
    }
}

/// For a requested file the way down exists, and every directory on it lies
/// beneath the root: it has the root's components and then some of the file's
/// own names.
pub proof fn law_directories_stay_beneath(root: Seq<u8>, path: Seq<u8>)
    requires
        crate::path::is_safe(path),
    ensures
        match way_down(root, directory_of(crate::path::placed(root, path))) {
            Some(directories) => {
                &&& directories.len() == crate::path::split(path).len() - 1
                &&& forall|i: int|
                    0 <= i < directories.len() ==> crate::path::components(
                        #[trigger] directories[i],
                    ) == crate::path::components(root) + Seq::new(
                        (i + 1) as nat,
                        |j: int| PathPartView::Normal(crate::path::split(path)[j]),
                    )
            },
            None => false,
        },
{
    let names = crate::path::split(path);
    let parts = Seq::new(names.len(), |j: int| PathPartView::Normal(names[j]));
    let above = crate::path::components(root);
    let directory = directory_of(crate::path::placed(root, path));
    crate::path::lemma_split_nonempty(path);
    crate::path::law_placed_stays_beneath(root, path);
    law_parent_directory(root, path);
    let inner = parts.drop_last();
    let whole = crate::path::components(directory);
    assert(whole =~= above + inner);
    assert(above.is_prefix_of(whole));
    assert(whole.skip(above.len() as int) =~= inner);
    assert forall|i: int| 0 <= i < inner.len() implies ((
    #[trigger] inner[i]) matches PathPartView::Normal(name) && crate::path::is_plain(name)) by {
        assert(crate::path::is_plain(names[i]));
    }
    lemma_chain_components(root, inner);
    let directories = chain(root, inner);
    assert forall|i: int| 0 <= i < directories.len() implies crate::path::components(
        #[trigger] directories[i],
    ) == above + Seq::new((i + 1) as nat, |j: int| PathPartView::Normal(names[j])) by {
        assert(inner.take(i + 1) =~= Seq::new(
            (i + 1) as nat,
            |j: int| PathPartView::Normal(names[j]),
        ));
    }
}

/// Decimal digits are no separators.
proof fn lemma_decimal_bytes(value: nat)
    ensures
        decimal_bytes(value).len() > 0,
        forall|i: int|
            0 <= i < decimal_bytes(value).len() ==> 48 <= #[trigger] decimal_bytes(value)[i] <= 57,
    decreases value,
{
    if value >= 10 {
        lemma_decimal_bytes(value / 10);
    }
}

/// Different numbers have different digits.
proof fn lemma_decimal_bytes_injective(left: nat, right: nat)
    requires
        decimal_bytes(left) == decimal_bytes(right),
    ensures
        left == right,
    decreases left,
{
    lemma_decimal_bytes(left / 10);
    lemma_decimal_bytes(right / 10);
    if left < 10 || right < 10 {
        if left >= 10 {
            assert(decimal_bytes(left).len() == decimal_bytes(left / 10).len() + 1);
        }
        if right >= 10 {
            assert(decimal_bytes(right).len() == decimal_bytes(right / 10).len() + 1);
        }
        assert(left < 10 && right < 10);
        assert(decimal_bytes(left)[0] == 48 + left);
        assert(decimal_bytes(right)[0] == 48 + right);
    } else {
        assert(decimal_bytes(left).last() == 48 + left % 10);
        assert(decimal_bytes(right).last() == 48 + right % 10);
        assert(decimal_bytes(left).drop_last() =~= decimal_bytes(left / 10));
        assert(decimal_bytes(right).drop_last() =~= decimal_bytes(right / 10));
        lemma_decimal_bytes_injective(left / 10, right / 10);
    }
}

/// The last dot is in the name.
proof fn lemma_last_dot(name: Seq<u8>)
    ensures
        -1 <= last_dot(name) < name.len(),
        last_dot(name) >= 0 ==> name[last_dot(name)] == DOT,
    decreases name.len(),
{
    if name.len() > 0 {
        lemma_last_dot(name.drop_last());
    }
}

/// A numbered name is a plain name.
proof fn lemma_numbered_plain(name: Seq<u8>, number: nat)
    requires
        crate::path::is_plain(name),
    ensures
        crate::path::is_plain(numbered_name(name, number)),
{
    let made = numbered_name(name, number);
    let digits = decimal_bytes(number);
    let start = stem(name).len() as int;
    lemma_decimal_bytes(number);
    lemma_last_dot(name);
    assert(made[start] == 32);
    assert forall|i: int| 0 <= i < made.len() implies made[i] != SEPARATOR && made[i] != 0 by {
        if i < start {
            assert(made[i] == name[i]);
            assert(name.contains(name[i]));
        } else if start + 2 <= i < start + 2 + digits.len() {
            assert(made[i] == digits[i - start - 2]);
        } else if i > start + 3 + digits.len() {
            let at = last_dot(name) + 1 + (i - start - 4 - digits.len());
            assert(made[i] == name[at]);
            assert(name.contains(name[at]));
        }
    }
}

/// Whatever variant of a requested path is taken, the file stays in the
/// directory that it was requested in.
pub proof fn law_candidate_stays(root: Seq<u8>, path: Seq<u8>, number: nat)
    requires
        crate::path::is_safe(path),
    ensures
        crate::path::is_plain(last_name(candidate(crate::path::placed(root, path), number))),
        crate::path::components(candidate(crate::path::placed(root, path), number))
            == crate::path::components(crate::path::placed(root, path)).drop_last().push(
            PathPartView::Normal(last_name(candidate(crate::path::placed(root, path), number))),
        ),
{
    let requested = crate::path::placed(root, path);
    lemma_requested_name(root, path);
    lemma_last_name(requested);
    let front = before_name(requested);
    lemma_components_name(front, last_name(requested));
    assert(crate::path::components(requested).drop_last() =~= crate::path::components(front));
    if number > 0 {
        let name = numbered_name(last_name(requested), number);
        lemma_numbered_plain(last_name(requested), number);
        lemma_components_name(front, name);
        lemma_last_name_is(front + name, front.len() as int);
        assert((front + name).skip(front.len() as int) =~= name);
    }
}

/// Whether text is made of lower-case letters, digits, dots and hyphens.
spec fn is_simple(text: Seq<char>) -> bool {
    forall|i: int|
        0 <= i < text.len() ==> {
            ||| #[trigger] text[i] == '.'
            ||| text[i] == '-'
            ||| '0' <= text[i] <= '9'
            ||| 'a' <= text[i] <= 'z'
        }
}

/// Hexadecimal digits are letters and digits.
proof fn lemma_hex_simple(bytes: Seq<u8>)
    ensures
        is_simple(crate::digest::lower_hex(bytes)),
    decreases bytes.len(),
{
    if bytes.len() > 0 {
        lemma_hex_simple(bytes.drop_last());
        let front = crate::digest::lower_hex(bytes.drop_last());
        let text = crate::digest::lower_hex(bytes);
        assert forall|i: int| 0 <= i < text.len() implies ({
            ||| #[trigger] text[i] == '.'
            ||| text[i] == '-'
            ||| '0' <= text[i] <= '9'
            ||| 'a' <= text[i] <= 'z'
        }) by {
            if i < front.len() {
                assert(text[i] == front[i]);
            }
        }
    }
}

/// Simple text of some length is a plain name.
proof fn lemma_simple_plain(text: Seq<char>)
    requires
        is_simple(text),
        text.len() > 2,
    ensures
        crate::path::is_plain(encode_utf8(text)),
{
    let name = encode_utf8(text);
    is_ascii_chars_encode_utf8(text);
    assert forall|i: int| 0 <= i < name.len() implies name[i] != SEPARATOR && name[i] != 0 by {
        assert(text[i] as u8 == name[i]);
    }
}

/// The directory of the partial files has a plain name.
proof fn lemma_partials_name()
    ensures
        crate::path::is_plain(encode_utf8(".sdft-partials"@)),
{
    reveal_strlit(".sdft-partials");
    lemma_simple_plain(".sdft-partials"@);
}

/// The directory of the partial files lies one name below the root.
proof fn lemma_partial_directory(root: Seq<u8>)
    ensures
        crate::path::components(partial_directory(root)) == crate::path::components(root).push(
            PathPartView::Normal(encode_utf8(".sdft-partials"@)),
        ),
        partial_directory(root).len() > 0,
{
    let name = encode_utf8(".sdft-partials"@);
    lemma_partials_name();
    crate::path::lemma_split_name(name);
    assert(crate::path::is_names(name));
    crate::path::law_placed_stays_beneath(root, name);
    assert(crate::path::components(partial_directory(root)) =~= crate::path::components(root).push(
        PathPartView::Normal(name),
    ));
}

/// Partial files and their marks have plain names.
proof fn lemma_partial_names(file: FileOfferView)
    ensures
        crate::path::is_plain(
            encode_utf8(digest_name(crate::digest::blake3_digest(partial_key(file)))),
        ),
        crate::path::is_plain(
            encode_utf8(digest_name(crate::digest::blake3_digest(partial_key(file))))
                + encode_utf8(".failed"@),
        ),
{
    let hex = crate::digest::lower_hex(crate::digest::blake3_digest(partial_key(file)));
    let name = hex + ".part"@;
    reveal_strlit(".part");
    reveal_strlit(".failed");
    lemma_hex_simple(crate::digest::blake3_digest(partial_key(file)));
    assert(is_simple(name));
    lemma_simple_plain(name);
    lemma_simple_plain(".failed"@);
    let first = encode_utf8(name);
    let second = encode_utf8(".failed"@);
    let mark = first + second;
    is_ascii_chars_encode_utf8(name);
    is_ascii_chars_encode_utf8(".failed"@);
    assert forall|i: int| 0 <= i < mark.len() implies mark[i] != SEPARATOR && mark[i] != 0 by {
        if i < first.len() {
            assert(mark[i] == first[i]);
            assert(first.contains(first[i]));
        } else {
            assert(mark[i] == second[i - first.len()]);
            assert(second.contains(second[i - first.len()]));
        }
    }
}

/// A path that was given out is free: no other file of the transfer has it, and
/// nothing stands there, as long as what stands somewhere is never denied.
pub proof fn law_claimed_is_free<F: Fn(&Vec<u8>) -> bool>(
    requested: Seq<u8>,
    reserved: Seq<Seq<u8>>,
    occupied: F,
    path: Seq<u8>,
    taken: Set<Seq<u8>>,
)
    requires
        is_first_free(requested, reserved, occupied, Ok(path)),
        forall|asked: Seq<u8>| #[trigger]
            taken.contains(asked) ==> !answered(occupied, asked, false),
    ensures
        !reserved.contains(path),
        !taken.contains(path),
{
}

/// No variant of a requested path is the path of a partial file or of its mark,
/// unless the path was requested in the directory of the partial files.
pub proof fn law_candidate_is_no_partial(
    root: Seq<u8>,
    path: Seq<u8>,
    number: nat,
    file: FileOfferView,
)
    requires
        crate::path::is_safe(path),
        !in_partials(path),
    ensures
        candidate(crate::path::placed(root, path), number) != partial_place(root, file),
        candidate(crate::path::placed(root, path), number) != failed_place(root, file),
{
    let made = candidate(crate::path::placed(root, path), number);
    let names = crate::path::split(path);
    let above = crate::path::components(root);
    let directory = encode_utf8(".sdft-partials"@);
    law_candidate_stays(root, path, number);
    crate::path::law_placed_stays_beneath(root, path);
    crate::path::lemma_split_nonempty(path);
    lemma_partial_directory(root);
    let name = encode_utf8(digest_name(crate::digest::blake3_digest(partial_key(file))));
    let mark = name + encode_utf8(".failed"@);
    lemma_partial_names(file);
    crate::path::lemma_split_name(name);
    crate::path::lemma_split_name(mark);
    assert(crate::path::is_names(name));
    assert(crate::path::is_names(mark));
    crate::path::law_placed_stays_beneath(partial_directory(root), name);
    crate::path::law_placed_stays_beneath(partial_directory(root), mark);
    assert(crate::path::placed(partial_directory(root), mark) =~= failed_place(root, file));
    let parts = crate::path::components(made);
    assert(parts.len() == above.len() + names.len());
    if names.len() > 1 {
        assert(parts[above.len() as int] == PathPartView::Normal(names[0]));
    }
}

/// No two variants of a requested path are the same: a file that finds its name
/// taken is kept beside the one that has it.
pub proof fn law_candidates_differ(requested: Seq<u8>, left: nat, right: nat)
    requires
        left < right,
    ensures
        candidate(requested, left) != candidate(requested, right),
{
    let front = before_name(requested);
    let name = last_name(requested);
    lemma_last_name(requested);
    lemma_last_dot(name);
    lemma_decimal_bytes(left);
    lemma_decimal_bytes(right);
    let a = candidate(requested, left);
    let b = candidate(requested, right);
    let start = (front.len() + stem(name).len()) as int;
    let digits = decimal_bytes(right);
    if a == b {
        assert(b[start] == 32);
        if left == 0 {
            assert(a == front + name);
            if extension(name) is Some {
                assert(a[start] == name[last_dot(name)]);
            } else {
                assert(a.len() == start);
            }
        } else {
            let others = decimal_bytes(left);
            assert(others.len() == digits.len());
            assert(a.subrange(start + 2, start + 2 + others.len()) =~= others);
            assert(b.subrange(start + 2, start + 2 + digits.len()) =~= digits);
            lemma_decimal_bytes_injective(left, right);
        }
    }
}

/// The bytes of a number in decimal are those of its text.
pub proof fn law_decimal_bytes_are_text(value: nat)
    ensures
        decimal_bytes(value) == encode_utf8(crate::text::decimal(value)),
    decreases value,
{
    let text = crate::text::decimal(value);
    lemma_decimal_same(value);
    crate::text::law_decimal_spells_number(value);
    is_ascii_chars_encode_utf8(text);
    assert(decimal_bytes(value) =~= encode_utf8(text));
}

/// The digits of a number are the same as bytes and as text.
proof fn lemma_decimal_same(value: nat)
    ensures
        decimal_bytes(value).len() == crate::text::decimal(value).len(),
        forall|i: int|
            0 <= i < decimal_bytes(value).len() ==> #[trigger] decimal_bytes(value)[i]
                == crate::text::decimal(value)[i] as u8,
    decreases value,
{
    if value >= 10 {
        lemma_decimal_same(value / 10);
    }
}

/// The last dot is the one with none behind it.
proof fn lemma_last_dot_is(front: Seq<u8>, ending: Seq<u8>)
    requires
        !ending.contains(DOT),
    ensures
        last_dot(front.push(DOT) + ending) == front.len(),
    decreases ending.len(),
{
    let name = front.push(DOT) + ending;
    if ending.len() == 0 {
        assert(name =~= front.push(DOT));
    } else {
        let shorter = ending.drop_last();
        assert(!shorter.contains(DOT)) by {
            if shorter.contains(DOT) {
                let k = choose|k: int| 0 <= k < shorter.len() && shorter[k] == DOT;
                assert(ending[k] == DOT);
            }
        }
        lemma_last_dot_is(front, shorter);
        assert(name.drop_last() =~= front.push(DOT) + shorter);
        assert(ending[ending.len() - 1] != DOT);
    }
}

/// A name without a dot has no last dot.
proof fn lemma_no_dot(name: Seq<u8>)
    requires
        !name.contains(DOT),
    ensures
        last_dot(name) == -1,
    decreases name.len(),
{
    if name.len() > 0 {
        let front = name.drop_last();
        assert(name[name.len() - 1] != DOT);
        assert(!front.contains(DOT)) by {
            if front.contains(DOT) {
                let k = choose|k: int| 0 <= k < front.len() && front[k] == DOT;
                assert(name[k] == DOT);
            }
        }
        lemma_no_dot(front);
    }
}

/// A received file whose name is taken keeps its extension: the variant `n` of
/// `stem.ending` is `stem (n).ending`, however long the extension is. An extension
/// that is not UTF-8 is left out.
pub proof fn law_numbered_keeps_extension(
    front: Seq<u8>,
    body: Seq<u8>,
    ending: Seq<u8>,
    number: nat,
)
    requires
        front.len() > 0 ==> front.last() == 47,
        body.len() > 0,
        !body.contains(47u8),
        !ending.contains(46u8),
        !ending.contains(47u8),
        number >= 1,
    ensures
        candidate(front + body + seq![46u8] + ending, number) == front + body + encode_utf8(" ("@)
            + encode_utf8(crate::text::decimal(number)) + encode_utf8(")"@) + (if valid_utf8(
            ending,
        ) {
            seq![46u8] + ending
        } else {
            Seq::empty()
        }),
        stem(body + seq![46u8] + ending) == body,
        extension(body + seq![46u8] + ending) == Some(ending),
{
    let name = body + seq![46u8] + ending;
    let requested = front + body + seq![46u8] + ending;
    assert(name =~= body.push(DOT) + ending);
    assert(requested =~= front + name);
    lemma_last_dot_is(body, ending);
    assert(name.take(body.len() as int) =~= body);
    assert(name.skip(body.len() as int + 1) =~= ending);
    assert(!name.contains(SEPARATOR)) by {
        if name.contains(SEPARATOR) {
            let k = choose|k: int| 0 <= k < name.len() && name[k] == SEPARATOR;
            if k < body.len() {
                assert(body[k] == SEPARATOR);
            } else if k > body.len() {
                assert(ending[k - body.len() - 1] == SEPARATOR);
            }
        }
    }
    lemma_marked(front, name, number);
    assert(candidate(requested, number) =~= front + body + encode_utf8(" ("@) + encode_utf8(
        crate::text::decimal(number),
    ) + encode_utf8(")"@) + (if valid_utf8(ending) {
        seq![46u8] + ending
    } else {
        Seq::empty()
    }));
}

/// A received file without an extension, whose name is taken, gets the number
/// behind its name; a dot at the start of a name starts no extension.
pub proof fn law_numbered_without_extension(front: Seq<u8>, name: Seq<u8>, number: nat)
    requires
        front.len() > 0 ==> front.last() == 47,
        name.len() > 0,
        !name.contains(47u8),
        !name.drop_first().contains(46u8),
        number >= 1,
    ensures
        candidate(front + name, number) == front + name + encode_utf8(" ("@) + encode_utf8(
            crate::text::decimal(number),
        ) + encode_utf8(")"@),
        stem(name) == name,
        extension(name) is None,
{
    let rest = name.drop_first();
    if name[0] == DOT {
        lemma_last_dot_is(Seq::empty(), rest);
        assert(Seq::<u8>::empty().push(DOT) + rest =~= name);
    } else {
        assert(!name.contains(DOT)) by {
            if name.contains(DOT) {
                let k = choose|k: int| 0 <= k < name.len() && name[k] == DOT;
                assert(rest[k - 1] == DOT);
            }
        }
        lemma_no_dot(name);
    }
    lemma_marked(front, name, number);
    assert(candidate(front + name, number) =~= front + name + encode_utf8(" ("@) + encode_utf8(
        crate::text::decimal(number),
    ) + encode_utf8(")"@));
}

/// A numbered variant differs from the requested path in its last name alone, and
/// the number stands in brackets.
proof fn lemma_marked(front: Seq<u8>, name: Seq<u8>, number: nat)
    requires
        front.len() > 0 ==> front.last() == SEPARATOR,
        !name.contains(SEPARATOR),
        number >= 1,
    ensures
        candidate(front + name, number) == front + numbered_name(name, number),
        encode_utf8(" ("@) == seq![32u8, 40u8],
        encode_utf8(")"@) == seq![41u8],
        decimal_bytes(number) == encode_utf8(crate::text::decimal(number)),
{
    let requested = front + name;
    assert(requested.skip(front.len() as int) =~= name);
    lemma_last_name_is(requested, front.len() as int);
    assert(before_name(requested) =~= front);
    law_decimal_bytes_are_text(number);
    reveal_strlit(" (");
    reveal_strlit(")");
    is_ascii_chars_encode_utf8(" ("@);
    is_ascii_chars_encode_utf8(")"@);
    assert(encode_utf8(" ("@)[0] == " ("@[0] as u8);
    assert(encode_utf8(" ("@)[1] == " ("@[1] as u8);
    assert(encode_utf8(")"@)[0] == ")"@[0] as u8);
    assert(encode_utf8(" ("@) =~= seq![32u8, 40u8]);
    assert(encode_utf8(")"@) =~= seq![41u8]);
}

/// A free path is found whenever one of the first ten thousand variants is free:
/// the requested path itself if it is, and else the variant with the lowest
/// number. Only a name that is not UTF-8 before its extension gets no number.
pub proof fn law_free_path_is_found<F: Fn(&Vec<u8>) -> bool>(
    requested: Seq<u8>,
    reserved: Seq<Seq<u8>>,
    occupied: F,
    result: Result<Seq<u8>, ReceiveErrorView>,
    number: nat,
)
    requires
        is_first_free(requested, reserved, occupied, result),
        number <= 10_000,
        number > 0 ==> valid_utf8(stem(last_name(requested))),
        !reserved.contains(candidate(requested, number)),
        !answered(occupied, candidate(requested, number), true),
    ensures
        result is Ok,
        exists|lowest: nat|
            lowest <= number && result == Ok::<Seq<u8>, ReceiveErrorView>(
                #[trigger] candidate(requested, lowest),
            ),
        number == 0 ==> result == Ok::<Seq<u8>, ReceiveErrorView>(requested),
        forall|lower: nat|
            !reserved.contains(candidate(requested, lower)) && !answered(
                occupied,
                #[trigger] candidate(requested, lower),
                true,
            ) && lower < number ==> exists|lowest: nat|
                lowest <= lower && result == Ok::<Seq<u8>, ReceiveErrorView>(
                    #[trigger] candidate(requested, lowest),
                ),
{
    assert(!refused(occupied, reserved, candidate(requested, number)));
    assert(candidate(requested, 0) == requested);
    if result is Ok {
        let lowest = choose|lowest: nat|
            {
                &&& lowest <= MAX_NUMBER
                &&& result->Ok_0 == #[trigger] candidate(requested, lowest)
                &&& forall|lower: nat|
                    lower < lowest ==> refused(
                        occupied,
                        reserved,
                        #[trigger] candidate(requested, lower),
                    )
            };
        assert(lowest <= number);
        assert(result == Ok::<Seq<u8>, ReceiveErrorView>(candidate(requested, lowest)));
        assert forall|lower: nat|
            !reserved.contains(candidate(requested, lower)) && !answered(
                occupied,
                #[trigger] candidate(requested, lower),
                true,
            ) && lower < number implies exists|lowest: nat|
            lowest <= lower && result == Ok::<Seq<u8>, ReceiveErrorView>(
                #[trigger] candidate(requested, lowest),
            ) by {
            assert(!refused(occupied, reserved, candidate(requested, lower)));
            assert(lowest <= lower);
        }
    } else {
        assert(refused(occupied, reserved, candidate(requested, number)));
    }
}

/// The directory of a name placed in a directory is that directory.
pub proof fn law_parent_of_placed(root: Seq<u8>, name: Seq<u8>)
    requires
        !name.contains(47u8),
        root.len() > 0,
        root.last() != 47,
    ensures
        directory_of(crate::path::placed(root, name)) == root,
        last_name(crate::path::placed(root, name)) == name,
{
    let whole = crate::path::placed(root, name);
    let start = root.len() as int + 1;
    assert(whole.skip(start) =~= name);
    lemma_last_name_is(whole, start);
    assert(before_name(whole) =~= root.push(SEPARATOR));
    assert(before_name(whole).drop_last() =~= root);
}

/// A directory is reached from the root exactly when it has the root's components
/// and then some; one directory is named for each of those.
pub proof fn law_way_down_exists(root: Seq<u8>, directory: Seq<u8>)
    ensures
        ({
            let above = crate::path::components(root);
            let whole = crate::path::components(directory);
            let is_below = above.len() <= whole.len() && forall|i: int|
                0 <= i < above.len() ==> #[trigger] above[i] == whole[i];
            &&& way_down(root, directory) is Some <==> is_below
            &&& way_down(root, directory) matches Some(directories) ==> directories.len()
                == whole.len() - above.len()
        }),
{
    let above = crate::path::components(root);
    let whole = crate::path::components(directory);
    lemma_chain_len(root, whole.skip(above.len() as int));
    if above.is_prefix_of(whole) {
        assert forall|i: int| 0 <= i < above.len() implies #[trigger] above[i] == whole[i] by {
            assert(whole.subrange(0, above.len() as int)[i] == whole[i]);
        }
    } else if above.len() <= whole.len() && (forall|i: int|
        0 <= i < above.len() ==> #[trigger] above[i] == whole[i]) {
        assert(above =~= whole.subrange(0, above.len() as int));
    }
}

/// There is one directory for each part.
proof fn lemma_chain_len(root: Seq<u8>, parts: Seq<PathPartView>)
    ensures
        chain(root, parts).len() == parts.len(),
    decreases parts.len(),
{
    if parts.len() > 0 {
        lemma_chain_len(root, parts.drop_last());
    }
}

/// Each directory on the way down lies in the one before it, the first in the
/// root: it is that directory's path with one more part.
pub proof fn law_way_down_goes_down(root: Seq<u8>, parts: Seq<PathPartView>, i: int)
    requires
        0 <= i < parts.len(),
    ensures
        chain(root, parts).len() == parts.len(),
        ({
            let above = if i == 0 {
                root
            } else {
                chain(root, parts)[i - 1]
            };
            chain(root, parts)[i] == (match parts[i] {
                PathPartView::Normal(name) => crate::path::placed(above, name),
                PathPartView::ParentDir => crate::path::placed(above, seq![46u8, 46u8]),
                PathPartView::CurDir => crate::path::placed(above, seq![46u8]),
                PathPartView::RootDir => seq![47u8],
                PathPartView::Prefix => above,
            })
        }),
    decreases parts.len(),
{
    let front = parts.drop_last();
    lemma_chain_len(root, front);
    lemma_chain_len(root, parts);
    if i < front.len() {
        law_way_down_goes_down(root, front, i);
    }
}

/// What the name of a partial file is made of ends with the file's size and hash,
/// and starts with its path as text.
pub proof fn law_partial_key_holds_all(file: FileOfferView)
    requires
        file.hash.len() == 32,
    ensures
        ({
            let key = partial_key(file);
            let n = key.len() - 40;
            &&& n >= 0
            &&& key.take(n) == encode_utf8(crate::text::lossy_text(file.path))
            &&& crate::bytes::be_value(key.subrange(n, n + 8)) == file.size
            &&& key.skip(n + 8) == file.hash
        }),
{
    let key = partial_key(file);
    let n = key.len() - 40;
    crate::bytes::lemma_be_limits();
    crate::bytes::lemma_be_bytes_len(file.size as nat, 8);
    crate::bytes::lemma_be_round_trip(file.size as nat, 8);
    assert(key.take(n) =~= encode_utf8(crate::text::lossy_text(file.path)));
    assert(key.subrange(n, n + 8) =~= crate::bytes::be_bytes(file.size as nat, 8));
    assert(key.skip(n + 8) =~= file.hash);
}

/// Files that differ in size, hash or path text do not share what their partial
/// files are named by.
pub proof fn law_partial_keys_differ(left: FileOfferView, right: FileOfferView)
    requires
        left.hash.len() == 32,
        right.hash.len() == 32,
    ensures
        partial_key(left) == partial_key(right) <==> {
            &&& encode_utf8(crate::text::lossy_text(left.path)) == encode_utf8(
                crate::text::lossy_text(right.path),
            )
            &&& left.size == right.size
            &&& left.hash == right.hash
        },
{
    law_partial_key_holds_all(left);
    law_partial_key_holds_all(right);
}

/// A partial file lies in `.sdft-partials` below the root, under the digest of
/// what it is named by, in hexadecimal; its mark lies beside it.
pub proof fn law_partial_place(root: Seq<u8>, file: FileOfferView)
    ensures
        ({
            let name = encode_utf8(
                crate::digest::lower_hex(crate::digest::blake3_digest(partial_key(file)))
                    + ".part"@,
            );
            &&& crate::path::components(partial_place(root, file)) == crate::path::components(root)
                + seq![
                PathPartView::Normal(encode_utf8(".sdft-partials"@)),
                PathPartView::Normal(name),
            ]
            &&& crate::path::components(failed_place(root, file)) == crate::path::components(root)
                + seq![
                PathPartView::Normal(encode_utf8(".sdft-partials"@)),
                PathPartView::Normal(name + encode_utf8(".failed"@)),
            ]
            &&& failed_place(root, file) != partial_place(root, file)
        }),
{
    let directory = partial_directory(root);
    let name = encode_utf8(digest_name(crate::digest::blake3_digest(partial_key(file))));
    let mark = name + encode_utf8(".failed"@);
    lemma_partial_directory(root);
    lemma_partial_names(file);
    crate::path::law_placed_name(directory, name);
    crate::path::law_placed_name(directory, mark);
    assert(crate::path::placed(directory, mark) =~= failed_place(root, file));
    reveal_strlit(".failed");
    is_ascii_chars_encode_utf8(".failed"@);
    assert(failed_place(root, file).len() == partial_place(root, file).len() + 7);
    assert(crate::path::components(partial_place(root, file)) =~= crate::path::components(root)
        + seq![
        PathPartView::Normal(encode_utf8(".sdft-partials"@)),
        PathPartView::Normal(name),
    ]);
    assert(crate::path::components(failed_place(root, file)) =~= crate::path::components(root)
        + seq![
        PathPartView::Normal(encode_utf8(".sdft-partials"@)),
        PathPartView::Normal(mark),
    ]);
}

/// A transfer path leads into the directory of the partial files when it starts
/// with that directory's name and a separator.
pub proof fn law_in_partials_is_prefix(path: Seq<u8>)
    ensures
        in_partials(path) <==> encode_utf8(".sdft-partials"@).push(47u8).is_prefix_of(path),
{
    let name = encode_utf8(".sdft-partials"@);
    let start = name.push(47u8);
    let pieces = crate::path::split(path);
    lemma_partials_name();
    crate::path::lemma_split_name(name);
    if start.is_prefix_of(path) {
        let rest = path.skip(start.len() as int);
        assert(start =~= path.subrange(0, start.len() as int));
        assert(start + rest =~= path);
        crate::path::lemma_split_concat(name, rest);
        crate::path::lemma_split_nonempty(rest);
    }
    if in_partials(path) {
        crate::path::lemma_join_split(path);
        crate::path::lemma_join_longer(pieces);
        crate::path::lemma_join_starts(pieces);
        assert(start =~= path.subrange(0, start.len() as int));
    }
}

/// The file that an offer is refused for is the first that was offered into the
/// directory of the partial files, and there is one exactly when one was.
pub proof fn law_first_in_partials(files: Seq<FileOfferView>, i: int)
    requires
        0 <= i < files.len(),
        in_partials(files[i].path),
        forall|j: int| 0 <= j < i ==> !in_partials((#[trigger] files[j]).path),
    ensures
        first_in_partials(files) == Some(files[i].path),
{
    let front = files.take(i + 1);
    assert(front.drop_last() =~= files.take(i));
    lemma_none_in_partials(files.take(i));
    assert forall|j: int| 0 <= j < i implies !in_partials((#[trigger] files.take(i)[j]).path) by {
        assert(files.take(i)[j] == files[j]);
    }
    assert(front.last() == files[i]);
    lemma_first_in_partials(files, i + 1);
}

/// When every variant is taken, the search says so; when the requested path is
/// taken and its name is not UTF-8 before its extension, the name is refused.
pub proof fn law_no_free_path_is_refused<F: Fn(&Vec<u8>) -> bool>(
    requested: Seq<u8>,
    reserved: Seq<Seq<u8>>,
    occupied: F,
    result: Result<Seq<u8>, ReceiveErrorView>,
)
    requires
        is_first_free(requested, reserved, occupied, result),
        reserved.contains(requested) || !answered(occupied, requested, false),
    ensures
        !valid_utf8(stem(last_name(requested))) ==> result == Err::<Seq<u8>, ReceiveErrorView>(
            ReceiveErrorView::UnsafeDestination("invalid destination filename"@),
        ),
        valid_utf8(stem(last_name(requested))) && (forall|number: nat|
            number <= 10_000 ==> reserved.contains(#[trigger] candidate(requested, number))
                || !answered(occupied, candidate(requested, number), false)) ==> result == Err::<
            Seq<u8>,
            ReceiveErrorView,
        >(
            ReceiveErrorView::UnsafeDestination(
                "could not find a free destination name for "@ + crate::text::lossy_text(requested),
            ),
        ),
{
    assert(candidate(requested, 0) == requested);
}

} // verus!
