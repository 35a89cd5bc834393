//! The order of paths, and sets of paths.

use vstd::prelude::*;

use crate::bytes::copied;
use crate::path::SEPARATOR;

verus! {

/// Where a byte stands in the order of paths: a separator stands first.
pub open spec fn rank(byte: u8) -> int {
    if byte == SEPARATOR {
        0
    } else {
        byte + 1
    }
}

/// Whether one path stands before another: at the first byte in which they
/// differ, or where one ends, it ranks lower.
pub open spec fn before(left: Seq<u8>, right: Seq<u8>) -> bool
    decreases left.len(),
{
    if right.len() == 0 {
        false
    } else if left.len() == 0 {
        true
    } else if left[0] != right[0] {
        rank(left[0]) < rank(right[0])
    } else {
        before(left.drop_first(), right.drop_first())
    }
}

/// No path stands before itself.
pub proof fn law_before_irreflexive(path: Seq<u8>)
    ensures
        !before(path, path),
    decreases path.len(),
{
    if path.len() > 0 {
        law_before_irreflexive(path.drop_first());
    }
}

/// What stands before a path stands before all that the path stands before.
pub proof fn law_before_transitive(left: Seq<u8>, middle: Seq<u8>, right: Seq<u8>)
    requires
        before(left, middle),
        before(middle, right),
    ensures
        before(left, right),
    decreases left.len(),
{
    if left.len() > 0 && left[0] == middle[0] && middle[0] == right[0] {
        law_before_transitive(left.drop_first(), middle.drop_first(), right.drop_first());
    }
}

/// Of two different paths one stands before the other.
pub proof fn law_before_total(left: Seq<u8>, right: Seq<u8>)
    ensures
        before(left, right) || before(right, left) || left == right,
    decreases left.len(),
{
    if left.len() == 0 || right.len() == 0 {
        assert(left.len() == 0 && right.len() == 0 ==> left =~= right);
    } else if left[0] == right[0] {
        law_before_total(left.drop_first(), right.drop_first());
        if left.drop_first() == right.drop_first() {
            assert(left =~= seq![left[0]] + left.drop_first());
            assert(right =~= seq![right[0]] + right.drop_first());
        }
    }
}

/// Whether one name stands before another: by their bytes.
pub open spec fn name_before(left: Seq<u8>, right: Seq<u8>) -> bool
    decreases left.len(),
{
    if right.len() == 0 {
        false
    } else if left.len() == 0 {
        true
    } else if left[0] != right[0] {
        left[0] < right[0]
    } else {
        name_before(left.drop_first(), right.drop_first())
    }
}

/// Whether one list of names stands before another: at the first name in which
/// they differ, or where one ends, it stands before.
pub open spec fn names_before(left: Seq<Seq<u8>>, right: Seq<Seq<u8>>) -> bool
    decreases left.len(),
{
    if right.len() == 0 {
        false
    } else if left.len() == 0 {
        true
    } else if left[0] != right[0] {
        name_before(left[0], right[0])
    } else {
        names_before(left.drop_first(), right.drop_first())
    }
}

/// A separator at the start of a path stands behind an empty piece; any other
/// byte starts the first piece.
proof fn lemma_split_first(text: Seq<u8>)
    requires
        text.len() > 0,
    ensures
        text[0] == SEPARATOR ==> crate::path::split(text) == seq![Seq::<u8>::empty()]
            + crate::path::split(text.drop_first()),
        text[0] != SEPARATOR ==> crate::path::split(text) == crate::path::split(
            text.drop_first(),
        ).update(0, seq![text[0]] + crate::path::split(text.drop_first())[0]),
    decreases text.len(),
{
    let rest = text.drop_first();
    crate::path::lemma_split_nonempty(rest);
    if text.len() == 1 {
        assert(text.drop_last() =~= Seq::empty());
        assert(rest =~= Seq::empty());
        reveal_with_fuel(crate::path::split, 2);
        if text[0] != SEPARATOR {
            assert(Seq::<u8>::empty().push(text[0]) =~= seq![text[0]] + Seq::<u8>::empty());
            assert(crate::path::split(text) =~= crate::path::split(rest).update(
                0,
                seq![text[0]] + crate::path::split(rest)[0],
            ));
        } else {
            assert(crate::path::split(text) =~= seq![Seq::<u8>::empty()]
                + crate::path::split(rest));
        }
    } else {
        let front = text.drop_last();
        let inner = front.drop_first();
        lemma_split_first(front);
        crate::path::lemma_split_nonempty(inner);
        assert(rest.drop_last() =~= inner);
        assert(rest.last() == text.last());
        let pieces = crate::path::split(inner);
        if text[0] == SEPARATOR {
            assert(crate::path::split(front) =~= seq![Seq::<u8>::empty()] + pieces);
            if text.last() == SEPARATOR {
                assert(crate::path::split(text) =~= seq![Seq::<u8>::empty()]
                    + crate::path::split(rest));
            } else {
                assert(crate::path::split(front).last() == pieces.last());
                assert(crate::path::split(text) =~= seq![Seq::<u8>::empty()]
                    + crate::path::split(rest));
            }
        } else {
            let first = seq![text[0]] + pieces[0];
            assert(crate::path::split(front) == pieces.update(0, first));
            if text.last() == SEPARATOR {
                assert(crate::path::split(text) =~= crate::path::split(rest).update(
                    0,
                    seq![text[0]] + crate::path::split(rest)[0],
                ));
            } else if pieces.len() == 1 {
                assert(first.push(text.last()) =~= seq![text[0]] + pieces[0].push(text.last()));
                assert(crate::path::split(text) =~= crate::path::split(rest).update(
                    0,
                    seq![text[0]] + crate::path::split(rest)[0],
                ));
            } else {
                assert(crate::path::split(front).last() == pieces.last());
                assert(crate::path::split(text) =~= crate::path::split(rest).update(
                    0,
                    seq![text[0]] + crate::path::split(rest)[0],
                ));
            }
        }
    }
}

/// What the first piece of a path is.
proof fn lemma_first_piece(text: Seq<u8>)
    ensures
        crate::path::split(text).len() > 0,
        crate::path::split(text)[0].len() == 0 <==> text.len() == 0 || text[0] == SEPARATOR,
        text.len() > 0 && text[0] != SEPARATOR ==> crate::path::split(text)[0][0] == text[0],
        text.len() == 0 ==> crate::path::split(text).len() == 1,
        text.len() > 0 && text[0] == SEPARATOR ==> crate::path::split(text).len() > 1,
{
    crate::path::lemma_split_nonempty(text);
    if text.len() > 0 {
        lemma_split_first(text);
        crate::path::lemma_split_nonempty(text.drop_first());
    }
}

/// Paths stand in the order of their names: they are compared name by name, and
/// names are compared byte by byte.
pub proof fn law_before_is_by_names(left: Seq<u8>, right: Seq<u8>)
    ensures
        before(left, right) == names_before(crate::path::split(left), crate::path::split(right)),
    decreases left.len(),
{
    let a = crate::path::split(left);
    let b = crate::path::split(right);
    lemma_first_piece(left);
    lemma_first_piece(right);
    if left.len() == 0 || right.len() == 0 {
        lemma_split_ends(left, right);
    } else {
        lemma_split_first(left);
        lemma_split_first(right);
        let x = crate::path::split(left.drop_first());
        let y = crate::path::split(right.drop_first());
        lemma_first_piece(left.drop_first());
        lemma_first_piece(right.drop_first());
        if left[0] != right[0] {
            if left[0] == SEPARATOR || right[0] == SEPARATOR {
                assert(a[0] != b[0]);
            } else {
                assert(a[0][0] != b[0][0]);
            }
        } else {
            law_before_is_by_names(left.drop_first(), right.drop_first());
            if left[0] == SEPARATOR {
                assert(a[0] == b[0]);
                assert(a.drop_first() =~= x);
                assert(b.drop_first() =~= y);
            } else {
                assert(a[0].drop_first() =~= x[0]);
                assert(b[0].drop_first() =~= y[0]);
                assert(a.drop_first() =~= x.drop_first());
                assert(b.drop_first() =~= y.drop_first());
                assert(a[0] == b[0] <==> x[0] == y[0]);
            }
        }
    }
}

/// A path that ends stands before one that goes on.
proof fn lemma_split_ends(left: Seq<u8>, right: Seq<u8>)
    requires
        left.len() == 0 || right.len() == 0,
    ensures
        names_before(crate::path::split(left), crate::path::split(right)) == before(left, right),
{
    let a = crate::path::split(left);
    let b = crate::path::split(right);
    lemma_first_piece(left);
    lemma_first_piece(right);
    reveal_with_fuel(names_before, 2);
    if left.len() == 0 && right.len() == 0 {
        assert(a[0] =~= b[0]);
        assert(a.drop_first().len() == 0);
        assert(b.drop_first().len() == 0);
    } else if left.len() == 0 {
        if right[0] == SEPARATOR {
            assert(a[0] =~= b[0]);
            assert(a.drop_first().len() == 0);
        } else {
            assert(a[0] != b[0]);
        }
    } else {
        if left[0] == SEPARATOR {
            assert(a[0] =~= b[0]);
            assert(b.drop_first().len() == 0);
        } else {
            assert(a[0] != b[0]);
        }
    }
}

/// How two paths stand to each other.
#[derive(Clone, Copy, Debug, Eq, PartialEq, Structural)]
pub enum PathOrder {
    Before,
    Same,
    After,
}

/// Where a byte stands in the order of paths.
fn byte_rank(byte: u8) -> (place: u16)
    ensures
        place == rank(byte),
{
    if byte == SEPARATOR {
        0
    } else {
        byte as u16 + 1
    }
}

/// How `left` stands to `right`.
pub fn path_order(left: &[u8], right: &[u8]) -> (order: PathOrder)
    ensures
        order == PathOrder::Before <==> before(left@, right@),
        order == PathOrder::Same <==> left@ == right@,
        order == PathOrder::After <==> before(right@, left@),
{
    let mut i: usize = 0;
    proof {
        assert(left@.skip(0) =~= left@);
        assert(right@.skip(0) =~= right@);
        law_before_irreflexive(left@);
        law_before_total(left@, right@);
        if before(left@, right@) && before(right@, left@) {
            law_before_transitive(left@, right@, left@);
        }
    }
    while i < left.len() && i < right.len()
        invariant
            i <= left@.len(),
            i <= right@.len(),
            before(left@, right@) == before(left@.skip(i as int), right@.skip(i as int)),
            before(right@, left@) == before(right@.skip(i as int), left@.skip(i as int)),
            before(left@, right@) || before(right@, left@) || left@ == right@,
            !(before(left@, right@) && before(right@, left@)),
            left@ == right@ ==> !before(left@, right@),
        decreases left@.len() - i,
    {
        let (l, r): (u8, u8) = (left[i], right[i]);
        proof {
            assert(left@.skip(i as int)[0] == l);
            assert(right@.skip(i as int)[0] == r);
            assert(left@.skip(i as int).drop_first() =~= left@.skip(i + 1));
            assert(right@.skip(i as int).drop_first() =~= right@.skip(i + 1));
        }
        if l != r {
            return if byte_rank(l) < byte_rank(r) {
                PathOrder::Before
            } else {
                PathOrder::After
            };
        }
        i = i + 1;
    }
    if i < right.len() {
        PathOrder::Before
    } else if i < left.len() {
        PathOrder::After
    } else {
        PathOrder::Same
    }
}

/// A set of paths, kept in order.
#[derive(Debug)]
pub struct PathSet {
    paths: Vec<Vec<u8>>,
}

/// The paths of a list, as sequences.
pub open spec fn path_views(paths: Seq<Vec<u8>>) -> Seq<Seq<u8>> {
    Seq::new(paths.len(), |i: int| paths[i]@)
}

/// Whether each path stands before all that follow it.
pub open spec fn is_ordered(paths: Seq<Seq<u8>>) -> bool {
    forall|i: int, j: int|
        #![trigger paths[i], paths[j]]
        0 <= i < j < paths.len() ==> before(paths[i], paths[j])
}

/// In an ordered list no path stands twice.
pub proof fn law_ordered_is_distinct(paths: Seq<Seq<u8>>)
    requires
        is_ordered(paths),
    ensures
        paths.no_duplicates(),
{
    assert forall|i: int, j: int|
        0 <= i < paths.len() && 0 <= j < paths.len() && i != j implies paths[i] != paths[j] by {
        if i < j {
            law_before_irreflexive(paths[i]);
            assert(before(paths[i], paths[j]));
        } else {
            law_before_irreflexive(paths[j]);
            assert(before(paths[j], paths[i]));
        }
    }
}

impl View for PathSet {
    type V = Seq<Seq<u8>>;

    /// The paths of the set, in order.
    closed spec fn view(&self) -> Seq<Seq<u8>> {
        path_views(self.paths@)
    }
}

impl PathSet {
    /// The paths are kept in order, and so no path is held twice.
    #[verifier::type_invariant]
    spec fn well_formed(self) -> bool {
        is_ordered(path_views(self.paths@))
    }

    /// An empty set.
    pub fn new() -> (set: PathSet)
        ensures
            set@ == Seq::<Seq<u8>>::empty(),
    {
        let set = PathSet { paths: Vec::new() };
        assert(set@ =~= Seq::empty());
        set
    }

    /// How many paths of the set stand before `path`, and whether it is in the
    /// set.
    fn place(&self, path: &[u8]) -> (place: (usize, bool))
        ensures
            place.0 <= self@.len(),
            is_ordered(self@),
            forall|i: int| 0 <= i < place.0 ==> before(#[trigger] self@[i], path@),
            forall|i: int|
                place.0 <= i < self@.len() ==> before(path@, #[trigger] self@[i]) || (i == place.0
                    && place.1),
            place.1 <==> self@.contains(path@),
            place.1 ==> place.0 < self@.len() && self@[place.0 as int] == path@,
    {
        proof {
            use_type_invariant(self);
        }
        let ghost all = self@;
        let mut low: usize = 0;
        let mut high: usize = self.paths.len();
        while low < high
            invariant
                all == self@,
                is_ordered(all),
                low <= high <= all.len(),
                all.len() == self.paths@.len(),
                forall|i: int| 0 <= i < low ==> before(#[trigger] all[i], path@),
                forall|i: int| high <= i < all.len() ==> before(path@, #[trigger] all[i]),
            decreases high - low,
        {
            let middle: usize = low + (high - low) / 2;
            let order = path_order(self.paths[middle].as_slice(), path);
            assert(self.paths@[middle as int]@ == all[middle as int]);
            match order {
                PathOrder::Before => {
                    proof {
                        assert forall|i: int| 0 <= i < middle + 1 implies before(
                            #[trigger] all[i],
                            path@,
                        ) by {
                            if i < middle {
                                law_before_transitive(all[i], all[middle as int], path@);
                            }
                        }
                    }
                    low = middle + 1;
                },
                PathOrder::After => {
                    proof {
                        assert forall|i: int| middle <= i < all.len() implies before(
                            path@,
                            #[trigger] all[i],
                        ) by {
                            if i > middle {
                                law_before_transitive(path@, all[middle as int], all[i]);
                            }
                        }
                    }
                    high = middle;
                },
                PathOrder::Same => {
                    assert(all.contains(path@));
                    return (middle, true);
                },
            }
        }
        proof {
            if all.contains(path@) {
                let i = choose|i: int| 0 <= i < all.len() && all[i] == path@;
                law_before_irreflexive(path@);
            }
        }
        (low, false)
    }

    /// Whether `path` is in the set.
    pub fn contains(&self, path: &[u8]) -> (found: bool)
        ensures
            found == self@.contains(path@),
    {
        self.place(path).1
    }

    /// Puts `path` into the set, and says how many paths stand before it. A path
    /// that is in the set changes nothing.
    pub fn insert(&mut self, path: &[u8]) -> (place: Option<usize>)
        ensures
            place is None <==> old(self)@.contains(path@),
            match place {
                Some(n) => n <= old(self)@.len() && final(self)@ == old(self)@.insert(
                    n as int,
                    path@,
                ),
                None => final(self)@ == old(self)@,
            },
            is_ordered(final(self)@),
    {
        proof {
            use_type_invariant(&*self);
        }
        let (place, found): (usize, bool) = self.place(path);
        if found {
            return None;
        }
        let mut paths: Vec<Vec<u8>> = Vec::new();
        core::mem::swap(&mut paths, &mut self.paths);
        let ghost held = path_views(paths@);
        paths.insert(place, copied(path));
        proof {
            let longer = held.insert(place as int, path@);
            assert(path_views(paths@) =~= longer);
            assert forall|i: int, j: int|
                #![trigger longer[i], longer[j]]
                0 <= i < j < longer.len() implies before(longer[i], longer[j]) by {
                let x = if i < place {
                    i
                } else {
                    i - 1
                };
                let y = if j < place {
                    j
                } else {
                    j - 1
                };
                if i == place {
                    assert(longer[j] == held[y]);
                } else if j == place {
                    assert(longer[i] == held[x]);
                } else {
                    assert(longer[i] == held[x]);
                    assert(longer[j] == held[y]);
                }
            }
        }
        self.paths = paths;
        Some(place)
    }
}

/// What paths start with in common changes nothing of their order; at the first
/// byte in which they differ the lower byte stands first, and a separator before
/// every other byte; and a path stands before all that go on behind it.
pub proof fn law_before_at_first_difference(
    common: Seq<u8>,
    left: Seq<u8>,
    right: Seq<u8>,
)
    ensures
        left.len() == 0 ==> before(common + left, common + right) == (right.len() > 0),
        left.len() > 0 && right.len() == 0 ==> !before(common + left, common + right),
        left.len() > 0 && right.len() > 0 && left[0] != right[0] ==> before(
            common + left,
            common + right,
        ) == (left[0] == 47 || (right[0] != 47 && left[0] < right[0])),
    decreases common.len(),
{
    if common.len() == 0 {
        assert(common + left =~= left);
        assert(common + right =~= right);
    } else {
        law_before_at_first_difference(common.drop_first(), left, right);
        assert((common + left).drop_first() =~= common.drop_first() + left);
        assert((common + right).drop_first() =~= common.drop_first() + right);
    }
}

} // verus!
