//! A directory tree as a model, and what a walk over it finds.
//!
//! The model gives the listing of every directory that can be read, and a
//! depth for every path, which falls from a directory to the directories it
//! lists: so no directory is below itself. A step of the walk over the model
//! is what a caller does against the disk: take the next directory off the
//! work list, list it, and hand the listing in where there is one.

use vstd::multiset::Multiset;
use vstd::prelude::*;
use crate::walk::{entry_texts, paths_of, Entry, EntryKind, WalkState};

verus! {

/// A directory tree.
pub struct Tree {
    /// The entries of each directory that can be read.
    pub listings: Map<Seq<char>, Seq<Entry>>,
    /// A number for each path that is smaller for a listed directory than for
    /// the directory that lists it.
    pub depth: spec_fn(Seq<char>) -> nat,
}

/// `listing[i]` is an entry of the readable directory `dir` of `t`.
pub open spec fn lists(t: Tree, dir: Seq<char>, i: int) -> bool {
    t.listings.dom().contains(dir) && 0 <= i < t.listings[dir].len()
}

impl Tree {
    /// Every directory that a directory lists is deeper in the tree than the
    /// one that lists it.
    pub open spec fn well_formed(self) -> bool {
        forall|dir: Seq<char>, i: int| #[trigger]
            lists(self, dir, i) && self.listings[dir][i].kind == EntryKind::Directory ==> (self.depth)(
                self.listings[dir][i].path@,
            ) < (self.depth)(dir)
    }
}

/// The files that the tree holds at or below `dir`, in directories that can be
/// read, each as often as it is listed.
pub open spec fn files_below(t: Tree, dir: Seq<char>) -> Multiset<Seq<char>>
    decreases (t.depth)(dir), 1nat, 0nat,
{
    if t.listings.dom().contains(dir) {
        files_within(t, t.listings[dir], (t.depth)(dir))
    } else {
        Multiset::empty()
    }
}

/// The files that the tree holds in `listing` and below its directories,
/// those directories taken whose depth is under `bound`. An entry that is
/// neither a file nor a directory adds nothing.
pub open spec fn files_within(t: Tree, listing: Seq<Entry>, bound: nat) -> Multiset<Seq<char>>
    decreases bound, 0nat, listing.len(),
{
    if listing.len() == 0 {
        Multiset::empty()
    } else {
        let entry = listing.last();
        files_within(t, listing.drop_last(), bound).add(
            if entry.kind == EntryKind::File {
                Multiset::singleton(entry.path@)
            } else if entry.kind == EntryKind::Directory && (t.depth)(entry.path@) < bound {
                files_below(t, entry.path@)
            } else {
                Multiset::empty()
            },
        )
    }
}

/// The files that the tree holds at or below the directories `dirs`, a
/// directory that is in the list twice taken twice.
pub open spec fn files_below_all(t: Tree, dirs: Seq<Seq<char>>) -> Multiset<Seq<char>>
    decreases dirs.len(),
{
    if dirs.len() == 0 {
        Multiset::empty()
    } else {
        files_below_all(t, dirs.drop_last()).add(files_below(t, dirs.last()))
    }
}

/// The state of a walk after its next step: the directory that joined the
/// work list last is taken off and, where it can be read, its listing is
/// taken in. A walk with an empty work list stays as it is.
pub open spec fn stepped(t: Tree, state: WalkState) -> WalkState {
    if state.pending.len() > 0 && t.listings.dom().contains(state.pending.last()) {
        state.popped().absorbed(t.listings[state.pending.last()])
    } else {
        state.popped()
    }
}

/// The state of a walk after `steps` steps.
pub open spec fn walked(t: Tree, state: WalkState, steps: nat) -> WalkState
    decreases steps,
{
    if steps == 0 {
        state
    } else {
        walked(t, stepped(t, state), (steps - 1) as nat)
    }
}

/// The files found by a walk in `state` together with those that the tree
/// holds below the directories it has still to list.
pub open spec fn found_or_ahead(t: Tree, state: WalkState) -> Multiset<Seq<char>> {
    state.files.to_multiset().add(files_below_all(t, state.pending))
}

proof fn lemma_files_below_all_concat(t: Tree, a: Seq<Seq<char>>, b: Seq<Seq<char>>)
    ensures
        files_below_all(t, a + b) =~= files_below_all(t, a).add(files_below_all(t, b)),
    decreases b.len(),
{
    if b.len() == 0 {
        assert(a + b =~= a);
    } else {
        lemma_files_below_all_concat(t, a, b.drop_last());
        assert((a + b).drop_last() =~= a + b.drop_last());
    }
}

proof fn lemma_files_within_listing(t: Tree, listing: Seq<Entry>, bound: nat)
    requires
        forall|i: int|
            0 <= i < listing.len() && (#[trigger] listing[i]).kind == EntryKind::Directory ==> (t.depth)(
                listing[i].path@,
            ) < bound,
    ensures
        files_within(t, listing, bound) =~= paths_of(listing, EntryKind::File).to_multiset().add(
            files_below_all(t, paths_of(listing, EntryKind::Directory)),
        ),
    decreases listing.len(),
{
    broadcast use vstd::seq_lib::group_to_multiset_ensures;

    if listing.len() == 0 {
        assert(paths_of(listing, EntryKind::File).to_multiset() =~= Multiset::<Seq<char>>::empty()) by {
            paths_of(listing, EntryKind::File).to_multiset_ensures();
        }
    } else {
        let init = listing.drop_last();
        assert forall|i: int| 0 <= i < init.len() && (#[trigger] init[i]).kind == EntryKind::Directory implies (
        t.depth)(init[i].path@) < bound by {
            assert(init[i] == listing[i]);
        }
        lemma_files_within_listing(t, init, bound);
        let entry = listing.last();
        assert(entry == listing[listing.len() - 1]);
        if entry.kind == EntryKind::Directory {
            assert(paths_of(listing, EntryKind::Directory).drop_last() =~= paths_of(init, EntryKind::Directory));
        } else if entry.kind == EntryKind::File {
            assert(paths_of(listing, EntryKind::File).to_multiset() =~= paths_of(init, EntryKind::File).to_multiset().insert(entry.path@));
        }
    }
}

/// A step of a walk neither loses nor doubles a file: the files found,
/// together with the files below the directories on the work list, are the
/// same before and after.
pub proof fn lemma_step_keeps_the_files(t: Tree, state: WalkState)
    requires
        t.well_formed(),
    ensures
        found_or_ahead(t, stepped(t, state)) =~= found_or_ahead(t, state),
{
    if state.pending.len() > 0 {
        let dir = state.pending.last();
        let rest = state.pending.drop_last();
        if t.listings.dom().contains(dir) {
            let listing = t.listings[dir];
            assert forall|i: int|
                0 <= i < listing.len() && (#[trigger] listing[i]).kind == EntryKind::Directory implies (t.depth)(
                listing[i].path@,
            ) < (t.depth)(dir) by {
                assert(lists(t, dir, i));
            }
            lemma_files_within_listing(t, listing, (t.depth)(dir));
            lemma_files_below_all_concat(t, rest, paths_of(listing, EntryKind::Directory));
            vstd::seq_lib::lemma_multiset_commutative(state.files, paths_of(listing, EntryKind::File));
        }
    }
}

proof fn lemma_walk_keeps_the_files(t: Tree, state: WalkState, steps: nat)
    requires
        t.well_formed(),
    ensures
        found_or_ahead(t, walked(t, state, steps)) == found_or_ahead(t, state),
    decreases steps,
{
    if steps > 0 {
        lemma_step_keeps_the_files(t, state);
        lemma_walk_keeps_the_files(t, stepped(t, state), (steps - 1) as nat);
    }
}

/// A walk from `root` finds exactly the files of the tree: at every step the
/// files found, together with those below the directories still to list, are
/// the files that the tree holds at or below `root`; so a walk that has come
/// to its end has found each of them as often as the tree lists it, and as
/// many as there are, in whatever order the directories were listed.
pub proof fn lemma_walk_finds_every_file(t: Tree, root: Seq<char>, steps: nat)
    requires
        t.well_formed(),
    ensures
        ({
            let end = walked(t, WalkState { pending: seq![root], files: Seq::empty() }, steps);
            &&& found_or_ahead(t, end) == files_below(t, root)
            &&& end.pending.len() == 0 ==> end.files.to_multiset() == files_below(t, root)
            &&& end.pending.len() == 0 ==> end.files.len() == files_below(t, root).len()
        }),
{
    broadcast use vstd::seq_lib::group_to_multiset_ensures;

    let start = WalkState { pending: seq![root], files: Seq::empty() };
    assert(start.pending.drop_last() =~= Seq::<Seq<char>>::empty());
    assert(start.pending.last() == root);
    assert(start.files.to_multiset() =~= Multiset::<Seq<char>>::empty()) by {
        start.files.to_multiset_ensures();
    }
    assert(files_below_all(t, start.pending.drop_last()) =~= Multiset::<Seq<char>>::empty());
    assert(files_below_all(t, start.pending) =~= files_below(t, root));
    assert(found_or_ahead(t, start) =~= files_below(t, root));
    lemma_walk_keeps_the_files(t, start, steps);
    let end = walked(t, start, steps);
    if end.pending.len() == 0 {
        assert(found_or_ahead(t, end) =~= end.files.to_multiset());
    }
}

/// Where the tree lists no file twice at or below `root`, a walk that has
/// come to its end has found no path twice.
pub proof fn lemma_walk_finds_distinct_files(t: Tree, root: Seq<char>, steps: nat)
    requires
        t.well_formed(),
        forall|path: Seq<char>| files_below(t, root).count(path) <= 1,
        walked(t, WalkState { pending: seq![root], files: Seq::empty() }, steps).pending.len()
            == 0,
    ensures
        walked(
            t,
            WalkState { pending: seq![root], files: Seq::empty() },
            steps,
        ).files.no_duplicates(),
{
    lemma_walk_finds_every_file(t, root, steps);
    let end = walked(t, WalkState { pending: seq![root], files: Seq::empty() }, steps);
    assert forall|path: Seq<char>| end.files.to_multiset().contains(path) implies end.files.to_multiset().count(path) == 1 by {}
    end.files.lemma_multiset_has_no_duplicates_conv();
}

/// How many steps a walk takes for `dir` and everything below it: one for
/// each directory, readable or not, as often as it is listed.
pub open spec fn steps_below(t: Tree, dir: Seq<char>) -> nat
    decreases (t.depth)(dir), 1nat, 0nat,
{
    if t.listings.dom().contains(dir) {
        1 + steps_within(t, t.listings[dir], (t.depth)(dir))
    } else {
        1
    }
}

/// How many steps a walk takes for the directories of `listing`, those taken
/// whose depth is under `bound`.
pub open spec fn steps_within(t: Tree, listing: Seq<Entry>, bound: nat) -> nat
    decreases bound, 0nat, listing.len(),
{
    if listing.len() == 0 {
        0
    } else {
        let entry = listing.last();
        steps_within(t, listing.drop_last(), bound) + if entry.kind == EntryKind::Directory && (t.depth)(
            entry.path@,
        ) < bound {
            steps_below(t, entry.path@)
        } else {
            0nat
        }
    }
}

/// How many steps a walk takes until the work list `dirs` is empty.
pub open spec fn steps_ahead(t: Tree, dirs: Seq<Seq<char>>) -> nat
    decreases dirs.len(),
{
    if dirs.len() == 0 {
        0
    } else {
        steps_ahead(t, dirs.drop_last()) + steps_below(t, dirs.last())
    }
}

proof fn lemma_steps_ahead_concat(t: Tree, a: Seq<Seq<char>>, b: Seq<Seq<char>>)
    ensures
        steps_ahead(t, a + b) == steps_ahead(t, a) + steps_ahead(t, b),
    decreases b.len(),
{
    if b.len() == 0 {
        assert(a + b =~= a);
    } else {
        lemma_steps_ahead_concat(t, a, b.drop_last());
        assert((a + b).drop_last() =~= a + b.drop_last());
    }
}

proof fn lemma_steps_within_listing(t: Tree, listing: Seq<Entry>, bound: nat)
    requires
        forall|i: int|
            0 <= i < listing.len() && (#[trigger] listing[i]).kind == EntryKind::Directory ==> (t.depth)(
                listing[i].path@,
            ) < bound,
    ensures
        steps_within(t, listing, bound) == steps_ahead(t, paths_of(listing, EntryKind::Directory)),
    decreases listing.len(),
{
    if listing.len() > 0 {
        let init = listing.drop_last();
        assert forall|i: int| 0 <= i < init.len() && (#[trigger] init[i]).kind == EntryKind::Directory implies (
        t.depth)(init[i].path@) < bound by {
            assert(init[i] == listing[i]);
        }
        lemma_steps_within_listing(t, init, bound);
        let entry = listing.last();
        assert(entry == listing[listing.len() - 1]);
        if entry.kind == EntryKind::Directory {
            assert(paths_of(listing, EntryKind::Directory).drop_last() =~= paths_of(init, EntryKind::Directory));
        }
    }
}

/// Each step of a walk that has not ended brings it one step nearer its end.
pub proof fn lemma_step_nears_the_end(t: Tree, state: WalkState)
    requires
        t.well_formed(),
        state.pending.len() > 0,
    ensures
        steps_ahead(t, stepped(t, state).pending) + 1 == steps_ahead(t, state.pending),
{
    let dir = state.pending.last();
    let rest = state.pending.drop_last();
    if t.listings.dom().contains(dir) {
        let listing = t.listings[dir];
        assert forall|i: int|
            0 <= i < listing.len() && (#[trigger] listing[i]).kind == EntryKind::Directory implies (t.depth)(
            listing[i].path@,
        ) < (t.depth)(dir) by {
            assert(lists(t, dir, i));
        }
        lemma_steps_within_listing(t, listing, (t.depth)(dir));
        lemma_steps_ahead_concat(t, rest, paths_of(listing, EntryKind::Directory));
    }
}

proof fn lemma_walk_nears_the_end(t: Tree, state: WalkState, steps: nat)
    requires
        t.well_formed(),
        steps <= steps_ahead(t, state.pending),
    ensures
        steps_ahead(t, walked(t, state, steps).pending) + steps == steps_ahead(t, state.pending),
    decreases steps,
{
    if steps > 0 {
        lemma_step_nears_the_end(t, state);
        lemma_walk_nears_the_end(t, stepped(t, state), (steps - 1) as nat);
    }
}

/// Every walk ends: from `root` it takes one step for each directory at or
/// below `root`, and then no directory is left to list.
pub proof fn lemma_walk_ends(t: Tree, root: Seq<char>)
    requires
        t.well_formed(),
    ensures
        walked(
            t,
            WalkState { pending: seq![root], files: Seq::empty() },
            steps_below(t, root),
        ).pending.len() == 0,
{
    let start = WalkState { pending: seq![root], files: Seq::empty() };
    assert(start.pending.drop_last() =~= Seq::<Seq<char>>::empty());
    assert(start.pending.last() == root);
    assert(steps_ahead(t, start.pending.drop_last()) == 0);
    assert(steps_ahead(t, start.pending) == steps_below(t, root));
    lemma_walk_nears_the_end(t, start, steps_below(t, root));
    let end = walked(t, start, steps_below(t, root));
    assert(steps_ahead(t, end.pending) == 0);
    if end.pending.len() > 0 {
        assert(steps_below(t, end.pending.last()) >= 1);
    }
}

/// Walking a tree from `root` to the end finds every file that it holds at
/// or below `root` in directories that can be read, each as often as the tree
/// lists it, and so exactly as many as there are.
pub proof fn lemma_complete_walk_finds_every_file(t: Tree, root: Seq<char>)
    requires
        t.well_formed(),
    ensures
        ({
            let end = walked(
                t,
                WalkState { pending: seq![root], files: Seq::empty() },
                steps_below(t, root),
            );
            &&& end.pending.len() == 0
            &&& end.files.to_multiset() == files_below(t, root)
            &&& end.files.len() == files_below(t, root).len()
        }),
{
    lemma_walk_ends(t, root);
    lemma_walk_finds_every_file(t, root, steps_below(t, root));
}

/// The files that the tree holds through one entry of a listing: the entry
/// itself where it is a file, those below it where it is a directory whose
/// depth is under `bound`, and none otherwise.
pub open spec fn files_through(t: Tree, entry: Entry, bound: nat) -> Multiset<Seq<char>> {
    if entry.kind == EntryKind::File {
        Multiset::singleton(entry.path@)
    } else if entry.kind == EntryKind::Directory && (t.depth)(entry.path@) < bound {
        files_below(t, entry.path@)
    } else {
        Multiset::empty()
    }
}

/// The two trees can be read in the same directories and hold the same
/// entries in each of them, in whatever order each tree lists them.
pub open spec fn same_entries(t1: Tree, t2: Tree) -> bool {
    &&& t1.listings.dom() =~= t2.listings.dom()
    &&& forall|dir: Seq<char>| #[trigger]
        t1.listings.dom().contains(dir) ==> entry_texts(t1.listings[dir]).to_multiset()
            == entry_texts(t2.listings[dir]).to_multiset()
}

proof fn lemma_files_within_without(t: Tree, listing: Seq<Entry>, bound: nat, i: int)
    requires
        0 <= i < listing.len(),
    ensures
        files_within(t, listing, bound) =~= files_within(t, listing.remove(i), bound).add(
            files_through(t, listing[i], bound),
        ),
    decreases listing.len(),
{
    if i == listing.len() - 1 {
        assert(listing.remove(i) =~= listing.drop_last());
    } else {
        lemma_files_within_without(t, listing.drop_last(), bound, i);
        assert(listing.remove(i).drop_last() =~= listing.drop_last().remove(i));
        assert(listing.remove(i).last() == listing.last());
        assert(listing.drop_last()[i] == listing[i]);
    }
}

proof fn lemma_files_within_any_order(
    t1: Tree,
    t2: Tree,
    l1: Seq<Entry>,
    l2: Seq<Entry>,
    b1: nat,
    b2: nat,
)
    requires
        t1.well_formed(),
        t2.well_formed(),
        same_entries(t1, t2),
        entry_texts(l1).to_multiset() == entry_texts(l2).to_multiset(),
        forall|i: int|
            0 <= i < l1.len() && (#[trigger] l1[i]).kind == EntryKind::Directory ==> (t1.depth)(
                l1[i].path@,
            ) < b1,
        forall|i: int|
            0 <= i < l2.len() && (#[trigger] l2[i]).kind == EntryKind::Directory ==> (t2.depth)(
                l2[i].path@,
            ) < b2,
    ensures
        files_within(t1, l1, b1) == files_within(t2, l2, b2),
    decreases b1, 0nat, l1.len(),
{
    let v1 = entry_texts(l1);
    let v2 = entry_texts(l2);
    vstd::seq_lib::to_multiset_len(v1);
    vstd::seq_lib::to_multiset_len(v2);
    assert(l1.len() == l2.len());
    if l1.len() > 0 {
        let n = l1.len() - 1;
        let last = l1.last();
        let x = v1[n];
        assert(v1.contains(x));
        vstd::seq_lib::to_multiset_contains(v1, x);
        vstd::seq_lib::to_multiset_contains(v2, x);
        assert(v2.contains(x));
        let i = choose|i: int| 0 <= i < v2.len() && v2[i] == x;
        let init1 = l1.drop_last();
        let rest2 = l2.remove(i);
        assert(entry_texts(init1) =~= v1.remove(n));
        assert(entry_texts(rest2) =~= v2.remove(i));
        vstd::seq_lib::to_multiset_remove(v1, n);
        vstd::seq_lib::to_multiset_remove(v2, i);
        assert forall|j: int|
            0 <= j < init1.len() && (#[trigger] init1[j]).kind == EntryKind::Directory implies (
        t1.depth)(init1[j].path@) < b1 by {
            assert(init1[j] == l1[j]);
        }
        assert forall|j: int|
            0 <= j < rest2.len() && (#[trigger] rest2[j]).kind == EntryKind::Directory implies (
        t2.depth)(rest2[j].path@) < b2 by {
            if j < i {
                assert(rest2[j] == l2[j]);
            } else {
                assert(rest2[j] == l2[j + 1]);
            }
        }
        lemma_files_within_any_order(t1, t2, init1, rest2, b1, b2);
        lemma_files_within_without(t2, l2, b2, i);
        assert(l2[i].path@ == last.path@ && l2[i].kind == last.kind);
        assert(last == l1[n]);
        if last.kind == EntryKind::Directory {
            lemma_files_below_any_order(t1, t2, last.path@);
        }
        assert(files_through(t1, last, b1) == files_through(t2, l2[i], b2));
    }
}

/// Two trees that hold the same entries in every directory hold the same
/// files below every directory, however each of them orders its listings.
pub proof fn lemma_files_below_any_order(t1: Tree, t2: Tree, dir: Seq<char>)
    requires
        t1.well_formed(),
        t2.well_formed(),
        same_entries(t1, t2),
    ensures
        files_below(t1, dir) == files_below(t2, dir),
    decreases (t1.depth)(dir), 1nat, 0nat,
{
    assert(t1.listings.dom().contains(dir) <==> t2.listings.dom().contains(dir));
    if t1.listings.dom().contains(dir) {
        let l1 = t1.listings[dir];
        let l2 = t2.listings[dir];
        assert forall|i: int|
            0 <= i < l1.len() && (#[trigger] l1[i]).kind == EntryKind::Directory implies (
        t1.depth)(l1[i].path@) < (t1.depth)(dir) by {
            assert(lists(t1, dir, i));
        }
        assert forall|i: int|
            0 <= i < l2.len() && (#[trigger] l2[i]).kind == EntryKind::Directory implies (
        t2.depth)(l2[i].path@) < (t2.depth)(dir) by {
            assert(lists(t2, dir, i));
        }
        lemma_files_within_any_order(t1, t2, l1, l2, (t1.depth)(dir), (t2.depth)(dir));
    }
}

/// The order in which directories are listed changes only the order of the
/// result: complete walks from the same root over two trees that hold the
/// same entries in every directory find the same files, each as often in one
/// as in the other, and so as many.
pub proof fn lemma_listing_order_permutes_the_result(t1: Tree, t2: Tree, root: Seq<char>)
    requires
        t1.well_formed(),
        t2.well_formed(),
        same_entries(t1, t2),
    ensures
        ({
            let start = WalkState { pending: seq![root], files: Seq::empty() };
            let end1 = walked(t1, start, steps_below(t1, root));
            let end2 = walked(t2, start, steps_below(t2, root));
            &&& end1.pending.len() == 0
            &&& end2.pending.len() == 0
            &&& end1.files.to_multiset() == end2.files.to_multiset()
            &&& end1.files.len() == end2.files.len()
        }),
{
    lemma_complete_walk_finds_every_file(t1, root);
    lemma_complete_walk_finds_every_file(t2, root);
    lemma_files_below_any_order(t1, t2, root);
}

} // verus!
