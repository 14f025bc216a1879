//! The walk over a directory tree, as a work list that its caller feeds.
//!
//! The walk hands out one directory at a time. The caller lists it and gives
//! the entries back: directories join the work list, files join the files
//! found, and an entry that is neither is passed over. A directory that
//! cannot be listed gives nothing back, so what is below it is absent from
//! the result and the walk goes on.

use vstd::prelude::*;

verus! {

/// What an entry of a directory listing is, a link taken for what it leads
/// to.
#[derive(Debug, Clone, Copy, PartialEq, Eq, Structural)]
pub enum EntryKind {
    /// A directory, or a link to one.
    Directory,
    /// A regular file, or a link to one.
    File,
    /// Anything else: a pipe, a socket, a device, a link that leads nowhere.
    Other,
}

/// One entry of a directory listing.
#[derive(Debug, Clone, PartialEq, Eq)]
pub struct Entry {
    pub path: String,
    pub kind: EntryKind,
}

/// The texts of a list of strings.
pub open spec fn texts(v: Seq<String>) -> Seq<Seq<char>> {
    Seq::new(v.len(), |i: int| v[i]@)
}

/// The paths of the entries of `listing` that are of the kind `kind`, in
/// order.
pub open spec fn paths_of(listing: Seq<Entry>, kind: EntryKind) -> Seq<Seq<char>>
    decreases listing.len(),
{
    if listing.len() == 0 {
        Seq::empty()
    } else if listing.last().kind == kind {
        paths_of(listing.drop_last(), kind).push(listing.last().path@)
    } else {
        paths_of(listing.drop_last(), kind)
    }
}

/// What a listing holds, each entry as the text of its path and its kind.
pub open spec fn entry_texts(listing: Seq<Entry>) -> Seq<(Seq<char>, EntryKind)> {
    listing.map_values(|entry: Entry| (entry.path@, entry.kind))
}

/// The state of a walk, as texts: the directories still to list, and the
/// files found so far.
pub struct WalkState {
    pub pending: Seq<Seq<char>>,
    pub files: Seq<Seq<char>>,
}

impl WalkState {
    /// The state after the directory that joined the work list last was taken
    /// off it; the state itself where the work list is empty.
    pub open spec fn popped(self) -> WalkState {
        if self.pending.len() == 0 {
            self
        } else {
            WalkState { pending: self.pending.drop_last(), files: self.files }
        }
    }

    /// The state after the entries of one listing were taken in: its
    /// directories on the work list, its files among the files found, and
    /// nothing of its other entries.
    pub open spec fn absorbed(self, listing: Seq<Entry>) -> WalkState {
        WalkState {
            pending: self.pending + paths_of(listing, EntryKind::Directory),
            files: self.files + paths_of(listing, EntryKind::File),
        }
    }
}

/// A walk in progress.
#[derive(Debug, Clone, PartialEq, Eq)]
pub struct Walk {
    pub pending: Vec<String>,
    pub files: Vec<String>,
}

impl View for Walk {
    type V = WalkState;

    open spec fn view(&self) -> WalkState {
        WalkState { pending: texts(self.pending@), files: texts(self.files@) }
    }
}

impl Walk {
    /// The walk that starts at the directory `root`.
    pub fn new(root: &str) -> (walk: Self)
        ensures
            walk@.pending == seq![root@],
            walk@.files == Seq::<Seq<char>>::empty(),
    {
        let mut pending: Vec<String> = Vec::new();
        pending.push(root.to_owned());
        let walk = Walk { pending, files: Vec::new() };
        assert(walk@.pending =~= seq![root@]);
        assert(walk@.files =~= Seq::<Seq<char>>::empty());
        walk
    }

    /// Whether no directory is left to list.
    pub fn is_finished(&self) -> (done: bool)
        ensures
            done == (self@.pending.len() == 0),
    {
        self.pending.len() == 0
    }

    /// Takes the directory to list next off the work list: the one that
    /// joined it last. Gives nothing where the work list is empty.
    pub fn next_directory(&mut self) -> (next: Option<String>)
        ensures
            final(self)@ == old(self)@.popped(),
            match next {
                Some(dir) => old(self)@.pending.len() > 0 && dir@ == old(self)@.pending.last(),
                None => old(self)@.pending.len() == 0,
            },
    {
        let next = self.pending.pop();
        proof {
            assert(self@.pending =~= old(self)@.popped().pending);
            assert(self@.files =~= old(self)@.files);
        }
        next
    }

    /// Takes in the entries of one listing: its directories join the work
    /// list and its files the files found, each in the order of the listing.
    /// An entry that is neither a directory nor a file is passed over.
    pub fn absorb(&mut self, listing: &[Entry])
        ensures
            final(self)@ == old(self)@.absorbed(listing@),
    {
        let mut i: usize = 0;
        assert(listing@.subrange(0, 0) =~= Seq::<Entry>::empty());
        assert(self@.pending =~= old(self)@.pending + paths_of(listing@.subrange(0, 0), EntryKind::Directory));
        assert(self@.files =~= old(self)@.files + paths_of(listing@.subrange(0, 0), EntryKind::File));
        while i < listing.len()
            invariant
                i <= listing.len(),
                self@.pending == old(self)@.pending + paths_of(listing@.subrange(0, i as int), EntryKind::Directory),
                self@.files == old(self)@.files + paths_of(listing@.subrange(0, i as int), EntryKind::File),
            decreases listing.len() - i,
        {
            let ghost before = self@;
            let entry = &listing[i];
            match entry.kind {
                EntryKind::Directory => {
                    self.pending.push(entry.path.clone());
                    assert(self@.pending =~= before.pending.push(entry.path@));
                    assert(self@.files =~= before.files);
                },
                EntryKind::File => {
                    self.files.push(entry.path.clone());
                    assert(self@.files =~= before.files.push(entry.path@));
                    assert(self@.pending =~= before.pending);
                },
                EntryKind::Other => {},
            }
            i += 1;
            proof {
                let now = listing@.subrange(0, i as int);
                assert(now.drop_last() =~= listing@.subrange(0, i - 1));
                assert(now.last() == *entry);
                assert(self@.pending =~= old(self)@.pending + paths_of(now, EntryKind::Directory));
                assert(self@.files =~= old(self)@.files + paths_of(now, EntryKind::File));
            }
        }
        assert(listing@.subrange(0, i as int) =~= listing@);
    }

    /// The files found, in the order in which they were taken in.
    pub fn into_files(self) -> (files: Vec<String>)
        ensures
            texts(files@) == self@.files,
    {
        self.files
    }
}

/// Every entry of a listing is of one kind: the directories, the files and
/// the other entries of a listing add up to its length, so a walk takes in
/// as many paths as the listing has directories and files, and no more.
pub proof fn lemma_listing_is_split(listing: Seq<Entry>)
    ensures
        paths_of(listing, EntryKind::Directory).len() + paths_of(listing, EntryKind::File).len()
            + paths_of(listing, EntryKind::Other).len() == listing.len(),
    decreases listing.len(),
{
    if listing.len() > 0 {
        lemma_listing_is_split(listing.drop_last());
    }
}

} // verus!
