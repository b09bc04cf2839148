//! The running total of a directory walk, and the decisions the walk makes.
//!
//! The caller does the lookups and the listings. `Stats` decides what counts
//! and which directories are listed next, and keeps those still to be listed.

use vstd::prelude::*;

verus! {

/// What kind of entry a lookup found. A symbolic link is a kind of its own,
/// whatever it points to.
#[derive(Clone, Copy, Debug, PartialEq, Eq, Structural)]
pub enum EntryKind {
    File,
    Directory,
    Symlink,
    Other,
}

/// What a metadata lookup tells of an entry: its kind and its length in bytes.
#[derive(Clone, Copy, Debug, PartialEq, Eq, Structural)]
pub struct Metadata {
    pub kind: EntryKind,
    pub len: u64,
}

impl Metadata {
    /// The bytes this entry adds to a total: its length if it is a regular
    /// file, nothing otherwise.
    pub open spec fn spec_counted(self) -> nat {
        if self.kind == EntryKind::File {
            self.len as nat
        } else {
            0
        }
    }

    /// Whether the walk lists this entry: only a directory, never a link.
    pub open spec fn spec_traversed(self) -> bool {
        self.kind == EntryKind::Directory
    }

    /// The bytes this entry adds to a total.
    pub fn counted(&self) -> (bytes: u64)
        ensures
            bytes == self.spec_counted(),
    {
        match self.kind {
            EntryKind::File => self.len,
            _ => 0,
        }
    }

    /// Whether the walk lists this entry.
    pub fn traversed(&self) -> (yes: bool)
        ensures
            yes == self.spec_traversed(),
    {
        match self.kind {
            EntryKind::Directory => true,
            _ => false,
        }
    }
}

/// A lookup or a listing that failed, with the path and the cause in words.
#[derive(Clone, Debug, PartialEq, Eq)]
pub struct IoError {
    pub detail: String,
}

/// One entry of a listing: where it is, and its metadata.
#[derive(Clone, Debug)]
pub struct Child<P> {
    pub path: P,
    pub meta: Metadata,
}

/// The bytes that the entries of one listing add to a total.
pub open spec fn file_bytes<P>(children: Seq<Child<P>>) -> nat
    decreases children.len(),
{
    if children.len() == 0 {
        0
    } else {
        file_bytes(children.drop_last()) + children.last().meta.spec_counted()
    }
}

/// The paths of the entries of one listing that the walk lists in turn, in
/// the listing's order.
pub open spec fn subdirs<P>(children: Seq<Child<P>>) -> Seq<P>
    decreases children.len(),
{
    if children.len() == 0 {
        Seq::empty()
    } else if children.last().meta.spec_traversed() {
        subdirs(children.drop_last()).push(children.last().path)
    } else {
        subdirs(children.drop_last())
    }
}

/// A part of a listing adds no more bytes than the whole.
pub proof fn lemma_file_bytes_prefix<P>(children: Seq<Child<P>>, n: int)
    requires
        0 <= n <= children.len(),
    ensures
        file_bytes(children.take(n)) <= file_bytes(children),
    decreases children.len(),
{
    if n == children.len() {
        assert(children.take(n) =~= children);
    } else {
        assert(children.drop_last().take(n) =~= children.take(n));
        lemma_file_bytes_prefix(children.drop_last(), n);
    }
}

/// Two listings, one after the other, add the bytes of both and keep the
/// directories of both.
pub proof fn lemma_listing_concat<P>(a: Seq<Child<P>>, b: Seq<Child<P>>)
    ensures
        file_bytes(a + b) == file_bytes(a) + file_bytes(b),
        subdirs(a + b) == subdirs(a) + subdirs(b),
    decreases b.len(),
{
    if b.len() == 0 {
        assert(a + b =~= a);
        assert(subdirs(a) + subdirs(b) =~= subdirs(a));
    } else {
        assert((a + b).drop_last() =~= a + b.drop_last());
        lemma_listing_concat(a, b.drop_last());
        assert(subdirs(a + b) =~= subdirs(a) + subdirs(b));
    }
}

/// Taking one entry out of a listing takes out what that entry adds: its
/// bytes if it is a file, its path if it is a directory.
pub proof fn lemma_listing_remove<P>(children: Seq<Child<P>>, i: int)
    requires
        0 <= i < children.len(),
    ensures
        file_bytes(children) == file_bytes(children.remove(i)) + children[i].meta.spec_counted(),
        subdirs(children).to_multiset() == if children[i].meta.spec_traversed() {
            subdirs(children.remove(i)).to_multiset().insert(children[i].path)
        } else {
            subdirs(children.remove(i)).to_multiset()
        },
{
    broadcast use vstd::multiset::group_multiset_axioms;

    let before = children.take(i);
    let after = children.skip(i + 1);
    let one = Seq::<Child<P>>::empty().push(children[i]);
    assert(children =~= before + one + after);
    assert(children.remove(i) =~= before + after);
    assert(one.drop_last() =~= Seq::<Child<P>>::empty());
    assert(file_bytes(one.drop_last()) == 0);
    assert(subdirs(one.drop_last()) =~= Seq::<P>::empty());
    lemma_listing_concat(before, one);
    lemma_listing_concat(before + one, after);
    lemma_listing_concat(before, after);
    vstd::seq_lib::lemma_multiset_commutative(subdirs(before) + subdirs(one), subdirs(after));
    vstd::seq_lib::lemma_multiset_commutative(subdirs(before), subdirs(after));
    if children[i].meta.spec_traversed() {
        let found = Seq::<P>::empty().push(children[i].path);
        assert(subdirs(one) =~= found);
        assert(subdirs(before) + subdirs(one) =~= subdirs(before).push(children[i].path));
        vstd::seq_lib::to_multiset_build(subdirs(before), children[i].path);
        assert(subdirs(children).to_multiset() =~= subdirs(children.remove(i)).to_multiset().insert(
            children[i].path,
        ));
    } else {
        assert(subdirs(one) =~= Seq::<P>::empty());
        assert(subdirs(before) + subdirs(one) =~= subdirs(before));
    }
}

/// The order of a listing does not matter: the same entries in another order
/// add the same bytes and keep the same directories.
pub proof fn lemma_listing_order<P>(a: Seq<Child<P>>, b: Seq<Child<P>>)
    requires
        a.to_multiset() == b.to_multiset(),
    ensures
        file_bytes(a) == file_bytes(b),
        subdirs(a).to_multiset() == subdirs(b).to_multiset(),
    decreases a.len(),
{
    broadcast use {
        vstd::seq_lib::to_multiset_remove,
        vstd::seq_lib::to_multiset_len,
        vstd::seq_lib::to_multiset_contains,
    };

    if a.len() == 0 {
        assert(a.to_multiset().len() == a.len());
        assert(b.to_multiset().len() == b.len());
    } else {
        let last = a.last();
        let n = a.len() - 1;
        assert(a.contains(last));
        assert(a.to_multiset().count(last) > 0);
        assert(b.contains(last));
        let j = choose|j: int| 0 <= j < b.len() && b[j] == last;
        assert(a.remove(n) =~= a.drop_last());
        assert(a.remove(n).to_multiset() == b.remove(j).to_multiset());
        lemma_listing_order(a.drop_last(), b.remove(j));
        lemma_listing_remove(a, n);
        lemma_listing_remove(b, j);
    }
}

/// A walk as the contracts see it: the bytes counted so far, and the
/// directories that are still to be listed, the last of them next.
pub struct Walk<P> {
    pub size: nat,
    pub pending: Seq<P>,
}

impl<P> Walk<P> {
    /// The walk that begins at `path` with `size` bytes counted before: a
    /// regular file is counted, a directory is kept to be listed, a link and
    /// anything else adds nothing.
    pub open spec fn begun(size: nat, path: P, metadata: Metadata) -> Walk<P> {
        Walk {
            size: size + metadata.spec_counted(),
            pending: if metadata.spec_traversed() {
                Seq::empty().push(path)
            } else {
                Seq::empty()
            },
        }
    }

    /// The walk after the directory to list next was taken off.
    pub open spec fn taken(self) -> Walk<P> {
        Walk { size: self.size, pending: self.pending.drop_last() }
    }

    /// The walk after a listing: its regular files are counted, its
    /// directories are kept in the listing's order, links and anything else
    /// add nothing.
    pub open spec fn listed(self, children: Seq<Child<P>>) -> Walk<P> {
        Walk {
            size: self.size + file_bytes(children),
            pending: self.pending + subdirs(children),
        }
    }
}

/// The total so far, and the directories that are still to be listed.
#[derive(Debug)]
pub struct Stats<P> {
    /// Total size in bytes of the files seen so far.
    pub size: u64,
    /// Directories found and not yet listed; the last is listed next.
    pub pending: Vec<P>,
    /// The total when the walk began; a walk that fails falls back to it.
    pub start: u64,
}

impl<P> Stats<P> {
    /// The walk that these stats hold.
    pub open spec fn walk(self) -> Walk<P> {
        Walk { size: self.size as nat, pending: self.pending@ }
    }

    /// A walk that has counted nothing and has nothing to list.
    pub fn new() -> (stats: Self)
        ensures
            stats.size == 0,
            stats.start == 0,
            stats.pending@ == Seq::<P>::empty(),
    {
        Stats { size: 0, pending: Vec::new(), start: 0 }
    }

    /// Adds an entry's length to the total, whatever its kind.
    pub fn collect_meta(&mut self, metadata: &Metadata)
        requires
            old(self).size + metadata.len <= u64::MAX,
        ensures
            final(self).size == old(self).size + metadata.len,
            final(self).size >= old(self).size,
            final(self).pending == old(self).pending,
            final(self).start == old(self).start,
    {
        self.size = self.size + metadata.len;
    }

    /// Whether the total has room for the files of `children`.
    pub fn has_room(&self, children: &Vec<Child<P>>) -> (yes: bool)
        ensures
            yes == (self.size + file_bytes(children@) <= u64::MAX),
    {
        let mut total: u64 = self.size;
        let mut i: usize = 0;
        while i < children.len()
            invariant
                i <= children.len(),
                total == self.size + file_bytes(children@.take(i as int)),
            decreases children.len() - i,
        {
            let bytes: u64 = children[i].meta.counted();
            proof {
                assert(children@.take(i + 1).drop_last() =~= children@.take(i as int));
                lemma_file_bytes_prefix(children@, i + 1);
            }
            if bytes > u64::MAX - total {
                return false;
            }
            total = total + bytes;
            i = i + 1;
        }
        assert(children@.take(i as int) =~= children@);
        true
    }

    /// Begins a walk: takes the result of the lookup of the path it starts at.
    ///
    /// The total so far is remembered as the walk's start, and what an
    /// earlier walk still had to list is dropped. A regular file is counted,
    /// a directory is kept to be listed, a link and anything else adds
    /// nothing. A failed lookup is handed back: the total stays, and nothing
    /// is to be listed.
    pub fn collect(&mut self, path: P, found: Result<Metadata, IoError>) -> (out: Result<
        (),
        IoError,
    >)
        requires
            found is Ok ==> old(self).size + found->Ok_0.spec_counted() <= u64::MAX,
        ensures
            final(self).start == old(self).size,
            final(self).size >= old(self).size,
            match found {
                Ok(metadata) => {
                    &&& out is Ok
                    &&& final(self).walk() == Walk::begun(old(self).size as nat, path, metadata)
                },
                Err(error) => {
                    &&& out == Err::<(), IoError>(error)
                    &&& final(self).size == old(self).size
                    &&& final(self).pending@ == Seq::<P>::empty()
                },
            },
    {
        self.start = self.size;
        self.pending.clear();
        let metadata = match found {
            Ok(metadata) => metadata,
            Err(error) => {
                return Err(error);
            },
        };
        match metadata.kind {
            EntryKind::File => {
                self.collect_meta(&metadata);
            },
            EntryKind::Directory => {
                self.pending.push(path);
            },
            _ => {},
        }
        assert(self.walk() =~= Walk::begun(old(self).size as nat, path, metadata));
        Ok(())
    }

    /// The directory to list next, taken off those that are kept; `None` when
    /// the walk is over.
    pub fn next_dir(&mut self) -> (out: Option<P>)
        ensures
            final(self).start == old(self).start,
            match out {
                Some(path) => {
                    &&& old(self).pending@.len() > 0
                    &&& path == old(self).pending@.last()
                    &&& final(self).walk() == old(self).walk().taken()
                },
                None => old(self).pending@.len() == 0 && final(self).walk() == old(self).walk(),
            },
    {
        let out = self.pending.pop();
        assert(out is Some ==> self.walk() =~= old(self).walk().taken());
        assert(out is None ==> self.walk() =~= old(self).walk());
        out
    }

    /// Takes the listing of the directory that `next_dir` gave.
    ///
    /// Each regular file in it is counted, each directory is kept to be
    /// listed in turn, links and anything else add nothing. A failed listing
    /// ends the walk: it is handed back, the total falls back to what it was
    /// when the walk began, and nothing is left to be listed.
    pub fn collect_dir(&mut self, listing: Result<Vec<Child<P>>, IoError>) -> (out: Result<
        (),
        IoError,
    >)
        requires
            listing is Ok ==> old(self).size + file_bytes(listing->Ok_0@) <= u64::MAX,
        ensures
            final(self).start == old(self).start,
            match listing {
                Ok(children) => out is Ok && final(self).walk() == old(self).walk().listed(
                    children@,
                ),
                Err(error) => {
                    &&& out == Err::<(), IoError>(error)
                    &&& final(self).size == old(self).start
                    &&& final(self).pending@ == Seq::<P>::empty()
                },
            },
    {
        let children = match listing {
            Ok(children) => children,
            Err(error) => {
                self.size = self.start;
                self.pending.clear();
                return Err(error);
            },
        };
        let ghost all = children@;
        let ghost size0 = self.size;
        let ghost pending0 = self.pending@;
        assert(all.take(0) =~= Seq::<Child<P>>::empty());
        for child in iter: children
            invariant
                iter.seq() == all,
                size0 + file_bytes(all) <= u64::MAX,
                self.start == old(self).start,
                self.size == size0 + file_bytes(all.take(iter.index() as int)),
                self.pending@ == pending0 + subdirs(all.take(iter.index() as int)),
        {
            proof {
                let n = iter.index() as int;
                assert(all.take(n + 1).drop_last() =~= all.take(n));
                lemma_file_bytes_prefix(all, n + 1);
            }
            match child.meta.kind {
                EntryKind::File => {
                    self.collect_meta(&child.meta);
                },
                EntryKind::Directory => {
                    self.pending.push(child.path);
                },
                _ => {},
            }
        }
        assert(all.take(all.len() as int) =~= all);
        assert(self.walk() =~= old(self).walk().listed(all));
        Ok(())
    }
}

impl<P> Default for Stats<P> {
    fn default() -> (stats: Self)
        ensures
            stats.size == 0,
            stats.start == 0,
            stats.pending@ == Seq::<P>::empty(),
    {
        Stats::new()
    }
}

} // verus!
