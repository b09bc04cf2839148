//! A model of the file tree that a walk runs over, and what the walk's total
//! is on it.

use crate::stats::{file_bytes, subdirs, Child, EntryKind, Metadata, Walk};
use vstd::prelude::*;

verus! {

broadcast use {
    vstd::seq_lib::to_multiset_remove,
    vstd::seq_lib::to_multiset_len,
    vstd::seq_lib::to_multiset_contains,
};

/// An entry of a file tree with all that lies below it. Every entry has the
/// length that its metadata reports; only that of a regular file counts.
pub enum Node {
    File { len: u64 },
    Directory { len: u64, children: Seq<Node> },
    Symlink { len: u64, target: Box<Node> },
    Other { len: u64 },
}

impl Node {
    /// What a lookup of this entry returns.
    pub open spec fn metadata(self) -> Metadata {
        match self {
            Node::File { len } => Metadata { kind: EntryKind::File, len },
            Node::Directory { len, .. } => Metadata { kind: EntryKind::Directory, len },
            Node::Symlink { len, .. } => Metadata { kind: EntryKind::Symlink, len },
            Node::Other { len } => Metadata { kind: EntryKind::Other, len },
        }
    }

    /// The entries of a directory; nothing for any other entry.
    pub open spec fn children(self) -> Seq<Node> {
        match self {
            Node::Directory { children, .. } => children,
            _ => Seq::empty(),
        }
    }

    /// The bytes of all regular files in this entry and below it, with no
    /// link followed.
    pub open spec fn total(self) -> nat
        decreases self,
    {
        match self {
            Node::File { len } => len as nat,
            Node::Directory { children, .. } => total_of(children),
            _ => 0,
        }
    }

    /// The number of entries in this entry and below it, with no link
    /// followed.
    pub open spec fn count(self) -> nat
        decreases self,
    {
        match self {
            Node::Directory { children, .. } => 1 + count_of(children),
            _ => 1,
        }
    }
}

/// The sum of the totals of some entries.
pub open spec fn total_of(nodes: Seq<Node>) -> nat
    decreases nodes,
{
    if nodes.len() == 0 {
        0
    } else {
        total_of(nodes.drop_last()) + nodes.last().total()
    }
}

/// The sum of the counts of some entries.
pub open spec fn count_of(nodes: Seq<Node>) -> nat
    decreases nodes,
{
    if nodes.len() == 0 {
        0
    } else {
        count_of(nodes.drop_last()) + nodes.last().count()
    }
}

/// The sum of some lengths.
pub open spec fn sum(lens: Seq<u64>) -> nat
    decreases lens.len(),
{
    if lens.len() == 0 {
        0
    } else {
        sum(lens.drop_last()) + lens.last() as nat
    }
}

/// What listing a directory with these entries returns: each entry with its
/// metadata. An entry's place in the tree stands for its path.
pub open spec fn listing(nodes: Seq<Node>) -> Seq<Child<Node>> {
    Seq::new(nodes.len(), |i: int| Child { path: nodes[i], meta: nodes[i].metadata() })
}

/// The regular files with these lengths.
pub open spec fn files(lens: Seq<u64>) -> Seq<Node> {
    Seq::new(lens.len(), |i: int| Node::File { len: lens[i] })
}

/// The directory with this length of its own and these entries.
pub open spec fn directory(len: u64, children: Seq<Node>) -> Node {
    Node::Directory { len, children }
}

/// The link with this length of its own that points to `target`.
pub open spec fn symlink(len: u64, target: Node) -> Node {
    Node::Symlink { len, target: Box::new(target) }
}

/// The walk that begins at `root` with `size` bytes counted before.
pub open spec fn begin(size: nat, root: Node) -> Walk<Node> {
    Walk::begun(size, root, root.metadata())
}

/// The total that a walk ends with: as long as a directory is left, the last
/// is taken off and its listing is taken in.
pub open spec fn finish(walk: Walk<Node>) -> nat
    decreases count_of(walk.pending),
    via finish_decreases
{
    if walk.pending.len() == 0 {
        walk.size
    } else {
        finish(walk.taken().listed(listing(walk.pending.last().children())))
    }
}

#[via_fn]
proof fn finish_decreases(walk: Walk<Node>) {
    if walk.pending.len() > 0 {
        let found = listing(walk.pending.last().children());
        lemma_listing(walk.pending.last().children());
        lemma_count_children(walk.pending.last());
        lemma_count_of_concat(walk.pending.drop_last(), subdirs(found));
        assert(count_of(walk.pending) == count_of(walk.pending.drop_last())
            + walk.pending.last().count());
    }
}

/// Whether two entries are the same but for the order in which each
/// directory, at any depth, lists its entries.
pub open spec fn reordered(a: Node, b: Node) -> bool
    decreases b,
{
    if a is Directory && b is Directory {
        &&& a.metadata() == b.metadata()
        &&& exists|mid: Seq<Node>|
            {
                &&& #[trigger] same_entries(a.children(), mid)
                &&& mid.len() == b->children.len()
                &&& forall|i: int|
                    0 <= i < b->children.len() ==> reordered(#[trigger] mid[i], b->children[i])
            }
    } else {
        a == b
    }
}

/// Whether two listings hold the same entries, each as often as the other.
pub open spec fn same_entries(a: Seq<Node>, b: Seq<Node>) -> bool {
    a.to_multiset() == b.to_multiset()
}

/// One more entry adds its total and its count.
pub proof fn lemma_push(nodes: Seq<Node>, node: Node)
    ensures
        total_of(nodes.push(node)) == total_of(nodes) + node.total(),
        count_of(nodes.push(node)) == count_of(nodes) + node.count(),
{
    assert(nodes.push(node).drop_last() =~= nodes);
}

/// An entry holds itself and all the entries of its listing.
pub proof fn lemma_count_children(node: Node)
    ensures
        node.count() == 1 + count_of(node.children()),
{
    assert(count_of(Seq::<Node>::empty()) == 0);
}

/// The total of two runs of entries, one after the other, is the sum of
/// their totals.
pub proof fn lemma_total_of_concat(a: Seq<Node>, b: Seq<Node>)
    ensures
        total_of(a + b) == total_of(a) + total_of(b),
    decreases b.len(),
{
    if b.len() == 0 {
        assert(a + b =~= a);
    } else {
        assert((a + b).drop_last() =~= a + b.drop_last());
        lemma_total_of_concat(a, b.drop_last());
    }
}

/// The count of two runs of entries, one after the other, is the sum of
/// their counts.
pub proof fn lemma_count_of_concat(a: Seq<Node>, b: Seq<Node>)
    ensures
        count_of(a + b) == count_of(a) + count_of(b),
    decreases b.len(),
{
    if b.len() == 0 {
        assert(a + b =~= a);
    } else {
        assert((a + b).drop_last() =~= a + b.drop_last());
        lemma_count_of_concat(a, b.drop_last());
    }
}

/// One listing splits the total of its entries in two: the files, which are
/// counted at once, and the directories, which are kept. Only directories
/// are kept, and they hold no more entries than were listed.
pub proof fn lemma_listing(nodes: Seq<Node>)
    ensures
        file_bytes(listing(nodes)) + total_of(subdirs(listing(nodes))) == total_of(nodes),
        count_of(subdirs(listing(nodes))) <= count_of(nodes),
        forall|i: int|
            0 <= i < subdirs(listing(nodes)).len() ==> (#[trigger] subdirs(
                listing(nodes),
            )[i]) is Directory,
    decreases nodes.len(),
{
    if nodes.len() > 0 {
        let found = listing(nodes);
        let node = nodes.last();
        let kept = subdirs(listing(nodes.drop_last()));
        assert(found.drop_last() =~= listing(nodes.drop_last()));
        assert(found.last().path == node);
        assert(found.last().meta == node.metadata());
        lemma_listing(nodes.drop_last());
        assert(file_bytes(found) == file_bytes(found.drop_last()) + node.metadata().spec_counted());
        assert(total_of(nodes) == total_of(nodes.drop_last()) + node.total());
        assert(count_of(nodes) == count_of(nodes.drop_last()) + node.count());
        if node is Directory {
            assert(subdirs(found) == kept.push(node));
            assert(kept.push(node).drop_last() =~= kept);
            assert(total_of(kept.push(node)) == total_of(kept) + node.total());
            assert(count_of(kept.push(node)) == count_of(kept) + node.count());
        } else {
            assert(subdirs(found) == kept);
        }
    }
}

/// A walk that has only directories left to list ends with what it has
/// counted and the totals of those directories.
pub proof fn lemma_finish(walk: Walk<Node>)
    requires
        forall|i: int| 0 <= i < walk.pending.len() ==> (#[trigger] walk.pending[i]) is Directory,
    ensures
        finish(walk) == walk.size + total_of(walk.pending),
    decreases count_of(walk.pending),
{
    let pending = walk.pending;
    if pending.len() > 0 {
        let found = listing(pending.last().children());
        let next = walk.taken().listed(found);
        let rest = pending.drop_last() + subdirs(found);
        assert(next.pending == rest);
        lemma_listing(pending.last().children());
        lemma_count_children(pending.last());
        lemma_count_of_concat(pending.drop_last(), subdirs(found));
        lemma_total_of_concat(pending.drop_last(), subdirs(found));
        assert(count_of(pending) == count_of(pending.drop_last()) + pending.last().count());
        assert(total_of(pending) == total_of(pending.drop_last()) + pending.last().total());
        assert(pending.last().total() == total_of(pending.last().children()));
        assert forall|i: int| 0 <= i < rest.len() implies (#[trigger] rest[i]) is Directory by {
            if i >= pending.len() - 1 {
                assert(rest[i] == subdirs(found)[i - (pending.len() - 1)]);
            } else {
                assert(rest[i] == pending[i]);
            }
        }
        lemma_finish(next);
    } else {
        assert(total_of(pending) == 0);
    }
}

/// A walk that begins at an entry ends with the entry's total on top of what
/// was counted before: the lookup of the entry counts it if it is a file and
/// keeps it if it is a directory, and the listings do the rest.
pub proof fn lemma_walk_total(size: nat, root: Node)
    ensures
        finish(begin(size, root)) == size + root.total(),
{
    let none = Seq::<Node>::empty();
    assert(total_of(none) == 0);
    if root.metadata().spec_traversed() {
        lemma_push(none, root);
    }
    lemma_finish(begin(size, root));
}

/// A directory that holds regular files only has the sum of their lengths as
/// its total.
pub proof fn lemma_flat_directory(len: u64, lens: Seq<u64>)
    ensures
        directory(len, files(lens)).total() == sum(lens),
    decreases lens.len(),
{
    assert(directory(len, files(lens)).total() == total_of(files(lens)));
    if lens.len() > 0 {
        let fewer = lens.drop_last();
        assert(files(lens).drop_last() =~= files(fewer));
        lemma_flat_directory(len, fewer);
        assert(directory(len, files(fewer)).total() == total_of(files(fewer)));
        assert(files(lens).last().total() == lens.last());
        assert(total_of(files(lens)) == total_of(files(lens).drop_last()) + files(
            lens,
        ).last().total());
    } else {
        assert(total_of(files(lens)) == 0);
    }
}

/// A walk that begins at a directory of regular files ends with the sum of
/// their lengths on top of what was counted before.
pub proof fn lemma_walk_flat_directory(size: nat, len: u64, lens: Seq<u64>)
    ensures
        finish(begin(size, directory(len, files(lens)))) == size + sum(lens),
{
    lemma_flat_directory(len, lens);
    lemma_walk_total(size, directory(len, files(lens)));
}

/// A directory that holds one directory and nothing else has that
/// directory's total.
pub proof fn lemma_nested_directory(len: u64, inner: Node)
    requires
        inner is Directory,
    ensures
        directory(len, Seq::<Node>::empty().push(inner)).total() == inner.total(),
{
    let none = Seq::<Node>::empty();
    lemma_push(none, inner);
    assert(total_of(none) == 0);
    assert(directory(len, none.push(inner)).total() == total_of(none.push(inner)));
}

/// A walk that begins at a directory holding one directory and nothing else
/// ends as the walk that begins at the inner directory.
pub proof fn lemma_walk_nested_directory(size: nat, len: u64, inner: Node)
    requires
        inner is Directory,
    ensures
        finish(begin(size, directory(len, Seq::<Node>::empty().push(inner)))) == finish(
            begin(size, inner),
        ),
{
    lemma_nested_directory(len, inner);
    lemma_walk_total(size, directory(len, Seq::<Node>::empty().push(inner)));
    lemma_walk_total(size, inner);
}

/// A link adds nothing to the total of the directory it lies in, wherever it
/// stands in the listing and whatever it points to; nor does it have a total
/// of its own.
pub proof fn lemma_symlink_excluded(nodes: Seq<Node>, i: int, len: u64, target: Node)
    requires
        0 <= i <= nodes.len(),
    ensures
        symlink(len, target).total() == 0,
        total_of(nodes.insert(i, symlink(len, target))) == total_of(nodes),
{
    let with_link = nodes.insert(i, symlink(len, target));
    assert(with_link.remove(i) =~= nodes);
    lemma_total_of_remove(with_link, i);
}

/// A walk that begins at a link counts nothing, and a walk that begins at a
/// directory ends the same with a link among its entries as without it:
/// what the link points to is neither counted nor listed.
pub proof fn lemma_walk_symlink(
    size: nat,
    dir_len: u64,
    nodes: Seq<Node>,
    i: int,
    len: u64,
    target: Node,
)
    requires
        0 <= i <= nodes.len(),
    ensures
        finish(begin(size, symlink(len, target))) == size,
        finish(begin(size, directory(dir_len, nodes.insert(i, symlink(len, target))))) == finish(
            begin(size, directory(dir_len, nodes)),
        ),
{
    let with_link = nodes.insert(i, symlink(len, target));
    lemma_symlink_excluded(nodes, i, len, target);
    lemma_walk_total(size, symlink(len, target));
    lemma_walk_total(size, directory(dir_len, with_link));
    lemma_walk_total(size, directory(dir_len, nodes));
    assert(directory(dir_len, with_link).total() == total_of(with_link));
    assert(directory(dir_len, nodes).total() == total_of(nodes));
}

/// Taking one entry out lowers the total by that entry's total.
pub proof fn lemma_total_of_remove(nodes: Seq<Node>, i: int)
    requires
        0 <= i < nodes.len(),
    ensures
        total_of(nodes) == total_of(nodes.remove(i)) + nodes[i].total(),
{
    let before = nodes.take(i);
    let after = nodes.skip(i + 1);
    assert(nodes =~= before.push(nodes[i]) + after);
    assert(nodes.remove(i) =~= before + after);
    lemma_push(before, nodes[i]);
    lemma_total_of_concat(before.push(nodes[i]), after);
    lemma_total_of_concat(before, after);
}

/// The order of the entries of a directory does not change its total.
pub proof fn lemma_total_of_permutation(a: Seq<Node>, b: Seq<Node>)
    requires
        a.to_multiset() == b.to_multiset(),
    ensures
        total_of(a) == total_of(b),
    decreases a.len(),
{
    if a.len() == 0 {
        assert(a.to_multiset().len() == a.len());
        assert(b.to_multiset().len() == b.len());
    } else {
        let last = a.last();
        let n = a.len() - 1;
        assert(a.contains(last));
        assert(a.to_multiset().count(last) > 0);
        assert(b.contains(last));
        let j = choose|j: int| 0 <= j < b.len() && b[j] == last;
        assert(a.remove(n) =~= a.drop_last());
        assert(a.remove(n).to_multiset() == b.remove(j).to_multiset());
        lemma_total_of_permutation(a.drop_last(), b.remove(j));
        lemma_total_of_remove(b, j);
        assert(total_of(a) == total_of(a.drop_last()) + last.total());
    }
}

/// Entries that have the same totals one by one have the same total together.
pub proof fn lemma_total_of_pointwise(a: Seq<Node>, b: Seq<Node>)
    requires
        a.len() == b.len(),
        forall|i: int| 0 <= i < a.len() ==> (#[trigger] a[i]).total() == b[i].total(),
    ensures
        total_of(a) == total_of(b),
    decreases a.len(),
{
    if a.len() > 0 {
        assert(a.last() == a[a.len() - 1]);
        assert(b.last() == b[a.len() - 1]);
        assert forall|i: int| 0 <= i < a.drop_last().len() implies (#[trigger] a.drop_last()[
            i
        ]).total() == b.drop_last()[i].total() by {
            assert(a.drop_last()[i] == a[i]);
        }
        lemma_total_of_pointwise(a.drop_last(), b.drop_last());
    }
}

/// Every entry is itself in another order.
pub proof fn lemma_reordered_same(a: Node)
    ensures
        reordered(a, a),
    decreases a,
{
    if a is Directory {
        let children = a->children;
        assert(a.children() == children);
        assert forall|i: int| 0 <= i < children.len() implies reordered(
            #[trigger] children[i],
            children[i],
        ) by {
            lemma_reordered_same(children[i]);
        }
        assert(same_entries(a.children(), children));
    }
}

/// A directory whose entries stand in another order is the same directory
/// in another order.
pub proof fn lemma_reordered_siblings(len: u64, a: Seq<Node>, b: Seq<Node>)
    requires
        a.to_multiset() == b.to_multiset(),
    ensures
        reordered(directory(len, a), directory(len, b)),
{
    assert forall|i: int| 0 <= i < b.len() implies reordered(#[trigger] b[i], b[i]) by {
        lemma_reordered_same(b[i]);
    }
    assert(same_entries(directory(len, a).children(), b));
}

/// The order in which the directories list their entries, at any depth,
/// does not change the total.
pub proof fn lemma_reordered_total(a: Node, b: Node)
    requires
        reordered(a, b),
    ensures
        a.total() == b.total(),
    decreases b,
{
    if a is Directory && b is Directory {
        let listed = b->children;
        let mid = choose|mid: Seq<Node>|
            {
                &&& #[trigger] same_entries(a.children(), mid)
                &&& mid.len() == listed.len()
                &&& forall|i: int|
                    0 <= i < listed.len() ==> reordered(#[trigger] mid[i], listed[i])
            };
        lemma_total_of_permutation(a.children(), mid);
        assert forall|i: int| 0 <= i < mid.len() implies (#[trigger] mid[i]).total()
            == listed[i].total() by {
            assert(reordered(mid[i], listed[i]));
            lemma_reordered_total(mid[i], listed[i]);
        }
        lemma_total_of_pointwise(mid, listed);
        assert(a.total() == total_of(a.children()));
        assert(b.total() == total_of(listed));
    }
}

/// Two walks over the same entries end with the same total, in whatever
/// order each directory, at any depth, lists its entries.
pub proof fn lemma_walk_order(size: nat, a: Node, b: Node)
    requires
        reordered(a, b),
    ensures
        finish(begin(size, a)) == finish(begin(size, b)),
{
    lemma_reordered_total(a, b);
    lemma_walk_total(size, a);
    lemma_walk_total(size, b);
}

} // verus!
