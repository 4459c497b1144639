//! A size-annotated directory tree, built bottom-up.
//!
//! Reading the file system is the caller's part: it probes each entry's
//! metadata, lists directories, and hands the results to the constructors
//! here, children before parents. Everything the tree promises (sizes and
//! descendant counts rolled up from the children, children ordered by size
//! descending and then by name) is established by these constructors.

use core::cmp::Ordering;
use rayon::slice::ParallelSliceMut;
use crate::order::{compare_names, lex_cmp, lemma_lex_cmp_equal, lemma_lex_cmp_flip};
use crate::size::Size;
use vstd::prelude::*;

pub use crate::paths::{get_file_name_from_path, sorted_root_indices, FILE_NAME_ERROR_VALUE};

verus! {

broadcast use vstd::seq_lib::group_to_multiset_ensures;

/// The kinds of directory items.
#[derive(Debug, Clone, Copy, PartialEq, Eq, Structural)]
pub enum DirectoryItemType {
    /// A directory.
    Directory,
    /// A regular file.
    File,
    /// A symbolic link; never followed.
    SymbolicLink,
    /// The kind could not be determined or is not supported.
    Unknown,
}

/// What a metadata query that does not follow symbolic links reported for
/// an entry.
#[derive(Debug, Clone, Copy, PartialEq, Eq, Structural)]
pub enum EntryMetadata {
    /// A regular file of the given length in bytes.
    File { len: u64 },
    /// A symbolic link.
    SymbolicLink,
    /// A directory.
    Directory,
    /// Something else, such as a socket or a device.
    Other,
    /// The query failed.
    Unavailable,
}

/// A node of the tree.
#[derive(Debug)]
pub struct DirectoryItem {
    /// The last segment of the path that ends with this item; for a root,
    /// the whole path as given.
    pub path_segment: String,
    /// The item kind.
    pub item_type: DirectoryItemType,
    /// The size in bytes; for a directory, the sum of its children's sizes.
    pub size_in_bytes: Size,
    /// For a directory, the number of items below it.
    pub descendant_count: usize,
    /// For a directory, its children, largest first.
    pub children: Vec<DirectoryItem>,
}

/// The order of the tree: larger sizes first, equal sizes by name.
pub open spec fn item_cmp(a: DirectoryItem, b: DirectoryItem) -> Ordering {
    if a.size_in_bytes@ > b.size_in_bytes@ {
        Ordering::Less
    } else if a.size_in_bytes@ < b.size_in_bytes@ {
        Ordering::Greater
    } else {
        lex_cmp(a.path_segment@, b.path_segment@)
    }
}

/// Whether `a` may stand before `b` among siblings.
pub open spec fn precedes(a: DirectoryItem, b: DirectoryItem) -> bool {
    item_cmp(a, b) != Ordering::Greater
}

/// Whether the items stand in the tree's order.
pub open spec fn is_ordered(s: Seq<DirectoryItem>) -> bool {
    forall|i: int, j: int| 0 <= i < j < s.len() ==> precedes(#[trigger] s[i], #[trigger] s[j])
}

/// The sum of `f` over the items.
pub open spec fn sum_of(s: Seq<DirectoryItem>, f: spec_fn(DirectoryItem) -> nat) -> nat
    decreases s.len(),
{
    if s.len() == 0 {
        0
    } else {
        sum_of(s.drop_last(), f) + f(s.last())
    }
}

/// An item's size in bytes.
pub open spec fn size_of_item(c: DirectoryItem) -> nat {
    c.size_in_bytes@ as nat
}

/// What an item adds to its parent's descendant count: itself, and for a
/// directory also its descendants.
pub open spec fn weight_of_item(c: DirectoryItem) -> nat {
    if c.item_type == DirectoryItemType::Directory {
        (1 + c.descendant_count) as nat
    } else {
        1
    }
}

/// An item's size, as a function.
pub open spec fn size_fn() -> spec_fn(DirectoryItem) -> nat {
    |c: DirectoryItem| size_of_item(c)
}

/// An item's weight, as a function.
pub open spec fn weight_fn() -> spec_fn(DirectoryItem) -> nat {
    |c: DirectoryItem| weight_of_item(c)
}

/// The sum of the items' sizes.
pub open spec fn sum_sizes(s: Seq<DirectoryItem>) -> nat {
    sum_of(s, size_fn())
}

/// The descendant count of a directory with these children.
pub open spec fn sum_descendants(s: Seq<DirectoryItem>) -> nat {
    sum_of(s, weight_fn())
}

/// Whether a directory with these children has a size and a descendant count
/// that fit the machine's integers.
pub open spec fn fits(s: Seq<DirectoryItem>) -> bool {
    sum_sizes(s) <= u64::MAX && sum_descendants(s) <= usize::MAX
}

/// The invariant of one node: a directory's size and descendant count are
/// rolled up from its children, which stand in the tree's order; any other
/// item has no children and no descendants.
pub open spec fn node_ok(x: DirectoryItem) -> bool {
    if x.item_type == DirectoryItemType::Directory {
        &&& x.size_in_bytes@ == sum_sizes(x.children@)
        &&& x.descendant_count == sum_descendants(x.children@)
        &&& is_ordered(x.children@)
    } else {
        &&& x.children@.len() == 0
        &&& x.descendant_count == 0
    }
}

/// Every node of every tree of the forest meets the node invariant.
pub open spec fn forest_ok(s: Seq<DirectoryItem>) -> bool
    decreases s,
{
    if s.len() == 0 {
        true
    } else {
        &&& forest_ok(s.drop_last())
        &&& node_ok(s.last())
        &&& forest_ok(s.last().children@)
    }
}

/// Every node of the tree meets the node invariant.
pub open spec fn well_formed(x: DirectoryItem) -> bool {
    forest_ok(seq![x])
}

/// A leaf of the given kind: no size, no children.
pub open spec fn is_empty_leaf(r: DirectoryItem, name: Seq<char>, kind: DirectoryItemType) -> bool {
    &&& r.path_segment@ == name
    &&& r.item_type == kind
    &&& r.size_in_bytes@ == 0
    &&& r.descendant_count == 0
    &&& r.children@.len() == 0
}

/// A tree is sound exactly when its root meets the node invariant and its
/// children form a sound forest.
pub proof fn lemma_well_formed_unfold(x: DirectoryItem)
    ensures
        well_formed(x) == (node_ok(x) && forest_ok(x.children@)),
{
    let s = seq![x];
    assert(s.drop_last() =~= Seq::<DirectoryItem>::empty());
    assert(s.last() == x);
    assert(forest_ok(Seq::<DirectoryItem>::empty()));
}

/// A forest is sound exactly when each of its trees is.
pub proof fn lemma_forest_ok(s: Seq<DirectoryItem>)
    ensures
        forest_ok(s) <==> forall|i: int| 0 <= i < s.len() ==> well_formed(#[trigger] s[i]),
    decreases s.len(),
{
    if s.len() > 0 {
        lemma_forest_ok(s.drop_last());
        let x = s.last();
        lemma_well_formed_unfold(x);
        if forall|i: int| 0 <= i < s.len() ==> well_formed(#[trigger] s[i]) {
            assert forall|i: int| 0 <= i < s.drop_last().len() implies well_formed(
                #[trigger] s.drop_last()[i],
            ) by {
                assert(s.drop_last()[i] == s[i]);
            }
            assert(well_formed(s[s.len() - 1]));
        }
        if forest_ok(s) {
            assert forall|i: int| 0 <= i < s.len() implies well_formed(#[trigger] s[i]) by {
                if i < s.len() - 1 {
                    assert(s.drop_last()[i] == s[i]);
                }
            }
        }
    }
}

/// The children of a sound tree are sound trees.
pub proof fn lemma_children_well_formed(x: DirectoryItem)
    requires
        well_formed(x),
    ensures
        node_ok(x),
        forall|i: int| 0 <= i < x.children@.len() ==> well_formed(#[trigger] x.children@[i]),
{
    lemma_well_formed_unfold(x);
    lemma_forest_ok(x.children@);
}

/// A sum over a concatenation is the sum of the sums.
proof fn lemma_sum_of_concat(a: Seq<DirectoryItem>, b: Seq<DirectoryItem>, f: spec_fn(DirectoryItem) -> nat)
    ensures
        sum_of(a + b, f) == sum_of(a, f) + sum_of(b, f),
    decreases b.len(),
{
    if b.len() == 0 {
        assert(a + b =~= a);
    } else {
        lemma_sum_of_concat(a, b.drop_last(), f);
        assert((a + b).drop_last() =~= a + b.drop_last());
    }
}

/// A sum does not depend on the order of the items.
pub proof fn lemma_sum_of_permutation(
    s1: Seq<DirectoryItem>,
    s2: Seq<DirectoryItem>,
    f: spec_fn(DirectoryItem) -> nat,
)
    requires
        s1.to_multiset() == s2.to_multiset(),
    ensures
        sum_of(s1, f) == sum_of(s2, f),
    decreases s1.len(),
{
    if s1.len() == 0 {
        assert(s2.to_multiset().len() == 0);
    } else {
        let x = s1.last();
        assert(s1 =~= s1.drop_last().push(x));
        assert(s1.to_multiset().count(x) > 0);
        assert(s2.contains(x));
        let j = choose|j: int| 0 <= j < s2.len() && s2[j] == x;
        let rest = s2.remove(j);
        assert(rest.to_multiset() =~= s2.to_multiset().remove(x));
        assert(s1.drop_last().to_multiset() =~= s1.to_multiset().remove(x));
        lemma_sum_of_permutation(s1.drop_last(), rest, f);
        let front = s2.subrange(0, j);
        let back = s2.subrange(j + 1, s2.len() as int);
        assert(rest =~= front + back);
        assert(s2 =~= (front + seq![x]) + back);
        lemma_sum_of_concat(front, back, f);
        lemma_sum_of_concat(front + seq![x], back, f);
        assert((front + seq![x]).drop_last() =~= front);
    }
}

/// A sum over a prefix is at most the sum over the whole.
proof fn lemma_sum_of_prefix(s: Seq<DirectoryItem>, i: int, f: spec_fn(DirectoryItem) -> nat)
    requires
        0 <= i <= s.len(),
    ensures
        sum_of(s.subrange(0, i), f) <= sum_of(s, f),
    decreases s.len() - i,
{
    if i < s.len() {
        lemma_sum_of_prefix(s, i + 1, f);
        assert(s.subrange(0, i + 1).drop_last() =~= s.subrange(0, i));
    } else {
        assert(s.subrange(0, i) =~= s);
    }
}

/// Whether `path`, a list of child positions, leads from `x` to a node.
pub open spec fn is_node_path(x: DirectoryItem, path: Seq<int>) -> bool
    decreases path.len(),
{
    path.len() == 0 || (0 <= path[0] < x.children@.len() && is_node_path(
        x.children@[path[0]],
        path.drop_first(),
    ))
}

/// The node that `path` leads to from `x`.
pub open spec fn node_at(x: DirectoryItem, path: Seq<int>) -> DirectoryItem
    decreases path.len(),
{
    if path.len() > 0 && 0 <= path[0] < x.children@.len() {
        node_at(x.children@[path[0]], path.drop_first())
    } else {
        x
    }
}

/// Every node of a sound tree is a sound tree.
pub proof fn lemma_every_node_well_formed(x: DirectoryItem, path: Seq<int>)
    requires
        well_formed(x),
        is_node_path(x, path),
    ensures
        well_formed(node_at(x, path)),
        node_ok(node_at(x, path)),
    decreases path.len(),
{
    lemma_children_well_formed(x);
    if path.len() > 0 {
        lemma_every_node_well_formed(x.children@[path[0]], path.drop_first());
    }
}

/// Aggregation: in a sound tree, every directory node's size is the sum of
/// its children's sizes, and its descendant count adds, for each child, one
/// and, for a directory child, that child's own descendant count.
pub proof fn lemma_aggregation(x: DirectoryItem, path: Seq<int>)
    requires
        well_formed(x),
        is_node_path(x, path),
        node_at(x, path).item_type == DirectoryItemType::Directory,
    ensures
        node_at(x, path).size_in_bytes@ == sum_sizes(node_at(x, path).children@),
        node_at(x, path).descendant_count == sum_descendants(node_at(x, path).children@),
{
    lemma_every_node_well_formed(x, path);
}

/// Ordering: in a sound tree, of two adjacent children of any node, the
/// first is at least as large, and when both are equally large its name comes
/// first or is the same. Only directory nodes have children.
pub proof fn lemma_ordering(x: DirectoryItem, path: Seq<int>, i: int)
    requires
        well_formed(x),
        is_node_path(x, path),
        0 <= i,
        i + 1 < node_at(x, path).children@.len(),
    ensures
        node_at(x, path).item_type == DirectoryItemType::Directory,
        node_at(x, path).children@[i].size_in_bytes@ >= node_at(x, path).children@[i
            + 1].size_in_bytes@,
        node_at(x, path).children@[i].size_in_bytes@ == node_at(x, path).children@[i
            + 1].size_in_bytes@ ==> lex_cmp(
            node_at(x, path).children@[i].path_segment@,
            node_at(x, path).children@[i + 1].path_segment@,
        ) != Ordering::Greater,
{
    lemma_every_node_well_formed(x, path);
    let y = node_at(x, path);
    assert(precedes(y.children@[i], y.children@[i + 1]));
}

/// Symbolic links are not traversed: an entry reported as a link is never
/// listed, and becomes a link leaf with no size and no children, whatever it
/// points to.
pub proof fn lemma_links_not_followed(meta: EntryMetadata)
    requires
        meta == EntryMetadata::SymbolicLink,
    ensures
        !spec_expands(meta),
        kind_of(meta) == DirectoryItemType::SymbolicLink,
{
}

/// Whether no two of the items have the same name, as among the entries of
/// one directory.
pub open spec fn names_distinct(s: Seq<DirectoryItem>) -> bool {
    forall|i: int, j: int|
        0 <= i < s.len() && 0 <= j < s.len() && i != j ==> (#[trigger] s[i]).path_segment@
            != (#[trigger] s[j]).path_segment@
}

/// Two items that may each stand before the other have the same size and name.
proof fn lemma_precedes_both_ways(a: DirectoryItem, b: DirectoryItem)
    requires
        precedes(a, b),
        precedes(b, a),
    ensures
        a.size_in_bytes@ == b.size_in_bytes@,
        a.path_segment@ == b.path_segment@,
{
    lemma_lex_cmp_flip(a.path_segment@, b.path_segment@);
    lemma_lex_cmp_equal(a.path_segment@, b.path_segment@);
}

/// Two ordered arrangements of the same items with distinct names are the
/// same sequence.
pub proof fn lemma_ordered_arrangement_unique(s: Seq<DirectoryItem>, t: Seq<DirectoryItem>)
    requires
        is_ordered(s),
        is_ordered(t),
        s.to_multiset() == t.to_multiset(),
        names_distinct(s),
    ensures
        s == t,
    decreases s.len(),
{
    if s.len() == 0 {
        assert(t.to_multiset().len() == 0);
        assert(s =~= t);
    } else {
        assert(s.to_multiset().count(s[0]) > 0);
        assert(t.contains(s[0]));
        let p = choose|p: int| 0 <= p < t.len() && t[p] == s[0];
        assert(t.to_multiset().count(t[0]) > 0);
        assert(s.contains(t[0]));
        let q = choose|q: int| 0 <= q < s.len() && s[q] == t[0];
        if q != 0 {
            if p != 0 {
                assert(precedes(s[0], s[q]));
                assert(precedes(t[0], t[p]));
                lemma_precedes_both_ways(s[0], s[q]);
            }
            assert(s[0].path_segment@ == s[q].path_segment@);
        }
        assert(s[0] == t[0]);
        let s1 = s.drop_first();
        let t1 = t.drop_first();
        assert(s1 =~= s.remove(0));
        assert(t1 =~= t.remove(0));
        assert(s1.to_multiset() =~= t1.to_multiset());
        assert forall|i: int, j: int| 0 <= i < j < s1.len() implies precedes(
            #[trigger] s1[i],
            #[trigger] s1[j],
        ) by {
            assert(s1[i] == s[i + 1] && s1[j] == s[j + 1]);
        }
        assert forall|i: int, j: int| 0 <= i < j < t1.len() implies precedes(
            #[trigger] t1[i],
            #[trigger] t1[j],
        ) by {
            assert(t1[i] == t[i + 1] && t1[j] == t[j + 1]);
        }
        assert forall|i: int, j: int|
            0 <= i < s1.len() && 0 <= j < s1.len() && i != j implies (#[trigger] s1[i]).path_segment@
            != (#[trigger] s1[j]).path_segment@ by {
            assert(s1[i] == s[i + 1] && s1[j] == s[j + 1]);
        }
        lemma_ordered_arrangement_unique(s1, t1);
        assert(s =~= t) by {
            assert forall|i: int| 0 <= i < s.len() implies s[i] == t[i] by {
                if i > 0 {
                    assert(s[i] == s1[i - 1]);
                    assert(t[i] == t1[i - 1]);
                }
            }
        }
    }
}

/// Idempotence: two directories built from the same entries, in whatever
/// order they were listed, have the same size and descendant count, compare
/// equal in the tree's order, and, when the entries' names are distinct as in
/// any directory, hold the very same sequence of children. So scanning an
/// unchanged tree twice gives equal children at every level, bottom-up.
pub proof fn lemma_rebuild_same_node(a: DirectoryItem, b: DirectoryItem)
    requires
        node_ok(a),
        node_ok(b),
        a.item_type == DirectoryItemType::Directory,
        b.item_type == DirectoryItemType::Directory,
        a.path_segment@ == b.path_segment@,
        a.children@.to_multiset() == b.children@.to_multiset(),
    ensures
        a.size_in_bytes@ == b.size_in_bytes@,
        a.descendant_count == b.descendant_count,
        item_cmp(a, b) == Ordering::Equal,
        names_distinct(a.children@) ==> a.children@ == b.children@,
{
    lemma_sum_of_permutation(a.children@, b.children@, size_fn());
    lemma_sum_of_permutation(a.children@, b.children@, weight_fn());
    lemma_lex_cmp_equal(a.path_segment@, b.path_segment@);
    if names_distinct(a.children@) {
        lemma_ordered_arrangement_unique(a.children@, b.children@);
    }
}

/// Whether an entry with this metadata is a directory to be listed; symbolic
/// links never are, whatever they point to.
pub open spec fn spec_expands(meta: EntryMetadata) -> bool {
    meta == EntryMetadata::Directory
}

/// The kind of item that an entry with this metadata becomes.
pub open spec fn kind_of(meta: EntryMetadata) -> DirectoryItemType {
    match meta {
        EntryMetadata::File { .. } => DirectoryItemType::File,
        EntryMetadata::SymbolicLink => DirectoryItemType::SymbolicLink,
        EntryMetadata::Directory => DirectoryItemType::Directory,
        _ => DirectoryItemType::Unknown,
    }
}

/// Whether an entry with this metadata is a directory to be listed.
pub fn expands(meta: &EntryMetadata) -> (r: bool)
    ensures
        r == spec_expands(*meta),
{
    match meta {
        EntryMetadata::Directory => true,
        _ => false,
    }
}

/// Relies on rayon's `ParallelSliceMut::par_sort_by`: it sorts the slice in
/// parallel by the comparator, here `DirectoryItem::cmp`, a total order.
#[verifier::external_body]
fn sort_items(items: &mut Vec<DirectoryItem>)
    ensures
        final(items)@.to_multiset() == old(items)@.to_multiset(),
        is_ordered(final(items)@),
{
    items.par_sort_by(|a, b| a.cmp(b));
}

/// The size and descendant count of a directory with these children, or
/// nothing when either does not fit the machine's integers.
fn rolled_up_totals(children: &Vec<DirectoryItem>) -> (r: Option<(u64, usize)>)
    ensures
        match r {
            Some((size, count)) => fits(children@) && size == sum_sizes(children@) && count
                == sum_descendants(children@),
            None => !fits(children@),
        },
{
    let mut size: u64 = 0;
    let mut count: usize = 0;
    let mut i: usize = 0;
    while i < children.len()
        invariant
            i <= children@.len(),
            size == sum_sizes(children@.subrange(0, i as int)),
            count == sum_descendants(children@.subrange(0, i as int)),
        decreases children@.len() - i,
    {
        let ghost next = children@.subrange(0, i as int + 1);
        proof {
            assert(next.drop_last() =~= children@.subrange(0, i as int));
            assert(next.last() == children@[i as int]);
            lemma_sum_of_prefix(children@, i as int + 1, size_fn());
            lemma_sum_of_prefix(children@, i as int + 1, weight_fn());
        }
        assert(sum_sizes(next) == size + children@[i as int].size_in_bytes@);
        assert(sum_descendants(next) == count + weight_of_item(children@[i as int]));
        let child = &children[i];
        let child_size = child.size_in_bytes.get_value();
        if child_size > u64::MAX - size {
            return None;
        }
        let weight: usize = if child.item_type == DirectoryItemType::Directory {
            if child.descendant_count == usize::MAX {
                return None;
            }
            child.descendant_count + 1
        } else {
            1
        };
        if weight > usize::MAX - count {
            return None;
        }
        size = size + child_size;
        count = count + weight;
        i = i + 1;
    }
    proof {
        assert(children@.subrange(0, i as int) =~= children@);
    }
    Some((size, count))
}

impl DirectoryItem {
    /// Compares two items in the tree's order: the larger first, and items of
    /// equal size by name.
    pub fn cmp(&self, other: &DirectoryItem) -> (r: Ordering)
        ensures
            r == item_cmp(*self, *other),
    {
        let a = self.size_in_bytes.get_value();
        let b = other.size_in_bytes.get_value();
        if a > b {
            Ordering::Less
        } else if a < b {
            Ordering::Greater
        } else {
            compare_names(&self.path_segment, &other.path_segment)
        }
    }

    /// A leaf item that stands for an entry that could not be read.
    pub fn from_failure(path_segment: String) -> (r: DirectoryItem)
        ensures
            is_empty_leaf(r, path_segment@, DirectoryItemType::Unknown),
            well_formed(r),
    {
        let r = DirectoryItem {
            path_segment,
            item_type: DirectoryItemType::Unknown,
            size_in_bytes: Size::new(0),
            descendant_count: 0,
            children: Vec::new(),
        };
        proof {
            lemma_well_formed_unfold(r);
        }
        r
    }

    /// A leaf item for a symbolic link; links are never followed.
    pub fn from_link(path_segment: String) -> (r: DirectoryItem)
        ensures
            is_empty_leaf(r, path_segment@, DirectoryItemType::SymbolicLink),
            well_formed(r),
    {
        let r = DirectoryItem {
            path_segment,
            item_type: DirectoryItemType::SymbolicLink,
            size_in_bytes: Size::new(0),
            descendant_count: 0,
            children: Vec::new(),
        };
        proof {
            lemma_well_formed_unfold(r);
        }
        r
    }

    /// A leaf item for a regular file of the given length.
    pub fn from_file_size(path_segment: String, size_in_bytes: u64) -> (r: DirectoryItem)
        ensures
            r.path_segment@ == path_segment@,
            r.item_type == DirectoryItemType::File,
            r.size_in_bytes@ == size_in_bytes,
            r.descendant_count == 0,
            r.children@.len() == 0,
            well_formed(r),
    {
        let r = DirectoryItem {
            path_segment,
            item_type: DirectoryItemType::File,
            size_in_bytes: Size::new(size_in_bytes),
            descendant_count: 0,
            children: Vec::new(),
        };
        proof {
            lemma_well_formed_unfold(r);
        }
        r
    }

    /// A leaf item for an entry that is not a directory to be listed: a file
    /// with its length, a symbolic link, or an Unknown item for anything else.
    /// A directory entry given here becomes an empty directory.
    pub fn from_metadata(path_segment: String, meta: EntryMetadata) -> (r: DirectoryItem)
        ensures
            r.path_segment@ == path_segment@,
            r.item_type == kind_of(meta),
            r.size_in_bytes@ == match meta {
                EntryMetadata::File { len } => len,
                _ => 0u64,
            },
            r.descendant_count == 0,
            r.children@.len() == 0,
            well_formed(r),
    {
        match meta {
            EntryMetadata::File { len } => Self::from_file_size(path_segment, len),
            EntryMetadata::SymbolicLink => Self::from_link(path_segment),
            EntryMetadata::Directory => {
                let r = Self::from_directory(path_segment, Vec::new());
                proof {
                    assert(sum_sizes(Seq::<DirectoryItem>::empty()) == 0);
                    assert(sum_descendants(Seq::<DirectoryItem>::empty()) == 0);
                    assert(r.children@.to_multiset().len() == 0);
                }
                r
            },
            _ => Self::from_failure(path_segment),
        }
    }

    /// A directory whose entries could not be listed: it holds one Unknown
    /// item of the same name, and nothing else.
    pub fn from_unreadable_directory(path_segment: String) -> (r: DirectoryItem)
        ensures
            r.path_segment@ == path_segment@,
            r.item_type == DirectoryItemType::Directory,
            r.size_in_bytes@ == 0,
            r.descendant_count == 1,
            r.children@.len() == 1,
            is_empty_leaf(r.children@[0], path_segment@, DirectoryItemType::Unknown),
            well_formed(r),
    {
        let unknown = Self::from_failure(path_segment.clone());
        let mut children: Vec<DirectoryItem> = Vec::new();
        children.push(unknown);
        let ghost given = children@;
        proof {
            assert(given.drop_last() =~= Seq::<DirectoryItem>::empty());
            assert(given.last() == given[0]);
            assert(sum_of(given.drop_last(), size_fn()) == 0);
            assert(sum_of(given.drop_last(), weight_fn()) == 0);
            assert(sum_sizes(given) == 0);
            assert(sum_descendants(given) == 1);
        }
        let r = Self::from_directory(path_segment, children);
        proof {
            assert(fits(given));
            lemma_sum_of_permutation(r.children@, given, size_fn());
            lemma_sum_of_permutation(r.children@, given, weight_fn());
            assert(r.children@.to_multiset().len() == 1);
            assert(r.children@.to_multiset().count(given[0]) > 0);
            assert(r.children@.contains(given[0]));
        }
        r
    }

    /// The item for a root: the scanned item renamed to the root's whole
    /// path, as given, with everything else kept.
    pub fn from_root(path: String, item: DirectoryItem) -> (r: DirectoryItem)
        ensures
            r.path_segment@ == path@,
            r.item_type == item.item_type,
            r.size_in_bytes == item.size_in_bytes,
            r.descendant_count == item.descendant_count,
            r.children@ == item.children@,
            well_formed(item) ==> well_formed(r),
    {
        let r = DirectoryItem {
            path_segment: path,
            item_type: item.item_type,
            size_in_bytes: item.size_in_bytes,
            descendant_count: item.descendant_count,
            children: item.children,
        };
        proof {
            lemma_well_formed_unfold(item);
            lemma_well_formed_unfold(r);
        }
        r
    }

    /// A directory item with the given children, which are sorted into the
    /// tree's order and whose sizes and descendant counts are rolled up.
    /// Where the totals would not fit the machine's integers, the result is
    /// an Unknown leaf instead.
    pub fn from_directory(path_segment: String, mut children: Vec<DirectoryItem>) -> (r: DirectoryItem)
        ensures
            fits(children@) ==> {
                &&& r.path_segment@ == path_segment@
                &&& r.item_type == DirectoryItemType::Directory
                &&& r.children@.to_multiset() == children@.to_multiset()
                &&& node_ok(r)
            },
            !fits(children@) ==> is_empty_leaf(r, path_segment@, DirectoryItemType::Unknown),
            (forall|i: int| 0 <= i < children@.len() ==> well_formed(#[trigger] children@[i]))
                ==> well_formed(r),
    {
        let ghost given = children@;
        sort_items(&mut children);
        proof {
            lemma_sum_of_permutation(children@, given, size_fn());
            lemma_sum_of_permutation(children@, given, weight_fn());
        }
        let (size, count) = match rolled_up_totals(&children) {
            Some(totals) => totals,
            None => {
                return Self::from_failure(path_segment);
            },
        };
        let r = DirectoryItem {
            path_segment,
            item_type: DirectoryItemType::Directory,
            size_in_bytes: Size::new(size),
            descendant_count: count,
            children,
        };
        proof {
            lemma_well_formed_unfold(r);
            if forall|i: int| 0 <= i < given.len() ==> well_formed(#[trigger] given[i]) {
                assert forall|j: int| 0 <= j < r.children@.len() implies well_formed(
                    #[trigger] r.children@[j],
                ) by {
                    let x = r.children@[j];
                    assert(r.children@.to_multiset().count(x) > 0);
                    assert(given.contains(x));
                }
                lemma_forest_ok(r.children@);
            }
        }
        r
    }
}

impl PartialEq for DirectoryItem {
    /// Items are equal when their sizes are.
    fn eq(&self, other: &DirectoryItem) -> (r: bool) {
        self.size_in_bytes.get_value() == other.size_in_bytes.get_value()
    }
}

impl vstd::std_specs::cmp::PartialEqSpecImpl for DirectoryItem {
    open spec fn obeys_eq_spec() -> bool {
        true
    }

    open spec fn eq_spec(&self, other: &DirectoryItem) -> bool {
        self.size_in_bytes@ == other.size_in_bytes@
    }
}

impl PartialOrd for DirectoryItem {
    /// The tree's order; every two items are comparable.
    fn partial_cmp(&self, other: &DirectoryItem) -> (r: Option<Ordering>) {
        Some(self.cmp(other))
    }
}

impl vstd::std_specs::cmp::PartialOrdSpecImpl for DirectoryItem {
    open spec fn obeys_partial_cmp_spec() -> bool {
        true
    }

    open spec fn partial_cmp_spec(&self, other: &DirectoryItem) -> Option<Ordering> {
        Some(item_cmp(*self, *other))
    }
}

} // verus!
