//! Names of entries and the order in which root paths are scanned.

use core::cmp::Ordering;
use crate::order::{lex_cmp, lemma_lex_cmp_equal};
use vstd::prelude::*;

verus! {

/// The text used as a name when a path has no final component.
pub const FILE_NAME_ERROR_VALUE: &'static str = "!error!";

/// What the standard library reports as the final component of a path, if
/// the path has one.
pub uninterp spec fn final_component(path: Seq<char>) -> Option<Seq<char>>;

/// The name that an entry at the given path gets in the tree.
pub open spec fn name_of_path(path: Seq<char>) -> Seq<char> {
    match final_component(path) {
        Some(name) => name,
        None => FILE_NAME_ERROR_VALUE@,
    }
}

/// Relies on `Path::file_name`: the final component of the path, or nothing
/// when the path ends in `..` or is a root or a prefix; the component is
/// turned back into a `String` without loss, since it came from one.
#[verifier::external_body]
fn path_file_name(path: &str) -> (r: Option<String>)
    ensures
        match r {
            Some(name) => final_component(path@) == Some(name@),
            None => final_component(path@) is None,
        },
{
    std::path::Path::new(path).file_name().map(|name| name.to_string_lossy().to_string())
}

/// The name that an entry at the given path gets in the tree: the path's
/// final component, or a fixed error text when it has none.
pub fn get_file_name_from_path(path: &str) -> (r: String)
    ensures
        r@ == name_of_path(path@),
{
    match path_file_name(path) {
        Some(name) => name,
        None => {
            proof {
                reveal_strlit("!error!");
            }
            String::from_str(FILE_NAME_ERROR_VALUE)
        },
    }
}

/// The views of a sequence of strings.
pub open spec fn views(s: Seq<String>) -> Seq<Seq<char>> {
    s.map_values(|x: String| x@)
}

/// What `Path::components` yields for a path, each component as its text:
/// separators are not components, repeated separators and a trailing one are
/// ignored, and `.` is kept only at the start.
pub uninterp spec fn path_components(path: Seq<char>) -> Seq<Seq<char>>;

/// Relies on `Path::components`: the components of the path, in order, each
/// turned into text through `Component::as_os_str`, which loses nothing since
/// the path came from a `str`.
#[verifier::external_body]
fn components_of(path: &str) -> (r: Vec<String>)
    ensures
        views(r@) == path_components(path@),
{
    std::path::Path::new(path).components().map(|c| c.as_os_str().to_string_lossy().to_string()).collect()
}

/// The lexicographic order of two sequences of components, each compared by
/// its text.
#[verifier::opaque]
pub open spec fn components_cmp(a: Seq<Seq<char>>, b: Seq<Seq<char>>) -> Ordering
    decreases a.len(),
{
    if a.len() == 0 {
        if b.len() == 0 {
            Ordering::Equal
        } else {
            Ordering::Less
        }
    } else if b.len() == 0 {
        Ordering::Greater
    } else if a[0] == b[0] {
        components_cmp(a.drop_first(), b.drop_first())
    } else {
        lex_cmp(a[0], b[0])
    }
}

/// Two component sequences compare equal exactly when they are the same.
pub proof fn lemma_components_cmp_equal(a: Seq<Seq<char>>, b: Seq<Seq<char>>)
    ensures
        (components_cmp(a, b) == Ordering::Equal) <==> (a == b),
    decreases a.len(),
{
    reveal(components_cmp);
    if a.len() == 0 && b.len() == 0 {
        assert(a =~= b);
    }
    if a.len() > 0 && b.len() > 0 {
        lemma_components_cmp_equal(a.drop_first(), b.drop_first());
        lemma_lex_cmp_equal(a[0], b[0]);
        if a[0] == b[0] && a.drop_first() == b.drop_first() {
            assert(a =~= seq![a[0]] + a.drop_first());
            assert(b =~= seq![b[0]] + b.drop_first());
        }
        if a == b {
            assert(a.drop_first() =~= b.drop_first());
        }
    }
}

/// The components of a root path, which decide its place and its duplicates.
pub open spec fn root_key(path: String) -> Seq<Seq<char>> {
    path_components(path@)
}

/// Relies on `slice::sort` on pairs of a component list and an index: pairs
/// are ordered by their component lists first, and lists of `String`s
/// lexicographically, each `String` by its characters.
#[verifier::external_body]
fn sort_keyed(items: &mut Vec<(Vec<String>, usize)>)
    ensures
        final(items)@.to_multiset() == old(items)@.to_multiset(),
        forall|i: int, j: int|
            0 <= i < j < final(items)@.len() ==> components_cmp(
                views((#[trigger] final(items)@[i]).0@),
                views((#[trigger] final(items)@[j]).0@),
            ) != Ordering::Greater,
{
    items.sort();
}

/// Whether two component lists are the same.
fn same_components(a: &Vec<String>, b: &Vec<String>) -> (r: bool)
    ensures
        r == (views(a@) == views(b@)),
{
    if a.len() != b.len() {
        return false;
    }
    let mut i: usize = 0;
    while i < a.len()
        invariant
            a@.len() == b@.len(),
            i <= a@.len(),
            forall|k: int| 0 <= k < i ==> a@[k]@ == b@[k]@,
        decreases a@.len() - i,
    {
        if a[i] != b[i] {
            assert(views(a@)[i as int] != views(b@)[i as int]);
            return false;
        }
        i = i + 1;
    }
    assert(views(a@) =~= views(b@));
    true
}

/// Each path's components, paired with its position.
fn keyed_paths(paths: &Vec<String>) -> (items: Vec<(Vec<String>, usize)>)
    ensures
        items@.len() == paths@.len(),
        forall|m: int|
            0 <= m < items@.len() ==> (#[trigger] items@[m]).1 == m && views(items@[m].0@)
                == root_key(paths@[m]),
{
    let n = paths.len();
    let mut items: Vec<(Vec<String>, usize)> = Vec::new();
    let mut j: usize = 0;
    while j < n
        invariant
            n == paths@.len(),
            j <= n,
            items@.len() == j,
            forall|m: int|
                0 <= m < j ==> (#[trigger] items@[m]).1 == m && views(items@[m].0@) == root_key(
                    paths@[m],
                ),
        decreases n - j,
    {
        items.push((components_of(paths[j].as_str()), j));
        j = j + 1;
    }
    items
}

/// The component list held at a position of keyed paths.
pub open spec fn key_at(items: Seq<(Vec<String>, usize)>, i: int) -> Seq<Seq<char>> {
    views(items[i].0@)
}

/// The component list of the root path at a position.
pub open spec fn path_key(paths: Seq<String>, p: int) -> Seq<Seq<char>> {
    root_key(paths[p])
}

/// The keyed paths at `i` and `i + 1` stand in component order.
pub open spec fn keys_in_order(items: Seq<(Vec<String>, usize)>, i: int) -> bool {
    components_cmp(key_at(items, i), key_at(items, i + 1)) != Ordering::Greater
}

/// The roots chosen at `k` and `k + 1` stand strictly in component order.
pub open spec fn roots_in_order(paths: Seq<String>, r: Seq<usize>, k: int) -> bool {
    components_cmp(path_key(paths, r[k] as int), path_key(paths, r[k + 1] as int)) == Ordering::Less
}

/// The positions carried by sorted keyed paths, keeping the first of each run
/// of equal component lists.
fn first_of_each_key(paths: &Vec<String>, sorted: &Vec<(Vec<String>, usize)>) -> (r: Vec<usize>)
    requires
        forall|m: int|
            0 <= m < sorted@.len() ==> (#[trigger] sorted@[m]).1 < paths@.len() && key_at(sorted@, m)
                == path_key(paths@, sorted@[m].1 as int),
        forall|i: int|
            0 <= i < sorted@.len() - 1 ==> #[trigger] keys_in_order(sorted@, i),
    ensures
        forall|k: int| 0 <= k < r@.len() ==> #[trigger] r@[k] < paths@.len(),
        forall|k: int|
            0 <= k < r@.len() - 1 ==> #[trigger] roots_in_order(paths@, r@, k),
        forall|m: int|
            #![trigger key_at(sorted@, m)]
            0 <= m < sorted@.len() ==> exists|k: int|
                #![trigger r@[k]]
                0 <= k < r@.len() && path_key(paths@, r@[k] as int) == key_at(sorted@, m),
{
    let mut r: Vec<usize> = Vec::new();
    let mut i: usize = 0;
    while i < sorted.len()
        invariant
            forall|m: int|
                0 <= m < sorted@.len() ==> (#[trigger] sorted@[m]).1 < paths@.len() && key_at(
                    sorted@,
                    m,
                ) == path_key(paths@, sorted@[m].1 as int),
            forall|i: int|
                0 <= i < sorted@.len() - 1 ==> #[trigger] keys_in_order(sorted@, i),
            i <= sorted@.len(),
            i == 0 <==> r@.len() == 0,
            i > 0 ==> path_key(paths@, r@[r@.len() - 1] as int) == key_at(sorted@, i - 1),
            forall|k: int| 0 <= k < r@.len() ==> #[trigger] r@[k] < paths@.len(),
            forall|k: int|
                0 <= k < r@.len() - 1 ==> #[trigger] roots_in_order(paths@, r@, k),
            forall|m: int|
                #![trigger key_at(sorted@, m)]
                0 <= m < i ==> exists|k: int|
                    #![trigger r@[k]]
                    0 <= k < r@.len() && path_key(paths@, r@[k] as int) == key_at(sorted@, m),
        decreases sorted@.len() - i,
    {
        let keep = if i == 0 {
            true
        } else {
            !same_components(&sorted[i - 1].0, &sorted[i].0)
        };
        let ghost before = r@;
        if keep {
            proof {
                if i > 0 {
                    assert(keys_in_order(sorted@, i - 1));
                    lemma_components_cmp_equal(key_at(sorted@, i - 1), key_at(sorted@, i as int));
                }
            }
            r.push(sorted[i].1);
            proof {
                assert(path_key(paths@, r@[r@.len() - 1] as int) == key_at(sorted@, i as int));
                assert forall|k: int| 0 <= k < r@.len() - 1 implies #[trigger] roots_in_order(
                    paths@,
                    r@,
                    k,
                ) by {
                    if k < r@.len() - 2 {
                        assert(roots_in_order(paths@, before, k));
                    }
                }
                assert forall|m: int| #![trigger key_at(sorted@, m)] 0 <= m < i + 1 implies exists|k: int|
                    #![trigger r@[k]]
                    0 <= k < r@.len() && path_key(paths@, r@[k] as int) == key_at(sorted@, m) by {
                    if m == i {
                        let k = r@.len() - 1;
                        assert(path_key(paths@, r@[k] as int) == key_at(sorted@, m));
                    } else {
                        let k = choose|k: int|
                            #![trigger before[k]]
                            0 <= k < before.len() && path_key(paths@, before[k] as int) == key_at(
                                sorted@,
                                m,
                            );
                        assert(r@[k] == before[k]);
                    }
                }
            }
        } else {
            proof {
                assert(key_at(sorted@, i - 1) == key_at(sorted@, i as int));
                let k = r@.len() - 1;
                assert(path_key(paths@, r@[k] as int) == key_at(sorted@, i as int));
            }
        }
        i = i + 1;
    }
    r
}

/// Some chosen root has the same components as the path at `j`.
pub open spec fn has_root_like(paths: Seq<String>, r: Seq<usize>, j: int) -> bool {
    exists|k: int| 0 <= k < r.len() && path_key(paths, #[trigger] r[k] as int) == path_key(paths, j)
}

/// An item of one sequence is an item of any sequence with the same multiset.
proof fn lemma_same_items<A>(a: Seq<A>, b: Seq<A>, i: int)
    requires
        a.to_multiset() == b.to_multiset(),
        0 <= i < a.len(),
    ensures
        b.contains(a[i]),
{
    broadcast use vstd::seq_lib::group_to_multiset_ensures;

    assert(a.to_multiset().count(a[i]) > 0);
}

/// Which of the root paths to scan, and in what order: the positions of one
/// path for each distinct list of components, ordered by component lists.
/// So `a/b` comes before `a-b`, and `a/b` and `a//b/` are one root.
pub fn sorted_root_indices(paths: &Vec<String>) -> (r: Vec<usize>)
    ensures
        forall|k: int| 0 <= k < r@.len() ==> #[trigger] r@[k] < paths@.len(),
        forall|k: int|
            0 <= k < r@.len() - 1 ==> #[trigger] roots_in_order(paths@, r@, k),
        forall|j: int| 0 <= j < paths@.len() ==> #[trigger] has_root_like(paths@, r@, j),
{
    let items = keyed_paths(paths);
    let ghost given = items@;
    let mut sorted = items;
    sort_keyed(&mut sorted);
    proof {
        assert forall|m: int| 0 <= m < sorted@.len() implies (#[trigger] sorted@[m]).1 < paths@.len()
            && key_at(sorted@, m) == path_key(paths@, sorted@[m].1 as int) by {
            lemma_same_items(sorted@, given, m);
        }
        assert forall|i: int| 0 <= i < sorted@.len() - 1 implies #[trigger] keys_in_order(sorted@, i) by {
            assert(components_cmp(views(sorted@[i].0@), views(sorted@[i + 1].0@)) != Ordering::Greater);
        }
    }
    let r = first_of_each_key(paths, &sorted);
    proof {
        assert forall|j: int| 0 <= j < paths@.len() implies #[trigger] has_root_like(
            paths@,
            r@,
            j,
        ) by {
            assert(given[j].1 == j);
            lemma_same_items(given, sorted@, j);
            let m = choose|m: int| 0 <= m < sorted@.len() && sorted@[m] == given[j];
            assert(key_at(sorted@, m) == path_key(paths@, j));
            let k = choose|k: int|
                #![trigger r@[k]]
                0 <= k < r@.len() && path_key(paths@, r@[k] as int) == key_at(sorted@, m);
            assert(0 <= k < r@.len() && path_key(paths@, r@[k] as int) == path_key(paths@, j));
        }
    }
    r
}

} // verus!
