//! What holds of every scan.

use vstd::prelude::*;
use crate::path::entry_path;
use crate::scanner::{settle, visits, ListingView, Progress, Scan, Visit};
use crate::tree::{first_failure_among, meshes_among, one_same_as, ChildView, TreeView};

verus! {

/// The paths found among the entries of a directory are those of the files with the wanted
/// extension at and below these entries.
proof fn lemma_meshes_among<E>(
    children: Seq<ChildView<E>>,
    dir: Seq<char>,
    target: Seq<char>,
    path: Seq<char>,
)
    ensures
        meshes_among(children, dir, target).contains(path) <==> exists|i: int|
            0 <= i < children.len() && (#[trigger] children[i]).has_mesh(dir, target, path),
    decreases children,
{
    broadcast use vstd::seq_lib::group_seq_properties;

    if children.len() > 0 {
        let front = children.drop_last();
        let last = children.last();
        lemma_meshes_among(front, dir, target, path);
        lemma_meshes_of_child(last, dir, target, path);
        if meshes_among(front, dir, target).contains(path) {
            let i = choose|i: int|
                0 <= i < front.len() && (#[trigger] front[i]).has_mesh(dir, target, path);
            assert(children[i].has_mesh(dir, target, path));
        }
        if last.has_mesh(dir, target, path) {
            assert(children[children.len() - 1].has_mesh(dir, target, path));
        }
        if exists|i: int|
            0 <= i < children.len() && (#[trigger] children[i]).has_mesh(dir, target, path) {
            let i = choose|i: int|
                0 <= i < children.len() && (#[trigger] children[i]).has_mesh(dir, target, path);
            if i < front.len() {
                assert(front[i].has_mesh(dir, target, path));
            }
        }
    }
}

/// The paths found at and below an entry are those of the files with the wanted extension
/// there.
proof fn lemma_meshes_of_child<E>(
    child: ChildView<E>,
    dir: Seq<char>,
    target: Seq<char>,
    path: Seq<char>,
)
    ensures
        child.meshes(dir, target).contains(path) <==> child.has_mesh(dir, target, path),
    decreases child,
{
    broadcast use vstd::seq_lib::group_seq_properties;

    match child {
        ChildView::Entry { name, tree } => {
            if !(tree is Other) {
                lemma_meshes_are_the_matching_files(tree, entry_path(dir, name), target, path);
            }
        },
        ChildView::Failed(_) => {},
    }
}

/// A scan finds a path if and only if a file with the wanted extension lies there. So the
/// result holds every such file below the directory, whatever its depth, and nothing else:
/// no directory, and no file with another extension.
pub proof fn lemma_meshes_are_the_matching_files<E>(
    tree: TreeView<E>,
    dir: Seq<char>,
    target: Seq<char>,
    path: Seq<char>,
)
    ensures
        tree.meshes(dir, target).contains(path) <==> tree.has_mesh(dir, target, path),
    decreases tree,
{
    broadcast use vstd::seq_lib::group_seq_properties;

    match tree {
        TreeView::Directory(children) => {
            lemma_meshes_among(children, dir, target, path);
        },
        _ => {},
    }
}

/// The set of the paths that a scan finds is the set of the paths at which a file with the
/// wanted extension lies below the directory, at whatever depth.
pub proof fn lemma_found_set_is_the_set_of_matching_files<E>(
    tree: TreeView<E>,
    dir: Seq<char>,
    target: Seq<char>,
)
    ensures
        tree.meshes(dir, target).to_set() == Set::new(
            |path: Seq<char>| tree.has_mesh(dir, target, path),
        ),
{
    assert forall|path: Seq<char>|
        tree.meshes(dir, target).contains(path) <==> tree.has_mesh(dir, target, path) by {
        lemma_meshes_are_the_matching_files(tree, dir, target, path);
    }
    assert(tree.meshes(dir, target).to_set() =~= Set::new(
        |path: Seq<char>| tree.has_mesh(dir, target, path),
    ));
}

/// Two entries that hold the same have the same meshes at and below them.
proof fn lemma_same_entry_same_meshes<E>(
    child: ChildView<E>,
    other: ChildView<E>,
    dir: Seq<char>,
    target: Seq<char>,
    path: Seq<char>,
)
    requires
        child.same_entry(other),
    ensures
        child.has_mesh(dir, target, path) <==> other.has_mesh(dir, target, path),
    decreases child,
{
    match child {
        ChildView::Entry { name, tree } => {
            let below = other->tree;
            lemma_same_entries_same_meshes(tree, below, entry_path(dir, name), target, path);
        },
        ChildView::Failed(_) => {},
    }
}

/// A mesh at or below one of `children` is one at or below one of `others`, where the two
/// directories hold the same.
proof fn lemma_mesh_of_one_is_mesh_of_other<E>(
    children: Seq<ChildView<E>>,
    others: Seq<ChildView<E>>,
    i: int,
    dir: Seq<char>,
    target: Seq<char>,
    path: Seq<char>,
)
    requires
        0 <= i < children.len(),
        children[i].same_as_one_of(others),
        children[i].has_mesh(dir, target, path),
    ensures
        exists|j: int| 0 <= j < others.len() && (#[trigger] others[j]).has_mesh(dir, target, path),
    decreases children, 0nat,
{
    let j = choose|j: int| 0 <= j < others.len() && children[i].same_entry(#[trigger] others[j]);
    lemma_same_entry_same_meshes(children[i], others[j], dir, target, path);
}

/// A mesh at or below one of `others` is one at or below one of `children`, where the two
/// directories hold the same.
proof fn lemma_mesh_of_other_is_mesh_of_one<E>(
    children: Seq<ChildView<E>>,
    others: Seq<ChildView<E>>,
    j: int,
    dir: Seq<char>,
    target: Seq<char>,
    path: Seq<char>,
)
    requires
        0 <= j < others.len(),
        one_same_as(children, others[j]),
        others[j].has_mesh(dir, target, path),
    ensures
        exists|i: int|
            0 <= i < children.len() && (#[trigger] children[i]).has_mesh(dir, target, path),
    decreases children, 0nat,
{
    let i = choose|i: int|
        0 <= i < children.len() && (#[trigger] children[i]).same_entry(others[j]);
    lemma_same_entry_same_meshes(children[i], others[j], dir, target, path);
}

/// Two trees that hold the same have the same meshes.
proof fn lemma_same_entries_same_meshes<E>(
    tree: TreeView<E>,
    other: TreeView<E>,
    dir: Seq<char>,
    target: Seq<char>,
    path: Seq<char>,
)
    requires
        tree.same_entries(other),
    ensures
        tree.has_mesh(dir, target, path) <==> other.has_mesh(dir, target, path),
    decreases tree,
{
    match tree {
        TreeView::Directory(children) => {
            let others = other->Directory_0;
            if tree.has_mesh(dir, target, path) {
                let i = choose|i: int|
                    0 <= i < children.len() && (#[trigger] children[i]).has_mesh(dir, target, path);
                lemma_mesh_of_one_is_mesh_of_other(children, others, i, dir, target, path);
            }
            if other.has_mesh(dir, target, path) {
                let j = choose|j: int|
                    0 <= j < others.len() && (#[trigger] others[j]).has_mesh(dir, target, path);
                lemma_mesh_of_other_is_mesh_of_one(children, others, j, dir, target, path);
            }
        },
        _ => {},
    }
}

/// Two scans of one tree come to the same end: what a scan yields is settled by the tree,
/// the path it lies at, the extension and the paths collected before.
pub proof fn lemma_scans_of_one_tree_agree<E>(
    tree: TreeView<E>,
    dir: Seq<char>,
    target: Seq<char>,
    meshes: Seq<Seq<char>>,
    first: Result<Vec<String>, &E>,
    second: Result<Vec<String>, &E>,
)
    requires
        tree.is_scanned(dir, target, meshes, first),
        tree.is_scanned(dir, target, meshes, second),
    ensures
        match first {
            Ok(found) => second matches Ok(again) && found.deep_view() == again.deep_view(),
            Err(failure) => second matches Err(again) && *failure == *again,
        },
{
}

/// The order in which the entries of a directory are enumerated bears on the order of the
/// paths that a scan finds, and not on which paths it finds: two trees that hold the same
/// files and directories yield the same set of paths.
pub proof fn lemma_order_of_entries_is_immaterial<E>(
    tree: TreeView<E>,
    other: TreeView<E>,
    dir: Seq<char>,
    target: Seq<char>,
)
    requires
        tree.same_entries(other),
    ensures
        tree.meshes(dir, target).to_set() == other.meshes(dir, target).to_set(),
{
    lemma_found_set_is_the_set_of_matching_files(tree, dir, target);
    lemma_found_set_is_the_set_of_matching_files(other, dir, target);
    assert forall|path: Seq<char>|
        tree.has_mesh(dir, target, path) <==> other.has_mesh(dir, target, path) by {
        lemma_same_entries_same_meshes(tree, other, dir, target, path);
    }
    assert(Set::new(|path: Seq<char>| tree.has_mesh(dir, target, path)) =~= Set::new(
        |path: Seq<char>| other.has_mesh(dir, target, path),
    ));
}

/// The scan of a path that is no directory, be it a file or nothing at all, finds nothing
/// and does not fail.
pub proof fn lemma_no_directory_nothing_found<E>(
    tree: TreeView<E>,
    dir: Seq<char>,
    target: Seq<char>,
    meshes: Seq<Seq<char>>,
)
    requires
        tree is Other,
    ensures
        tree.scanned(dir, target, meshes) == Ok::<Seq<Seq<char>>, E>(meshes),
        Scan::<E>::start(dir, target, meshes).feed(ListingView::NotADirectory) == Progress::<
            E,
        >::Finished(Ok(meshes)),
{
}

/// A walk through the entries of a directory meets a failure if and only if one of them,
/// or something below it, cannot be read.
proof fn lemma_first_failure_among<E>(children: Seq<ChildView<E>>)
    ensures
        first_failure_among(children) is Some <==> exists|i: int|
            0 <= i < children.len() && (#[trigger] children[i]).has_failure(),
    decreases children,
{
    if children.len() > 0 {
        let front = children.drop_last();
        let last = children.last();
        lemma_first_failure_among(front);
        lemma_first_failure_of_child(last);
        if first_failure_among(front) is Some {
            let i = choose|i: int| 0 <= i < front.len() && (#[trigger] front[i]).has_failure();
            assert(children[i].has_failure());
        }
        if last.has_failure() {
            assert(children[children.len() - 1].has_failure());
        }
        if exists|i: int| 0 <= i < children.len() && (#[trigger] children[i]).has_failure() {
            let i = choose|i: int|
                0 <= i < children.len() && (#[trigger] children[i]).has_failure();
            if i < front.len() {
                assert(front[i].has_failure());
            }
        }
    }
}

/// A walk meets a failure at or below an entry if and only if the entry, or something
/// below it, cannot be read.
proof fn lemma_first_failure_of_child<E>(child: ChildView<E>)
    ensures
        child.first_failure() is Some <==> child.has_failure(),
    decreases child,
{
    match child {
        ChildView::Entry { name, tree } => {
            lemma_failure_ends_the_scan(tree, Seq::empty(), Seq::empty(), Seq::empty());
        },
        ChildView::Failed(_) => {},
    }
}

/// A scan fails if and only if something in the tree cannot be read: a directory that
/// cannot be enumerated, or an entry that cannot be resolved, at whatever depth. Nothing
/// that cannot be read is passed over in silence.
pub proof fn lemma_failure_ends_the_scan<E>(
    tree: TreeView<E>,
    dir: Seq<char>,
    target: Seq<char>,
    meshes: Seq<Seq<char>>,
)
    ensures
        tree.scanned(dir, target, meshes) is Err <==> tree.has_failure(),
    decreases tree,
{
    match tree {
        TreeView::Directory(children) => {
            lemma_first_failure_among(children);
        },
        _ => {},
    }
}

/// Whether a scan that has come to `progress` still holds the paths `meshes`, and holds them
/// first. A scan that has failed holds none.
pub open spec fn keeps<E>(progress: Progress<E>, meshes: Seq<Seq<char>>) -> bool {
    match progress {
        Progress::Awaiting(scan) => meshes.is_prefix_of(scan.meshes),
        Progress::Finished(Ok(all)) => meshes.is_prefix_of(all),
        Progress::Finished(Err(_)) => true,
    }
}

/// Carrying out visits takes nothing away from what a scan has found.
proof fn lemma_settle_keeps_meshes<E>(
    target: Seq<char>,
    meshes: Seq<Seq<char>>,
    pending: Seq<Visit<Seq<char>, E>>,
)
    ensures
        keeps(settle(target, meshes, pending), meshes),
        settle(target, meshes, pending) matches Progress::Awaiting(scan) ==> scan.target == target,
    decreases pending.len(),
{
    if pending.len() > 0 {
        if let Visit::Mesh(path) = pending.first() {
            lemma_settle_keeps_meshes(target, meshes.push(path), pending.drop_first());
        }
    }
}

/// A step takes nothing away from what a scan has found: unless the scan fails, the paths
/// found before the step are the first of those found after it. And the scan goes on
/// looking for the same extension.
pub proof fn lemma_step_keeps_meshes<E>(scan: Scan<E>, listing: ListingView<E>)
    ensures
        keeps(scan.feed(listing), scan.meshes),
        scan.feed(listing) matches Progress::Awaiting(next) ==> next.target == scan.target,
{
    match listing {
        ListingView::NotADirectory => {
            lemma_settle_keeps_meshes(scan.target, scan.meshes, scan.pending);
        },
        ListingView::Entries(entries) => {
            lemma_settle_keeps_meshes(
                scan.target,
                scan.meshes,
                visits(scan.awaited, scan.target, entries) + scan.pending,
            );
        },
        ListingView::Unreadable(_) => {},
    }
}

} // verus!
