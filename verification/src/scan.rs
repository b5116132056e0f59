//! Scanning a directory tree that is held in memory.

use vstd::prelude::*;
use crate::path::{entry_path, matches_extension};
use crate::scanner::{
    entry_view, entry_views, lemma_visits_first, settle, visit, visits, Entry, EntryView, Listing,
    Progress, Scan, Scanner, Step, Visit,
};
use crate::tree::{
    child_views, first_failure_among, lemma_child_views, meshes_among, Child, ChildView, Tree,
    TreeView,
};

verus! {

/// Whether `entry` is what enumerating a directory yields for `child`.
spec fn lists<E>(child: ChildView<E>, entry: Result<EntryView, &E>) -> bool {
    match child {
        ChildView::Entry { name, tree } => entry matches Ok(entry) && entry.name == name
            && entry.is_dir == !(tree is Other),
        ChildView::Failed(failure) => entry matches Err(met) && *met == failure,
    }
}

/// What enumerating a directory with the children `children` yields.
fn listing_of<'a, E>(children: &'a Vec<Child<E>>) -> (listing: Vec<Result<Entry, &'a E>>)
    ensures
        listing.len() == children.len(),
        forall|i: int|
            0 <= i < children.len() ==> lists(children[i]@, entry_view(#[trigger] listing[i])),
{
    let mut listing: Vec<Result<Entry, &'a E>> = Vec::new();
    for i in 0..children.len()
        invariant
            listing.len() == i,
            forall|j: int| 0 <= j < i ==> lists(children[j]@, entry_view(#[trigger] listing[j])),
    {
        match &children[i] {
            Child::Entry { name, tree } => {
                let is_dir = match tree {
                    Tree::Other => false,
                    _ => true,
                };
                listing.push(Ok(Entry { name: name.clone(), is_dir }));
            },
            Child::Failed(failure) => {
                listing.push(Err(failure));
            },
        }
    }
    listing
}

/// Whether a scan that has come to `step` is where one stands that started with the paths
/// `found` and the visits `pending`, was handed the entries of the directory `dir`, and has
/// dealt with the children `seen` of it, so that the entries `left` are still before it.
spec fn keeps_pace<E>(
    step: Progress<&E>,
    seen: Seq<ChildView<E>>,
    left: Seq<Result<EntryView, &E>>,
    dir: Seq<char>,
    target: Seq<char>,
    found: Seq<Seq<char>>,
    pending: Seq<Visit<Seq<char>, &E>>,
) -> bool {
    match first_failure_among(seen) {
        Some(failure) => step matches Progress::Finished(Err(met)) && *met == failure,
        None => step == settle(
            target,
            found + meshes_among(seen, dir, target),
            visits(dir, target, left) + pending,
        ),
    }
}

/// A scan that keeps pace and has no directory to enter at the next child keeps pace
/// after that child as it stands.
proof fn lemma_keeps_pace_past<E>(
    step: Progress<&E>,
    children: Seq<ChildView<E>>,
    entries: Seq<Result<EntryView, &E>>,
    at: int,
    dir: Seq<char>,
    target: Seq<char>,
    found: Seq<Seq<char>>,
    pending: Seq<Visit<Seq<char>, &E>>,
)
    requires
        0 <= at < children.len() == entries.len(),
        lists(children[at], entries[at]),
        keeps_pace(step, children.take(at), entries.skip(at), dir, target, found, pending),
        children[at] matches ChildView::Entry { tree, .. } ==> tree is Other,
    ensures
        keeps_pace(step, children.take(at + 1), entries.skip(at + 1), dir, target, found, pending),
{
    let seen = children.take(at);
    let own = visit(dir, target, entries[at]);
    let rest = visits(dir, target, entries.skip(at + 1)) + pending;
    let so_far = found + meshes_among(seen, dir, target);
    lemma_child_in_turn(children, entries, at, dir, target);
    assert(visits(dir, target, entries.skip(at)) + pending =~= own + rest);
    match children[at] {
        ChildView::Entry { name, tree } => {
            if matches_extension(name, target) {
                let path = entry_path(dir, name);
                assert((own + rest).drop_first() =~= rest);
                assert(found + (meshes_among(seen, dir, target) + seq![path]) =~= so_far.push(
                    path,
                ));
            }
        },
        ChildView::Failed(_) => {},
    }
}

/// Whether a scan that waited as `entered` says and was then handed the entries of `tree`
/// and of the directories below it has come to `after`.
spec fn is_through<E>(after: Progress<&E>, entered: Scan<&E>, tree: TreeView<E>) -> bool {
    match tree.first_failure() {
        Some(failure) => after matches Progress::Finished(Err(met)) && *met == failure,
        None => after == settle(
            entered.target,
            entered.meshes + tree.meshes(entered.awaited, entered.target),
            entered.pending,
        ),
    }
}

/// A scan that keeps pace and has a directory at the next child waits for the entries of
/// that directory, unless it has failed. Once it is through with the directory, it keeps
/// pace after that child.
proof fn lemma_keeps_pace_through<E>(
    before: Progress<&E>,
    after: Progress<&E>,
    children: Seq<ChildView<E>>,
    entries: Seq<Result<EntryView, &E>>,
    at: int,
    dir: Seq<char>,
    target: Seq<char>,
    found: Seq<Seq<char>>,
    pending: Seq<Visit<Seq<char>, &E>>,
)
    requires
        0 <= at < children.len() == entries.len(),
        lists(children[at], entries[at]),
        keeps_pace(before, children.take(at), entries.skip(at), dir, target, found, pending),
        children[at] matches ChildView::Entry { tree, .. } && !(tree is Other),
        match before {
            Progress::Awaiting(entered) => is_through(after, entered, children[at]->tree),
            Progress::Finished(_) => after == before,
        },
    ensures
        keeps_pace(after, children.take(at + 1), entries.skip(at + 1), dir, target, found, pending),
{
    let seen = children.take(at);
    let own = visit(dir, target, entries[at]);
    let rest = visits(dir, target, entries.skip(at + 1)) + pending;
    let so_far = found + meshes_among(seen, dir, target);
    let path = entry_path(dir, children[at]->name);
    let below = children[at]->tree;
    lemma_child_in_turn(children, entries, at, dir, target);
    if first_failure_among(seen) is None {
        assert(visits(dir, target, entries.skip(at)) + pending =~= own + rest);
        assert((own + rest).drop_first() =~= rest);
        assert(found + (meshes_among(seen, dir, target) + below.meshes(path, target)) =~= so_far
            + below.meshes(path, target));
    }
}

/// What the child at `at` adds to the children before it, and its entry to those after it.
proof fn lemma_child_in_turn<E>(
    children: Seq<ChildView<E>>,
    entries: Seq<Result<EntryView, &E>>,
    at: int,
    dir: Seq<char>,
    target: Seq<char>,
)
    requires
        0 <= at < children.len() == entries.len(),
    ensures
        meshes_among(children.take(at + 1), dir, target) == meshes_among(
            children.take(at),
            dir,
            target,
        ) + children[at].meshes(dir, target),
        first_failure_among(children.take(at + 1)) == match first_failure_among(
            children.take(at),
        ) {
            Some(failure) => Some(failure),
            None => children[at].first_failure(),
        },
        visits(dir, target, entries.skip(at)) == visit(dir, target, entries[at]) + visits(
            dir,
            target,
            entries.skip(at + 1),
        ),
{
    assert(children.take(at + 1).drop_last() =~= children.take(at));
    lemma_visits_first(dir, target, entries.skip(at));
    assert(entries.skip(at).drop_first() =~= entries.skip(at + 1));
}

/// Hands `scanner` the entries of `tree`, and those of each directory below it when the
/// scan asks for them, until the scan is through with the tree. The tree is taken to lie
/// at the path that the scanner waits for.
#[verifier::loop_isolation(false)]
fn walk<'a, E>(scanner: Scanner<&'a E>, tree: &'a Tree<E>) -> (step: Step<&'a E>)
    ensures
        is_through(step@, scanner@, tree@),
    decreases tree,
{
    let ghost target = scanner@.target;
    let ghost dir = scanner@.awaited;
    let ghost found = scanner@.meshes;
    let ghost pending = scanner@.pending;
    match tree {
        Tree::Other => scanner.feed(Listing::NotADirectory),
        Tree::Unreadable(failure) => scanner.feed(Listing::Unreadable(failure)),
        Tree::Directory(children) => {
            let listing = listing_of(children);
            let ghost below = child_views(children@);
            let ghost entries = entry_views(listing@);
            proof {
                lemma_child_views(children@);
                assert forall|at: int| 0 <= at < children.len() implies lists(
                    below[at],
                    #[trigger] entries[at],
                ) by {
                    assert(lists(children[at]@, entry_view(listing[at])));
                }
                assert(entries.skip(0) =~= entries);
            }
            let mut step = scanner.feed(Listing::Entries(listing));
            for at in 0..children.len()
                invariant
                    keeps_pace(
                        step@,
                        below.take(at as int),
                        entries.skip(at as int),
                        dir,
                        target,
                        found,
                        pending,
                    ),
            {
                let ghost before = step@;
                match &children[at] {
                    Child::Entry { tree: Tree::Other, .. } | Child::Failed(_) => {
                        proof {
                            lemma_keeps_pace_past(
                                before,
                                below,
                                entries,
                                at as int,
                                dir,
                                target,
                                found,
                                pending,
                            );
                        }
                    },
                    Child::Entry { tree: subtree, .. } => {
                        step =
                        match step {
                            Step::List(entered) => walk(entered, subtree),
                            Step::Done(result) => Step::Done(result),
                        };
                        proof {
                            lemma_keeps_pace_through(
                                before,
                                step@,
                                below,
                                entries,
                                at as int,
                                dir,
                                target,
                                found,
                                pending,
                            );
                        }
                    },
                }
            }
            assert(below.take(children.len() as int) =~= below);
            step
        },
    }
}

/// The extension of a mesh file.
pub const MESH_EXTENSION: &'static str = "dae";

/// Scans the directory tree `tree` that lies at the path `dir` for the files whose
/// extension is `target`, and adds their paths to `meshes`.
///
/// The scan enters each directory when it meets it, so the paths come in the order of the
/// entries, those below a directory in that directory's place. It fails with the first
/// failure that it meets on its way, and then none of the paths is handed out.
pub fn recursive_scan<'a, E>(
    dir: &str,
    tree: &'a Tree<E>,
    target: &str,
    meshes: Vec<String>,
) -> (result: Result<Vec<String>, &'a E>)
    ensures
        tree@.is_scanned(dir@, target@, meshes.deep_view(), result),
{
    match walk(Scanner::start(dir, target, meshes), tree) {
        Step::Done(result) => result,
        Step::List(_) => unreached(),
    }
}

/// Scans the directory tree `tree` that lies at the path `dir` for meshes: the files with
/// the extension [`MESH_EXTENSION`].
///
/// Everything in the tree must be readable. For a tree that may hold something that
/// cannot be read there is [`recursive_scan`], which hands the failure back.
pub fn scan_dir_for_meshes<'a, E>(dir: &str, tree: &'a Tree<E>) -> (result: Result<
    Vec<String>,
    &'a E,
>)
    requires
        tree@.first_failure() is None,
    ensures
        result matches Ok(meshes) && meshes.deep_view() == tree@.meshes(dir@, MESH_EXTENSION@),
{
    recursive_scan(dir, tree, MESH_EXTENSION, Vec::new())
}

} // verus!
