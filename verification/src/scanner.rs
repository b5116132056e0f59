//! The scan as a machine that is handed the entries of one directory at a time.
//!
//! A scan reads nothing itself. It names the path whose entries it needs next, starting
//! with the root; whoever drives it enumerates that path and hands the outcome to
//! [`Scanner::feed`], which says whether the scan is over or which path comes next.
//! A scan enters each directory when it meets it among the entries of another, so the
//! paths that it collects come in the order of the entries, those below a directory in
//! the place of that directory. The first failure that it meets ends it, and then it
//! hands out none of the paths that it has collected.
//!
//! [`Scan`] and [`Progress`] describe the machine in mathematical terms; [`Scanner`] and
//! [`Step`] are the values that a program holds, and the former are their views.

use vstd::prelude::*;
use crate::path::{entry_path, has_extension, join, matches_extension};

verus! {

/// An entry of a directory, as enumerating the directory gives it.
pub struct Entry {
    /// The entry's file name, without the directory it lies in.
    pub name: String,
    /// Whether the entry's path is a directory.
    pub is_dir: bool,
}

/// An entry of a directory, as mathematics.
pub struct EntryView {
    /// The entry's file name.
    pub name: Seq<char>,
    /// Whether the entry's path is a directory.
    pub is_dir: bool,
}

impl View for Entry {
    type V = EntryView;

    open spec fn view(&self) -> EntryView {
        EntryView { name: self.name@, is_dir: self.is_dir }
    }
}

/// The outcome of enumerating the entries of a path.
pub enum Listing<E> {
    /// The path is no directory, so it has no entries.
    NotADirectory,
    /// The path is a directory. Its entries stand in the order in which they were
    /// enumerated, and in place of an entry that could not be resolved stands the failure.
    Entries(Vec<Result<Entry, E>>),
    /// The path is a directory that could not be enumerated.
    Unreadable(E),
}

/// The outcome of enumerating the entries of a path, as mathematics.
pub enum ListingView<E> {
    /// The path is no directory.
    NotADirectory,
    /// The path is a directory with these entries, in the order of enumeration.
    Entries(Seq<Result<EntryView, E>>),
    /// The path is a directory that could not be enumerated.
    Unreadable(E),
}

/// The view of what enumerating a directory yields at one step: an entry, or the failure
/// to resolve one.
pub open spec fn entry_view<E>(entry: Result<Entry, E>) -> Result<EntryView, E> {
    match entry {
        Ok(entry) => Ok(entry@),
        Err(failure) => Err(failure),
    }
}

/// The views of the entries `entries`, each in its place.
pub open spec fn entry_views<E>(entries: Seq<Result<Entry, E>>) -> Seq<Result<EntryView, E>> {
    entries.map_values(|entry: Result<Entry, E>| entry_view(entry))
}

impl<E> View for Listing<E> {
    type V = ListingView<E>;

    open spec fn view(&self) -> ListingView<E> {
        match *self {
            Listing::NotADirectory => ListingView::NotADirectory,
            Listing::Entries(entries) => ListingView::Entries(entry_views(entries@)),
            Listing::Unreadable(failure) => ListingView::Unreadable(failure),
        }
    }
}

/// What a scan has still to do with an entry that it was handed. `P` stands for a path,
/// `E` for the failure to read a directory.
pub enum Visit<P, E> {
    /// A file that belongs to the result.
    Mesh(P),
    /// A directory whose entries have to be asked for.
    Directory(P),
    /// An entry that could not be resolved.
    Failure(E),
}

impl<E> View for Visit<String, E> {
    type V = Visit<Seq<char>, E>;

    open spec fn view(&self) -> Visit<Seq<char>, E> {
        match *self {
            Visit::Mesh(path) => Visit::Mesh(path@),
            Visit::Directory(path) => Visit::Directory(path@),
            Visit::Failure(failure) => Visit::Failure(failure),
        }
    }
}

/// A scan that waits for the entries of a path.
pub struct Scan<E> {
    /// The extension that a file must have to be collected.
    pub target: Seq<char>,
    /// The path whose entries the scan waits for.
    pub awaited: Seq<char>,
    /// The paths collected so far, oldest first.
    pub meshes: Seq<Seq<char>>,
    /// What is left to do once the awaited path has been dealt with, the next visit
    /// first.
    pub pending: Seq<Visit<Seq<char>, E>>,
}

/// How far a scan has come.
pub enum Progress<E> {
    /// The scan goes on when it is handed the entries of a path.
    Awaiting(Scan<E>),
    /// The scan is over: it found these paths, or reading a directory failed.
    Finished(Result<Seq<Seq<char>>, E>),
}

/// The visits that one entry of the directory `dir` calls for: none for a file with
/// another extension than `target`, one for anything else.
pub open spec fn visit<E>(
    dir: Seq<char>,
    target: Seq<char>,
    entry: Result<EntryView, E>,
) -> Seq<Visit<Seq<char>, E>> {
    match entry {
        Err(failure) => seq![Visit::Failure(failure)],
        Ok(entry) => if entry.is_dir {
            seq![Visit::Directory(entry_path(dir, entry.name))]
        } else if matches_extension(entry.name, target) {
            seq![Visit::Mesh(entry_path(dir, entry.name))]
        } else {
            Seq::empty()
        },
    }
}

/// The visits that the entries of the directory `dir` call for, in the entries' order.
pub open spec fn visits<E>(
    dir: Seq<char>,
    target: Seq<char>,
    entries: Seq<Result<EntryView, E>>,
) -> Seq<Visit<Seq<char>, E>> {
    entries.flat_map(|entry: Result<EntryView, E>| visit(dir, target, entry))
}

/// Where a scan stands that has found `meshes` and carries out the visits in `pending`
/// until one of them needs the entries of a directory, or fails, or none is left.
pub open spec fn settle<E>(
    target: Seq<char>,
    meshes: Seq<Seq<char>>,
    pending: Seq<Visit<Seq<char>, E>>,
) -> Progress<E>
    decreases pending.len(),
{
    if pending.len() == 0 {
        Progress::Finished(Ok(meshes))
    } else {
        match pending.first() {
            Visit::Mesh(path) => settle(target, meshes.push(path), pending.drop_first()),
            Visit::Directory(path) => Progress::Awaiting(
                Scan { target, awaited: path, meshes, pending: pending.drop_first() },
            ),
            Visit::Failure(failure) => Progress::Finished(Err(failure)),
        }
    }
}

impl<E> Scan<E> {
    /// A scan for the files with the extension `target` that starts at the path `root`
    /// with `meshes` already collected.
    pub open spec fn start(root: Seq<char>, target: Seq<char>, meshes: Seq<Seq<char>>) -> Scan<E> {
        Scan { target, awaited: root, meshes, pending: Seq::empty() }
    }

    /// The scan after it was handed `listing`, the outcome of enumerating the awaited
    /// path. A path that is no directory adds nothing. A directory that cannot be
    /// enumerated ends the scan with that failure, and so does an entry that cannot be
    /// resolved, once its turn has come.
    pub open spec fn feed(self, listing: ListingView<E>) -> Progress<E> {
        match listing {
            ListingView::NotADirectory => settle(self.target, self.meshes, self.pending),
            ListingView::Entries(entries) => settle(
                self.target,
                self.meshes,
                visits(self.awaited, self.target, entries) + self.pending,
            ),
            ListingView::Unreadable(failure) => Progress::Finished(Err(failure)),
        }
    }
}

/// A scan that waits for the entries of the path [`Scanner::directory`].
pub struct Scanner<E> {
    target: String,
    awaited: String,
    meshes: Vec<String>,
    /// The visits left, the next one last.
    pending: Vec<Visit<String, E>>,
}

/// The outcome of a step of a scan.
pub enum Step<E> {
    /// The scan goes on when it is handed the entries of the path that the scanner waits
    /// for.
    List(Scanner<E>),
    /// The scan is over: it found these paths, or reading a directory failed.
    Done(Result<Vec<String>, E>),
}

/// The visits on the stack `stack`, the next one first.
spec fn queue_of<E>(stack: Seq<Visit<String, E>>) -> Seq<Visit<Seq<char>, E>> {
    Seq::new(stack.len(), |i: int| stack[stack.len() - 1 - i]@)
}

impl<E> View for Scanner<E> {
    type V = Scan<E>;

    closed spec fn view(&self) -> Scan<E> {
        Scan {
            target: self.target@,
            awaited: self.awaited@,
            meshes: self.meshes.deep_view(),
            pending: queue_of(self.pending@),
        }
    }
}

impl<E> View for Step<E> {
    type V = Progress<E>;

    open spec fn view(&self) -> Progress<E> {
        match *self {
            Step::List(scanner) => Progress::Awaiting(scanner@),
            Step::Done(Ok(meshes)) => Progress::Finished(Ok(meshes.deep_view())),
            Step::Done(Err(failure)) => Progress::Finished(Err(failure)),
        }
    }
}

/// The next visit is the one on top of the stack, and the others follow it.
proof fn lemma_queue_pop<E>(stack: Seq<Visit<String, E>>)
    requires
        stack.len() > 0,
    ensures
        queue_of(stack).len() == stack.len(),
        queue_of(stack).first() == stack.last()@,
        queue_of(stack).drop_first() == queue_of(stack.drop_last()),
{
}

/// A visit that is put on the stack is the next one.
proof fn lemma_queue_push<E>(stack: Seq<Visit<String, E>>, top: Visit<String, E>)
    ensures
        queue_of(stack.push(top)) == seq![top@] + queue_of(stack),
{
}

/// Carries out the visits on the stack `pending` as [`settle`] says.
#[verifier::loop_isolation(false)]
fn run<E>(target: String, meshes: Vec<String>, pending: Vec<Visit<String, E>>) -> (step: Step<E>)
    ensures
        step@ == settle(target@, meshes.deep_view(), queue_of(pending@)),
{
    let ghost goal = settle(target@, meshes.deep_view(), queue_of(pending@));
    let mut meshes = meshes;
    let mut pending = pending;
    loop
        invariant
            settle(target@, meshes.deep_view(), queue_of(pending@)) == goal,
        decreases pending.len(),
    {
        proof {
            if pending.len() > 0 {
                lemma_queue_pop(pending@);
            }
        }
        let ghost before = meshes.deep_view();
        match pending.pop() {
            None => {
                return Step::Done(Ok(meshes));
            },
            Some(Visit::Mesh(path)) => {
                meshes.push(path);
                assert(meshes.deep_view() =~= before.push(path@));
            },
            Some(Visit::Directory(path)) => {
                return Step::List(Scanner { target, awaited: path, meshes, pending });
            },
            Some(Visit::Failure(failure)) => {
                return Step::Done(Err(failure));
            },
        }
    }
}

impl<E> Scanner<E> {
    /// Starts a scan at the path `root` for the files whose extension is `target`, with
    /// `meshes` collected already.
    pub fn start(root: &str, target: &str, meshes: Vec<String>) -> (scanner: Scanner<E>)
        ensures
            scanner@ == Scan::<E>::start(root@, target@, meshes.deep_view()),
    {
        let scanner = Scanner {
            target: String::from_str(target),
            awaited: String::from_str(root),
            meshes,
            pending: Vec::new(),
        };
        assert(scanner@.pending =~= Seq::empty());
        scanner
    }

    /// The path whose entries the scan waits for.
    pub fn directory(&self) -> (dir: &str)
        ensures
            dir@ == self@.awaited,
    {
        self.awaited.as_str()
    }

    /// Goes on with the scan, given `listing`: the outcome of enumerating the entries of
    /// [`Scanner::directory`].
    pub fn feed(self, listing: Listing<E>) -> (step: Step<E>)
        ensures
            step@ == self@.feed(listing@),
    {
        let Scanner { target, awaited, meshes, pending } = self;
        match listing {
            Listing::NotADirectory => run(target, meshes, pending),
            Listing::Unreadable(failure) => Step::Done(Err(failure)),
            Listing::Entries(entries) => {
                let ghost all = entry_views(entries@);
                let ghost handed = entries@;
                let ghost below = queue_of(pending@);
                let mut entries = entries;
                let mut pending = pending;
                while entries.len() > 0
                    invariant
                        entries@ == handed.take(entries.len() as int),
                        entries.len() <= handed.len(),
                        all == entry_views(handed),
                        queue_of(pending@) == visits(
                            awaited@,
                            target@,
                            all.skip(entries.len() as int),
                        ) + below,
                    decreases entries.len(),
                {
                    let ghost left = entries.len() as int;
                    let ghost stack = pending@;
                    let entry = entries.pop().unwrap();
                    proof {
                        lemma_visits_first(awaited@, target@, all.skip(left - 1));
                        assert(all.skip(left - 1).drop_first() =~= all.skip(left));
                    }
                    match entry {
                        Err(failure) => {
                            pending.push(Visit::Failure(failure));
                            proof {
                                lemma_queue_push(stack, pending@.last());
                            }
                        },
                        Ok(entry) => {
                            if entry.is_dir {
                                let path = join(awaited.as_str(), entry.name.as_str());
                                pending.push(Visit::Directory(path));
                                proof {
                                    lemma_queue_push(stack, pending@.last());
                                }
                            } else if has_extension(entry.name.as_str(), target.as_str()) {
                                let path = join(awaited.as_str(), entry.name.as_str());
                                pending.push(Visit::Mesh(path));
                                proof {
                                    lemma_queue_push(stack, pending@.last());
                                }
                            }
                        },
                    }
                }
                assert(all.skip(0) =~= all);
                run(target, meshes, pending)
            },
        }
    }
}

/// The visits of a directory's entries begin with those of its first entry.
pub proof fn lemma_visits_first<E>(
    dir: Seq<char>,
    target: Seq<char>,
    entries: Seq<Result<EntryView, E>>,
)
    requires
        entries.len() > 0,
    ensures
        visits(dir, target, entries) == visit(dir, target, entries.first()) + visits(
            dir,
            target,
            entries.drop_first(),
        ),
{
    let each = |entry: Result<EntryView, E>| visit(dir, target, entry);
    assert(entries.map_values(each).drop_first() =~= entries.drop_first().map_values(each));
}

} // verus!
