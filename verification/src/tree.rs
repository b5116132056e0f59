//! A directory tree held in memory, and what a scan of it yields.

use vstd::prelude::*;
use crate::path::{entry_path, matches_extension};

verus! {

/// What lies at a path.
pub enum Tree<E> {
    /// Something that is not a directory: a file, or nothing at all.
    Other,
    /// A directory, with what enumerating it yields, in that order.
    Directory(Vec<Child<E>>),
    /// A directory that cannot be enumerated.
    Unreadable(E),
}

/// What enumerating a directory yields at one step.
pub enum Child<E> {
    /// An entry: its file name, and what lies at its path.
    Entry { name: String, tree: Tree<E> },
    /// An entry that cannot be resolved.
    Failed(E),
}

/// What lies at a path, as mathematics.
pub enum TreeView<E> {
    /// Something that is not a directory.
    Other,
    /// A directory, with what enumerating it yields, in that order.
    Directory(Seq<ChildView<E>>),
    /// A directory that cannot be enumerated.
    Unreadable(E),
}

/// What enumerating a directory yields at one step, as mathematics.
pub enum ChildView<E> {
    /// An entry: its file name, and what lies at its path.
    Entry { name: Seq<char>, tree: TreeView<E> },
    /// An entry that cannot be resolved.
    Failed(E),
}

impl<E> View for Tree<E> {
    type V = TreeView<E>;

    open spec fn view(&self) -> TreeView<E>
        decreases self,
    {
        match *self {
            Tree::Other => TreeView::Other,
            Tree::Directory(children) => TreeView::Directory(child_views(children@)),
            Tree::Unreadable(failure) => TreeView::Unreadable(failure),
        }
    }
}

impl<E> View for Child<E> {
    type V = ChildView<E>;

    open spec fn view(&self) -> ChildView<E>
        decreases self,
    {
        match *self {
            Child::Entry { name, tree } => ChildView::Entry { name: name@, tree: tree@ },
            Child::Failed(failure) => ChildView::Failed(failure),
        }
    }
}

/// The views of the children `children`, each in its place.
pub open spec fn child_views<E>(children: Seq<Child<E>>) -> Seq<ChildView<E>>
    decreases children,
{
    if children.len() == 0 {
        Seq::empty()
    } else {
        child_views(children.drop_last()).push(children.last()@)
    }
}

/// The views of children are as many as the children, and each is the view of the child in
/// its place.
pub proof fn lemma_child_views<E>(children: Seq<Child<E>>)
    ensures
        child_views(children).len() == children.len(),
        forall|i: int|
            0 <= i < children.len() ==> #[trigger] child_views(children)[i] == children[i]@,
    decreases children.len(),
{
    if children.len() > 0 {
        let front = children.drop_last();
        lemma_child_views(front);
        assert(child_views(children) == child_views(front).push(children.last()@));
    }
}

impl<E> TreeView<E> {
    /// The paths of the files with the extension `target` below the directory `dir`, in the
    /// order in which a walk comes by them that enters each directory as it meets it.
    pub open spec fn meshes(self, dir: Seq<char>, target: Seq<char>) -> Seq<Seq<char>>
        decreases self,
    {
        match self {
            TreeView::Directory(children) => meshes_among(children, dir, target),
            _ => Seq::empty(),
        }
    }

    /// The first failure that such a walk meets.
    pub open spec fn first_failure(self) -> Option<E>
        decreases self,
    {
        match self {
            TreeView::Other => None,
            TreeView::Directory(children) => first_failure_among(children),
            TreeView::Unreadable(failure) => Some(failure),
        }
    }

    /// What a scan of the tree comes to that has collected `meshes` already: the first
    /// failure on its way, or else `meshes` followed by the paths it finds.
    pub open spec fn scanned(
        self,
        dir: Seq<char>,
        target: Seq<char>,
        meshes: Seq<Seq<char>>,
    ) -> Result<Seq<Seq<char>>, E> {
        match self.first_failure() {
            Some(failure) => Err(failure),
            None => Ok(meshes + self.meshes(dir, target)),
        }
    }

    /// Whether `result` is what a scan of the tree comes to that has collected `meshes`
    /// already.
    pub open spec fn is_scanned(
        self,
        dir: Seq<char>,
        target: Seq<char>,
        meshes: Seq<Seq<char>>,
        result: Result<Vec<String>, &E>,
    ) -> bool {
        match self.scanned(dir, target, meshes) {
            Ok(paths) => result matches Ok(found) && found.deep_view() == paths,
            Err(failure) => result matches Err(met) && *met == failure,
        }
    }

    /// Whether `path` is the path of a file with the extension `target` that lies below
    /// the directory `dir`, at whatever depth.
    pub open spec fn has_mesh(self, dir: Seq<char>, target: Seq<char>, path: Seq<char>) -> bool
        decreases self,
    {
        match self {
            TreeView::Directory(children) => exists|i: int|
                0 <= i < children.len() && (#[trigger] children[i]).has_mesh(dir, target, path),
            _ => false,
        }
    }

    /// Whether `other` holds what this tree holds, whatever the order in which the entries
    /// of their directories are enumerated.
    pub open spec fn same_entries(self, other: TreeView<E>) -> bool
        decreases self,
    {
        match self {
            TreeView::Other => other is Other,
            TreeView::Directory(children) => {
                &&& other matches TreeView::Directory(others)
                &&& forall|i: int|
                    0 <= i < children.len() ==> (#[trigger] children[i]).same_as_one_of(others)
                &&& forall|j: int|
                    0 <= j < others.len() ==> one_same_as(children, #[trigger] others[j])
            },
            TreeView::Unreadable(_) => other is Unreadable,
        }
    }

    /// Whether something in the tree, at whatever depth, cannot be read.
    pub open spec fn has_failure(self) -> bool
        decreases self,
    {
        match self {
            TreeView::Other => false,
            TreeView::Directory(children) => exists|i: int|
                0 <= i < children.len() && (#[trigger] children[i]).has_failure(),
            TreeView::Unreadable(_) => true,
        }
    }
}

impl<E> ChildView<E> {
    /// The paths of the files with the extension `target` at and below this entry of the
    /// directory `dir`.
    pub open spec fn meshes(self, dir: Seq<char>, target: Seq<char>) -> Seq<Seq<char>>
        decreases self,
    {
        match self {
            ChildView::Entry { name, tree } => if tree is Other {
                if matches_extension(name, target) {
                    seq![entry_path(dir, name)]
                } else {
                    Seq::empty()
                }
            } else {
                tree.meshes(entry_path(dir, name), target)
            },
            ChildView::Failed(_) => Seq::empty(),
        }
    }

    /// The first failure that a walk meets at and below this entry.
    pub open spec fn first_failure(self) -> Option<E>
        decreases self,
    {
        match self {
            ChildView::Entry { name, tree } => tree.first_failure(),
            ChildView::Failed(failure) => Some(failure),
        }
    }

    /// Whether `path` is the path of a file with the extension `target` at or below this
    /// entry of the directory `dir`.
    pub open spec fn has_mesh(self, dir: Seq<char>, target: Seq<char>, path: Seq<char>) -> bool
        decreases self,
    {
        match self {
            ChildView::Entry { name, tree } => if tree is Other {
                matches_extension(name, target) && path == entry_path(dir, name)
            } else {
                tree.has_mesh(entry_path(dir, name), target, path)
            },
            ChildView::Failed(_) => false,
        }
    }

    /// Whether `other` has the name of this entry and holds what it holds.
    pub open spec fn same_entry(self, other: ChildView<E>) -> bool
        decreases self, 0nat,
    {
        match self {
            ChildView::Entry { name, tree } => {
                &&& other matches ChildView::Entry { name: called, tree: below }
                &&& name == called
                &&& tree.same_entries(below)
            },
            ChildView::Failed(_) => other is Failed,
        }
    }

    /// Whether one of `others` has the name of this entry and holds what it holds.
    pub open spec fn same_as_one_of(self, others: Seq<ChildView<E>>) -> bool
        decreases self, 1nat,
    {
        exists|j: int| 0 <= j < others.len() && self.same_entry(#[trigger] others[j])
    }

    /// Whether this entry, or something below it, cannot be read.
    pub open spec fn has_failure(self) -> bool
        decreases self,
    {
        match self {
            ChildView::Entry { name, tree } => tree.has_failure(),
            ChildView::Failed(_) => true,
        }
    }
}

/// The paths of the files with the extension `target` at and below the entries `children`
/// of the directory `dir`, entry after entry.
pub open spec fn meshes_among<E>(
    children: Seq<ChildView<E>>,
    dir: Seq<char>,
    target: Seq<char>,
) -> Seq<Seq<char>>
    decreases children,
{
    if children.len() == 0 {
        Seq::empty()
    } else {
        meshes_among(children.drop_last(), dir, target) + children.last().meshes(dir, target)
    }
}

/// Whether `other` has the name of one of `children` and holds what that one holds.
pub open spec fn one_same_as<E>(children: Seq<ChildView<E>>, other: ChildView<E>) -> bool
    decreases children,
{
    exists|i: int| 0 <= i < children.len() && (#[trigger] children[i]).same_entry(other)
}

/// The first failure that a walk meets which goes through the entries `children`.
pub open spec fn first_failure_among<E>(children: Seq<ChildView<E>>) -> Option<E>
    decreases children,
{
    if children.len() == 0 {
        None
    } else {
        match first_failure_among(children.drop_last()) {
            Some(failure) => Some(failure),
            None => children.last().first_failure(),
        }
    }
}

} // verus!
