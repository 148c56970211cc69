//! The tree model: a directory snapshot as a tree of typed nodes.
//!
//! A tree is built once and never changed afterwards. Its mathematical model
//! is the view of each node, in which every name is a sequence of characters
//! and every child list a sequence of node views.

use vstd::prelude::*;

pub mod index;

verus! {

/// What the filesystem recorded about an entry when it was probed. The scan
/// carries these values along and reads none of them.
#[derive(Clone, Copy, Debug, PartialEq, Eq)]
pub struct Metadata {
    /// Size in bytes.
    pub size: u64,
    /// Time of the last modification, in seconds since the Unix epoch.
    pub modified: u64,
    /// Permission bits.
    pub permissions: u32,
}

/// A regular file, named by its full path as scanned.
#[derive(Debug, PartialEq, Eq)]
pub struct File {
    pub name: String,
    pub metadata: Metadata,
}

/// A symbolic link, named by its full path, with the target as stored in the
/// link. The target is never resolved.
#[derive(Debug, PartialEq, Eq)]
pub struct Symlink {
    pub name: String,
    pub target: String,
    pub metadata: Metadata,
}

/// A directory with its children in the order in which they were listed.
#[derive(Debug, PartialEq, Eq)]
pub struct Directory {
    pub name: String,
    pub entries: Vec<FileTree>,
}

/// A node of the tree.
#[derive(Debug, PartialEq, Eq)]
pub enum FileTree {
    DirNode(Directory),
    FileNode(File),
    LinkNode(Symlink),
}

/// The model of a [`File`].
pub struct FileView {
    pub name: Seq<char>,
    pub metadata: Metadata,
}

/// The model of a [`Symlink`].
pub struct SymlinkView {
    pub name: Seq<char>,
    pub target: Seq<char>,
    pub metadata: Metadata,
}

/// The model of a [`Directory`].
pub struct DirectoryView {
    pub name: Seq<char>,
    pub entries: Seq<FileTreeView>,
}

/// The model of a [`FileTree`].
pub enum FileTreeView {
    DirNode(DirectoryView),
    FileNode(FileView),
    LinkNode(SymlinkView),
}

impl View for File {
    type V = FileView;

    open spec fn view(&self) -> FileView {
        FileView { name: self.name@, metadata: self.metadata }
    }
}

impl View for Symlink {
    type V = SymlinkView;

    open spec fn view(&self) -> SymlinkView {
        SymlinkView { name: self.name@, target: self.target@, metadata: self.metadata }
    }
}

/// The model of a node.
pub open spec fn tree_view(node: FileTree) -> FileTreeView
    decreases node,
{
    match node {
        FileTree::DirNode(d) => FileTreeView::DirNode(
            DirectoryView { name: d.name@, entries: entries_view(d.entries@) },
        ),
        FileTree::FileNode(f) => FileTreeView::FileNode(f@),
        FileTree::LinkNode(l) => FileTreeView::LinkNode(l@),
    }
}

/// The models of a child list, in the same order.
pub open spec fn entries_view(entries: Seq<FileTree>) -> Seq<FileTreeView>
    decreases entries,
{
    if entries.len() == 0 {
        Seq::empty()
    } else {
        entries_view(entries.drop_last()).push(tree_view(entries.last()))
    }
}

impl View for FileTree {
    type V = FileTreeView;

    open spec fn view(&self) -> FileTreeView {
        tree_view(*self)
    }
}

impl View for Directory {
    type V = DirectoryView;

    open spec fn view(&self) -> DirectoryView {
        DirectoryView { name: self.name@, entries: entries_view(self.entries@) }
    }
}

/// The regular files beneath a node, depth first, in listing order. A symbolic
/// link contributes nothing.
pub open spec fn files_of_node(node: FileTreeView) -> Seq<FileView>
    decreases node,
{
    match node {
        FileTreeView::DirNode(d) => files_of_entries(d.entries),
        FileTreeView::FileNode(f) => seq![f],
        FileTreeView::LinkNode(_) => Seq::empty(),
    }
}

/// The regular files beneath a child list, depth first, in listing order.
pub open spec fn files_of_entries(entries: Seq<FileTreeView>) -> Seq<FileView>
    decreases entries,
{
    if entries.len() == 0 {
        Seq::empty()
    } else {
        files_of_entries(entries.drop_last()) + files_of_node(entries.last())
    }
}

impl DirectoryView {
    /// Every regular file of the tree, in the order of a depth-first
    /// traversal.
    pub open spec fn files(self) -> Seq<FileView> {
        files_of_entries(self.entries)
    }
}

/// The models of borrowed files, in the same order.
pub open spec fn views_of(files: Seq<&File>) -> Seq<FileView> {
    files.map_values(|f: &File| f@)
}

impl Clone for File {
    fn clone(&self) -> (copy: Self)
        ensures
            copy == *self,
    {
        File { name: self.name.clone(), metadata: self.metadata }
    }
}

fn collect_files<'a>(node: &'a Directory, found: &mut Vec<&'a File>)
    ensures
        views_of(final(found)@) == views_of(old(found)@) + node@.files(),
    decreases node,
{
    let ghost before = found@;
    let count = node.entries.len();
    let mut i: usize = 0;
    assert(node.entries@.take(0) =~= Seq::<FileTree>::empty());
    assert(views_of(before) + Seq::<FileView>::empty() =~= views_of(before));
    while i < count
        invariant
            count == node.entries.len(),
            i <= count,
            views_of(found@) == views_of(before) + files_of_entries(
                entries_view(node.entries@.take(i as int)),
            ),
        decreases count - i,
    {
        let ghost sofar = found@;
        let ghost done = entries_view(node.entries@.take(i as int));
        let ghost child = tree_view(node.entries@[i as int]);
        match &node.entries[i] {
            FileTree::DirNode(sub) => {
                collect_files(sub, found);
            },
            FileTree::FileNode(file) => {
                found.push(file);
                assert(views_of(found@) =~= views_of(sofar).push(file@));
                assert(views_of(sofar).push(file@) =~= views_of(sofar) + seq![file@]);
            },
            FileTree::LinkNode(_) => {
                assert(views_of(sofar) + Seq::<FileView>::empty() =~= views_of(sofar));
            },
        }
        proof {
            assert(node.entries@.take(i as int + 1).drop_last() =~= node.entries@.take(i as int));
            assert(node.entries@.take(i as int + 1).last() == node.entries@[i as int]);
            assert(entries_view(node.entries@.take(i as int + 1)) == done.push(child));
            assert(done.push(child).drop_last() =~= done);
            assert(files_of_entries(done.push(child)) == files_of_entries(done) + files_of_node(
                child,
            ));
            assert(views_of(found@) == views_of(sofar) + files_of_node(child));
            assert((views_of(before) + files_of_entries(done)) + files_of_node(child) =~= views_of(
                before,
            ) + (files_of_entries(done) + files_of_node(child)));
        }
        i = i + 1;
    }
    assert(node.entries@.take(count as int) =~= node.entries@);
}

/// Visits every regular file of the tree, depth first and in listing order,
/// and hands them out in that order. Directories are entered; symbolic links
/// are passed over.
pub fn visit_files<'a>(node: &'a Directory) -> (files: Vec<&'a File>)
    ensures
        views_of(files@) == node@.files(),
{
    let mut found: Vec<&'a File> = Vec::new();
    assert(views_of(found@) =~= Seq::<FileView>::empty());
    collect_files(node, &mut found);
    assert(Seq::<FileView>::empty() + node@.files() =~= node@.files());
    found
}

} // verus!
