//! A filesystem as a walk sees it, and what a walk of it must build.
//!
//! The snapshot is a finite tree: what stands at each path, and for a
//! directory its listing, which may have failed. Two things are defined on it
//! directly. One is the tree that a walk of the snapshot yields, or the
//! directory at which it fails. The other is the run of answers that the
//! walker gets while it goes through the snapshot. The walker, fed that run,
//! ends in exactly that result.

use crate::file_tree::{DirectoryView, FileTreeView, FileView, Metadata, SymlinkView};
use crate::path_name::entry_name;
use crate::walker::{
    settle, skip_rejected, start, step, with_entry, FrameView, ProbeView, Rule, WalkErrorView,
    WalkEventView, WalkState,
};
use vstd::prelude::*;

verus! {

/// What stands at one path.
pub enum Entry {
    Directory(Listing),
    RegularFile(Metadata),
    /// A symbolic link with its stored target. What the target leads to is no
    /// part of the snapshot.
    Symlink(Seq<char>, Metadata),
    /// An entry that cannot be probed.
    Unreadable,
}

/// What listing a directory gives.
pub enum Listing {
    /// The directory cannot be listed.
    Failed,
    /// The children in the order in which the filesystem reports them.
    Children(Seq<Child>),
}

/// One child of a directory: its full path and what stands there.
pub struct Child {
    pub path: Seq<char>,
    pub entry: Entry,
}

/// The paths of a child list, in the same order.
pub open spec fn paths_of(children: Seq<Child>) -> Seq<Seq<char>> {
    children.map_values(|c: Child| c.path)
}

/// A node in front of the nodes that follow it, where those could be built.
pub open spec fn led_by(node: FileTreeView, rest: Result<Seq<FileTreeView>, Seq<char>>) -> Result<
    Seq<FileTreeView>,
    Seq<char>,
> {
    match rest {
        Ok(nodes) => Ok(seq![node] + nodes),
        Err(path) => Err(path),
    }
}

/// The nodes that a walk builds for a child list, or the path of the first
/// directory that cannot be listed. Children that the filter rejects are
/// passed over with everything beneath them, unreadable ones are dropped,
/// symbolic links are leaves.
pub open spec fn walk_children(
    keep: Rule,
    children: Seq<Child>,
) -> Result<Seq<FileTreeView>, Seq<char>>
    decreases children,
{
    if children.len() == 0 {
        Ok(Seq::empty())
    } else if !keep(entry_name(children[0].path)) {
        walk_children(keep, children.drop_first())
    } else {
        match children[0].entry {
            Entry::Directory(listing) => match walk_listing(keep, children[0].path, listing) {
                Ok(tree) => led_by(
                    FileTreeView::DirNode(tree),
                    walk_children(keep, children.drop_first()),
                ),
                Err(path) => Err(path),
            },
            Entry::RegularFile(metadata) => led_by(
                FileTreeView::FileNode(FileView { name: children[0].path, metadata }),
                walk_children(keep, children.drop_first()),
            ),
            Entry::Symlink(target, metadata) => led_by(
                FileTreeView::LinkNode(SymlinkView { name: children[0].path, target, metadata }),
                walk_children(keep, children.drop_first()),
            ),
            Entry::Unreadable => walk_children(keep, children.drop_first()),
        }
    }
}

/// The directory that a walk builds from a listing, or the path of the first
/// directory that cannot be listed, which may be this one.
pub open spec fn walk_listing(
    keep: Rule,
    path: Seq<char>,
    listing: Listing,
) -> Result<DirectoryView, Seq<char>>
    decreases listing,
{
    match listing {
        Listing::Failed => Err(path),
        Listing::Children(children) => match walk_children(keep, children) {
            Ok(entries) => Ok(DirectoryView { name: path, entries }),
            Err(failed) => Err(failed),
        },
    }
}

/// How a walk of `root` ends.
pub open spec fn walk_root(keep: Rule, root: Seq<char>, listing: Listing) -> WalkState {
    match listing {
        Listing::Failed => WalkState::Failed(WalkErrorView::RootUnreadable(root)),
        Listing::Children(children) => match walk_children(keep, children) {
            Ok(entries) => WalkState::Done(DirectoryView { name: root, entries }),
            Err(failed) => WalkState::Failed(WalkErrorView::SubtreeUnreadable(failed)),
        },
    }
}

/// The answers that the walker gets while it goes through a child list, up to
/// the end of the list or to the listing that fails.
pub open spec fn answers_children(keep: Rule, children: Seq<Child>) -> Seq<WalkEventView>
    decreases children,
{
    if children.len() == 0 {
        Seq::empty()
    } else if !keep(entry_name(children[0].path)) {
        answers_children(keep, children.drop_first())
    } else {
        match children[0].entry {
            Entry::Directory(listing) => seq![WalkEventView::Probed(ProbeView::Directory)]
                + answers_listing(keep, listing) + (if walk_listing(
                keep,
                children[0].path,
                listing,
            ) is Ok {
                answers_children(keep, children.drop_first())
            } else {
                Seq::empty()
            }),
            Entry::RegularFile(metadata) => seq![
                WalkEventView::Probed(ProbeView::RegularFile(metadata)),
            ] + answers_children(keep, children.drop_first()),
            Entry::Symlink(target, metadata) => seq![
                WalkEventView::Probed(ProbeView::Symlink(target, metadata)),
            ] + answers_children(keep, children.drop_first()),
            Entry::Unreadable => seq![WalkEventView::Probed(ProbeView::Unreadable)]
                + answers_children(keep, children.drop_first()),
        }
    }
}

/// The answers that the walker gets from the listing of a directory on.
pub open spec fn answers_listing(keep: Rule, listing: Listing) -> Seq<WalkEventView>
    decreases listing,
{
    match listing {
        Listing::Failed => seq![WalkEventView::ListFailed],
        Listing::Children(children) => seq![WalkEventView::Listed(paths_of(children))]
            + answers_children(keep, children),
    }
}

/// The state after a run of events.
pub open spec fn feed(keep: Rule, state: WalkState, events: Seq<WalkEventView>) -> WalkState
    decreases events.len(),
{
    if events.len() == 0 {
        state
    } else {
        feed(keep, step(keep, state, events[0]), events.drop_first())
    }
}

/// Whether an event answers the request that is out in a state.
pub open spec fn answers(state: WalkState, event: WalkEventView) -> bool {
    match state {
        WalkState::Listing { stack, path } => event is Listed || event is ListFailed,
        WalkState::Probing { stack, path } => event is Probed,
        _ => false,
    }
}

/// Whether each event of a run answers the request that is out when it
/// comes. After the end of the walk no event does.
pub open spec fn well_answered(keep: Rule, state: WalkState, events: Seq<WalkEventView>) -> bool
    decreases events.len(),
{
    events.len() == 0 || {
        &&& answers(state, events[0])
        &&& well_answered(keep, step(keep, state, events[0]), events.drop_first())
    }
}

proof fn lemma_first(keep: Rule, state: WalkState, event: WalkEventView, rest: Seq<WalkEventView>)
    ensures
        feed(keep, state, seq![event] + rest) == feed(keep, step(keep, state, event), rest),
        well_answered(keep, state, seq![event] + rest) == {
            &&& answers(state, event)
            &&& well_answered(keep, step(keep, state, event), rest)
        },
{
    assert((seq![event] + rest).drop_first() =~= rest);
}

/// A walk that has failed stays failed.
pub proof fn lemma_feed_failed(keep: Rule, error: WalkErrorView, events: Seq<WalkEventView>)
    ensures
        feed(keep, WalkState::Failed(error), events) == WalkState::Failed(error),
    decreases events.len(),
{
    if events.len() > 0 {
        lemma_feed_failed(keep, error, events.drop_first());
    }
}

/// The innermost directory once every child is dealt with: nothing waits, and
/// the nodes built for the children stand behind those that were there.
spec fn complete(top: FrameView, nodes: Seq<FileTreeView>) -> FrameView {
    FrameView { name: top.name, pending: Seq::empty(), entries: top.entries + nodes }
}

proof fn lemma_led_by(
    after: FrameView,
    node: FileTreeView,
    rest: Result<Seq<FileTreeView>, Seq<char>>,
)
    ensures
        rest matches Ok(nodes) ==> led_by(node, rest) == Ok::<Seq<FileTreeView>, Seq<char>>(
            seq![node] + nodes,
        ) && complete(after, seq![node] + nodes) == complete(with_entry(after, node), nodes),
        rest matches Err(path) ==> led_by(node, rest) == rest,
{
    match rest {
        Ok(nodes) => {
            assert(after.entries + (seq![node] + nodes) =~= with_entry(after, node).entries
                + nodes);
        },
        Err(_) => {},
    }
}

/// A directory that has taken in the nodes of all its children closes: it is
/// handed to its parent, which settles in turn.
proof fn lemma_close(
    keep: Rule,
    below: Seq<FrameView>,
    after: FrameView,
    name: Seq<char>,
    nodes: Seq<FileTreeView>,
)
    ensures
        settle(
            keep,
            below.push(after),
            complete(FrameView { name, pending: Seq::empty(), entries: Seq::empty() }, nodes),
        ) == settle(
            keep,
            below,
            with_entry(after, FileTreeView::DirNode(DirectoryView { name, entries: nodes })),
        ),
{
    let stack = below.push(after);
    let inner = FrameView { name, pending: Seq::empty(), entries: Seq::empty() };
    assert(complete(inner, nodes).entries =~= nodes);
    assert(stack.drop_last() =~= below);
}

/// The walker goes through the children of the innermost directory `top` and
/// then on with the events `then`, unless a directory among them fails.
proof fn lemma_children(
    keep: Rule,
    below: Seq<FrameView>,
    top: FrameView,
    children: Seq<Child>,
    then: Seq<WalkEventView>,
)
    requires
        top.pending == paths_of(children),
    ensures
        feed(keep, settle(keep, below, top), answers_children(keep, children) + then) == (
        match walk_children(keep, children) {
            Ok(nodes) => feed(keep, settle(keep, below, complete(top, nodes)), then),
            Err(path) => WalkState::Failed(WalkErrorView::SubtreeUnreadable(path)),
        }),
        well_answered(keep, settle(keep, below, top), answers_children(keep, children) + then) == (
        match walk_children(keep, children) {
            Ok(nodes) => well_answered(keep, settle(keep, below, complete(top, nodes)), then),
            Err(path) => then.len() == 0,
        }),
    decreases children,
{
    let run = answers_children(keep, children);
    if children.len() == 0 {
        assert(run + then =~= then);
        assert(top.entries + Seq::<FileTreeView>::empty() =~= top.entries);
        assert(top.pending =~= Seq::<Seq<char>>::empty());
    } else {
        let first = children[0];
        let rest = children.drop_first();
        let later = answers_children(keep, rest);
        let after = FrameView {
            name: top.name,
            pending: top.pending.drop_first(),
            entries: top.entries,
        };
        assert(top.pending[0] == first.path);
        assert(after.pending =~= paths_of(rest));
        if !keep(entry_name(first.path)) {
            assert(skip_rejected(keep, top.pending) == skip_rejected(keep, after.pending));
            assert(settle(keep, below, top) == settle(keep, below, after));
            lemma_children(keep, below, after, rest, then);
        } else {
            assert(skip_rejected(keep, top.pending) == top.pending);
            let stack = below.push(after);
            let probing = WalkState::Probing { stack, path: first.path };
            assert(settle(keep, below, top) == probing);
            assert(stack.drop_last() =~= below);
            assert(stack.last() == after);
            match first.entry {
                Entry::Directory(listing) => {
                    let probed = WalkEventView::Probed(ProbeView::Directory);
                    let listed = WalkState::Listing { stack, path: first.path };
                    let rest_of_run = (if walk_listing(keep, first.path, listing) is Ok {
                        later
                    } else {
                        Seq::empty()
                    }) + then;
                    assert(run + then =~= seq![probed] + (answers_listing(keep, listing)
                        + rest_of_run));
                    let listing_run = answers_listing(keep, listing);
                    lemma_first(keep, probing, probed, listing_run + rest_of_run);
                    assert(step(keep, probing, probed) == listed);
                    match listing {
                        Listing::Failed => {
                            let failed = WalkErrorView::SubtreeUnreadable(first.path);
                            let event = WalkEventView::ListFailed;
                            assert(answers_listing(keep, listing) + rest_of_run =~= seq![event]
                                + rest_of_run);
                            lemma_first(keep, listed, event, rest_of_run);
                            assert(step(keep, listed, event) == WalkState::Failed(failed));
                            lemma_feed_failed(keep, failed, rest_of_run);
                            assert(well_answered(keep, WalkState::Failed(failed), rest_of_run) == (
                            rest_of_run.len() == 0));
                        },
                        Listing::Children(inside) => {
                            let event = WalkEventView::Listed(paths_of(inside));
                            let inner = FrameView {
                                name: first.path,
                                pending: paths_of(inside),
                                entries: Seq::empty(),
                            };
                            let inside_run = answers_children(keep, inside);
                            assert(answers_listing(keep, listing) + rest_of_run =~= seq![event] + (
                            inside_run + rest_of_run));
                            lemma_first(keep, listed, event, inside_run + rest_of_run);
                            assert(step(keep, listed, event) == settle(keep, stack, inner));
                            lemma_children(keep, stack, inner, inside, rest_of_run);
                            match walk_children(keep, inside) {
                                Ok(nodes) => {
                                    let node = FileTreeView::DirNode(
                                        DirectoryView { name: first.path, entries: nodes },
                                    );
                                    lemma_close(keep, below, after, first.path, nodes);
                                    assert(complete(inner, nodes) == complete(
                                        FrameView {
                                            name: first.path,
                                            pending: Seq::empty(),
                                            entries: Seq::empty(),
                                        },
                                        nodes,
                                    ));
                                    let grown = with_entry(after, node);
                                    lemma_children(keep, below, grown, rest, then);
                                    lemma_led_by(after, node, walk_children(keep, rest));
                                },
                                Err(_) => {},
                            }
                        },
                    }
                },
                Entry::RegularFile(metadata) => {
                    let probed = WalkEventView::Probed(ProbeView::RegularFile(metadata));
                    let node = FileTreeView::FileNode(FileView { name: first.path, metadata });
                    assert(run + then =~= seq![probed] + (later + then));
                    lemma_first(keep, probing, probed, later + then);
                    assert(step(keep, probing, probed) == settle(
                        keep,
                        below,
                        with_entry(after, node),
                    ));
                    lemma_children(keep, below, with_entry(after, node), rest, then);
                    lemma_led_by(after, node, walk_children(keep, rest));
                },
                Entry::Symlink(target, metadata) => {
                    let probed = WalkEventView::Probed(ProbeView::Symlink(target, metadata));
                    let node = FileTreeView::LinkNode(
                        SymlinkView { name: first.path, target, metadata },
                    );
                    assert(run + then =~= seq![probed] + (later + then));
                    lemma_first(keep, probing, probed, later + then);
                    assert(step(keep, probing, probed) == settle(
                        keep,
                        below,
                        with_entry(after, node),
                    ));
                    lemma_children(keep, below, with_entry(after, node), rest, then);
                    lemma_led_by(after, node, walk_children(keep, rest));
                },
                Entry::Unreadable => {
                    let probed = WalkEventView::Probed(ProbeView::Unreadable);
                    assert(run + then =~= seq![probed] + (later + then));
                    lemma_first(keep, probing, probed, later + then);
                    assert(step(keep, probing, probed) == settle(keep, below, after));
                    lemma_children(keep, below, after, rest, then);
                },
            }
        }
    }
}

/// The walker, begun at `root` and fed the answers that the snapshot gives,
/// ends as the snapshot says: with the tree of the entries it keeps in listing
/// order, or failed at the first directory that cannot be listed. Each of
/// those answers is the answer to the request that the walker has out when it
/// comes. The outcome depends on nothing but the snapshot and the filter, so a
/// second walk of an unchanged filesystem ends in the same state as the first.
pub proof fn lemma_walk_follows_snapshot(keep: Rule, root: Seq<char>, listing: Listing)
    ensures
        feed(keep, start(root), answers_listing(keep, listing)) == walk_root(keep, root, listing),
        well_answered(keep, start(root), answers_listing(keep, listing)),
{
    let none = Seq::<WalkEventView>::empty();
    let below = Seq::<FrameView>::empty();
    match listing {
        Listing::Failed => {
            assert(answers_listing(keep, listing) =~= seq![WalkEventView::ListFailed] + none);
            lemma_first(keep, start(root), WalkEventView::ListFailed, none);
        },
        Listing::Children(children) => {
            let event = WalkEventView::Listed(paths_of(children));
            let top = FrameView { name: root, pending: paths_of(children), entries: Seq::empty() };
            let run = answers_children(keep, children);
            assert(answers_listing(keep, listing) =~= seq![event] + (run + none));
            lemma_first(keep, start(root), event, run + none);
            assert(step(keep, start(root), event) == settle(keep, below, top));
            lemma_children(keep, below, top, children, none);
            match walk_children(keep, children) {
                Ok(nodes) => {
                    assert(complete(top, nodes).entries =~= nodes);
                },
                Err(_) => {},
            }
        },
    }
}

/// The child list without the children that the filter rejects, at every
/// depth.
pub open spec fn without_rejected(keep: Rule, children: Seq<Child>) -> Seq<Child>
    decreases children,
{
    if children.len() == 0 {
        Seq::empty()
    } else if !keep(entry_name(children[0].path)) {
        without_rejected(keep, children.drop_first())
    } else {
        seq![
            Child {
                path: children[0].path,
                entry: match children[0].entry {
                    Entry::Directory(listing) => Entry::Directory(
                        listing_without_rejected(keep, listing),
                    ),
                    other => other,
                },
            },
        ] + without_rejected(keep, children.drop_first())
    }
}

/// The listing without the children that the filter rejects, at every depth.
pub open spec fn listing_without_rejected(keep: Rule, listing: Listing) -> Listing
    decreases listing,
{
    match listing {
        Listing::Failed => Listing::Failed,
        Listing::Children(children) => Listing::Children(without_rejected(keep, children)),
    }
}

proof fn lemma_without_rejected(keep: Rule, children: Seq<Child>)
    ensures
        walk_children(keep, without_rejected(keep, children)) == walk_children(keep, children),
    decreases children,
{
    if children.len() > 0 {
        let first = children[0];
        let rest = children.drop_first();
        lemma_without_rejected(keep, rest);
        if keep(entry_name(first.path)) {
            let kept = without_rejected(keep, children);
            assert(kept[0].path == first.path);
            assert(kept.drop_first() =~= without_rejected(keep, rest));
            match first.entry {
                Entry::Directory(listing) => {
                    assert(
                        kept[0].entry == Entry::Directory(listing_without_rejected(keep, listing))
                    );
                    match listing {
                        Listing::Failed => {},
                        Listing::Children(inside) => {
                            lemma_without_rejected(keep, inside);
                        },
                    }
                    assert(walk_listing(keep, first.path, listing_without_rejected(keep, listing))
                        == walk_listing(keep, first.path, listing));
                },
                _ => {
                    assert(kept[0].entry == first.entry);
                },
            }
        }
    }
}

/// Entries that the filter rejects, and whatever stands beneath a rejected
/// directory, have no part in the outcome of a walk: two snapshots that agree
/// apart from them end the walk alike. With the default filter these are the
/// hidden entries and the entries whose path has no name.
pub proof fn lemma_rejected_entries_have_no_part(
    keep: Rule,
    root: Seq<char>,
    first: Listing,
    second: Listing,
)
    requires
        listing_without_rejected(keep, first) == listing_without_rejected(keep, second),
    ensures
        walk_root(keep, root, first) == walk_root(keep, root, second),
{
    match first {
        Listing::Failed => {},
        Listing::Children(children) => {
            lemma_without_rejected(keep, children);
        },
    }
    match second {
        Listing::Failed => {},
        Listing::Children(children) => {
            lemma_without_rejected(keep, children);
        },
    }
}

} // verus!
