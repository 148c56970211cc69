//! The tree walker: which entries are visited, and how the tree is assembled.
//!
//! The walker reads nothing itself. It is a machine that asks for one
//! filesystem operation at a time, either the listing of a directory or the
//! probe of one entry, and takes the answer as an event. Whoever drives it
//! performs the operation and hands the answer back, until the walker stops
//! with the finished tree or with the directory that could not be listed.
//!
//! Entries are filtered by name before anything else is done with them: an
//! entry that the filter rejects is neither probed nor listed. The default
//! filter rejects the hidden entries. A symbolic link is recorded as a leaf
//! and never entered. An entry that cannot be probed is dropped and the walk
//! goes on; a directory that cannot be listed ends the whole walk, whether it
//! is the root or lies beneath it.

use crate::file_tree::{
    entries_view, files_of_entries, files_of_node, tree_view, Directory, DirectoryView, File,
    FileTree, FileTreeView, FileView, Metadata, Symlink, SymlinkView,
};
use crate::path_name::{entry_name, file_name, final_segment, has_name};
use vstd::prelude::*;

verus! {

/// What a filter decides about the names of entries: `true` for the names
/// that a walk keeps.
pub type Rule = spec_fn(Seq<char>) -> bool;

/// A name is hidden when it begins with a dot.
pub open spec fn is_hidden(name: Seq<char>) -> bool {
    name.len() > 0 && name[0] == '.'
}

/// The default inclusion filter of the walker: `true` for every entry that is
/// visited, `false` for a hidden one, which is skipped together with
/// everything beneath it.
pub fn should_skip(file_name: &str) -> (visit: bool)
    ensures
        visit == !is_hidden(file_name@),
{
    if file_name.is_empty() {
        true
    } else {
        file_name.get_char(0) != '.'
    }
}

/// What the filesystem probe found at a path. A symbolic link is reported as
/// a link whatever it points at.
#[derive(Debug)]
pub enum Probe {
    Directory,
    RegularFile(Metadata),
    /// The link's target as stored, and the metadata of the link itself.
    Symlink(String, Metadata),
    /// The entry could not be examined.
    Unreadable,
}

/// The model of a [`Probe`].
pub enum ProbeView {
    Directory,
    RegularFile(Metadata),
    Symlink(Seq<char>, Metadata),
    Unreadable,
}

impl View for Probe {
    type V = ProbeView;

    open spec fn view(&self) -> ProbeView {
        match self {
            Probe::Directory => ProbeView::Directory,
            Probe::RegularFile(metadata) => ProbeView::RegularFile(*metadata),
            Probe::Symlink(target, metadata) => ProbeView::Symlink(target@, *metadata),
            Probe::Unreadable => ProbeView::Unreadable,
        }
    }
}

/// The answer to the walker's last request.
#[derive(Debug)]
pub enum WalkEvent {
    /// The directory was listed: the full paths of its children, in the order
    /// in which the filesystem reported them.
    Listed(Vec<String>),
    /// The directory could not be listed.
    ListFailed,
    /// The entry was probed.
    Probed(Probe),
}

/// The model of a [`WalkEvent`].
pub enum WalkEventView {
    Listed(Seq<Seq<char>>),
    ListFailed,
    Probed(ProbeView),
}

/// The texts of a list of strings, in the same order.
pub open spec fn paths_view(paths: Seq<String>) -> Seq<Seq<char>> {
    paths.map_values(|p: String| p@)
}

impl View for WalkEvent {
    type V = WalkEventView;

    open spec fn view(&self) -> WalkEventView {
        match self {
            WalkEvent::Listed(paths) => WalkEventView::Listed(paths_view(paths@)),
            WalkEvent::ListFailed => WalkEventView::ListFailed,
            WalkEvent::Probed(probe) => WalkEventView::Probed(probe@),
        }
    }
}

/// What the walker asks for next.
#[derive(Debug, PartialEq, Eq)]
pub enum WalkAction {
    /// List the directory at this path.
    List(String),
    /// Probe the entry at this path.
    Probe(String),
    /// Nothing: the walk is over.
    Stop,
}

/// The model of a [`WalkAction`].
pub enum WalkActionView {
    List(Seq<char>),
    Probe(Seq<char>),
    Stop,
}

impl View for WalkAction {
    type V = WalkActionView;

    open spec fn view(&self) -> WalkActionView {
        match self {
            WalkAction::List(path) => WalkActionView::List(path@),
            WalkAction::Probe(path) => WalkActionView::Probe(path@),
            WalkAction::Stop => WalkActionView::Stop,
        }
    }
}

/// Why a walk produced no tree. Either way the whole walk is over: no part of
/// the tree is handed out.
#[derive(Debug, PartialEq, Eq)]
pub enum WalkError {
    /// The root could not be listed.
    RootUnreadable(String),
    /// A directory beneath the root could not be listed.
    SubtreeUnreadable(String),
}

/// The model of a [`WalkError`].
pub enum WalkErrorView {
    RootUnreadable(Seq<char>),
    SubtreeUnreadable(Seq<char>),
}

impl View for WalkError {
    type V = WalkErrorView;

    open spec fn view(&self) -> WalkErrorView {
        match self {
            WalkError::RootUnreadable(path) => WalkErrorView::RootUnreadable(path@),
            WalkError::SubtreeUnreadable(path) => WalkErrorView::SubtreeUnreadable(path@),
        }
    }
}

/// A directory under construction: its path, the children that still wait,
/// and the nodes built so far.
pub struct FrameView {
    pub name: Seq<char>,
    pub pending: Seq<Seq<char>>,
    pub entries: Seq<FileTreeView>,
}

/// The state of a walk. The stack holds the directories under construction,
/// the root first and the innermost last.
pub enum WalkState {
    /// The listing of `path` is awaited; the stack holds its ancestors.
    Listing { stack: Seq<FrameView>, path: Seq<char> },
    /// The probe of `path` is awaited, a child of the innermost directory.
    Probing { stack: Seq<FrameView>, path: Seq<char> },
    /// The tree is complete.
    Done(DirectoryView),
    /// A directory could not be listed.
    Failed(WalkErrorView),
}

/// The state in which a walk of `root` begins.
pub open spec fn start(root: Seq<char>) -> WalkState {
    WalkState::Listing { stack: Seq::empty(), path: root }
}

/// What the walker asks for in a state.
pub open spec fn request(state: WalkState) -> WalkActionView {
    match state {
        WalkState::Listing { stack, path } => WalkActionView::List(path),
        WalkState::Probing { stack, path } => WalkActionView::Probe(path),
        WalkState::Done(_) => WalkActionView::Stop,
        WalkState::Failed(_) => WalkActionView::Stop,
    }
}

/// The waiting children without those at the front that the filter rejects.
/// The filter is asked about the name of each entry: the final segment of its
/// path, or a single dot where the path has no name.
pub open spec fn skip_rejected(keep: Rule, pending: Seq<Seq<char>>) -> Seq<Seq<char>>
    decreases pending.len(),
{
    if pending.len() > 0 && !keep(entry_name(pending[0])) {
        skip_rejected(keep, pending.drop_first())
    } else {
        pending
    }
}

/// Where the walk stands once the innermost directory `top` has taken in an
/// answer: at the probe of its next child that passes the filter or, where
/// none waits, with `top` closed and handed to its parent, which then settles
/// in turn. When the root closes the walk is done.
pub open spec fn settle(keep: Rule, below: Seq<FrameView>, top: FrameView) -> WalkState
    decreases below.len(),
{
    let waiting = skip_rejected(keep, top.pending);
    if waiting.len() > 0 {
        WalkState::Probing {
            stack: below.push(
                FrameView { name: top.name, pending: waiting.drop_first(), entries: top.entries },
            ),
            path: waiting[0],
        }
    } else {
        let closed = DirectoryView { name: top.name, entries: top.entries };
        if below.len() == 0 {
            WalkState::Done(closed)
        } else {
            settle(
                keep,
                below.drop_last(),
                FrameView {
                    name: below.last().name,
                    pending: below.last().pending,
                    entries: below.last().entries.push(FileTreeView::DirNode(closed)),
                },
            )
        }
    }
}

/// The innermost directory with one more node.
pub open spec fn with_entry(top: FrameView, node: FileTreeView) -> FrameView {
    FrameView { name: top.name, pending: top.pending, entries: top.entries.push(node) }
}

/// The state after an event. An event that does not answer the state's
/// request changes nothing.
pub open spec fn step(keep: Rule, state: WalkState, event: WalkEventView) -> WalkState {
    match state {
        WalkState::Listing { stack, path } => match event {
            WalkEventView::Listed(paths) => settle(
                keep,
                stack,
                FrameView { name: path, pending: paths, entries: Seq::empty() },
            ),
            WalkEventView::ListFailed => if stack.len() == 0 {
                WalkState::Failed(WalkErrorView::RootUnreadable(path))
            } else {
                WalkState::Failed(WalkErrorView::SubtreeUnreadable(path))
            },
            WalkEventView::Probed(_) => state,
        },
        WalkState::Probing { stack, path } => match event {
            WalkEventView::Probed(probe) => if stack.len() == 0 {
                state
            } else {
                match probe {
                    ProbeView::Directory => WalkState::Listing { stack, path },
                    ProbeView::RegularFile(metadata) => settle(
                        keep,
                        stack.drop_last(),
                        with_entry(
                            stack.last(),
                            FileTreeView::FileNode(FileView { name: path, metadata }),
                        ),
                    ),
                    ProbeView::Symlink(target, metadata) => settle(
                        keep,
                        stack.drop_last(),
                        with_entry(
                            stack.last(),
                            FileTreeView::LinkNode(SymlinkView { name: path, target, metadata }),
                        ),
                    ),
                    ProbeView::Unreadable => settle(keep, stack.drop_last(), stack.last()),
                }
            },
            _ => state,
        },
        _ => state,
    }
}

struct Frame {
    name: String,
    pending: Vec<String>,
    next: usize,
    entries: Vec<FileTree>,
}

enum Phase {
    Listing(String),
    Probing(String),
    Done(Directory),
    Failed(WalkError),
}

/// A walk in progress, with the filter that decides which entries it visits.
pub struct Walker<F: Fn(&str) -> bool> {
    filter: F,
    frames: Vec<Frame>,
    phase: Phase,
}

/// What a filter decides about a name, as a rule on its text: the name is
/// kept where the filter can answer `true` to it.
pub open spec fn rule_of<F: Fn(&str) -> bool>(filter: F) -> Rule {
    |name: Seq<char>| exists|text: &str| text@ == name && call_ensures(filter, (text,), true)
}

/// A filter can be used by the walker where it takes every name and decides by
/// the text of the name alone.
pub open spec fn usable<F: Fn(&str) -> bool>(filter: F) -> bool {
    &&& forall|text: &str| call_requires(filter, (text,))
    &&& forall|one: &str, other: &str, first: bool, second: bool|
        one@ == other@ && #[trigger] call_ensures(filter, (one,), first)
            && #[trigger] call_ensures(filter, (other,), second) ==> first == second
}

/// Asks a filter about a name. The answer is what the filter's rule says of
/// the text of the name.
pub fn passes<F: Fn(&str) -> bool>(filter: &F, name: &str) -> (kept: bool)
    requires
        usable(*filter),
    ensures
        kept == rule_of(*filter)(name@),
        call_ensures(*filter, (name,), kept),
{
    let kept = filter(name);
    proof {
        if rule_of(*filter)(name@) {
            let text = choose|text: &str| text@ == name@ && call_ensures(*filter, (text,), true);
            assert(call_ensures(*filter, (text,), true));
            assert(call_ensures(*filter, (name,), kept));
        }
    }
    kept
}

spec fn frame_view(frame: Frame) -> FrameView {
    FrameView {
        name: frame.name@,
        pending: paths_view(frame.pending@).skip(frame.next as int),
        entries: entries_view(frame.entries@),
    }
}

spec fn frames_view(frames: Seq<Frame>) -> Seq<FrameView> {
    frames.map_values(|f: Frame| frame_view(f))
}

spec fn frames_ok(frames: Seq<Frame>) -> bool {
    forall|i: int| 0 <= i < frames.len() ==> (#[trigger] frames[i]).next <= frames[i].pending.len()
}

impl<F: Fn(&str) -> bool> View for Walker<F> {
    type V = WalkState;

    closed spec fn view(&self) -> WalkState {
        match self.phase {
            Phase::Listing(path) => WalkState::Listing {
                stack: frames_view(self.frames@),
                path: path@,
            },
            Phase::Probing(path) => WalkState::Probing {
                stack: frames_view(self.frames@),
                path: path@,
            },
            Phase::Done(tree) => WalkState::Done(tree@),
            Phase::Failed(error) => WalkState::Failed(error@),
        }
    }
}

fn settle_frames<F: Fn(&str) -> bool>(filter: F, outer: Vec<Frame>, innermost: Frame) -> (walker:
    Walker<F>)
    requires
        usable(filter),
        frames_ok(outer@),
        innermost.next <= innermost.pending.len(),
        kept_state(
            rule_of(filter),
            settle(rule_of(filter), frames_view(outer@), frame_view(innermost)),
        ),
    ensures
        walker@ == settle(rule_of(filter), frames_view(outer@), frame_view(innermost)),
        walker.rule() == rule_of(filter),
{
    let ghost keep = rule_of(filter);
    let ghost goal = settle(keep, frames_view(outer@), frame_view(innermost));
    let mut below = outer;
    let mut top = innermost;
    loop
        invariant
            usable(filter),
            keep == rule_of(filter),
            frames_ok(below@),
            top.next <= top.pending.len(),
            settle(keep, frames_view(below@), frame_view(top)) == goal,
            goal == settle(keep, frames_view(outer@), frame_view(innermost)),
            kept_state(keep, goal),
        decreases below.len(), top.pending.len() - top.next,
    {
        let ghost stack = frames_view(below@);
        let ghost waiting = frame_view(top).pending;
        if top.next < top.pending.len() {
            let path = top.pending[top.next].clone();
            top.next = top.next + 1;
            proof {
                assert(waiting[0] == path@);
                assert(frame_view(top).pending =~= waiting.drop_first());
            }
            let kept = match file_name(path.as_str()) {
                Some(name) => passes(&filter, name.as_str()),
                None => {
                    proof {
                        reveal_strlit(".");
                        assert("."@ =~= seq!['.']);
                    }
                    passes(&filter, ".")
                },
            };
            if kept {
                below.push(top);
                proof {
                    assert(skip_rejected(keep, waiting) == waiting);
                    assert(frames_view(below@) =~= stack.push(frame_view(top)));
                }
                return Walker { filter, frames: below, phase: Phase::Probing(path) };
            }
            proof {
                assert(skip_rejected(keep, waiting) == skip_rejected(keep, waiting.drop_first()));
            }
        } else {
            proof {
                assert(waiting.len() == 0);
            }
            let closed = Directory { name: top.name, entries: top.entries };
            match below.pop() {
                None => {
                    return Walker { filter, frames: below, phase: Phase::Done(closed) };
                },
                Some(parent) => {
                    let ghost outer = parent;
                    let mut parent = parent;
                    parent.entries.push(FileTree::DirNode(closed));
                    proof {
                        assert(frames_view(below@) =~= stack.drop_last());
                        assert(stack.last() == frame_view(outer));
                        assert(parent.entries@.drop_last() =~= outer.entries@);
                        assert(entries_view(parent.entries@) == entries_view(outer.entries@).push(
                            tree_view(FileTree::DirNode(closed)),
                        ));
                    }
                    top = parent;
                },
            }
        }
    }
}

impl<F: Fn(&str) -> bool> Walker<F> {
    #[verifier::type_invariant]
    spec fn well_formed(self) -> bool {
        &&& usable(self.filter)
        &&& frames_ok(self.frames@)
        &&& self.phase is Probing ==> self.frames@.len() > 0
        &&& kept_state(rule_of(self.filter), self@)
    }

    /// The rule by which this walk filters its entries.
    pub closed spec fn rule(&self) -> Rule {
        rule_of(self.filter)
    }

    /// A walk of the directory `root`, before anything was read. `filter` is
    /// asked about the name of each entry, the final segment of its path, and
    /// answers `true` for those that the walk is to visit. For a path that
    /// has no name it is asked about a single dot.
    pub fn new(root: String, filter: F) -> (walker: Self)
        requires
            usable(filter),
        ensures
            walker@ == start(root@),
            walker.rule() == rule_of(filter),
    {
        let walker = Walker { filter, frames: Vec::new(), phase: Phase::Listing(root) };
        assert(frames_view(walker.frames@) =~= Seq::<FrameView>::empty());
        walker
    }

    /// What the walker asks for next.
    pub fn action(&self) -> (action: WalkAction)
        ensures
            action@ == request(self@),
    {
        match &self.phase {
            Phase::Listing(path) => WalkAction::List(path.clone()),
            Phase::Probing(path) => WalkAction::Probe(path.clone()),
            Phase::Done(_) => WalkAction::Stop,
            Phase::Failed(_) => WalkAction::Stop,
        }
    }

    /// Takes the answer to the last request and moves on.
    pub fn step(self, event: WalkEvent) -> (next: Self)
        ensures
            next@ == step(self.rule(), self@, event@),
            next.rule() == self.rule(),
    {
        proof {
            use_type_invariant(&self);
            lemma_step_keeps(self.rule(), self@, event@);
        }
        let filter = self.filter;
        let mut frames = self.frames;
        let ghost stack = frames_view(frames@);
        match self.phase {
            Phase::Listing(path) => match event {
                WalkEvent::Listed(paths) => {
                    let top = Frame { name: path, pending: paths, next: 0, entries: Vec::new() };
                    proof {
                        assert(frame_view(top).pending =~= paths_view(paths@));
                        assert(frame_view(top).entries =~= Seq::<FileTreeView>::empty());
                    }
                    settle_frames(filter, frames, top)
                },
                WalkEvent::ListFailed => {
                    let error = if frames.len() == 0 {
                        WalkError::RootUnreadable(path)
                    } else {
                        WalkError::SubtreeUnreadable(path)
                    };
                    Walker { filter, frames, phase: Phase::Failed(error) }
                },
                WalkEvent::Probed(_) => Walker { filter, frames, phase: Phase::Listing(path) },
            },
            Phase::Probing(path) => match event {
                WalkEvent::Probed(probe) => match probe {
                    Probe::Directory => Walker { filter, frames, phase: Phase::Listing(path) },
                    Probe::RegularFile(metadata) => match frames.pop() {
                        Some(top) => {
                            let ghost inner = top;
                            let mut top = top;
                            let ghost node = FileTree::FileNode(File { name: path, metadata });
                            top.entries.push(FileTree::FileNode(File { name: path, metadata }));
                            proof {
                                assert(frames_view(frames@) =~= stack.drop_last());
                                assert(stack.last() == frame_view(inner));
                                assert(top.entries@.drop_last() =~= inner.entries@);
                                assert(entries_view(top.entries@) == entries_view(
                                    inner.entries@,
                                ).push(tree_view(node)));
                                assert(
                                    frame_view(top) == with_entry(stack.last(), tree_view(node))
                                );
                            }
                            settle_frames(filter, frames, top)
                        },
                        None => Walker { filter, frames, phase: Phase::Probing(path) },
                    },
                    Probe::Symlink(target, metadata) => match frames.pop() {
                        Some(top) => {
                            let ghost inner = top;
                            let mut top = top;
                            let ghost node = FileTree::LinkNode(
                                Symlink { name: path, target, metadata },
                            );
                            top.entries.push(
                                FileTree::LinkNode(Symlink { name: path, target, metadata }),
                            );
                            proof {
                                assert(frames_view(frames@) =~= stack.drop_last());
                                assert(stack.last() == frame_view(inner));
                                assert(top.entries@.drop_last() =~= inner.entries@);
                                assert(entries_view(top.entries@) == entries_view(
                                    inner.entries@,
                                ).push(tree_view(node)));
                                assert(
                                    frame_view(top) == with_entry(stack.last(), tree_view(node))
                                );
                            }
                            settle_frames(filter, frames, top)
                        },
                        None => Walker { filter, frames, phase: Phase::Probing(path) },
                    },
                    Probe::Unreadable => match frames.pop() {
                        Some(top) => {
                            proof {
                                assert(frames_view(frames@) =~= stack.drop_last());
                                assert(stack.last() == frame_view(top));
                            }
                            settle_frames(filter, frames, top)
                        },
                        None => Walker { filter, frames, phase: Phase::Probing(path) },
                    },
                },
                WalkEvent::Listed(_) => Walker { filter, frames, phase: Phase::Probing(path) },
                WalkEvent::ListFailed => Walker { filter, frames, phase: Phase::Probing(path) },
            },
            Phase::Done(tree) => Walker { filter, frames, phase: Phase::Done(tree) },
            Phase::Failed(error) => Walker { filter, frames, phase: Phase::Failed(error) },
        }
    }

    /// The outcome of the walk: the tree, or the directory that could not be
    /// listed; `None` while the walk is still under way. The tree holds no
    /// entry that the filter rejects, at any depth.
    pub fn finish(self) -> (outcome: Option<Result<Directory, WalkError>>)
        ensures
            match self@ {
                WalkState::Done(tree) => outcome matches Some(Ok(built)) && built@ == tree,
                WalkState::Failed(error) => outcome matches Some(Err(reason)) && reason@ == error,
                _ => outcome is None,
            },
            outcome matches Some(Ok(built)) ==> kept_entries(self.rule(), built@.entries),
    {
        proof {
            use_type_invariant(&self);
        }
        match self.phase {
            Phase::Done(tree) => Some(Ok(tree)),
            Phase::Failed(error) => Some(Err(error)),
            _ => None,
        }
    }
}

/// A node is kept when its name passes the filter and, for a directory, every
/// node beneath it is kept too.
pub open spec fn kept_node(keep: Rule, node: FileTreeView) -> bool
    decreases node,
{
    match node {
        FileTreeView::DirNode(d) => keep(entry_name(d.name)) && kept_entries(keep, d.entries),
        FileTreeView::FileNode(f) => keep(entry_name(f.name)),
        FileTreeView::LinkNode(l) => keep(entry_name(l.name)),
    }
}

/// Every node of the child list is kept, at every depth.
pub open spec fn kept_entries(keep: Rule, entries: Seq<FileTreeView>) -> bool
    decreases entries,
{
    entries.len() == 0 || {
        &&& kept_entries(keep, entries.drop_last())
        &&& kept_node(keep, entries.last())
    }
}

/// Every directory under construction holds kept nodes only, and each but the
/// root, which is taken as given, is kept itself.
pub open spec fn kept_frames(keep: Rule, stack: Seq<FrameView>) -> bool {
    forall|i: int|
        0 <= i < stack.len() ==> kept_entries(keep, (#[trigger] stack[i]).entries) && (i > 0
            ==> keep(entry_name(stack[i].name)))
}

/// No entry that the filter rejects has found its way into the walk: not into
/// the nodes built so far, and not into the request that is out.
pub open spec fn kept_state(keep: Rule, state: WalkState) -> bool {
    match state {
        WalkState::Listing { stack, path } => {
            &&& kept_frames(keep, stack)
            &&& stack.len() > 0 ==> keep(entry_name(path))
        },
        WalkState::Probing { stack, path } => {
            &&& kept_frames(keep, stack)
            &&& keep(entry_name(path))
        },
        WalkState::Done(tree) => kept_entries(keep, tree.entries),
        WalkState::Failed(_) => true,
    }
}

proof fn lemma_skip_rejected(keep: Rule, pending: Seq<Seq<char>>)
    ensures
        skip_rejected(keep, pending).len() > 0 ==> keep(
            entry_name(skip_rejected(keep, pending)[0]),
        ),
    decreases pending.len(),
{
    if pending.len() > 0 && !keep(entry_name(pending[0])) {
        lemma_skip_rejected(keep, pending.drop_first());
    }
}

proof fn lemma_kept_push(keep: Rule, entries: Seq<FileTreeView>, node: FileTreeView)
    requires
        kept_entries(keep, entries),
        kept_node(keep, node),
    ensures
        kept_entries(keep, entries.push(node)),
{
    assert(entries.push(node).drop_last() =~= entries);
}

proof fn lemma_frames_push(keep: Rule, below: Seq<FrameView>, top: FrameView)
    requires
        kept_frames(keep, below),
        kept_entries(keep, top.entries),
        below.len() > 0 ==> keep(entry_name(top.name)),
    ensures
        kept_frames(keep, below.push(top)),
{
    let stack = below.push(top);
    assert forall|i: int| 0 <= i < stack.len() implies kept_entries(
        keep,
        (#[trigger] stack[i]).entries,
    ) && (i > 0 ==> keep(entry_name(stack[i].name))) by {
        if i < below.len() {
            assert(stack[i] == below[i]);
        }
    }
}

proof fn lemma_frames_pop(keep: Rule, stack: Seq<FrameView>)
    requires
        kept_frames(keep, stack),
        stack.len() > 0,
    ensures
        kept_frames(keep, stack.drop_last()),
        kept_entries(keep, stack.last().entries),
        stack.len() > 1 ==> keep(entry_name(stack.last().name)),
{
    let below = stack.drop_last();
    assert forall|i: int| 0 <= i < below.len() implies kept_entries(
        keep,
        (#[trigger] below[i]).entries,
    ) && (i > 0 ==> keep(entry_name(below[i].name))) by {
        assert(below[i] == stack[i]);
    }
}

proof fn lemma_settle_keeps(keep: Rule, below: Seq<FrameView>, top: FrameView)
    requires
        kept_frames(keep, below),
        kept_entries(keep, top.entries),
        below.len() > 0 ==> keep(entry_name(top.name)),
    ensures
        kept_state(keep, settle(keep, below, top)),
        !(settle(keep, below, top) is Listing),
    decreases below.len(),
{
    let waiting = skip_rejected(keep, top.pending);
    lemma_skip_rejected(keep, top.pending);
    if waiting.len() > 0 {
        lemma_frames_push(
            keep,
            below,
            FrameView { name: top.name, pending: waiting.drop_first(), entries: top.entries },
        );
    } else if below.len() > 0 {
        let closed = DirectoryView { name: top.name, entries: top.entries };
        let parent = below.last();
        lemma_frames_pop(keep, below);
        lemma_kept_push(keep, parent.entries, FileTreeView::DirNode(closed));
        lemma_settle_keeps(
            keep,
            below.drop_last(),
            FrameView {
                name: parent.name,
                pending: parent.pending,
                entries: parent.entries.push(FileTreeView::DirNode(closed)),
            },
        );
    }
}

proof fn lemma_step(keep: Rule, state: WalkState, event: WalkEventView)
    requires
        kept_state(keep, state),
    ensures
        kept_state(keep, step(keep, state, event)),
        step(keep, state, event) is Listing ==> step(keep, state, event) == state || (
        state is Probing && event == WalkEventView::Probed(ProbeView::Directory)),
{
    match state {
        WalkState::Listing { stack, path } => match event {
            WalkEventView::Listed(paths) => {
                let top = FrameView { name: path, pending: paths, entries: Seq::empty() };
                lemma_settle_keeps(keep, stack, top);
            },
            _ => {},
        },
        WalkState::Probing { stack, path } => match event {
            WalkEventView::Probed(probe) => if stack.len() > 0 {
                let below = stack.drop_last();
                let top = stack.last();
                lemma_frames_pop(keep, stack);
                match probe {
                    ProbeView::Directory => {},
                    ProbeView::RegularFile(metadata) => {
                        let node = FileTreeView::FileNode(FileView { name: path, metadata });
                        lemma_kept_push(keep, top.entries, node);
                        lemma_settle_keeps(keep, below, with_entry(top, node));
                    },
                    ProbeView::Symlink(target, metadata) => {
                        let node = FileTreeView::LinkNode(
                            SymlinkView { name: path, target, metadata },
                        );
                        lemma_kept_push(keep, top.entries, node);
                        lemma_settle_keeps(keep, below, with_entry(top, node));
                    },
                    ProbeView::Unreadable => {
                        lemma_settle_keeps(keep, below, top);
                    },
                }
            },
            _ => {},
        },
        _ => {},
    }
}

/// A walk begins without a rejected entry.
pub proof fn lemma_start_keeps(keep: Rule, root: Seq<char>)
    ensures
        kept_state(keep, start(root)),
{
}

/// Whatever the driver answers, no entry that the filter rejects enters the
/// walk: the next request names none, and the nodes built so far, the
/// finished tree in the end, hold none at any depth. The root alone is taken
/// as given.
pub proof fn lemma_step_keeps(keep: Rule, state: WalkState, event: WalkEventView)
    requires
        kept_state(keep, state),
    ensures
        kept_state(keep, step(keep, state, event)),
{
    lemma_step(keep, state, event);
}

/// The walker asks for the listing of a path in two cases only: it was
/// already waiting for that listing, or the path has just been probed and found
/// to be a directory. So nothing is entered that was probed as a symbolic
/// link, a regular file or an unreadable entry.
pub proof fn lemma_lists_only_directories(keep: Rule, state: WalkState, event: WalkEventView)
    requires
        kept_state(keep, state),
    ensures
        step(keep, state, event) matches WalkState::Listing { stack, path } ==> {
            ||| step(keep, state, event) == state
            ||| state == (WalkState::Probing { stack, path }) && event == WalkEventView::Probed(
                ProbeView::Directory,
            )
        },
{
    lemma_step(keep, state, event);
}

/// The regular files of a tree of kept nodes are kept themselves.
pub proof fn lemma_kept_files(keep: Rule, entries: Seq<FileTreeView>, i: int)
    requires
        kept_entries(keep, entries),
        0 <= i < files_of_entries(entries).len(),
    ensures
        keep(entry_name(files_of_entries(entries)[i].name)),
    decreases entries,
{
    if entries.len() > 0 {
        let earlier = files_of_entries(entries.drop_last());
        let node = entries.last();
        assert(kept_entries(keep, entries.drop_last()) && kept_node(keep, node));
        assert(files_of_entries(entries) == earlier + files_of_node(node));
        if i < earlier.len() {
            lemma_kept_files(keep, entries.drop_last(), i);
        } else {
            match node {
                FileTreeView::DirNode(d) => {
                    assert(kept_entries(keep, d.entries));
                    assert(files_of_node(node) == files_of_entries(d.entries));
                    lemma_kept_files(keep, d.entries, i - earlier.len());
                },
                FileTreeView::FileNode(f) => {
                    assert(files_of_node(node) == seq![f]);
                },
                FileTreeView::LinkNode(_) => {},
            }
        }
    }
}

/// What the default filter keeps is not hidden. With [`lemma_step_keeps`] and
/// [`lemma_kept_files`]: a walk with the default filter builds a tree without
/// hidden entries, and none of its files is hidden.
pub proof fn lemma_default_filter(name: Seq<char>)
    requires
        rule_of(should_skip)(name),
    ensures
        !is_hidden(name),
{
}

/// An entry that the default filter keeps has a name, which is the final
/// segment of its path and is not hidden: a path without a name is filtered
/// as a single dot, which is hidden.
pub proof fn lemma_default_filter_names(path: Seq<char>)
    requires
        rule_of(should_skip)(entry_name(path)),
    ensures
        has_name(path),
        !is_hidden(final_segment(path)),
{
    lemma_default_filter(entry_name(path));
}

} // verus!
