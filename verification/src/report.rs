//! The collision reporter: every bucket with two or more files becomes one
//! duplicate group.
//!
//! Groups by content and groups by name are kept apart and never merged: a
//! pair of files may well stand in both. Nothing here prints; the report is a
//! value.

use crate::file_tree::index::{bucket_views, file_views, Bucket, BucketView, FileIndex};
use crate::file_tree::{Directory, DirectoryView, File, FileView};
use crate::scan::{
    all_named, content_index, create_hash_index, create_name_index, digest_keys, name_index,
};
use crate::walker::{WalkError, WalkErrorView};
use vstd::prelude::*;

verus! {

/// The files of one bucket that holds more than one: probable duplicates of
/// each other.
#[derive(Debug)]
pub struct DuplicateGroup {
    /// The file that was recorded first.
    pub representative: File,
    /// Every file of the bucket, the representative included, in the order in
    /// which they were recorded.
    pub members: Vec<File>,
}

/// The model of a [`DuplicateGroup`].
pub struct DuplicateGroupView {
    pub representative: FileView,
    pub members: Seq<FileView>,
}

impl View for DuplicateGroup {
    type V = DuplicateGroupView;

    open spec fn view(&self) -> DuplicateGroupView {
        DuplicateGroupView {
            representative: self.representative@,
            members: file_views(self.members@),
        }
    }
}

/// The models of a list of groups, in the same order.
pub open spec fn group_views(groups: Seq<DuplicateGroup>) -> Seq<DuplicateGroupView> {
    groups.map_values(|g: DuplicateGroup| g@)
}

/// Whether a bucket is a collision: it holds two files or more.
pub open spec fn is_collision(bucket: BucketView) -> bool {
    bucket.files.len() >= 2
}

/// The duplicate groups of a grouping: one for each bucket that is a
/// collision, in the order of the buckets.
pub open spec fn collisions(groups: Seq<BucketView>) -> Seq<DuplicateGroupView>
    decreases groups.len(),
{
    if groups.len() == 0 {
        Seq::empty()
    } else if is_collision(groups.last()) {
        collisions(groups.drop_last()).push(
            DuplicateGroupView {
                representative: groups.last().files[0],
                members: groups.last().files,
            },
        )
    } else {
        collisions(groups.drop_last())
    }
}

/// Both reports of one scan. The two are independent.
#[derive(Debug)]
pub struct Report {
    /// Groups of files with the same content fingerprint.
    pub content: Vec<DuplicateGroup>,
    /// Groups of files with the same normalized name.
    pub names: Vec<DuplicateGroup>,
}

/// The model of a [`Report`].
pub struct ReportView {
    pub content: Seq<DuplicateGroupView>,
    pub names: Seq<DuplicateGroupView>,
}

impl View for Report {
    type V = ReportView;

    open spec fn view(&self) -> ReportView {
        ReportView { content: group_views(self.content@), names: group_views(self.names@) }
    }
}

/// How a scan ended: the exit code of the process and what there is to
/// report.
#[derive(Debug)]
pub struct Outcome {
    pub exit_code: i32,
    pub report: Report,
}

/// The model of an [`Outcome`].
pub struct OutcomeView {
    pub exit_code: int,
    pub report: ReportView,
}

impl View for Outcome {
    type V = OutcomeView;

    open spec fn view(&self) -> OutcomeView {
        OutcomeView { exit_code: self.exit_code as int, report: self.report@ }
    }
}

/// The model of the end of a walk.
pub open spec fn walk_view(walk: Result<Directory, WalkError>) -> Result<
    DirectoryView,
    WalkErrorView,
> {
    match walk {
        Ok(tree) => Ok(tree@),
        Err(error) => Err(error@),
    }
}

/// The outcome of a scan. Where the walk produced a tree, the exit code is 0,
/// whether or not anything is reported, and the report holds the collisions of
/// the by-content grouping and those of the by-name grouping. Where the walk
/// failed, the exit code is 1 and nothing is reported.
pub open spec fn scan_outcome(
    walk: Result<DirectoryView, WalkErrorView>,
    fingerprints: Seq<Option<Seq<char>>>,
) -> OutcomeView {
    match walk {
        Ok(tree) => OutcomeView {
            exit_code: 0,
            report: ReportView {
                content: collisions(content_index(tree, fingerprints)),
                names: collisions(name_index(tree)),
            },
        },
        Err(_) => OutcomeView {
            exit_code: 1,
            report: ReportView { content: Seq::empty(), names: Seq::empty() },
        },
    }
}

fn copy_files(files: &Vec<File>) -> (copy: Vec<File>)
    ensures
        copy@ == files@,
{
    let mut copy: Vec<File> = Vec::new();
    let count = files.len();
    let mut i: usize = 0;
    while i < count
        invariant
            count == files.len(),
            i <= count,
            copy@ == files@.take(i as int),
        decreases count - i,
    {
        copy.push(files[i].clone());
        assert(files@.take(i as int + 1) =~= files@.take(i as int).push(files@[i as int]));
        i = i + 1;
    }
    assert(files@.take(count as int) =~= files@);
    copy
}

/// Turns the buckets of one grouping into duplicate groups. A bucket with a
/// single file gives none.
pub fn duplicate_groups(buckets: &Vec<Bucket>) -> (groups: Vec<DuplicateGroup>)
    ensures
        group_views(groups@) == collisions(bucket_views(buckets@)),
{
    let ghost all = bucket_views(buckets@);
    let mut groups: Vec<DuplicateGroup> = Vec::new();
    let count = buckets.len();
    let mut i: usize = 0;
    assert(all.take(0) =~= Seq::<BucketView>::empty());
    assert(group_views(groups@) =~= Seq::<DuplicateGroupView>::empty());
    while i < count
        invariant
            count == buckets.len(),
            i <= count,
            all == bucket_views(buckets@),
            group_views(groups@) == collisions(all.take(i as int)),
        decreases count - i,
    {
        let bucket = &buckets[i];
        let ghost found = groups@;
        proof {
            assert(all.take(i as int + 1).drop_last() =~= all.take(i as int));
            assert(all.take(i as int + 1).last() == bucket@);
        }
        if bucket.files.len() >= 2 {
            let group = DuplicateGroup {
                representative: bucket.files[0].clone(),
                members: copy_files(&bucket.files),
            };
            groups.push(group);
            assert(group_views(groups@) =~= group_views(found).push(group@));
        }
        i = i + 1;
    }
    assert(all.take(count as int) =~= all);
    groups
}

/// The duplicate groups of both groupings of an index.
pub fn report(file_index: &FileIndex) -> (found: Report)
    ensures
        found@.content == collisions(file_index.content_buckets()),
        found@.names == collisions(file_index.name_buckets()),
{
    Report {
        content: duplicate_groups(file_index.get_hashes()),
        names: duplicate_groups(file_index.get_names()),
    }
}

/// Finds the duplicates of a walked tree.
///
/// `walk` is how the walk of the root ended, and `digests` holds the digest
/// outcome of each regular file of the tree in traversal order: its
/// fingerprint, or `None` where the content could not be read. Every file of
/// the tree must have a path with a name, as the files of a walk with the
/// default filter have.
pub fn organize(walk: &Result<Directory, WalkError>, digests: &Vec<Option<String>>) -> (outcome:
    Outcome)
    requires
        walk matches Ok(tree) ==> all_named(tree@.files()),
    ensures
        outcome@ == scan_outcome(walk_view(*walk), digest_keys(digests@)),
{
    match walk {
        Ok(tree) => {
            let mut file_index = FileIndex::new();
            create_hash_index(tree, digests, &mut file_index);
            create_name_index(tree, &mut file_index);
            Outcome { exit_code: 0, report: report(&file_index) }
        },
        Err(_) => {
            let nothing = Report { content: Vec::new(), names: Vec::new() };
            assert(nothing@.content =~= Seq::<DuplicateGroupView>::empty());
            assert(nothing@.names =~= Seq::<DuplicateGroupView>::empty());
            Outcome { exit_code: 1, report: nothing }
        },
    }
}

/// A scan of what has not changed reports the same again: two outcomes for
/// the same tree and the same fingerprints have the same exit code and the
/// same groups, with the same members in the same order.
pub proof fn lemma_same_scan_same_outcome(
    first: Outcome,
    second: Outcome,
    walk: Result<DirectoryView, WalkErrorView>,
    fingerprints: Seq<Option<Seq<char>>>,
)
    requires
        first@ == scan_outcome(walk, fingerprints),
        second@ == scan_outcome(walk, fingerprints),
    ensures
        first.exit_code == second.exit_code,
        group_views(first.report.content@) == group_views(second.report.content@),
        group_views(first.report.names@) == group_views(second.report.names@),
{
}

/// What the reporter hands out is exactly the collisions: each group is the
/// whole of a bucket with two files or more, led by the file recorded first,
/// and each such bucket has its group.
pub proof fn lemma_collisions(groups: Seq<BucketView>)
    ensures
        forall|g: int|
            0 <= g < collisions(groups).len() ==> (#[trigger] collisions(groups)[g]).members.len()
                >= 2 && collisions(groups)[g].representative == collisions(groups)[g].members[0]
                && exists|b: int|
                0 <= b < groups.len() && (#[trigger] groups[b]).files == collisions(
                    groups,
                )[g].members,
        forall|b: int|
            0 <= b < groups.len() && is_collision(#[trigger] groups[b]) ==> exists|g: int|
                0 <= g < collisions(groups).len() && (#[trigger] collisions(groups)[g]).members
                    == groups[b].files,
    decreases groups.len(),
{
    if groups.len() > 0 {
        let earlier = groups.drop_last();
        let found = collisions(groups);
        lemma_collisions(earlier);
        assert forall|g: int| 0 <= g < found.len() implies (#[trigger] found[g]).members.len() >= 2
            && found[g].representative == found[g].members[0] && exists|b: int|
            0 <= b < groups.len() && (#[trigger] groups[b]).files == found[g].members by {
            if g < collisions(earlier).len() {
                let b = choose|b: int|
                    0 <= b < earlier.len() && (#[trigger] earlier[b]).files == collisions(
                        earlier,
                    )[g].members;
                assert(groups[b].files == found[g].members);
            } else {
                assert(groups[groups.len() - 1].files == found[g].members);
            }
        }
        assert forall|b: int|
            0 <= b < groups.len() && is_collision(#[trigger] groups[b]) implies exists|g: int|
            0 <= g < found.len() && (#[trigger] found[g]).members == groups[b].files by {
            if b < earlier.len() {
                assert(is_collision(earlier[b]));
                let g = choose|g: int|
                    0 <= g < collisions(earlier).len() && (#[trigger] collisions(
                        earlier,
                    )[g]).members == earlier[b].files;
                assert(found[g].members == groups[b].files);
            } else {
                assert(found[found.len() - 1].members == groups[b].files);
            }
        }
    }
}

} // verus!
