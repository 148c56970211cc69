//! Building the duplicate index from a tree: one pass over the regular files
//! for each grouping.
//!
//! The by-content pass takes the fingerprints from outside, one for each file
//! in traversal order. A file whose content could not be read has none; it is
//! left out of the by-content grouping and the pass goes on. The by-name pass
//! needs nothing but the tree, so a file without a fingerprint still has its
//! place there.

use crate::file_tree::index::{
    distinct_keys, has_key, lemma_record, members, record, slot_of, BucketView, FileIndex,
};
use crate::file_tree::{
    files_of_entries, views_of, visit_files, Directory, DirectoryView, File, FileTreeView,
    FileView,
};
use crate::path_name::{has_name, normalized_name};
use crate::walker::{
    kept_entries, lemma_default_filter_names, lemma_kept_files, rule_of, should_skip,
};
use vstd::prelude::*;

verus! {

/// The key given for the file at place `i` of the traversal, if there is one.
pub open spec fn key_at(keys: Seq<Option<Seq<char>>>, i: int) -> Option<Seq<char>> {
    if 0 <= i < keys.len() {
        keys[i]
    } else {
        None
    }
}

/// The grouping after the files have been recorded in order, each under the
/// key at its place. A file without a key is passed over.
pub open spec fn record_all(
    groups: Seq<BucketView>,
    keys: Seq<Option<Seq<char>>>,
    files: Seq<FileView>,
) -> Seq<BucketView>
    decreases files.len(),
{
    if files.len() == 0 {
        groups
    } else {
        let earlier = record_all(groups, keys, files.drop_last());
        match key_at(keys, files.len() - 1) {
            Some(key) => record(earlier, key, files.last()),
            None => earlier,
        }
    }
}

/// The files whose key is `key`, in traversal order.
pub open spec fn selected(
    keys: Seq<Option<Seq<char>>>,
    files: Seq<FileView>,
    key: Seq<char>,
) -> Seq<FileView>
    decreases files.len(),
{
    if files.len() == 0 {
        Seq::empty()
    } else if key_at(keys, files.len() - 1) == Some(key) {
        selected(keys, files.drop_last(), key).push(files.last())
    } else {
        selected(keys, files.drop_last(), key)
    }
}

/// How many files a grouping holds, each counted as often as it stands there.
pub open spec fn total_files(groups: Seq<BucketView>) -> nat
    decreases groups.len(),
{
    if groups.len() == 0 {
        0
    } else {
        total_files(groups.drop_last()) + groups.last().files.len()
    }
}

/// How many of the first `count` places have a key.
pub open spec fn keyed(keys: Seq<Option<Seq<char>>>, count: nat) -> nat
    decreases count,
{
    if count == 0 {
        0
    } else if key_at(keys, count - 1) is Some {
        keyed(keys, (count - 1) as nat) + 1
    } else {
        keyed(keys, (count - 1) as nat)
    }
}

/// The fingerprints as keys: the text of each, and none where the digest
/// failed.
pub open spec fn digest_keys(digests: Seq<Option<String>>) -> Seq<Option<Seq<char>>> {
    digests.map_values(
        |d: Option<String>|
            match d {
                Some(text) => Some(text@),
                None => None,
            },
    )
}

/// Every file has a path with a name.
pub open spec fn all_named(files: Seq<FileView>) -> bool {
    forall|i: int| 0 <= i < files.len() ==> has_name((#[trigger] files[i]).name)
}

/// The normalized name of each file, as its key.
pub open spec fn name_keys(files: Seq<FileView>) -> Seq<Option<Seq<char>>> {
    files.map_values(|f: FileView| Some(normalized_name(f.name)))
}

/// The by-content grouping of a tree, given the fingerprints of its files in
/// traversal order.
pub open spec fn content_index(tree: DirectoryView, fingerprints: Seq<Option<Seq<char>>>) -> Seq<
    BucketView,
> {
    record_all(Seq::empty(), fingerprints, tree.files())
}

/// The by-name grouping of a tree.
pub open spec fn name_index(tree: DirectoryView) -> Seq<BucketView> {
    record_all(Seq::empty(), name_keys(tree.files()), tree.files())
}

/// Records every regular file of the tree under its content fingerprint.
/// `digests` holds one outcome for each file in traversal order: the
/// fingerprint, or `None` where the content could not be digested. A file
/// without a fingerprint, and one for which `digests` is too short, is left
/// out. The grouping by name is not touched.
pub fn create_hash_index(
    node: &Directory,
    digests: &Vec<Option<String>>,
    file_index: &mut FileIndex,
)
    ensures
        final(file_index).content_buckets() == record_all(
            old(file_index).content_buckets(),
            digest_keys(digests@),
            node@.files(),
        ),
        final(file_index).name_buckets() == old(file_index).name_buckets(),
{
    let files = visit_files(node);
    let ghost before = file_index.content_buckets();
    let ghost names = file_index.name_buckets();
    let ghost all = node@.files();
    let ghost keys = digest_keys(digests@);
    let count = files.len();
    let mut i: usize = 0;
    assert(all.take(0) =~= Seq::<FileView>::empty());
    while i < count
        invariant
            count == files.len(),
            i <= count,
            all == views_of(files@),
            keys == digest_keys(digests@),
            file_index.content_buckets() == record_all(before, keys, all.take(i as int)),
            file_index.name_buckets() == names,
        decreases count - i,
    {
        proof {
            assert(all.take(i as int + 1).drop_last() =~= all.take(i as int));
            assert(all.take(i as int + 1).last() == files@[i as int]@);
        }
        if i < digests.len() {
            match &digests[i] {
                Some(digest) => {
                    let file: &File = files[i];
                    file_index.store_hash(digest.clone(), file.clone());
                },
                None => {},
            }
        }
        i = i + 1;
    }
    assert(all.take(count as int) =~= all);
}

/// Records every regular file of the tree under its normalized name. The
/// grouping by content is not touched. Every file of the tree must have a path
/// with a name, as the files of a walk with the default filter have.
pub fn create_name_index(node: &Directory, file_index: &mut FileIndex)
    requires
        all_named(node@.files()),
    ensures
        final(file_index).name_buckets() == record_all(
            old(file_index).name_buckets(),
            name_keys(node@.files()),
            node@.files(),
        ),
        final(file_index).content_buckets() == old(file_index).content_buckets(),
{
    let files = visit_files(node);
    let ghost before = file_index.name_buckets();
    let ghost contents = file_index.content_buckets();
    let ghost all = node@.files();
    let ghost keys = name_keys(all);
    let count = files.len();
    let mut i: usize = 0;
    assert(all.take(0) =~= Seq::<FileView>::empty());
    while i < count
        invariant
            count == files.len(),
            i <= count,
            all == views_of(files@),
            keys == name_keys(all),
            all_named(all),
            file_index.name_buckets() == record_all(before, keys, all.take(i as int)),
            file_index.content_buckets() == contents,
        decreases count - i,
    {
        proof {
            assert(all.take(i as int + 1).drop_last() =~= all.take(i as int));
            assert(all.take(i as int + 1).last() == files@[i as int]@);
        }
        let file: &File = files[i];
        assert(has_name(all[i as int].name));
        file_index.store_name(&file.name, file.clone());
        i = i + 1;
    }
    assert(all.take(count as int) =~= all);
}

/// What a grouping holds after a pass. Under each key stand the files that
/// were there before, followed by exactly the files of the pass that have that
/// key, in traversal order; a key has a bucket if and only if it had one
/// before or some file of the pass has it; and no key stands in two buckets.
pub proof fn lemma_record_all(
    groups: Seq<BucketView>,
    keys: Seq<Option<Seq<char>>>,
    files: Seq<FileView>,
    key: Seq<char>,
)
    requires
        distinct_keys(groups),
    ensures
        distinct_keys(record_all(groups, keys, files)),
        members(record_all(groups, keys, files), key) == members(groups, key) + selected(
            keys,
            files,
            key,
        ),
        has_key(record_all(groups, keys, files), key) <==> has_key(groups, key) || selected(
            keys,
            files,
            key,
        ).len() > 0,
    decreases files.len(),
{
    if files.len() == 0 {
        assert(members(groups, key) + Seq::<FileView>::empty() =~= members(groups, key));
    } else {
        let earlier = record_all(groups, keys, files.drop_last());
        let chosen = selected(keys, files.drop_last(), key);
        lemma_record_all(groups, keys, files.drop_last(), key);
        match key_at(keys, files.len() - 1) {
            Some(k) => {
                lemma_record(earlier, k, files.last(), key);
                if k == key {
                    assert((members(groups, key) + chosen).push(files.last()) =~= members(
                        groups,
                        key,
                    ) + chosen.push(files.last()));
                }
            },
            None => {},
        }
    }
}

/// A file that has a key is among the files selected for that key.
pub proof fn lemma_selected_holds(
    keys: Seq<Option<Seq<char>>>,
    files: Seq<FileView>,
    key: Seq<char>,
    i: int,
)
    requires
        0 <= i < files.len(),
        key_at(keys, i) == Some(key),
    ensures
        selected(keys, files, key).contains(files[i]),
    decreases files.len(),
{
    let earlier = selected(keys, files.drop_last(), key);
    if i == files.len() - 1 {
        assert(earlier.push(files.last())[earlier.len() as int] == files[i]);
    } else {
        lemma_selected_holds(keys, files.drop_last(), key, i);
        let place = choose|p: int| 0 <= p < earlier.len() && earlier[p] == files[i];
        if key_at(keys, files.len() - 1) == Some(key) {
            assert(earlier.push(files.last())[place] == files[i]);
        }
    }
}

/// Every file selected for a key is a file of the traversal that has that key.
pub proof fn lemma_selected_only(
    keys: Seq<Option<Seq<char>>>,
    files: Seq<FileView>,
    key: Seq<char>,
    place: int,
)
    requires
        0 <= place < selected(keys, files, key).len(),
    ensures
        exists|i: int|
            0 <= i < files.len() && key_at(keys, i) == Some(key) && #[trigger] files[i] == selected(
                keys,
                files,
                key,
            )[place],
    decreases files.len(),
{
    if files.len() > 0 {
        let earlier = selected(keys, files.drop_last(), key);
        if key_at(keys, files.len() - 1) == Some(key) && place == earlier.len() {
            assert(files[files.len() - 1] == selected(keys, files, key)[place]);
        } else {
            lemma_selected_only(keys, files.drop_last(), key, place);
            let i = choose|i: int|
                0 <= i < files.drop_last().len() && key_at(keys, i) == Some(key)
                    && #[trigger] files.drop_last()[i] == earlier[place];
            assert(files[i] == selected(keys, files, key)[place]);
        }
    }
}

/// At most one bucket of the grouping has this key.
pub open spec fn single_bucket(groups: Seq<BucketView>, key: Seq<char>) -> bool {
    forall|a: int, b: int|
        0 <= a < groups.len() && 0 <= b < groups.len() && (#[trigger] groups[a]).key == key
            && (#[trigger] groups[b]).key == key ==> a == b
}

/// In an index built from nothing, two files that have the same key stand
/// together in one bucket, and that key has no second bucket.
pub proof fn lemma_same_key_same_bucket(
    keys: Seq<Option<Seq<char>>>,
    files: Seq<FileView>,
    i: int,
    j: int,
)
    requires
        0 <= i < files.len(),
        0 <= j < files.len(),
        key_at(keys, i) is Some,
        key_at(keys, i) == key_at(keys, j),
    ensures
        ({
            let index = record_all(Seq::empty(), keys, files);
            let key = key_at(keys, i)->0;
            &&& has_key(index, key)
            &&& members(index, key).contains(files[i])
            &&& members(index, key).contains(files[j])
            &&& single_bucket(index, key)
        }),
{
    let index = record_all(Seq::empty(), keys, files);
    let key = key_at(keys, i)->0;
    lemma_record_all(Seq::empty(), keys, files, key);
    lemma_selected_holds(keys, files, key, i);
    lemma_selected_holds(keys, files, key, j);
    assert(Seq::<FileView>::empty() + selected(keys, files, key) =~= selected(keys, files, key));
    assert forall|a: int, b: int|
        0 <= a < index.len() && 0 <= b < index.len() && (#[trigger] index[a]).key == key
            && (#[trigger] index[b]).key == key implies a == b by {
        if a < b {
            assert(index[a].key != index[b].key);
        } else if b < a {
            assert(index[b].key != index[a].key);
        }
    }
}

/// In an index built from nothing, two files that have different keys stand
/// in different buckets, and a bucket holds no file but those that have its
/// key.
pub proof fn lemma_different_keys_different_buckets(
    keys: Seq<Option<Seq<char>>>,
    files: Seq<FileView>,
    i: int,
    j: int,
)
    requires
        0 <= i < files.len(),
        0 <= j < files.len(),
        key_at(keys, i) is Some,
        key_at(keys, j) is Some,
        key_at(keys, i) != key_at(keys, j),
    ensures
        ({
            let index = record_all(Seq::empty(), keys, files);
            let first = key_at(keys, i)->0;
            let second = key_at(keys, j)->0;
            &&& has_key(index, first)
            &&& has_key(index, second)
            &&& slot_of(index, first) != slot_of(index, second)
            &&& members(index, first) == selected(keys, files, first)
            &&& members(index, second) == selected(keys, files, second)
        }),
{
    let first = key_at(keys, i)->0;
    let second = key_at(keys, j)->0;
    lemma_record_all(Seq::empty(), keys, files, first);
    lemma_record_all(Seq::empty(), keys, files, second);
    lemma_selected_holds(keys, files, first, i);
    lemma_selected_holds(keys, files, second, j);
    let of_first = selected(keys, files, first);
    let of_second = selected(keys, files, second);
    assert(Seq::<FileView>::empty() + of_first =~= of_first);
    assert(Seq::<FileView>::empty() + of_second =~= of_second);
}

/// Two files whose paths have the same normalized name have the same key in
/// the by-name grouping, whatever directories they are in.
pub proof fn lemma_name_keys(files: Seq<FileView>, i: int, j: int)
    requires
        0 <= i < files.len(),
        0 <= j < files.len(),
    ensures
        key_at(name_keys(files), i) == Some(normalized_name(files[i].name)),
        normalized_name(files[i].name) == normalized_name(files[j].name) ==> key_at(
            name_keys(files),
            i,
        ) == key_at(name_keys(files), j),
{
}

proof fn lemma_total_update(groups: Seq<BucketView>, slot: int, bucket: BucketView)
    requires
        0 <= slot < groups.len(),
    ensures
        total_files(groups.update(slot, bucket)) == total_files(groups) - groups[slot].files.len()
            + bucket.files.len(),
    decreases groups.len(),
{
    let after = groups.update(slot, bucket);
    if slot == groups.len() - 1 {
        assert(after.drop_last() =~= groups.drop_last());
    } else {
        assert(after.drop_last() =~= groups.drop_last().update(slot, bucket));
        lemma_total_update(groups.drop_last(), slot, bucket);
    }
}

/// Recording a file adds one file to the grouping.
pub proof fn lemma_record_total(groups: Seq<BucketView>, key: Seq<char>, file: FileView)
    ensures
        total_files(record(groups, key, file)) == total_files(groups) + 1,
{
    if has_key(groups, key) {
        let slot = slot_of(groups, key);
        lemma_total_update(
            groups,
            slot,
            BucketView { key: key, files: groups[slot].files.push(file) },
        );
    } else {
        let added = BucketView { key: key, files: seq![file] };
        assert(groups.push(added).drop_last() =~= groups);
    }
}

/// A pass adds each file that has a key once, and nothing else: together with
/// [`lemma_record_all`], every such file stands in exactly one bucket, that of
/// its key.
pub proof fn lemma_record_all_total(
    groups: Seq<BucketView>,
    keys: Seq<Option<Seq<char>>>,
    files: Seq<FileView>,
)
    ensures
        total_files(record_all(groups, keys, files)) == total_files(groups) + keyed(
            keys,
            files.len(),
        ),
    decreases files.len(),
{
    if files.len() > 0 {
        lemma_record_all_total(groups, keys, files.drop_last());
        match key_at(keys, files.len() - 1) {
            Some(key) => {
                lemma_record_total(record_all(groups, keys, files.drop_last()), key, files.last());
            },
            None => {},
        }
    }
}

/// In the by-name pass every file has a key, so the grouping by name holds
/// each file of the tree exactly once.
pub proof fn lemma_every_file_is_named(files: Seq<FileView>, count: nat)
    requires
        count <= files.len(),
    ensures
        keyed(name_keys(files), count) == count,
    decreases count,
{
    if count > 0 {
        lemma_every_file_is_named(files, (count - 1) as nat);
    }
}

/// The files of a tree that a walk with the default filter built all have
/// names, so both passes take such a tree.
pub proof fn lemma_default_walk_names_files(entries: Seq<FileTreeView>)
    requires
        kept_entries(rule_of(should_skip), entries),
    ensures
        all_named(files_of_entries(entries)),
{
    let files = files_of_entries(entries);
    assert forall|i: int| 0 <= i < files.len() implies has_name((#[trigger] files[i]).name) by {
        lemma_kept_files(rule_of(should_skip), entries, i);
        lemma_default_filter_names(files[i].name);
    }
}

} // verus!
