//! The duplicate index: two independent groupings of the same files, one by
//! content fingerprint and one by normalized name.
//!
//! The model of a grouping is the sequence of its buckets in the order in
//! which their keys first arrived. No key stands in two buckets, and the files
//! of a bucket keep the order in which they were recorded.

use crate::file_tree::{File, FileView};
use crate::path_name::{file_stem, has_name, normalized_name};
use vstd::hash_map::StringHashMap;
use vstd::prelude::*;

verus! {

/// The files that share one key of a grouping.
#[derive(Debug)]
pub struct Bucket {
    pub key: String,
    pub files: Vec<File>,
}

/// The model of a [`Bucket`].
pub struct BucketView {
    pub key: Seq<char>,
    pub files: Seq<FileView>,
}

/// The models of owned files, in the same order.
pub open spec fn file_views(files: Seq<File>) -> Seq<FileView> {
    files.map_values(|f: File| f@)
}

impl View for Bucket {
    type V = BucketView;

    open spec fn view(&self) -> BucketView {
        BucketView { key: self.key@, files: file_views(self.files@) }
    }
}

/// The models of a bucket list, in the same order.
pub open spec fn bucket_views(buckets: Seq<Bucket>) -> Seq<BucketView> {
    buckets.map_values(|b: Bucket| b@)
}

/// Whether some bucket of the grouping has this key.
pub open spec fn has_key(groups: Seq<BucketView>, key: Seq<char>) -> bool {
    exists|i: int| 0 <= i < groups.len() && (#[trigger] groups[i]).key == key
}

/// The place of a bucket with this key, where there is one.
pub open spec fn slot_of(groups: Seq<BucketView>, key: Seq<char>) -> int {
    choose|i: int| 0 <= i < groups.len() && (#[trigger] groups[i]).key == key
}

/// The files recorded under a key: the bucket's files, or nothing where the
/// key has no bucket.
pub open spec fn members(groups: Seq<BucketView>, key: Seq<char>) -> Seq<FileView> {
    if has_key(groups, key) {
        groups[slot_of(groups, key)].files
    } else {
        Seq::empty()
    }
}

/// No key stands in two buckets.
pub open spec fn distinct_keys(groups: Seq<BucketView>) -> bool {
    forall|i: int, j: int|
        0 <= i < j < groups.len() ==> (#[trigger] groups[i]).key != (#[trigger] groups[j]).key
}

/// The grouping after one more file has been recorded under a key: the file is
/// appended to the bucket of that key, which is created at the end where the
/// key is new.
pub open spec fn record(groups: Seq<BucketView>, key: Seq<char>, file: FileView) -> Seq<
    BucketView,
> {
    if has_key(groups, key) {
        let slot = slot_of(groups, key);
        groups.update(slot, BucketView { key: key, files: groups[slot].files.push(file) })
    } else {
        groups.push(BucketView { key: key, files: seq![file] })
    }
}

/// One grouping: the buckets in order of arrival, and for each key the place
/// of its bucket.
struct Grouping {
    slots: StringHashMap<usize>,
    buckets: Vec<Bucket>,
}

/// Each bucket is found under its own key, and each key leads to its bucket.
spec fn consistent(slots: Map<Seq<char>, usize>, buckets: Seq<Bucket>) -> bool {
    &&& forall|i: int|
        0 <= i < buckets.len() ==> slots.contains_key((#[trigger] buckets[i]).key@)
            && slots[buckets[i].key@] == i
    &&& forall|k: Seq<char>| #[trigger]
        slots.contains_key(k) ==> 0 <= slots[k] < buckets.len() && buckets[slots[k] as int].key@
            == k
}

proof fn lemma_consistent_distinct(slots: Map<Seq<char>, usize>, buckets: Seq<Bucket>)
    requires
        consistent(slots, buckets),
    ensures
        distinct_keys(bucket_views(buckets)),
        forall|k: Seq<char>| has_key(bucket_views(buckets), k) <==> slots.contains_key(k),
        forall|k: Seq<char>| #[trigger]
            slots.contains_key(k) ==> slot_of(bucket_views(buckets), k) == slots[k],
{
    let views = bucket_views(buckets);
    assert forall|i: int, j: int| 0 <= i < j < views.len() implies (#[trigger] views[i]).key != (
    #[trigger] views[j]).key by {
        assert(slots[buckets[i].key@] == i);
        assert(slots[buckets[j].key@] == j);
    }
    assert forall|k: Seq<char>| has_key(views, k) <==> slots.contains_key(k) by {
        if has_key(views, k) {
            let i = slot_of(views, k);
            assert(buckets[i].key@ == k);
        }
        if slots.contains_key(k) {
            assert(views[slots[k] as int].key == k);
        }
    }
    assert forall|k: Seq<char>| #[trigger] slots.contains_key(k) implies slot_of(views, k)
        == slots[k] by {
        assert(views[slots[k] as int].key == k);
        let i = slot_of(views, k);
        assert(buckets[i].key@ == k);
    }
}

fn record_into(
    slots: &mut StringHashMap<usize>,
    buckets: &mut Vec<Bucket>,
    key: String,
    file: File,
)
    requires
        consistent(old(slots)@, old(buckets)@),
    ensures
        consistent(final(slots)@, final(buckets)@),
        bucket_views(final(buckets)@) == record(bucket_views(old(buckets)@), key@, file@),
{
    proof {
        lemma_consistent_distinct(slots@, buckets@);
    }
    let ghost before = buckets@;
    let found = match slots.get(key.as_str()) {
        Some(slot) => Some(*slot),
        None => None,
    };
    match found {
        Some(slot) => {
            let ghost old_files = before[slot as int].files@;
            buckets[slot].files.push(file);
            proof {
                let views = bucket_views(before);
                assert(views[slot as int].key == key@);
                assert(slot_of(views, key@) == slot);
                assert(buckets@.len() == before.len());
                assert(buckets@[slot as int].key == before[slot as int].key);
                assert(buckets@[slot as int].files@ == old_files.push(file));
                assert(file_views(old_files.push(file)) =~= file_views(old_files).push(file@));
                assert forall|i: int| 0 <= i < before.len() && i != slot implies buckets@[i]
                    == before[i] by {}
                assert(bucket_views(buckets@) =~= record(views, key@, file@));
            }
        },
        None => {
            let slot = buckets.len();
            slots.insert(key.clone(), slot);
            let mut files: Vec<File> = Vec::new();
            files.push(file);
            buckets.push(Bucket { key, files });
            proof {
                let views = bucket_views(before);
                assert(!has_key(views, key@));
                assert(file_views(seq![file]) =~= seq![file@]);
                assert(files@ =~= seq![file]);
                assert(bucket_views(buckets@) =~= record(views, key@, file@));
            }
        },
    }
}

impl Grouping {
    #[verifier::type_invariant]
    spec fn well_formed(self) -> bool {
        consistent(self.slots@, self.buckets@)
    }

    spec fn groups(self) -> Seq<BucketView> {
        bucket_views(self.buckets@)
    }

    fn new() -> (grouping: Grouping)
        ensures
            grouping.groups() == Seq::<BucketView>::empty(),
    {
        let grouping = Grouping { slots: StringHashMap::new(), buckets: Vec::new() };
        assert(grouping.groups() =~= Seq::<BucketView>::empty());
        grouping
    }

    fn record(self, key: String, file: File) -> (next: Grouping)
        ensures
            next.groups() == record(self.groups(), key@, file@),
    {
        proof {
            use_type_invariant(&self);
        }
        let mut slots = self.slots;
        let mut buckets = self.buckets;
        record_into(&mut slots, &mut buckets, key, file);
        Grouping { slots, buckets }
    }

    /// Moves the grouping out of its place and leaves an empty one there.
    fn take(place: &mut Grouping) -> (taken: Grouping)
        ensures
            taken.groups() == old(place).groups(),
    {
        let mut fresh = Grouping::new();
        proof {
            use_type_invariant(&fresh);
            use_type_invariant(&*place);
        }
        core::mem::swap(place, &mut fresh);
        fresh
    }

    fn get(&self, key: &str) -> (found: Option<&Vec<File>>)
        ensures
            match found {
                Some(files) => has_key(self.groups(), key@) && file_views(files@) == members(
                    self.groups(),
                    key@,
                ),
                None => !has_key(self.groups(), key@),
            },
    {
        proof {
            use_type_invariant(self);
            lemma_consistent_distinct(self.slots@, self.buckets@);
        }
        match self.slots.get(key) {
            Some(slot) => Some(&self.buckets[*slot].files),
            None => None,
        }
    }

    fn all(&self) -> (buckets: &Vec<Bucket>)
        ensures
            bucket_views(buckets@) == self.groups(),
            distinct_keys(self.groups()),
    {
        proof {
            use_type_invariant(self);
            lemma_consistent_distinct(self.slots@, self.buckets@);
        }
        &self.buckets
    }
}

/// The duplicate index. Both groupings start empty and grow by one file at a
/// time; nothing is ever taken out.
pub struct FileIndex {
    by_hash: Grouping,
    by_name: Grouping,
}

impl FileIndex {
    /// The grouping by content fingerprint.
    pub closed spec fn content_buckets(&self) -> Seq<BucketView> {
        self.by_hash.groups()
    }

    /// The grouping by normalized name.
    pub closed spec fn name_buckets(&self) -> Seq<BucketView> {
        self.by_name.groups()
    }

    /// An index that holds no file.
    pub fn new() -> (index: Self)
        ensures
            index.content_buckets() == Seq::<BucketView>::empty(),
            index.name_buckets() == Seq::<BucketView>::empty(),
    {
        Self { by_hash: Grouping::new(), by_name: Grouping::new() }
    }

    /// The files recorded under a fingerprint, in the order in which they were
    /// recorded; `None` where no file has that fingerprint.
    pub fn by_hash(&self, hash: &String) -> (found: Option<&Vec<File>>)
        ensures
            match found {
                Some(files) => has_key(self.content_buckets(), hash@) && file_views(files@)
                    == members(self.content_buckets(), hash@),
                None => !has_key(self.content_buckets(), hash@),
            },
    {
        self.by_hash.get(hash.as_str())
    }

    /// Records a file under its content fingerprint.
    pub fn store_hash(&mut self, hash: String, file: File)
        ensures
            final(self).content_buckets() == record(old(self).content_buckets(), hash@, file@),
            final(self).name_buckets() == old(self).name_buckets(),
    {
        let grouping = Grouping::take(&mut self.by_hash);
        self.by_hash = grouping.record(hash, file);
    }

    /// Every bucket of the grouping by fingerprint, in the order in which the
    /// fingerprints first arrived.
    pub fn get_hashes(&self) -> (buckets: &Vec<Bucket>)
        ensures
            bucket_views(buckets@) == self.content_buckets(),
            distinct_keys(self.content_buckets()),
    {
        self.by_hash.all()
    }

    /// The files recorded under a normalized name, in the order in which they
    /// were recorded; `None` where no file has that name.
    pub fn by_name(&self, name: &String) -> (found: Option<&Vec<File>>)
        ensures
            match found {
                Some(files) => has_key(self.name_buckets(), name@) && file_views(files@)
                    == members(self.name_buckets(), name@),
                None => !has_key(self.name_buckets(), name@),
            },
    {
        self.by_name.get(name.as_str())
    }

    /// Records a file under the normalized name of the path `name`: the stem
    /// of the path's final segment. The path must have a name; a path
    /// without one has no stem to record the file under.
    pub fn store_name(&mut self, name: &String, file: File)
        requires
            has_name(name@),
        ensures
            final(self).name_buckets() == record(
                old(self).name_buckets(),
                normalized_name(name@),
                file@,
            ),
            final(self).content_buckets() == old(self).content_buckets(),
    {
        let normalized = file_stem(name.as_str()).unwrap();
        let grouping = Grouping::take(&mut self.by_name);
        self.by_name = grouping.record(normalized, file);
    }

    /// Every bucket of the grouping by name, in the order in which the names
    /// first arrived.
    pub fn get_names(&self) -> (buckets: &Vec<Bucket>)
        ensures
            bucket_views(buckets@) == self.name_buckets(),
            distinct_keys(self.name_buckets()),
    {
        self.by_name.all()
    }
}

/// Recording a file changes the bucket of its key and nothing else: that
/// bucket gains the file at its end, every other key keeps its files, the only
/// key that can be new is the recorded one, and still no key stands in two
/// buckets.
pub proof fn lemma_record(
    groups: Seq<BucketView>,
    key: Seq<char>,
    file: FileView,
    other: Seq<char>,
)
    requires
        distinct_keys(groups),
    ensures
        distinct_keys(record(groups, key, file)),
        has_key(record(groups, key, file), other) <==> (other == key || has_key(groups, other)),
        members(record(groups, key, file), key) == members(groups, key).push(file),
        other != key ==> members(record(groups, key, file), other) == members(groups, other),
{
    let after = record(groups, key, file);
    if has_key(groups, key) {
        let slot = slot_of(groups, key);
        assert(after.len() == groups.len());
        assert forall|i: int| 0 <= i < groups.len() implies (#[trigger] after[i]).key
            == groups[i].key by {}
        assert forall|i: int, j: int| 0 <= i < j < after.len() implies (#[trigger] after[i]).key
            != (#[trigger] after[j]).key by {
            assert(groups[i].key != groups[j].key);
        }
        assert(after[slot].key == key);
        assert(has_key(after, key));
        let found = slot_of(after, key);
        assert(groups[found].key == key);
        assert(found == slot) by {
            if found < slot {
                assert(groups[found].key != groups[slot].key);
            } else if slot < found {
                assert(groups[slot].key != groups[found].key);
            }
        }
        if has_key(groups, other) {
            let place = slot_of(groups, other);
            assert(after[place].key == other);
        }
        if has_key(after, other) {
            let place = slot_of(after, other);
            assert(groups[place].key == other);
            if other != key {
                let origin = slot_of(groups, other);
                assert(origin == place) by {
                    if origin < place {
                        assert(groups[origin].key != groups[place].key);
                    } else if place < origin {
                        assert(groups[place].key != groups[origin].key);
                    }
                }
                assert(place != slot);
            }
        }
    } else {
        let last = groups.len() as int;
        assert(after.len() == last + 1);
        assert(after[last].key == key);
        assert forall|i: int| 0 <= i < last implies (#[trigger] after[i]) == groups[i] by {}
        assert forall|i: int| 0 <= i < last implies (#[trigger] groups[i]).key != key by {}
        assert forall|i: int, j: int| 0 <= i < j < after.len() implies (#[trigger] after[i]).key
            != (#[trigger] after[j]).key by {
            if j < last {
                assert(groups[i].key != groups[j].key);
            } else {
                assert(groups[i].key != key);
            }
        }
        assert(has_key(after, key));
        let found = slot_of(after, key);
        assert(found == last) by {
            if found < last {
                assert(groups[found].key != key);
            }
        }
        assert(members(groups, key).push(file) =~= seq![file]);
        if has_key(groups, other) {
            let place = slot_of(groups, other);
            assert(after[place].key == other);
        }
        if has_key(after, other) && other != key {
            let place = slot_of(after, other);
            assert(place < last);
            assert(groups[place].key == other);
            let origin = slot_of(groups, other);
            assert(origin == place) by {
                if origin < place {
                    assert(groups[origin].key != groups[place].key);
                } else if place < origin {
                    assert(groups[place].key != groups[origin].key);
                }
            }
        }
    }
}

} // verus!
