//! The table behind the image cache: image names, each with its entry, no
//! name twice.

use crate::resource::{ImageRetentionPolicy, StoredImage, StoredImageView};
use vstd::prelude::*;

verus! {

/// A name with its entry.
struct ImageRecord {
    name: String,
    stored: StoredImage,
}

/// No name stands twice.
spec fn distinct_names(records: Seq<ImageRecord>) -> bool {
    forall|i: int, j: int|
        0 <= i < j < records.len() ==> (#[trigger] records[i]).name@ != (#[trigger] records[j]).name@
}

/// Some record bears the name.
spec fn names(records: Seq<ImageRecord>, name: Seq<char>) -> bool {
    exists|i: int| 0 <= i < records.len() && (#[trigger] records[i]).name@ == name
}

/// Where the name stands.
spec fn position(records: Seq<ImageRecord>, name: Seq<char>) -> int {
    choose|i: int| 0 <= i < records.len() && (#[trigger] records[i]).name@ == name
}

/// The records as a map from names to entries.
spec fn as_map(records: Seq<ImageRecord>) -> Map<Seq<char>, StoredImageView> {
    Map::new(
        |name: Seq<char>| names(records, name),
        |name: Seq<char>| records[position(records, name)].stored@,
    )
}

/// Each record is found in the map, under its name.
proof fn lemma_record_mapped(records: Seq<ImageRecord>, i: int)
    requires
        distinct_names(records),
        0 <= i < records.len(),
    ensures
        as_map(records).contains_key(records[i].name@),
        as_map(records)[records[i].name@] == records[i].stored@,
        position(records, records[i].name@) == i,
{
    let name = records[i].name@;
    let p = position(records, name);
    assert(0 <= p < records.len() && records[p].name@ == name);
    if p < i {
        assert(records[p].name@ != records[i].name@);
    }
    if i < p {
        assert(records[i].name@ != records[p].name@);
    }
}

/// Adding a record under a new name adds it to the map.
proof fn lemma_push_mapped(records: Seq<ImageRecord>, record: ImageRecord)
    requires
        distinct_names(records),
        !as_map(records).contains_key(record.name@),
    ensures
        distinct_names(records.push(record)),
        as_map(records.push(record)) == as_map(records).insert(record.name@, record.stored@),
{
    let after = records.push(record);
    assert forall|i: int, j: int| 0 <= i < j < after.len() implies (#[trigger] after[i]).name@ != (
    #[trigger] after[j]).name@ by {
        if j == records.len() {
            assert(after[i] == records[i]);
            assert(names(records, records[i].name@));
        } else {
            assert(after[i] == records[i] && after[j] == records[j]);
        }
    }
    let wanted = as_map(records).insert(record.name@, record.stored@);
    assert forall|name: Seq<char>| as_map(after).contains_key(name) <==> wanted.contains_key(
        name,
    ) by {
        if as_map(after).contains_key(name) {
            let p = position(after, name);
            if p < records.len() {
                assert(after[p] == records[p]);
                assert(names(records, name));
            }
        }
        if wanted.contains_key(name) {
            if name == record.name@ {
                assert(after[records.len() as int].name@ == name);
            } else {
                let p = position(records, name);
                assert(after[p] == records[p]);
            }
        }
    }
    assert forall|name: Seq<char>| as_map(after).contains_key(name) implies as_map(after)[name]
        == wanted[name] by {
        let p = position(after, name);
        lemma_record_mapped(after, p);
        if p < records.len() {
            assert(after[p] == records[p]);
            lemma_record_mapped(records, p);
        }
    }
    assert(as_map(after) =~= wanted);
}

/// Putting another entry under a name that is there replaces it in the map.
proof fn lemma_update_mapped(records: Seq<ImageRecord>, i: int, record: ImageRecord)
    requires
        distinct_names(records),
        0 <= i < records.len(),
        record.name@ == records[i].name@,
    ensures
        distinct_names(records.update(i, record)),
        as_map(records.update(i, record)) == as_map(records).insert(record.name@, record.stored@),
{
    let after = records.update(i, record);
    assert forall|a: int, b: int| 0 <= a < b < after.len() implies (#[trigger] after[a]).name@ != (
    #[trigger] after[b]).name@ by {
        assert(after[a].name@ == records[a].name@);
        assert(after[b].name@ == records[b].name@);
    }
    let wanted = as_map(records).insert(record.name@, record.stored@);
    assert forall|name: Seq<char>| as_map(after).contains_key(name) <==> wanted.contains_key(
        name,
    ) by {
        if as_map(after).contains_key(name) {
            let p = position(after, name);
            assert(after[p].name@ == records[p].name@);
            assert(names(records, name));
        }
        if wanted.contains_key(name) {
            if name == record.name@ {
                assert(after[i].name@ == name);
            } else {
                let p = position(records, name);
                assert(after[p].name@ == records[p].name@);
            }
        }
    }
    assert forall|name: Seq<char>| as_map(after).contains_key(name) implies as_map(after)[name]
        == wanted[name] by {
        let p = position(after, name);
        lemma_record_mapped(after, p);
        if p != i {
            assert(after[p] == records[p]);
            lemma_record_mapped(records, p);
        }
    }
    assert(as_map(after) =~= wanted);
}

/// Taking a record out by moving the last one into its place takes its name
/// out of the map.
proof fn lemma_swap_remove_mapped(records: Seq<ImageRecord>, i: int)
    requires
        distinct_names(records),
        0 <= i < records.len(),
    ensures
        distinct_names(records.update(i, records.last()).drop_last()),
        as_map(records.update(i, records.last()).drop_last()) == as_map(records).remove(
            records[i].name@,
        ),
{
    let last = records.len() - 1;
    let after = records.update(i, records.last()).drop_last();
    // where the record at `k` of `after` stood before
    let origin = |k: int| if k == i { last } else { k };
    assert forall|k: int| 0 <= k < after.len() implies #[trigger] after[k] == records[origin(k)] by {}
    assert forall|a: int, b: int| 0 <= a < b < after.len() implies (#[trigger] after[a]).name@ != (
    #[trigger] after[b]).name@ by {
        assert(after[a] == records[origin(a)]);
        assert(after[b] == records[origin(b)]);
        if origin(a) < origin(b) {
            assert(records[origin(a)].name@ != records[origin(b)].name@);
        } else {
            assert(records[origin(b)].name@ != records[origin(a)].name@);
        }
    }
    let wanted = as_map(records).remove(records[i].name@);
    assert forall|name: Seq<char>| as_map(after).contains_key(name) <==> wanted.contains_key(
        name,
    ) by {
        if as_map(after).contains_key(name) {
            let p = position(after, name);
            assert(after[p] == records[origin(p)]);
            assert(names(records, name));
            lemma_record_mapped(records, origin(p));
            lemma_record_mapped(records, i);
        }
        if wanted.contains_key(name) {
            let p = position(records, name);
            lemma_record_mapped(records, p);
            lemma_record_mapped(records, i);
            assert(p != i);
            if p == last {
                assert(after[i] == records[last]);
            } else {
                assert(after[p] == records[p]);
            }
        }
    }
    assert forall|name: Seq<char>| as_map(after).contains_key(name) implies as_map(after)[name]
        == wanted[name] by {
        let p = position(after, name);
        lemma_record_mapped(after, p);
        assert(after[p] == records[origin(p)]);
        lemma_record_mapped(records, origin(p));
    }
    assert(as_map(after) =~= wanted);
}

/// There are as many names as records.
proof fn lemma_counted(records: Seq<ImageRecord>)
    requires
        distinct_names(records),
    ensures
        as_map(records).dom().finite(),
        as_map(records).len() == records.len(),
    decreases records.len(),
{
    if records.len() == 0 {
        assert(as_map(records) =~= Map::<Seq<char>, StoredImageView>::empty());
    } else {
        let front = records.drop_last();
        let last = records.last();
        assert forall|i: int, j: int| 0 <= i < j < front.len() implies (#[trigger] front[i]).name@
            != (#[trigger] front[j]).name@ by {
            assert(front[i] == records[i] && front[j] == records[j]);
        }
        lemma_counted(front);
        if as_map(front).contains_key(last.name@) {
            let p = position(front, last.name@);
            assert(front[p] == records[p]);
            assert(records[p].name@ != records[records.len() - 1].name@);
        }
        lemma_push_mapped(front, last);
        assert(front.push(last) =~= records);
    }
}

/// The cache at the start of a frame: every entry marked as not in use.
pub open spec fn unused(images: Map<Seq<char>, StoredImageView>) -> Map<
    Seq<char>,
    StoredImageView,
> {
    Map::new(
        |name: Seq<char>| images.contains_key(name),
        |name: Seq<char>| StoredImageView { used: false, ..images[name] },
    )
}

/// Whether an entry leaves the cache at the end of a frame: no node asked
/// for it, and it is not kept forever.
pub open spec fn evictable(entry: StoredImageView) -> bool {
    !entry.used && entry.retention_policy != ImageRetentionPolicy::Forever
}

/// The entries that stay at the end of a frame.
pub open spec fn kept(images: Map<Seq<char>, StoredImageView>) -> Map<Seq<char>, StoredImageView> {
    Map::new(
        |name: Seq<char>| images.contains_key(name) && !evictable(images[name]),
        |name: Seq<char>| images[name],
    )
}

/// The entries that leave at the end of a frame.
pub open spec fn dropped(images: Map<Seq<char>, StoredImageView>) -> Map<
    Seq<char>,
    StoredImageView,
> {
    Map::new(
        |name: Seq<char>| images.contains_key(name) && evictable(images[name]),
        |name: Seq<char>| images[name],
    )
}

/// The list holds exactly the entries of the map, each once.
pub open spec fn lists(
    entries: Seq<(String, StoredImage)>,
    images: Map<Seq<char>, StoredImageView>,
) -> bool {
    &&& forall|i: int, j: int|
        0 <= i < j < entries.len() ==> (#[trigger] entries[i]).0@ != (#[trigger] entries[j]).0@
    &&& forall|i: int|
        0 <= i < entries.len() ==> images.contains_key((#[trigger] entries[i]).0@)
            && images[entries[i].0@] == entries[i].1@
    &&& forall|name: Seq<char>| #[trigger]
        images.contains_key(name) ==> exists|i: int|
            0 <= i < entries.len() && (#[trigger] entries[i]).0@ == name
}

/// Marking every record as not in use marks every entry of the map.
proof fn lemma_marked(before: Seq<ImageRecord>, after: Seq<ImageRecord>)
    requires
        distinct_names(before),
        after.len() == before.len(),
        forall|k: int|
            0 <= k < before.len() ==> (#[trigger] after[k]).name@ == before[k].name@ && after[k].stored@
                == (StoredImageView { used: false, ..before[k].stored@ }),
    ensures
        distinct_names(after),
        as_map(after) == unused(as_map(before)),
{
    assert forall|i: int, j: int| 0 <= i < j < after.len() implies (#[trigger] after[i]).name@ != (
    #[trigger] after[j]).name@ by {
        assert(before[i].name@ != before[j].name@);
    }
    let wanted = unused(as_map(before));
    assert forall|name: Seq<char>| as_map(after).contains_key(name) <==> wanted.contains_key(
        name,
    ) by {
        if as_map(after).contains_key(name) {
            let p = position(after, name);
            assert(before[p].name@ == name);
        }
        if wanted.contains_key(name) {
            let p = position(before, name);
            assert(after[p].name@ == name);
        }
    }
    assert forall|name: Seq<char>| as_map(after).contains_key(name) implies as_map(after)[name]
        == wanted[name] by {
        let p = position(after, name);
        lemma_record_mapped(after, p);
        lemma_record_mapped(before, p);
    }
    assert(as_map(after) =~= wanted);
}

/// Sorting the records into those that stay and those that leave sorts the
/// map: `stay` and `leave` say where each sorted record stood before.
proof fn lemma_sorted(
    before: Seq<ImageRecord>,
    staying: Seq<ImageRecord>,
    stay: Seq<int>,
    leaving: Seq<(String, StoredImage)>,
    leave: Seq<int>,
)
    requires
        distinct_names(before),
        stay.len() == staying.len(),
        leave.len() == leaving.len(),
        forall|k: int|
            0 <= k < stay.len() ==> 0 <= #[trigger] stay[k] < before.len() && staying[k]
                == before[stay[k]] && !evictable(before[stay[k]].stored@),
        forall|k: int|
            0 <= k < leave.len() ==> 0 <= #[trigger] leave[k] < before.len() && leaving[k].0
                == before[leave[k]].name && leaving[k].1 == before[leave[k]].stored && evictable(
                before[leave[k]].stored@,
            ),
        forall|a: int, b: int| 0 <= a < b < stay.len() ==> #[trigger] stay[a] != #[trigger] stay[b],
        forall|a: int, b: int|
            0 <= a < b < leave.len() ==> #[trigger] leave[a] != #[trigger] leave[b],
        forall|j: int|
            0 <= j < before.len() ==> if evictable((#[trigger] before[j]).stored@) {
                exists|k: int| 0 <= k < leave.len() && #[trigger] leave[k] == j
            } else {
                exists|k: int| 0 <= k < stay.len() && #[trigger] stay[k] == j
            },
    ensures
        distinct_names(staying),
        as_map(staying) == kept(as_map(before)),
        lists(leaving, dropped(as_map(before))),
{
    assert forall|a: int, b: int| 0 <= a < b < staying.len() implies (#[trigger] staying[a]).name@
        != (#[trigger] staying[b]).name@ by {
        assert(stay[a] != stay[b]);
        if stay[a] < stay[b] {
            assert(before[stay[a]].name@ != before[stay[b]].name@);
        } else {
            assert(before[stay[b]].name@ != before[stay[a]].name@);
        }
    }
    let wanted = kept(as_map(before));
    assert forall|name: Seq<char>| as_map(staying).contains_key(name) <==> wanted.contains_key(
        name,
    ) by {
        if as_map(staying).contains_key(name) {
            let p = position(staying, name);
            assert(staying[p] == before[stay[p]]);
            lemma_record_mapped(before, stay[p]);
        }
        if wanted.contains_key(name) {
            let j = position(before, name);
            lemma_record_mapped(before, j);
            assert(!evictable(before[j].stored@));
            let k = choose|k: int| 0 <= k < stay.len() && #[trigger] stay[k] == j;
            assert(staying[k].name@ == name);
        }
    }
    assert forall|name: Seq<char>| as_map(staying).contains_key(name) implies as_map(
        staying,
    )[name] == wanted[name] by {
        let p = position(staying, name);
        lemma_record_mapped(staying, p);
        lemma_record_mapped(before, stay[p]);
    }
    assert(as_map(staying) =~= wanted);
    let gone = dropped(as_map(before));
    assert forall|a: int, b: int| 0 <= a < b < leaving.len() implies (#[trigger] leaving[a]).0@ != (
    #[trigger] leaving[b]).0@ by {
        assert(leave[a] != leave[b]);
        if leave[a] < leave[b] {
            assert(before[leave[a]].name@ != before[leave[b]].name@);
        } else {
            assert(before[leave[b]].name@ != before[leave[a]].name@);
        }
    }
    assert forall|i: int| 0 <= i < leaving.len() implies gone.contains_key(
        (#[trigger] leaving[i]).0@,
    ) && gone[leaving[i].0@] == leaving[i].1@ by {
        lemma_record_mapped(before, leave[i]);
    }
    assert forall|name: Seq<char>| #[trigger] gone.contains_key(name) implies exists|i: int|
        0 <= i < leaving.len() && (#[trigger] leaving[i]).0@ == name by {
        let j = position(before, name);
        lemma_record_mapped(before, j);
        let k = choose|k: int| 0 <= k < leave.len() && #[trigger] leave[k] == j;
        assert(leaving[k].0@ == name);
    }
}

/// The image names of the cache, each with its entry.
pub struct ImageStore {
    records: Vec<ImageRecord>,
}

impl View for ImageStore {
    type V = Map<Seq<char>, StoredImageView>;

    closed spec fn view(&self) -> Map<Seq<char>, StoredImageView> {
        as_map(self.records@)
    }
}

impl ImageStore {
    #[verifier::type_invariant]
    spec fn well_formed(self) -> bool {
        distinct_names(self.records@)
    }

    /// A cache with nothing in it.
    pub fn new() -> (store: ImageStore)
        ensures
            store@ == Map::<Seq<char>, StoredImageView>::empty(),
    {
        ImageStore { records: Vec::new() }
    }

    /// Where a name stands among the records.
    fn find(&self, name: &str) -> (found: Option<usize>)
        ensures
            match found {
                Some(i) => i < self.records@.len() && self.records@[i as int].name@ == name@
                    && self@.contains_key(name@),
                None => !self@.contains_key(name@),
            },
    {
        let key = name.to_owned();
        let mut i: usize = 0;
        while i < self.records.len()
            invariant
                i <= self.records@.len(),
                key@ == name@,
                forall|k: int| 0 <= k < i ==> (#[trigger] self.records@[k]).name@ != name@,
            decreases self.records@.len() - i,
        {
            if self.records[i].name == key {
                return Some(i);
            }
            i += 1;
        }
        None
    }

    /// How many images the cache holds.
    pub fn len(&self) -> (n: usize)
        ensures
            n == self@.len(),
            self@.dom().finite(),
    {
        proof {
            use_type_invariant(self);
            lemma_counted(self.records@);
        }
        self.records.len()
    }

    /// Whether the cache holds an image of this name.
    pub fn contains(&self, name: &str) -> (held: bool)
        ensures
            held == self@.contains_key(name@),
    {
        self.find(name).is_some()
    }

    /// The entry of a name.
    pub fn get(&self, name: &str) -> (entry: Option<&StoredImage>)
        ensures
            match entry {
                Some(stored) => self@.contains_key(name@) && stored@ == self@[name@],
                None => !self@.contains_key(name@),
            },
    {
        proof {
            use_type_invariant(self);
        }
        match self.find(name) {
            Some(i) => {
                proof {
                    lemma_record_mapped(self.records@, i as int);
                }
                Some(&self.records[i].stored)
            },
            None => None,
        }
    }

    /// Puts an entry under a name and hands out the entry that stood there.
    pub fn insert(&mut self, name: String, stored: StoredImage) -> (previous: Option<StoredImage>)
        ensures
            final(self)@ == old(self)@.insert(name@, stored@),
            match previous {
                Some(entry) => old(self)@.contains_key(name@) && entry@ == old(self)@[name@],
                None => !old(self)@.contains_key(name@),
            },
    {
        proof {
            use_type_invariant(&*self);
        }
        let found = self.find(name.as_str());
        let mut records: Vec<ImageRecord> = Vec::new();
        std::mem::swap(&mut records, &mut self.records);
        let ghost before = records@;
        let record = ImageRecord { name, stored };
        let previous = match found {
            Some(i) => {
                proof {
                    lemma_record_mapped(before, i as int);
                    lemma_update_mapped(before, i as int, record);
                }
                records.push(record);
                let replaced = records.swap_remove(i);
                assert(records@ =~= before.update(i as int, record));
                Some(replaced.stored)
            },
            None => {
                proof {
                    lemma_push_mapped(before, record);
                }
                records.push(record);
                None
            },
        };
        self.records = records;
        previous
    }

    /// Marks every entry as not in use.
    pub fn mark_unused(&mut self)
        ensures
            final(self)@ == unused(old(self)@),
    {
        proof {
            use_type_invariant(&*self);
        }
        let mut records: Vec<ImageRecord> = Vec::new();
        std::mem::swap(&mut records, &mut self.records);
        let ghost before = records@;
        let mut i: usize = 0;
        while i < records.len()
            invariant
                i <= records@.len(),
                records@.len() == before.len(),
                forall|k: int|
                    0 <= k < i ==> (#[trigger] records@[k]).name@ == before[k].name@
                        && records@[k].stored@ == (StoredImageView {
                        used: false,
                        ..before[k].stored@
                    }),
                forall|k: int| i <= k < before.len() ==> #[trigger] records@[k] == before[k],
            decreases records@.len() - i,
        {
            records[i].stored.used = false;
            i += 1;
        }
        proof {
            lemma_marked(before, records@);
        }
        self.records = records;
    }

    /// Takes out every entry that no node asked for and that is not kept
    /// forever, and hands those entries out, each once.
    pub fn evict_unused(&mut self) -> (evicted: Vec<(String, StoredImage)>)
        ensures
            final(self)@ == kept(old(self)@),
            lists(evicted@, dropped(old(self)@)),
    {
        proof {
            use_type_invariant(&*self);
        }
        let mut records: Vec<ImageRecord> = Vec::new();
        std::mem::swap(&mut records, &mut self.records);
        let ghost before = records@;
        let mut staying: Vec<ImageRecord> = Vec::new();
        let mut evicted: Vec<(String, StoredImage)> = Vec::new();
        let ghost mut stay: Seq<int> = Seq::empty();
        let ghost mut leave: Seq<int> = Seq::empty();
        while records.len() > 0
            invariant
                records@.len() <= before.len(),
                records@ == before.take(records@.len() as int),
                stay.len() == staying@.len(),
                leave.len() == evicted@.len(),
                forall|k: int|
                    0 <= k < stay.len() ==> records@.len() <= #[trigger] stay[k] < before.len()
                        && staying@[k] == before[stay[k]] && !evictable(before[stay[k]].stored@),
                forall|k: int|
                    0 <= k < leave.len() ==> records@.len() <= #[trigger] leave[k] < before.len()
                        && evicted@[k].0 == before[leave[k]].name && evicted@[k].1
                        == before[leave[k]].stored && evictable(before[leave[k]].stored@),
                forall|a: int, b: int|
                    0 <= a < b < stay.len() ==> #[trigger] stay[a] != #[trigger] stay[b],
                forall|a: int, b: int|
                    0 <= a < b < leave.len() ==> #[trigger] leave[a] != #[trigger] leave[b],
                forall|j: int|
                    records@.len() <= j < before.len() ==> if evictable(
                        (#[trigger] before[j]).stored@,
                    ) {
                        exists|k: int| 0 <= k < leave.len() && #[trigger] leave[k] == j
                    } else {
                        exists|k: int| 0 <= k < stay.len() && #[trigger] stay[k] == j
                    },
            decreases records@.len(),
        {
            let ghost at = records@.len() - 1;
            let ghost stay_before = stay;
            let ghost leave_before = leave;
            let record = records.pop().unwrap();
            assert(record == before[at]);
            assert(records@ =~= before.take(at));
            let leaves = !record.stored.used && match record.stored.retention_policy {
                ImageRetentionPolicy::Forever => false,
                ImageRetentionPolicy::DropWhenUnusedForOneFrame => true,
            };
            if leaves {
                evicted.push((record.name, record.stored));
                proof {
                    leave = leave.push(at);
                    assert(leave[leave.len() - 1] == at);
                }
            } else {
                staying.push(record);
                proof {
                    stay = stay.push(at);
                    assert(stay[stay.len() - 1] == at);
                }
            }
            proof {
                assert forall|j: int| records@.len() <= j < before.len() implies if evictable(
                    (#[trigger] before[j]).stored@,
                ) {
                    exists|k: int| 0 <= k < leave.len() && #[trigger] leave[k] == j
                } else {
                    exists|k: int| 0 <= k < stay.len() && #[trigger] stay[k] == j
                } by {
                    if j > at {
                        if evictable(before[j].stored@) {
                            let k = choose|k: int|
                                0 <= k < leave_before.len() && #[trigger] leave_before[k] == j;
                            assert(leave[k] == j);
                        } else {
                            let k = choose|k: int|
                                0 <= k < stay_before.len() && #[trigger] stay_before[k] == j;
                            assert(stay[k] == j);
                        }
                    }
                }
            }
        }
        proof {
            lemma_sorted(before, staying@, stay, evicted@, leave);
        }
        self.records = staying;
        evicted
    }

    /// Takes a name out of the cache and hands out its entry.
    pub fn remove(&mut self, name: &str) -> (removed: Option<StoredImage>)
        ensures
            final(self)@ == old(self)@.remove(name@),
            match removed {
                Some(entry) => old(self)@.contains_key(name@) && entry@ == old(self)@[name@],
                None => !old(self)@.contains_key(name@),
            },
    {
        proof {
            use_type_invariant(&*self);
        }
        let found = self.find(name);
        match found {
            Some(i) => {
                let mut records: Vec<ImageRecord> = Vec::new();
                std::mem::swap(&mut records, &mut self.records);
                proof {
                    lemma_record_mapped(records@, i as int);
                    lemma_swap_remove_mapped(records@, i as int);
                }
                let record = records.swap_remove(i);
                self.records = records;
                Some(record.stored)
            },
            None => {
                assert(self@ =~= old(self)@.remove(name@));
                None
            },
        }
    }
}

} // verus!
