//! The score store: the latest object count of every camera, in camera order.
//!
//! The store is a plain value. A writer needs it exclusively and a reader
//! gets a copy, so whoever shares it between a writer and readers wraps it in
//! a lock and holds the lock for one call: a reader then sees an entry as it
//! was before an update or as it is after, never in between.

use crate::camera::CameraSet;
use vstd::prelude::*;

verus! {

/// The latest count published for one camera.
#[derive(Clone, Copy, Debug, PartialEq, Eq, Structural)]
pub struct ScoreEntry {
    pub camera_id: i32,
    pub ball_count: u32,
}

/// True when no camera identifier occurs twice among `entries`.
pub open spec fn distinct_ids(entries: Seq<ScoreEntry>) -> bool {
    forall|i: int, j: int|
        0 <= i < j < entries.len() ==> entries[i].camera_id != entries[j].camera_id
}

/// True when some entry of `entries` belongs to `camera_id`.
pub open spec fn has_id(entries: Seq<ScoreEntry>, camera_id: i32) -> bool {
    exists|i: int| 0 <= i < entries.len() && entries[i].camera_id == camera_id
}

/// The count that `entries` hold for `camera_id`, if the camera is known.
pub open spec fn count_of(entries: Seq<ScoreEntry>, camera_id: i32) -> Option<u32> {
    if has_id(entries, camera_id) {
        let i = choose|i: int| 0 <= i < entries.len() && entries[i].camera_id == camera_id;
        Some(entries[i].ball_count)
    } else {
        None
    }
}

/// The entries that start a store for the cameras `ids`: one per camera, in
/// order, each with count zero.
pub open spec fn zeroed(ids: Seq<i32>) -> Seq<ScoreEntry> {
    Seq::new(ids.len(), |i: int| ScoreEntry { camera_id: ids[i], ball_count: 0 })
}

/// The camera identifiers of `entries`, in order.
pub open spec fn ids_of(entries: Seq<ScoreEntry>) -> Seq<i32> {
    Seq::new(entries.len(), |i: int| entries[i].camera_id)
}

/// `entries` with the count of `camera_id` replaced by `count`. Entries of
/// other cameras keep their place and their count; where `camera_id` has no
/// entry, nothing changes.
pub open spec fn with_count(entries: Seq<ScoreEntry>, camera_id: i32, count: u32) -> Seq<
    ScoreEntry,
> {
    Seq::new(
        entries.len(),
        |i: int|
            if entries[i].camera_id == camera_id {
                ScoreEntry { camera_id, ball_count: count }
            } else {
                entries[i]
            },
    )
}

/// Maps every known camera to its latest count. The set of cameras is fixed
/// when the store is made; an update never adds or removes one.
#[derive(Debug)]
pub struct ScoreStore {
    entries: Vec<ScoreEntry>,
}

impl View for ScoreStore {
    type V = Seq<ScoreEntry>;

    closed spec fn view(&self) -> Seq<ScoreEntry> {
        self.entries@
    }
}

impl ScoreStore {
    /// The store's invariant: it is keyed by camera, so no camera has two
    /// entries.
    pub open spec fn wf(&self) -> bool {
        distinct_ids(self@)
    }

    /// Makes the store for `cameras`: one entry per camera, in the set's
    /// order, every count zero.
    pub fn new(cameras: &CameraSet) -> (store: ScoreStore)
        requires
            cameras.wf(),
        ensures
            store.wf(),
            store@ == zeroed(cameras@),
            ids_of(store@) == cameras@,
    {
        let mut entries: Vec<ScoreEntry> = Vec::new();
        let mut i: usize = 0;
        while i < cameras.len()
            invariant
                i <= cameras@.len(),
                entries@ == zeroed(cameras@.take(i as int)),
            decreases cameras@.len() - i,
        {
            match cameras.id_at(i) {
                Some(camera_id) => entries.push(ScoreEntry { camera_id, ball_count: 0 }),
                None => {},
            }
            i += 1;
        }
        assert(cameras@.take(i as int) == cameras@);
        assert(ids_of(entries@) == cameras@);
        ScoreStore { entries }
    }

    /// Replaces the count of `camera_id` and says whether the camera is
    /// known. An unknown camera is ignored: the store stays as it was.
    pub fn update(&mut self, camera_id: i32, count: u32) -> (known: bool)
        requires
            old(self).wf(),
        ensures
            final(self).wf(),
            final(self)@ == with_count(old(self)@, camera_id, count),
            known == has_id(old(self)@, camera_id),
            !known ==> final(self)@ == old(self)@,
            ids_of(final(self)@) == ids_of(old(self)@),
    {
        let mut i: usize = 0;
        while i < self.entries.len()
            invariant
                i <= self.entries.len(),
                self.entries@ == old(self).entries@,
                distinct_ids(self.entries@),
                forall|j: int| 0 <= j < i ==> self.entries[j].camera_id != camera_id,
            decreases self.entries.len() - i,
        {
            if self.entries[i].camera_id == camera_id {
                self.entries[i] = ScoreEntry { camera_id, ball_count: count };
                assert(self@ == with_count(old(self)@, camera_id, count));
                assert(ids_of(self@) == ids_of(old(self)@));
                return true;
            }
            i += 1;
        }
        assert(self@ == with_count(old(self)@, camera_id, count));
        false
    }

    /// The latest count of `camera_id`, if the camera is known.
    pub fn get(&self, camera_id: i32) -> (count: Option<u32>)
        requires
            self.wf(),
        ensures
            count == count_of(self@, camera_id),
    {
        let mut i: usize = 0;
        while i < self.entries.len()
            invariant
                i <= self.entries.len(),
                distinct_ids(self.entries@),
                forall|j: int| 0 <= j < i ==> self.entries[j].camera_id != camera_id,
            decreases self.entries.len() - i,
        {
            if self.entries[i].camera_id == camera_id {
                let ghost chosen = choose|k: int|
                    0 <= k < self@.len() && self@[k].camera_id == camera_id;
                assert(chosen == i);
                return Some(self.entries[i].ball_count);
            }
            i += 1;
        }
        None
    }

    /// An independent copy of every entry, in camera order.
    pub fn snapshot(&self) -> (entries: Vec<ScoreEntry>)
        ensures
            entries@ == self@,
    {
        let mut entries: Vec<ScoreEntry> = Vec::new();
        let mut i: usize = 0;
        while i < self.entries.len()
            invariant
                i <= self.entries.len(),
                entries@ == self.entries@.take(i as int),
            decreases self.entries.len() - i,
        {
            entries.push(self.entries[i]);
            i += 1;
        }
        assert(self.entries@.take(i as int) == self.entries@);
        entries
    }
}

/// After an update of a known camera the entries show the new count for that
/// camera; every other camera keeps its count, and no camera is added,
/// removed or moved.
pub proof fn lemma_update_touches_one_camera(
    entries: Seq<ScoreEntry>,
    camera_id: i32,
    count: u32,
    other: i32,
)
    requires
        distinct_ids(entries),
        has_id(entries, camera_id),
        other != camera_id,
    ensures
        count_of(with_count(entries, camera_id, count), camera_id) == Some(count),
        count_of(with_count(entries, camera_id, count), other) == count_of(entries, other),
        ids_of(with_count(entries, camera_id, count)) == ids_of(entries),
        distinct_ids(with_count(entries, camera_id, count)),
{
    let after = with_count(entries, camera_id, count);
    let at = choose|i: int| 0 <= i < entries.len() && entries[i].camera_id == camera_id;
    assert(after[at].camera_id == camera_id);
    assert(has_id(after, camera_id));
    let found = choose|i: int| 0 <= i < after.len() && after[i].camera_id == camera_id;
    assert(entries[found].camera_id == camera_id);
    if has_id(entries, other) {
        let j = choose|i: int| 0 <= i < entries.len() && entries[i].camera_id == other;
        assert(after[j].camera_id == other);
        assert(has_id(after, other));
        let k = choose|i: int| 0 <= i < after.len() && after[i].camera_id == other;
        assert(entries[k].camera_id == other);
        assert(k == j);
    } else if has_id(after, other) {
        let k = choose|i: int| 0 <= i < after.len() && after[i].camera_id == other;
        assert(entries[k].camera_id == other);
    }
    assert(ids_of(after) == ids_of(entries));
}

/// An update of an unknown camera changes nothing.
pub proof fn lemma_update_ignores_unknown_camera(
    entries: Seq<ScoreEntry>,
    camera_id: i32,
    count: u32,
)
    requires
        !has_id(entries, camera_id),
    ensures
        with_count(entries, camera_id, count) == entries,
{
    assert(with_count(entries, camera_id, count) =~= entries);
}

} // verus!
