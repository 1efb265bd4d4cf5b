//! An LRU-K replacer.
//!
//! Frames seen fewer than `k` times wait in the history queue in the order of
//! their first access; frames seen at least `k` times sit in the cache queue,
//! ordered by the timestamp of their k-th most recent access. Eviction takes
//! the first evictable frame of the history queue, and only when there is
//! none, the first evictable frame of the cache queue.

use std::collections::{HashMap, VecDeque};
use vstd::prelude::*;

verus! {

broadcast use vstd::std_specs::hash::group_hash_axioms;

/// Bookkeeping of one frame known to the replacer.
struct Frame {
    used_cnt: usize,
    evictable: bool,
    /// The most recent access timestamps, at most `k` of them, oldest first.
    timestamp_list: VecDeque<usize>,
}

impl Frame {
    /// A frame seen once, at `first_ts`, and evictable.
    fn new(first_ts: usize) -> (f: Frame)
        ensures
            f.used_cnt == 1,
            f.evictable,
            f.timestamp_list@ == seq![first_ts],
    {
        let mut q = VecDeque::new();
        q.push_back(first_ts);
        Frame { used_cnt: 1, evictable: true, timestamp_list: q }
    }

    fn increment_used_cnt(&mut self)
        requires
            old(self).used_cnt < usize::MAX,
        ensures
            final(self).used_cnt == old(self).used_cnt + 1,
            final(self).evictable == old(self).evictable,
            final(self).timestamp_list@ == old(self).timestamp_list@,
    {
        self.used_cnt = self.used_cnt + 1;
    }

    fn set_evictable(&mut self, evictable: bool)
        ensures
            final(self).evictable == evictable,
            final(self).used_cnt == old(self).used_cnt,
            final(self).timestamp_list@ == old(self).timestamp_list@,
    {
        self.evictable = evictable;
    }

    fn is_evictable(&self) -> (r: bool)
        ensures
            r == self.evictable,
    {
        self.evictable
    }

    fn record_timestamp(&mut self, ts: usize)
        ensures
            final(self).timestamp_list@ == old(self).timestamp_list@.push(ts),
            final(self).used_cnt == old(self).used_cnt,
            final(self).evictable == old(self).evictable,
    {
        self.timestamp_list.push_back(ts);
    }

    fn pop_oldest_timestamp(&mut self)
        ensures
            final(self).timestamp_list@ == if old(self).timestamp_list@.len() > 0 {
                old(self).timestamp_list@.subrange(1, old(self).timestamp_list@.len() as int)
            } else {
                old(self).timestamp_list@
            },
            final(self).used_cnt == old(self).used_cnt,
            final(self).evictable == old(self).evictable,
    {
        self.timestamp_list.pop_front();
    }

    /// The oldest kept timestamp (the k-th most recent once `k` are kept).
    fn kth_timestamp(&self) -> (ts: usize)
        requires
            self.timestamp_list@.len() > 0,
        ensures
            ts == self.timestamp_list@[0],
    {
        self.timestamp_list[0]
    }
}

/// The oldest kept timestamp of frame `f` in `m`.
spec fn map_kth(m: Map<i32, Frame>, f: i32) -> int {
    m[f].timestamp_list@[0] as int
}

struct Inner {
    current_timestamp: usize,
    curr_size: usize,
    replacer_size: usize,
    k: usize,
    history_list: Vec<i32>,
    cache_list: Vec<i32>,
    id_frame_map: HashMap<i32, Frame>,
}

/// The LRU-K replacer.
pub struct LRUKReplacer {
    inner: Inner,
}

/// Whether `s[i]` is evictable under `ev` and no earlier element is.
pub open spec fn first_with(s: Seq<i32>, ev: spec_fn(i32) -> bool, i: int) -> bool {
    &&& 0 <= i < s.len()
    &&& ev(s[i])
    &&& forall|j: int| 0 <= j < i ==> !ev(#[trigger] s[j])
}

/// Whether no element of `s` is evictable under `ev`.
pub open spec fn none_with(s: Seq<i32>, ev: spec_fn(i32) -> bool) -> bool {
    forall|j: int| 0 <= j < s.len() ==> !ev(#[trigger] s[j])
}

/// Whether `new` is `old` with `f` put before the first element whose key
/// (under `key`) is at least `kf`.
pub open spec fn inserted_sorted(old: Seq<i32>, new: Seq<i32>, f: i32, kf: int, key: spec_fn(i32) -> int) -> bool {
    exists|p: int|
        0 <= p <= old.len() && new == old.insert(p, f) && (forall|j: int| 0 <= j < p ==> key(#[trigger] old[j]) < kf)
            && (p < old.len() ==> kf <= key(old[p]))
}

impl LRUKReplacer {
    /// The frames known to the replacer.
    pub closed spec fn frame_ids(&self) -> Set<i32> {
        self.inner.id_frame_map@.dom()
    }

    /// Whether frame `f` is known and evictable.
    pub closed spec fn evictable(&self, f: i32) -> bool {
        self.inner.id_frame_map@.contains_key(f) && self.inner.id_frame_map@[f].evictable
    }

    /// The evictability predicate as a function.
    pub open spec fn ev(&self) -> spec_fn(i32) -> bool {
        |f: i32| self.evictable(f)
    }

    /// The kept access timestamps of frame `f`, oldest first.
    pub closed spec fn timestamps(&self, f: i32) -> Seq<usize> {
        self.inner.id_frame_map@[f].timestamp_list@
    }

    /// The k-th most recent access timestamp of a frame in the cache queue
    /// (the oldest kept timestamp).
    pub closed spec fn kth_ts(&self, f: i32) -> int {
        map_kth(self.inner.id_frame_map@, f)
    }

    /// The key function ordering the cache queue.
    pub open spec fn kth_key(&self) -> spec_fn(i32) -> int {
        |f: i32| self.kth_ts(f)
    }

    /// The history queue.
    pub closed spec fn history(&self) -> Seq<i32> {
        self.inner.history_list@
    }

    /// The cache queue.
    pub closed spec fn cache(&self) -> Seq<i32> {
        self.inner.cache_list@
    }

    /// Number of evictable frames.
    pub closed spec fn spec_size(&self) -> int {
        self.inner.curr_size as int
    }

    /// The `k` of LRU-K.
    pub closed spec fn spec_k(&self) -> int {
        self.inner.k as int
    }

    /// The timestamp the next access gets.
    pub closed spec fn spec_timestamp(&self) -> int {
        self.inner.current_timestamp as int
    }

    /// The frame count given at construction.
    pub closed spec fn spec_replacer_size(&self) -> int {
        self.inner.replacer_size as int
    }

    /// The set of evictable frames.
    pub open spec fn evictable_set(&self) -> Set<i32> {
        self.frame_ids().filter(|f: i32| self.evictable(f))
    }

    /// Well-formedness: the two queues partition the known frames without
    /// duplicates; history frames were seen fewer than `k` times, keep one
    /// timestamp per access, and are ordered by their first access, which
    /// lies before the current timestamp; cache frames were seen at least
    /// `k` times, keep `k` timestamps, and are ordered by their k-th most
    /// recent access; the size counts the evictable frames.
    pub closed spec fn wf(&self) -> bool {
        let m = self.inner.id_frame_map@;
        let h = self.inner.history_list@;
        let c = self.inner.cache_list@;
        &&& self.inner.k >= 1
        &&& m.dom().finite()
        &&& self.inner.curr_size == self.evictable_set().len()
        &&& h.no_duplicates()
        &&& c.no_duplicates()
        &&& forall|f: i32| #[trigger] m.contains_key(f) <==> (h.contains(f) || c.contains(f))
        &&& forall|f: i32| h.contains(f) ==> !c.contains(f)
        &&& forall|f: i32|
            #[trigger] h.contains(f) ==> 1 <= m[f].used_cnt < self.inner.k && m[f].timestamp_list@.len() == m[f].used_cnt
        &&& forall|f: i32|
            #[trigger] c.contains(f) ==> m[f].used_cnt >= self.inner.k && m[f].timestamp_list@.len() == self.inner.k
        &&& sorted_by(c, |f: i32| map_kth(m, f))
        &&& forall|f: i32| #[trigger] m.contains_key(f) ==> m[f].used_cnt <= self.inner.current_timestamp
        &&& sorted_by(h, |f: i32| map_kth(m, f))
        &&& forall|f: i32| #[trigger] h.contains(f) ==> map_kth(m, f) < self.inner.current_timestamp
    }

    /// What every replacer keeps: the size is the number of evictable
    /// frames; the history and cache queues hold each known frame exactly
    /// once between them; history frames were accessed fewer than `k` times
    /// and cache frames at least `k` times; the cache queue is ordered by
    /// the k-th most recent access, so the cache frame evicted first is the
    /// one whose k-th most recent access is oldest; and the history queue is
    /// ordered by first access, all before the current timestamp, so the
    /// history frame evicted first is the one first accessed earliest.
    pub proof fn lemma_laws(&self)
        requires
            self.wf(),
        ensures
            self.spec_k() >= 1,
            self.spec_size() == self.evictable_set().len(),
            self.frame_ids().finite(),
            self.history().no_duplicates(),
            self.cache().no_duplicates(),
            forall|f: i32| #[trigger] self.frame_ids().contains(f) <==> (self.history().contains(f) || self.cache().contains(f)),
            forall|f: i32| self.history().contains(f) ==> !self.cache().contains(f),
            forall|f: i32| #[trigger] self.history().contains(f) ==> self.timestamps(f).len() < self.spec_k(),
            forall|f: i32| #[trigger] self.cache().contains(f) ==> self.timestamps(f).len() == self.spec_k(),
            forall|i: int, j: int|
                0 <= i < j < self.cache().len() ==> self.kth_ts(#[trigger] self.cache()[i]) <= self.kth_ts(#[trigger] self.cache()[j]),
            forall|i: int, j: int|
                0 <= i < j < self.history().len() ==> self.timestamps(#[trigger] self.history()[i])[0] <= self.timestamps(
                    #[trigger] self.history()[j],
                )[0],
            forall|f: i32| #[trigger] self.history().contains(f) ==> self.timestamps(f)[0] < self.spec_timestamp(),
    {
        let m = self.inner.id_frame_map@;
        assert forall|i: int, j: int|
            0 <= i < j < self.cache().len() implies self.kth_ts(#[trigger] self.cache()[i]) <= self.kth_ts(#[trigger] self.cache()[j]) by {
            assert(map_kth(m, self.cache()[i]) <= map_kth(m, self.cache()[j]));
        }
        assert forall|f: i32| #[trigger] self.history().contains(f) implies self.timestamps(f).len() < self.spec_k() by {
            assert(m.contains_key(f));
        }
        assert forall|i: int, j: int| 0 <= i < j < self.history().len() implies self.timestamps(
            #[trigger] self.history()[i],
        )[0] <= self.timestamps(#[trigger] self.history()[j])[0] by {
            assert(map_kth(m, self.history()[i]) <= map_kth(m, self.history()[j]));
        }
        assert forall|f: i32| #[trigger] self.history().contains(f) implies self.timestamps(f)[0] < self.spec_timestamp() by {
            assert(map_kth(m, f) < self.inner.current_timestamp);
        }
    }

    /// A replacer for `num_frames` frames with parameter `k`.
    pub fn new(num_frames: usize, k: usize) -> (r: LRUKReplacer)
        requires
            k >= 1,
        ensures
            r.wf(),
            r.frame_ids() == Set::<i32>::empty(),
            r.history() == Seq::<i32>::empty(),
            r.cache() == Seq::<i32>::empty(),
            r.spec_size() == 0,
            r.spec_k() == k,
            r.spec_timestamp() == 0,
            r.spec_replacer_size() == num_frames,
    {
        let r = LRUKReplacer {
            inner: Inner {
                current_timestamp: 0,
                curr_size: 0,
                replacer_size: num_frames,
                k: k,
                history_list: Vec::new(),
                cache_list: Vec::new(),
                id_frame_map: HashMap::new(),
            },
        };
        proof {
            assert(r.frame_ids() =~= Set::<i32>::empty());
            assert(r.evictable_set() =~= Set::<i32>::empty());
        }
        r
    }

    /// The timestamp the next access gets.
    pub fn current_timestamp(&self) -> (ts: usize)
        ensures
            ts == self.spec_timestamp(),
    {
        self.inner.current_timestamp
    }

    /// The number of evictable frames.
    pub fn size(&self) -> (n: usize)
        ensures
            n == self.spec_size(),
    {
        self.inner.curr_size
    }

    /// Whether `f` is the frame an eviction takes: the first evictable frame
    /// of the history queue, or when there is none, the first evictable frame
    /// of the cache queue.
    pub open spec fn victim(&self, f: i32) -> bool {
        ||| exists|i: int| first_with(self.history(), self.ev(), i) && self.history()[i] == f
        ||| none_with(self.history(), self.ev()) && exists|i: int|
            first_with(self.cache(), self.ev(), i) && self.cache()[i] == f
    }

    /// Everything the replacer records about frame `f`: whether it is known,
    /// whether it is evictable, its access count and its kept timestamps.
    pub closed spec fn frame_view(&self, f: i32) -> (bool, bool, usize, Seq<usize>) {
        let m = self.inner.id_frame_map@;
        (m.contains_key(f), m[f].evictable, m[f].used_cnt, m[f].timestamp_list@)
    }

    /// Whether `self` and `other` agree on everything except frame `f`'s record.
    pub open spec fn same_except(&self, other: &Self, f: i32) -> bool {
        &&& self.spec_k() == other.spec_k()
        &&& self.spec_replacer_size() == other.spec_replacer_size()
        &&& forall|g: i32| g != f ==> #[trigger] self.frame_view(g) == other.frame_view(g)
    }

    /// Only known frames are evictable.
    pub proof fn lemma_evictable_known(&self, g: i32)
        ensures
            self.evictable(g) ==> self.frame_ids().contains(g),
    {
    }

    /// How `frame_ids`, `evictable` and `kth_ts` read off `frame_view`.
    pub proof fn lemma_frame_view(&self, g: i32)
        ensures
            self.frame_ids().contains(g) == self.frame_view(g).0,
            self.evictable(g) == (self.frame_view(g).0 && self.frame_view(g).1),
            self.frame_view(g).0 ==> self.kth_ts(g) == self.frame_view(g).3[0] as int,
    {
    }

    /// Evicts a frame: the first evictable frame of the history queue, or if
    /// there is none, the first evictable frame of the cache queue. Writes its
    /// id to `frame_id_out` and returns `true`; returns `false` when no frame
    /// is evictable.
    pub fn evict(&mut self, frame_id_out: &mut i32) -> (r: bool)
        requires
            old(self).wf(),
        ensures
            final(self).wf(),
            r == (old(self).spec_size() > 0),
            final(self).spec_timestamp() == old(self).spec_timestamp(),
            !r ==> final(self).spec_size() == 0,
            !r ==> *final(frame_id_out) == *old(frame_id_out) && final(self).same_except(old(self), *old(frame_id_out))
                && final(self).frame_view(*old(frame_id_out)) == old(self).frame_view(*old(frame_id_out))
                && final(self).history() == old(self).history() && final(self).cache() == old(self).cache(),
            r ==> old(self).victim(*final(frame_id_out)),
            r ==> {
                let f = *final(frame_id_out);
                &&& old(self).evictable(f)
                &&& final(self).frame_ids() == old(self).frame_ids().remove(f)
                &&& final(self).same_except(old(self), f)
                &&& final(self).spec_size() == old(self).spec_size() - 1
                &&& {
                    ||| exists|i: int|
                        first_with(old(self).history(), old(self).ev(), i) && old(self).history()[i] == f
                            && final(self).history() == old(self).history().remove(i) && final(self).cache()
                            == old(self).cache()
                    ||| none_with(old(self).history(), old(self).ev()) && exists|i: int|
                        first_with(old(self).cache(), old(self).ev(), i) && old(self).cache()[i] == f
                            && final(self).cache() == old(self).cache().remove(i) && final(self).history()
                            == old(self).history()
                }
            },
    {
        if self.inner.curr_size == 0 {
            return false;
        }
        let ghost o = *self;
        let mut idx: usize = 0;
        while idx < self.inner.history_list.len()
            invariant
                *self == o,
                o == *old(self),
                o.wf(),
                idx <= o.inner.history_list@.len(),
                forall|j: int| 0 <= j < idx ==> !o.evictable(#[trigger] o.inner.history_list@[j]),
            decreases o.inner.history_list@.len() - idx,
        {
            let fid = self.inner.history_list[idx];
            let evictable = match self.inner.id_frame_map.get(&fid) {
                Some(f) => f.is_evictable(),
                None => false,
            };
            if evictable {
                *frame_id_out = fid;
                self.inner.id_frame_map.remove(&fid);
                self.inner.history_list.remove(idx);
                proof {
                    self.lemma_removed(&o, fid);
                    assert(first_with(o.history(), o.ev(), idx as int));
                }
                self.inner.curr_size = self.inner.curr_size - 1;
                proof {
                    self.lemma_removed(&o, fid);
                    self.lemma_removed_wf(&o, fid, true, idx as int);
                }
                return true;
            }
            idx = idx + 1;
        }
        let mut idx: usize = 0;
        while idx < self.inner.cache_list.len()
            invariant
                *self == o,
                o == *old(self),
                o.wf(),
                idx <= o.inner.cache_list@.len(),
                none_with(o.history(), o.ev()),
                forall|j: int| 0 <= j < idx ==> !o.evictable(#[trigger] o.inner.cache_list@[j]),
            decreases o.inner.cache_list@.len() - idx,
        {
            let fid = self.inner.cache_list[idx];
            let evictable = match self.inner.id_frame_map.get(&fid) {
                Some(f) => f.is_evictable(),
                None => false,
            };
            if evictable {
                *frame_id_out = fid;
                self.inner.id_frame_map.remove(&fid);
                self.inner.cache_list.remove(idx);
                proof {
                    self.lemma_removed(&o, fid);
                    assert(first_with(o.cache(), o.ev(), idx as int));
                }
                self.inner.curr_size = self.inner.curr_size - 1;
                proof {
                    self.lemma_removed(&o, fid);
                    self.lemma_removed_wf(&o, fid, false, idx as int);
                }
                return true;
            }
            idx = idx + 1;
        }
        proof {
            assert(o.evictable_set() =~= Set::<i32>::empty()) by {
                assert forall|f: i32| !o.evictable_set().contains(f) by {
                    if o.evictable_set().contains(f) {
                        assert(o.inner.id_frame_map@.contains_key(f));
                        if o.inner.history_list@.contains(f) {
                            let j = choose|j: int| 0 <= j < o.inner.history_list@.len() && o.inner.history_list@[j] == f;
                            assert(!o.evictable(o.inner.history_list@[j]));
                        } else {
                            let j = choose|j: int| 0 <= j < o.inner.cache_list@.len() && o.inner.cache_list@[j] == f;
                            assert(!o.evictable(o.inner.cache_list@[j]));
                        }
                    }
                }
            }
        }
        false
    }

    /// Marks a known frame evictable or not, adjusting the size; does
    /// nothing for an unknown frame.
    pub fn set_evictable(&mut self, frame_id: i32, set_evictable: bool)
        requires
            old(self).wf(),
        ensures
            final(self).wf(),
            final(self).spec_timestamp() == old(self).spec_timestamp(),
            final(self).history() == old(self).history(),
            final(self).cache() == old(self).cache(),
            final(self).frame_ids() == old(self).frame_ids(),
            final(self).same_except(old(self), frame_id),
            !old(self).frame_ids().contains(frame_id) ==> final(self).frame_view(frame_id) == old(self).frame_view(frame_id)
                && final(self).spec_size() == old(self).spec_size(),
            old(self).frame_ids().contains(frame_id) ==> {
                let ov = old(self).frame_view(frame_id);
                &&& final(self).frame_view(frame_id) == (true, set_evictable, ov.2, ov.3)
                &&& final(self).spec_size() == old(self).spec_size() + if ov.1 && !set_evictable {
                    -1int
                } else if !ov.1 && set_evictable {
                    1int
                } else {
                    0int
                }
            },
    {
        let exists = self.inner.id_frame_map.contains_key(&frame_id);
        if !exists {
            return;
        }
        let ghost o = *self;
        let n = self.inner.id_frame_map.len();
        let cur = self.inner.id_frame_map.get(&frame_id).unwrap().is_evictable();
        proof {
            o.frame_ids().lemma_len_filter(|g: i32| o.evictable(g));
            if cur {
                assert(o.evictable_set().contains(frame_id));
            } else {
                assert(o.evictable_set().subset_of(o.frame_ids().remove(frame_id)));
                vstd::set_lib::lemma_len_subset(o.evictable_set(), o.frame_ids().remove(frame_id));
            }
        }
        if cur && !set_evictable {
            self.inner.curr_size = self.inner.curr_size - 1;
        } else if !cur && set_evictable {
            self.inner.curr_size = self.inner.curr_size + 1;
        }
        let mut f = self.inner.id_frame_map.remove(&frame_id).unwrap();
        f.set_evictable(set_evictable);
        self.inner.id_frame_map.insert(frame_id, f);
        proof {
            let m = self.inner.id_frame_map@;
            let om = o.inner.id_frame_map@;
            assert(m.dom() =~= om.dom());
            if cur && !set_evictable {
                assert(self.evictable_set() =~= o.evictable_set().remove(frame_id));
            } else if !cur && set_evictable {
                assert(self.evictable_set() =~= o.evictable_set().insert(frame_id));
            } else {
                assert(self.evictable_set() =~= o.evictable_set());
            }
            let c = self.inner.cache_list@;
            assert forall|i: int, j: int| 0 <= i < j < c.len() implies map_kth(m, c[i]) <= map_kth(m, c[j]) by {
                assert(sorted_by(c, |g: i32| map_kth(om, g)));
                assert(map_kth(om, c[i]) <= map_kth(om, c[j]));
            }
        }
    }

    /// Forgets a known, evictable frame, taking it out of its queue; does
    /// nothing for an unknown or non-evictable frame.
    pub fn remove(&mut self, frame_id: i32)
        requires
            old(self).wf(),
        ensures
            final(self).wf(),
            final(self).spec_timestamp() == old(self).spec_timestamp(),
            final(self).same_except(old(self), frame_id),
            !old(self).evictable(frame_id) ==> final(self).frame_view(frame_id) == old(self).frame_view(frame_id)
                && final(self).history() == old(self).history() && final(self).cache() == old(self).cache()
                && final(self).spec_size() == old(self).spec_size(),
            old(self).evictable(frame_id) ==> {
                &&& final(self).frame_ids() == old(self).frame_ids().remove(frame_id)
                &&& final(self).spec_size() == old(self).spec_size() - 1
                &&& old(self).frame_view(frame_id).2 >= old(self).spec_k() ==> final(self).history() == old(self).history()
                    && exists|i: int|
                    0 <= i < old(self).cache().len() && old(self).cache()[i] == frame_id && final(self).cache()
                        == old(self).cache().remove(i)
                &&& old(self).frame_view(frame_id).2 < old(self).spec_k() ==> final(self).cache() == old(self).cache()
                    && exists|i: int|
                    0 <= i < old(self).history().len() && old(self).history()[i] == frame_id && final(self).history()
                        == old(self).history().remove(i)
            },
    {
        let ghost o = *self;
        let f_opt = self.inner.id_frame_map.get(&frame_id);
        if f_opt.is_none() {
            return;
        }
        if !f_opt.unwrap().is_evictable() {
            return;
        }
        let used_cnt = f_opt.unwrap().used_cnt;
        let ghost from_history = used_cnt < self.inner.k;
        proof {
            if from_history {
                assert(o.inner.history_list@.contains(frame_id)) by {
                    if o.inner.cache_list@.contains(frame_id) {
                        assert(false);
                    }
                }
            } else {
                assert(o.inner.cache_list@.contains(frame_id));
            }
        }
        let ghost mut idx: int = 0;
        if used_cnt >= self.inner.k {
            remove_from_vec(&mut self.inner.cache_list, frame_id);
            proof {
                idx = choose|i: int| 0 <= i < o.inner.cache_list@.len() && o.inner.cache_list@[i] == frame_id
                    && (forall|j: int| 0 <= j < i ==> o.inner.cache_list@[j] != frame_id) && self.inner.cache_list@
                    == o.inner.cache_list@.remove(i);
            }
        } else {
            remove_from_vec(&mut self.inner.history_list, frame_id);
            proof {
                idx = choose|i: int| 0 <= i < o.inner.history_list@.len() && o.inner.history_list@[i] == frame_id
                    && (forall|j: int| 0 <= j < i ==> o.inner.history_list@[j] != frame_id) && self.inner.history_list@
                    == o.inner.history_list@.remove(i);
            }
        }
        self.inner.id_frame_map.remove(&frame_id);
        proof {
            self.lemma_removed(&o, frame_id);
        }
        self.inner.curr_size = self.inner.curr_size - 1;
        proof {
            self.lemma_removed(&o, frame_id);
            self.lemma_removed_wf(&o, frame_id, from_history, idx);
            if from_history {
                assert(0 <= idx < o.history().len() && o.history()[idx] == frame_id && self.history() == o.history().remove(idx));
            } else {
                assert(0 <= idx < o.cache().len() && o.cache()[idx] == frame_id && self.cache() == o.cache().remove(idx));
            }
        }
    }

    /// After frame `f` (evictable in `o`) left the map: the evictable set and
    /// the other frames' records.
    proof fn lemma_removed(&self, o: &Self, f: i32)
        requires
            o.wf(),
            o.evictable(f),
            self.inner.id_frame_map@ == o.inner.id_frame_map@.remove(f),
        ensures
            self.evictable_set() == o.evictable_set().remove(f),
            o.evictable_set().contains(f),
            o.evictable_set().len() >= 1,
            self.evictable_set().len() == o.evictable_set().len() - 1,
            self.frame_ids() == o.frame_ids().remove(f),
            forall|g: i32| g != f ==> #[trigger] self.frame_view(g) == o.frame_view(g),
    {
        assert(self.evictable_set() =~= o.evictable_set().remove(f));
        assert(self.frame_ids() =~= o.frame_ids().remove(f));
        assert(o.evictable_set().contains(f));
        o.frame_ids().lemma_len_filter(|g: i32| o.evictable(g));
        vstd::set_lib::lemma_set_empty_equivalency_len(o.evictable_set());
    }

    /// Well-formedness after removing frame `f` from the map and from the
    /// history (`from_history`) or cache queue at `idx`.
    proof fn lemma_removed_wf(&self, o: &Self, f: i32, from_history: bool, idx: int)
        requires
            o.wf(),
            o.evictable(f),
            self.inner.id_frame_map@ == o.inner.id_frame_map@.remove(f),
            self.evictable_set() == o.evictable_set().remove(f),
            self.evictable_set().len() == o.evictable_set().len() - 1,
            self.inner.curr_size == o.inner.curr_size - 1,
            self.inner.k == o.inner.k,
            self.inner.current_timestamp == o.inner.current_timestamp,
            self.inner.replacer_size == o.inner.replacer_size,
            from_history ==> 0 <= idx < o.inner.history_list@.len() && o.inner.history_list@[idx] == f
                && self.inner.history_list@ == o.inner.history_list@.remove(idx) && self.inner.cache_list@
                == o.inner.cache_list@,
            !from_history ==> 0 <= idx < o.inner.cache_list@.len() && o.inner.cache_list@[idx] == f
                && self.inner.cache_list@ == o.inner.cache_list@.remove(idx) && self.inner.history_list@
                == o.inner.history_list@,
        ensures
            self.wf(),
    {
        let m = self.inner.id_frame_map@;
        let om = o.inner.id_frame_map@;
        let oh = o.inner.history_list@;
        let oc = o.inner.cache_list@;
        if from_history {
            lemma_seq_remove(oh, idx);
            assert(!oc.contains(f));
        } else {
            lemma_seq_remove(oc, idx);
            lemma_sorted_remove(oc, idx, |g: i32| map_kth(om, g));
            assert(!oh.contains(f));
        }
        assert(m.dom() =~= om.dom().remove(f));
        let c = self.inner.cache_list@;
        assert forall|i: int, j: int| 0 <= i < j < c.len() implies map_kth(m, c[i]) <= map_kth(m, c[j]) by {
            assert(c.contains(c[i]) && c.contains(c[j]));
            assert(sorted_by(c, |g: i32| map_kth(om, g)));
            assert(map_kth(om, c[i]) <= map_kth(om, c[j]));
        }
    }

    /// Records an access to `frame_id` at the current timestamp, then
    /// advances the timestamp. A new frame enters the history queue,
    /// evictable; a frame reaching `k` accesses moves from the history queue
    /// into the cache queue; a frame with more accesses is repositioned in
    /// the cache queue. The cache queue stays ordered by k-th most recent
    /// access: a (re)entering frame goes before the first frame whose k-th
    /// most recent access is not earlier than its own.
    pub fn record_access(&mut self, frame_id: i32)
        requires
            old(self).wf(),
            old(self).spec_timestamp() < usize::MAX,
        ensures
            final(self).wf(),
            final(self).spec_timestamp() == old(self).spec_timestamp() + 1,
            final(self).same_except(old(self), frame_id),
            final(self).frame_ids() == old(self).frame_ids().insert(frame_id),
            !old(self).frame_ids().contains(frame_id) ==> {
                &&& final(self).frame_view(frame_id) == (true, true, 1usize, seq![old(self).spec_timestamp() as usize])
                &&& old(self).spec_k() >= 2 ==> final(self).history() == old(self).history().push(frame_id)
                    && final(self).cache() == old(self).cache()
                &&& old(self).spec_k() == 1 ==> final(self).history() == old(self).history() && inserted_sorted(
                    old(self).cache(),
                    final(self).cache(),
                    frame_id,
                    old(self).spec_timestamp(),
                    old(self).kth_key(),
                )
                &&& final(self).spec_size() == old(self).spec_size() + 1
            },
            old(self).frame_ids().contains(frame_id) ==> {
                let ov = old(self).frame_view(frame_id);
                let c = ov.2 + 1;
                let ts = old(self).spec_timestamp() as usize;
                &&& final(self).frame_view(frame_id) == (true, ov.1, c as usize, if c <= old(self).spec_k() {
                    ov.3.push(ts)
                } else {
                    ov.3.subrange(1, ov.3.len() as int).push(ts)
                })
                &&& final(self).spec_size() == old(self).spec_size()
                &&& c < old(self).spec_k() ==> final(self).history() == old(self).history() && final(self).cache()
                    == old(self).cache()
                &&& c == old(self).spec_k() ==> final(self).cache().len() == old(self).cache().len() + 1 && exists|i: int|
                    0 <= i < old(self).history().len() && old(self).history()[i] == frame_id && final(self).history()
                        == old(self).history().remove(i) && inserted_sorted(
                        old(self).cache(),
                        final(self).cache(),
                        frame_id,
                        final(self).kth_ts(frame_id),
                        old(self).kth_key(),
                    )
                &&& c > old(self).spec_k() ==> final(self).history() == old(self).history() && exists|i: int|
                    0 <= i < old(self).cache().len() && old(self).cache()[i] == frame_id && inserted_sorted(
                        old(self).cache().remove(i),
                        final(self).cache(),
                        frame_id,
                        final(self).kth_ts(frame_id),
                        old(self).kth_key(),
                    )
            },
    {
        let ghost o = *self;
        if !self.inner.id_frame_map.contains_key(&frame_id) {
            let ts = self.inner.current_timestamp;
            if self.inner.k == 1 {
                // with k == 1 the first access is the k-th: the frame joins the cache queue
                proof {
                    assert forall|i: int| 0 <= i < self.inner.cache_list@.len() implies self.inner.id_frame_map@.contains_key(
                        #[trigger] self.inner.cache_list@[i],
                    ) && self.inner.id_frame_map@[self.inner.cache_list@[i]].timestamp_list@.len() > 0 by {
                        assert(self.inner.cache_list@.contains(self.inner.cache_list@[i]));
                    }
                }
                insert_cache_sorted_no_conflict(&mut self.inner, frame_id, ts);
            } else {
                self.inner.history_list.push(frame_id);
            }
            self.inner.id_frame_map.insert(frame_id, Frame::new(ts));
            let _n = self.inner.id_frame_map.len();
            proof {
                assert(self.evictable_set() =~= o.evictable_set().insert(frame_id));
                o.frame_ids().lemma_len_filter(|g: i32| o.evictable(g));
                assert(o.evictable_set().len() <= o.frame_ids().len());
            }
            self.inner.curr_size = self.inner.curr_size + 1;
            self.inner.current_timestamp = self.inner.current_timestamp + 1;
            proof {
                if o.inner.k == 1 {
                    self.lemma_new_frame_cache_wf(&o, frame_id);
                } else {
                    self.lemma_new_frame_wf(&o, frame_id);
                }
            }
        } else {
            let k = self.inner.k;
            let ts = self.inner.current_timestamp;
            let ghost om = o.inner.id_frame_map@;
            let ghost oh = o.inner.history_list@;
            let ghost oc = o.inner.cache_list@;
            let ghost ofr = om[frame_id];
            let mut f = self.inner.id_frame_map.remove(&frame_id).unwrap();
            proof {
                assert(om.contains_key(frame_id));
                assert(f == ofr);
                assert(f.used_cnt <= ts);
            }
            f.increment_used_cnt();
            let mut action: i32 = 0;
            let mut kts: usize = 0;
            if f.used_cnt < k {
                f.record_timestamp(ts);
                action = 0;
            } else if f.used_cnt == k {
                f.record_timestamp(ts);
                kts = f.kth_timestamp();
                action = 1;
            } else {
                proof {
                    if oh.contains(frame_id) {
                        assert(false);
                    }
                    assert(oc.contains(frame_id));
                }
                f.pop_oldest_timestamp();
                f.record_timestamp(ts);
                kts = f.kth_timestamp();
                action = 2;
            }
            let ghost nf = f;
            self.inner.id_frame_map.insert(frame_id, f);
            let ghost m1 = self.inner.id_frame_map@;
            proof {
                assert(m1 == om.insert(frame_id, nf));
                assert(m1.dom() =~= om.dom());
                assert forall|g: i32| #[trigger] oc.contains(g) && g != frame_id implies m1.contains_key(g)
                    && m1[g].timestamp_list@.len() > 0 && map_kth(m1, g) == map_kth(om, g) by {}
                if action == 1 {
                    assert(oh.contains(frame_id));
                    assert(!oc.contains(frame_id));
                }
            }
            let ghost mut hi: int = 0;
            if action == 1 {
                remove_from_vec(&mut self.inner.history_list, frame_id);
                proof {
                    hi = choose|i: int| 0 <= i < oh.len() && oh[i] == frame_id && (forall|j: int| 0 <= j < i ==> oh[j] != frame_id)
                        && self.inner.history_list@ == oh.remove(i);
                    assert forall|i: int| 0 <= i < self.inner.cache_list@.len() implies m1.contains_key(
                        #[trigger] self.inner.cache_list@[i],
                    ) && m1[self.inner.cache_list@[i]].timestamp_list@.len() > 0 by {
                        assert(oc.contains(oc[i]));
                    }
                }
                insert_cache_sorted_no_conflict(&mut self.inner, frame_id, kts);
            } else if action == 2 {
                remove_from_vec(&mut self.inner.cache_list, frame_id);
                proof {
                    let i = choose|i: int| 0 <= i < oc.len() && oc[i] == frame_id && (forall|j: int| 0 <= j < i ==> oc[j] != frame_id)
                        && self.inner.cache_list@ == oc.remove(i);
                    lemma_seq_remove(oc, i);
                    assert forall|j: int| 0 <= j < self.inner.cache_list@.len() implies m1.contains_key(
                        #[trigger] self.inner.cache_list@[j],
                    ) && m1[self.inner.cache_list@[j]].timestamp_list@.len() > 0 by {
                        assert(self.inner.cache_list@.contains(self.inner.cache_list@[j]));
                    }
                }
                insert_cache_sorted_no_conflict(&mut self.inner, frame_id, kts);
            }
            self.inner.current_timestamp = self.inner.current_timestamp + 1;
            proof {
                self.lemma_access_wf(&o, frame_id, action, kts as int);
                let key_o = |g: i32| map_kth(om, g);
                let key_n = |g: i32| map_kth(m1, g);
                assert(o.kth_key() =~= key_o) by {
                    assert forall|g: i32| #[trigger] o.kth_key()(g) == key_o(g) by {}
                }
                assert forall|x: i32| x != frame_id implies #[trigger] key_o(x) == key_n(x) by {}
                if action != 0 {
                    assert(self.kth_ts(frame_id) == kts);
                }
                if action == 1 {
                    assert(!oc.contains(frame_id));
                    lemma_inserted_sorted_key_change(oc, self.inner.cache_list@, frame_id, kts as int, key_n, key_o);
                    let p = choose|p: int|
                        0 <= p <= oc.len() && self.inner.cache_list@ == oc.insert(p, frame_id);
                    assert(self.inner.cache_list@.len() == oc.len() + 1);
                } else if action == 2 {
                    let i = choose|i: int| 0 <= i < oc.len() && oc[i] == frame_id && inserted_sorted(
                        oc.remove(i),
                        self.inner.cache_list@,
                        frame_id,
                        kts as int,
                        key_n,
                    );
                    lemma_seq_remove(oc, i);
                    lemma_inserted_sorted_key_change(oc.remove(i), self.inner.cache_list@, frame_id, kts as int, key_n, key_o);
                    assert(0 <= i < o.cache().len() && o.cache()[i] == frame_id && inserted_sorted(
                        o.cache().remove(i),
                        self.cache(),
                        frame_id,
                        self.kth_ts(frame_id),
                        o.kth_key(),
                    ));
                }
                let ov = o.frame_view(frame_id);
                let c = ov.2 + 1;
                assert(self.frame_view(frame_id).0);
                assert(self.frame_view(frame_id).1 == ov.1);
                assert(self.frame_view(frame_id).2 == c as usize);
                assert(self.frame_view(frame_id).3 == if c <= o.spec_k() {
                    ov.3.push(ts)
                } else {
                    ov.3.subrange(1, ov.3.len() as int).push(ts)
                });
                assert(self.spec_size() == o.spec_size());
                if c == o.spec_k() {
                    assert(action == 1);
                    assert(inserted_sorted(oc, self.inner.cache_list@, frame_id, kts as int, key_o));
                    assert(inserted_sorted(o.cache(), self.cache(), frame_id, self.kth_ts(frame_id), o.kth_key()));
                    assert(0 <= hi < o.history().len() && o.history()[hi] == frame_id && self.history() == o.history().remove(hi));
                }
                if c > o.spec_k() {
                    assert(action == 2);
                    assert(self.history() == o.history());
                }
            }
        }
    }

    /// Well-formedness and the queue changes after an access to a known frame.
    proof fn lemma_access_wf(&self, o: &Self, fid: i32, action: i32, kts: int)
        requires
            o.wf(),
            o.frame_ids().contains(fid),
            self.inner.k == o.inner.k,
            self.inner.curr_size == o.inner.curr_size,
            self.inner.replacer_size == o.inner.replacer_size,
            self.inner.current_timestamp == o.inner.current_timestamp + 1,
            ({
                let of = o.inner.id_frame_map@[fid];
                let nf = self.inner.id_frame_map@[fid];
                let ts = o.inner.current_timestamp;
                &&& self.inner.id_frame_map@ == o.inner.id_frame_map@.insert(fid, nf)
                &&& nf.used_cnt == of.used_cnt + 1
                &&& nf.evictable == of.evictable
                &&& nf.used_cnt <= o.inner.k ==> nf.timestamp_list@ == of.timestamp_list@.push(ts)
                &&& nf.used_cnt > o.inner.k ==> nf.timestamp_list@ == of.timestamp_list@.subrange(
                    1,
                    of.timestamp_list@.len() as int,
                ).push(ts)
                &&& action == 0 <==> nf.used_cnt < o.inner.k
                &&& action == 1 <==> nf.used_cnt == o.inner.k
                &&& action == 2 <==> nf.used_cnt > o.inner.k
                &&& action != 0 ==> kts == nf.timestamp_list@[0]
            }),
            action == 0 ==> self.inner.history_list@ == o.inner.history_list@ && self.inner.cache_list@
                == o.inner.cache_list@,
            action == 1 ==> (exists|i: int|
                0 <= i < o.inner.history_list@.len() && o.inner.history_list@[i] == fid
                    && self.inner.history_list@ == o.inner.history_list@.remove(i)) && inserted_sorted(
                o.inner.cache_list@,
                self.inner.cache_list@,
                fid,
                kts,
                |f: i32| map_kth(self.inner.id_frame_map@, f),
            ),
            action == 2 ==> self.inner.history_list@ == o.inner.history_list@ && exists|i: int|
                0 <= i < o.inner.cache_list@.len() && o.inner.cache_list@[i] == fid && inserted_sorted(
                    o.inner.cache_list@.remove(i),
                    self.inner.cache_list@,
                    fid,
                    kts,
                    |f: i32| map_kth(self.inner.id_frame_map@, f),
                ),
        ensures
            self.wf(),
    {
        let m = self.inner.id_frame_map@;
        let om = o.inner.id_frame_map@;
        let oh = o.inner.history_list@;
        let oc = o.inner.cache_list@;
        let h = self.inner.history_list@;
        let c = self.inner.cache_list@;
        let key_o = |f: i32| map_kth(om, f);
        let key_n = |f: i32| map_kth(m, f);
        assert(m.dom() =~= om.dom());
        assert(self.evictable_set() =~= o.evictable_set());
        assert forall|x: i32| x != fid implies #[trigger] key_n(x) == key_o(x) by {}
        if action == 0 {
            assert(oh.contains(fid)) by {
                if oc.contains(fid) {
                    assert(false);
                }
            }
            assert(!oc.contains(fid));
        } else if action == 1 {
            assert(oh.contains(fid)) by {
                if oc.contains(fid) {
                    assert(false);
                }
            }
            let i = choose|i: int| 0 <= i < oh.len() && oh[i] == fid && h == oh.remove(i);
            lemma_seq_remove(oh, i);
            assert(!oc.contains(fid));
            lemma_inserted_sorted_key_change(oc, c, fid, kts, key_n, key_o);
            lemma_sorted_insert(oc, c, fid, kts, key_o, key_n);
            let p = choose|p: int|
                0 <= p <= oc.len() && c == oc.insert(p, fid) && (forall|j: int| 0 <= j < p ==> key_n(#[trigger] oc[j]) < kts)
                    && (p < oc.len() ==> kts <= key_n(oc[p]));
            lemma_seq_insert(oc, p, fid);
        } else {
            assert(oc.contains(fid)) by {
                if oh.contains(fid) {
                    assert(false);
                }
            }
            let i = choose|i: int| 0 <= i < oc.len() && oc[i] == fid && inserted_sorted(oc.remove(i), c, fid, kts, key_n);
            lemma_seq_remove(oc, i);
            lemma_sorted_remove(oc, i, key_o);
            let r = oc.remove(i);
            assert(!r.contains(fid));
            lemma_inserted_sorted_key_change(r, c, fid, kts, key_n, key_o);
            lemma_sorted_insert(r, c, fid, kts, key_o, key_n);
            let p = choose|p: int|
                0 <= p <= r.len() && c == r.insert(p, fid) && (forall|j: int| 0 <= j < p ==> key_n(#[trigger] r[j]) < kts)
                    && (p < r.len() ==> kts <= key_n(r[p]));
            lemma_seq_insert(r, p, fid);
            assert(!oh.contains(fid));
        }
        assert(sorted_by(c, key_n));
    }

    proof fn lemma_new_frame_cache_wf(&self, o: &Self, f: i32)
        requires
            o.wf(),
            o.inner.k == 1,
            !o.frame_ids().contains(f),
            self.inner.id_frame_map@ == o.inner.id_frame_map@.insert(f, self.inner.id_frame_map@[f]),
            self.inner.id_frame_map@[f].used_cnt == 1,
            self.inner.id_frame_map@[f].evictable,
            self.inner.id_frame_map@[f].timestamp_list@ == seq![o.inner.current_timestamp],
            self.inner.history_list@ == o.inner.history_list@,
            inserted_sorted(
                o.inner.cache_list@,
                self.inner.cache_list@,
                f,
                o.inner.current_timestamp as int,
                |g: i32| map_kth(o.inner.id_frame_map@, g),
            ),
            self.inner.curr_size == o.inner.curr_size + 1,
            self.inner.k == o.inner.k,
            self.inner.current_timestamp == o.inner.current_timestamp + 1,
            self.inner.replacer_size == o.inner.replacer_size,
        ensures
            self.wf(),
            self.frame_ids() == o.frame_ids().insert(f),
            self.evictable_set() == o.evictable_set().insert(f),
            forall|g: i32| g != f ==> #[trigger] self.frame_view(g) == o.frame_view(g),
    {
        let m = self.inner.id_frame_map@;
        let om = o.inner.id_frame_map@;
        let oh = o.inner.history_list@;
        let oc = o.inner.cache_list@;
        let c = self.inner.cache_list@;
        let kts = o.inner.current_timestamp as int;
        let key_o = |g: i32| map_kth(om, g);
        let key_n = |g: i32| map_kth(m, g);
        assert(self.evictable_set() =~= o.evictable_set().insert(f));
        assert(self.frame_ids() =~= o.frame_ids().insert(f));
        assert(!oh.contains(f));
        assert(!oc.contains(f));
        assert(oh.len() == 0) by {
            if oh.len() > 0 {
                assert(oh.contains(oh[0]));
            }
        }
        assert forall|x: i32| x != f implies #[trigger] key_n(x) == key_o(x) by {}
        assert(key_n(f) == kts);
        lemma_inserted_sorted_key_change(oc, c, f, kts, key_o, key_n);
        lemma_sorted_insert(oc, c, f, kts, key_o, key_n);
        let p = choose|p: int|
            0 <= p <= oc.len() && c == oc.insert(p, f) && (forall|j: int| 0 <= j < p ==> key_n(#[trigger] oc[j]) < kts)
                && (p < oc.len() ==> kts <= key_n(oc[p]));
        lemma_seq_insert(oc, p, f);
        assert(sorted_by(c, key_n));
    }

    proof fn lemma_new_frame_wf(&self, o: &Self, f: i32)
        requires
            o.wf(),
            o.inner.k >= 2,
            !o.frame_ids().contains(f),
            self.inner.id_frame_map@ == o.inner.id_frame_map@.insert(f, self.inner.id_frame_map@[f]),
            self.inner.id_frame_map@[f].used_cnt == 1,
            self.inner.id_frame_map@[f].evictable,
            self.inner.id_frame_map@[f].timestamp_list@.len() == 1,
            self.inner.id_frame_map@[f].timestamp_list@[0] == o.inner.current_timestamp,
            self.inner.history_list@ == o.inner.history_list@.push(f),
            self.inner.cache_list@ == o.inner.cache_list@,
            self.inner.curr_size == o.inner.curr_size + 1,
            self.inner.k == o.inner.k,
            self.inner.current_timestamp == o.inner.current_timestamp + 1,
            self.inner.replacer_size == o.inner.replacer_size,
        ensures
            self.wf(),
            self.frame_ids() == o.frame_ids().insert(f),
            self.evictable_set() == o.evictable_set().insert(f),
            forall|g: i32| g != f ==> #[trigger] self.frame_view(g) == o.frame_view(g),
    {
        let m = self.inner.id_frame_map@;
        let om = o.inner.id_frame_map@;
        let oh = o.inner.history_list@;
        let c = self.inner.cache_list@;
        assert(self.evictable_set() =~= o.evictable_set().insert(f));
        assert(self.frame_ids() =~= o.frame_ids().insert(f));
        assert(!oh.contains(f));
        assert(!c.contains(f));
        lemma_seq_insert(oh, oh.len() as int, f);
        assert(oh.insert(oh.len() as int, f) =~= oh.push(f));
        assert forall|i: int, j: int| 0 <= i < j < c.len() implies map_kth(m, c[i]) <= map_kth(m, c[j]) by {
            assert(c.contains(c[i]) && c.contains(c[j]));
            assert(sorted_by(c, |g: i32| map_kth(om, g)));
            assert(map_kth(om, c[i]) <= map_kth(om, c[j]));
        }
        let h = self.inner.history_list@;
        assert forall|i: int, j: int| 0 <= i < j < h.len() implies map_kth(m, h[i]) <= map_kth(m, h[j]) by {
            assert(oh.contains(h[i]));
            assert(h[i] != f);
            if j < oh.len() {
                assert(oh.contains(h[j]));
                assert(sorted_by(oh, |g: i32| map_kth(om, g)));
                assert(map_kth(om, oh[i]) <= map_kth(om, oh[j]));
            } else {
                assert(map_kth(om, oh[i]) < o.inner.current_timestamp);
            }
        }
        assert forall|g: i32| #[trigger] h.contains(g) implies map_kth(m, g) < self.inner.current_timestamp by {
            if g != f {
                assert(oh.contains(g));
            }
        }
    }
}

/// Whether `s` is ordered by `key`.
pub open spec fn sorted_by(s: Seq<i32>, key: spec_fn(i32) -> int) -> bool {
    forall|i: int, j: int| 0 <= i < j < s.len() ==> key(#[trigger] s[i]) <= key(#[trigger] s[j])
}

proof fn lemma_seq_remove(s: Seq<i32>, i: int)
    requires
        s.no_duplicates(),
        0 <= i < s.len(),
    ensures
        s.remove(i).no_duplicates(),
        forall|x: i32| #[trigger] s.remove(i).contains(x) <==> (s.contains(x) && x != s[i]),
        s.remove(i).len() == s.len() - 1,
{
    let r = s.remove(i);
    assert forall|a: int, b: int| 0 <= a < r.len() && 0 <= b < r.len() && a != b implies r[a] != r[b] by {
        let a2 = if a < i { a } else { a + 1 };
        let b2 = if b < i { b } else { b + 1 };
        assert(r[a] == s[a2] && r[b] == s[b2]);
    }
    assert forall|x: i32| #[trigger] r.contains(x) <==> (s.contains(x) && x != s[i]) by {
        if r.contains(x) {
            let a = choose|a: int| 0 <= a < r.len() && r[a] == x;
            let a2 = if a < i { a } else { a + 1 };
            assert(r[a] == s[a2]);
        }
        if s.contains(x) && x != s[i] {
            let a = choose|a: int| 0 <= a < s.len() && s[a] == x;
            let a2 = if a < i { a } else { a - 1 };
            assert(r[a2] == x);
        }
    }
}

proof fn lemma_seq_insert(s: Seq<i32>, p: int, x: i32)
    requires
        0 <= p <= s.len(),
    ensures
        forall|y: i32| #[trigger] s.insert(p, x).contains(y) <==> (s.contains(y) || y == x),
        !s.contains(x) && s.no_duplicates() ==> s.insert(p, x).no_duplicates(),
        s.insert(p, x).len() == s.len() + 1,
{
    let r = s.insert(p, x);
    assert forall|y: i32| #[trigger] r.contains(y) <==> (s.contains(y) || y == x) by {
        if r.contains(y) {
            let a = choose|a: int| 0 <= a < r.len() && r[a] == y;
            if a < p {
                assert(s[a] == y);
            } else if a > p {
                assert(s[a - 1] == y);
            }
        }
        if s.contains(y) {
            let a = choose|a: int| 0 <= a < s.len() && s[a] == y;
            if a < p {
                assert(r[a] == y);
            } else {
                assert(r[a + 1] == y);
            }
        }
        if y == x {
            assert(r[p] == x);
        }
    }
    if !s.contains(x) && s.no_duplicates() {
        assert forall|a: int, b: int| 0 <= a < r.len() && 0 <= b < r.len() && a != b implies r[a] != r[b] by {
            if a != p && b != p {
                let a2 = if a < p { a } else { a - 1 };
                let b2 = if b < p { b } else { b - 1 };
                assert(r[a] == s[a2] && r[b] == s[b2]);
            } else if a == p {
                let b2 = if b < p { b } else { b - 1 };
                assert(r[b] == s[b2]);
            } else {
                let a2 = if a < p { a } else { a - 1 };
                assert(r[a] == s[a2]);
            }
        }
    }
}

proof fn lemma_inserted_sorted_key_change(
    s: Seq<i32>,
    r: Seq<i32>,
    f: i32,
    kf: int,
    key: spec_fn(i32) -> int,
    key2: spec_fn(i32) -> int,
)
    requires
        inserted_sorted(s, r, f, kf, key),
        !s.contains(f),
        forall|x: i32| x != f ==> #[trigger] key2(x) == key(x),
    ensures
        inserted_sorted(s, r, f, kf, key2),
{
    let p = choose|p: int|
        0 <= p <= s.len() && r == s.insert(p, f) && (forall|j: int| 0 <= j < p ==> key(#[trigger] s[j]) < kf)
            && (p < s.len() ==> kf <= key(s[p]));
    assert forall|j: int| 0 <= j < p implies key2(#[trigger] s[j]) < kf by {
        assert(s.contains(s[j]));
    }
    if p < s.len() {
        assert(s.contains(s[p]));
    }
}

proof fn lemma_sorted_remove(s: Seq<i32>, i: int, key: spec_fn(i32) -> int)
    requires
        sorted_by(s, key),
        0 <= i < s.len(),
    ensures
        sorted_by(s.remove(i), key),
{
    let r = s.remove(i);
    assert forall|a: int, b: int| 0 <= a < b < r.len() implies key(#[trigger] r[a]) <= key(#[trigger] r[b]) by {
        let a2 = if a < i { a } else { a + 1 };
        let b2 = if b < i { b } else { b + 1 };
        assert(r[a] == s[a2] && r[b] == s[b2]);
    }
}

proof fn lemma_sorted_insert(
    s: Seq<i32>,
    r: Seq<i32>,
    f: i32,
    kf: int,
    key: spec_fn(i32) -> int,
    key2: spec_fn(i32) -> int,
)
    requires
        sorted_by(s, key),
        inserted_sorted(s, r, f, kf, key),
        !s.contains(f),
        key2(f) == kf,
        forall|x: i32| x != f ==> #[trigger] key2(x) == key(x),
    ensures
        sorted_by(r, key2),
{
    let p = choose|p: int|
        0 <= p <= s.len() && r == s.insert(p, f) && (forall|j: int| 0 <= j < p ==> key(#[trigger] s[j]) < kf)
            && (p < s.len() ==> kf <= key(s[p]));
    assert forall|a: int, b: int| 0 <= a < b < r.len() implies key2(#[trigger] r[a]) <= key2(#[trigger] r[b]) by {
        if a < p && b < p {
            assert(r[a] == s[a] && r[b] == s[b]);
            assert(s.contains(s[a]) && s.contains(s[b]));
        } else if a < p && b == p {
            assert(r[a] == s[a]);
            assert(s.contains(s[a]));
        } else if a < p {
            assert(r[a] == s[a] && r[b] == s[b - 1]);
            assert(s.contains(s[a]) && s.contains(s[b - 1]));
        } else if a == p {
            assert(r[b] == s[b - 1]);
            assert(s.contains(s[b - 1]));
            assert(key(s[p]) <= key(s[b - 1]));
        } else {
            assert(r[a] == s[a - 1] && r[b] == s[b - 1]);
            assert(s.contains(s[a - 1]) && s.contains(s[b - 1]));
        }
    }
}

/// Removes the first occurrence of `target` from `v`, if any.
fn remove_from_vec(v: &mut Vec<i32>, target: i32)
    ensures
        old(v)@.contains(target) ==> exists|i: int|
            0 <= i < old(v)@.len() && old(v)@[i] == target && (forall|j: int| 0 <= j < i ==> old(v)@[j] != target)
                && final(v)@ == old(v)@.remove(i),
        !old(v)@.contains(target) ==> final(v)@ == old(v)@,
{
    let mut i: usize = 0;
    while i < v.len()
        invariant
            *v == *old(v),
            i <= v@.len(),
            forall|j: int| 0 <= j < i ==> v@[j] != target,
        decreases v@.len() - i,
    {
        if v[i] == target {
            v.remove(i);
            return;
        }
        i = i + 1;
    }
}

/// Puts `frame_id` into the cache queue before the first frame whose k-th
/// most recent access is not earlier than `kts`.
fn insert_cache_sorted_no_conflict(g: &mut Inner, frame_id: i32, kts: usize)
    requires
        forall|i: int|
            0 <= i < old(g).cache_list@.len() ==> old(g).id_frame_map@.contains_key(#[trigger] old(g).cache_list@[i])
                && old(g).id_frame_map@[old(g).cache_list@[i]].timestamp_list@.len() > 0,
    ensures
        inserted_sorted(
            old(g).cache_list@,
            final(g).cache_list@,
            frame_id,
            kts as int,
            |f: i32| map_kth(old(g).id_frame_map@, f),
        ),
        final(g).id_frame_map@ == old(g).id_frame_map@,
        final(g).history_list@ == old(g).history_list@,
        final(g).current_timestamp == old(g).current_timestamp,
        final(g).curr_size == old(g).curr_size,
        final(g).replacer_size == old(g).replacer_size,
        final(g).k == old(g).k,
{
    let mut pos: usize = 0;
    while pos < g.cache_list.len()
        invariant
            *g == *old(g),
            pos <= g.cache_list@.len(),
            forall|j: int| 0 <= j < pos ==> map_kth(g.id_frame_map@, #[trigger] g.cache_list@[j]) < kts,
            forall|i: int|
                0 <= i < g.cache_list@.len() ==> g.id_frame_map@.contains_key(#[trigger] g.cache_list@[i])
                    && g.id_frame_map@[g.cache_list@[i]].timestamp_list@.len() > 0,
        ensures
            pos <= g.cache_list@.len(),
            forall|j: int| 0 <= j < pos ==> map_kth(g.id_frame_map@, #[trigger] g.cache_list@[j]) < kts,
            pos < g.cache_list@.len() ==> kts <= map_kth(g.id_frame_map@, g.cache_list@[pos as int]),
        decreases g.cache_list@.len() - pos,
    {
        let other_id = g.cache_list[pos];
        let other_kts = g.id_frame_map.get(&other_id).unwrap().kth_timestamp();
        if kts <= other_kts {
            break;
        }
        pos = pos + 1;
    }
    g.cache_list.insert(pos, frame_id);
    proof {
        let o = old(g).cache_list@;
        assert(0 <= pos <= o.len() && g.cache_list@ == o.insert(pos as int, frame_id));
    }
}

} // verus!
