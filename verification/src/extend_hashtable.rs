//! An extendible hash table keyed by `i32`.
//!
//! The directory holds one bucket per slot; a key lives in the slot given by
//! the low `global_depth` bits of its `DefaultHasher` hash. When a bucket is
//! full, it is split: either in place (its local depth is below the global
//! depth) or together with a doubling of the directory, whose new upper half
//! starts as copies of the lower half. A slot's bucket is its own copy, so a
//! split rehashes the copied entries of the split bucket into their home
//! slots as well.

use std::collections::hash_map::DefaultHasher;
use std::hash::{Hash, Hasher};
use vstd::prelude::*;
use vstd::std_specs::hash::DefaultHasherAdditionalSpecFns;

verus! {

/// The largest global depth the directory may reach.
pub const MAX_GLOBAL_DEPTH: i32 = 30;

/// State of a `DefaultHasher` after `key` has been hashed into a hasher in
/// state `state` (the writes that `<i32 as Hash>::hash` makes).
pub uninterp spec fn hashed_state(state: Seq<Seq<u8>>, key: i32) -> Seq<Seq<u8>>;

/// Calls `<i32 as Hash>::hash` with a `DefaultHasher`.
/// Trusted: the hasher's new state is `hashed_state` of its old state and the key.
#[verifier::external_body]
fn hash_i32_into(key: i32, hasher: &mut DefaultHasher)
    ensures
        final(hasher)@ == hashed_state(old(hasher)@, key),
{
    key.hash(hasher);
}

/// The hash of a key: a fresh `DefaultHasher`, the key hashed into it, finished.
pub open spec fn key_hash(key: i32) -> u64 {
    DefaultHasher::spec_finish(hashed_state(Seq::empty(), key))
}

/// Number of directory slots at global depth `gd`.
pub open spec fn dir_size(gd: int) -> int {
    (1u64 << (gd as u64)) as int
}

/// The directory slot of `key` at global depth `gd`: the low `gd` bits of its hash.
pub open spec fn home(key: i32, gd: int) -> int {
    (key_hash(key) & (((1u64 << (gd as u64)) - 1) as u64)) as int
}

proof fn lemma_mask_bounds(h: u64, g: u64)
    by (bit_vector)
    requires
        g <= 30,
    ensures
        (h & (((1u64 << g) - 1) as u64)) < (1u64 << g),
        (1u64 << g) >= 1,
        (1u64 << g) <= 0x4000_0000,
{
}

proof fn lemma_mask_grow(h: u64, g: u64)
    by (bit_vector)
    requires
        g < 30,
    ensures
        (h & (((1u64 << ((g + 1) as u64)) - 1) as u64)) == (h & (((1u64 << g) - 1) as u64)) || (h
            & (((1u64 << ((g + 1) as u64)) - 1) as u64)) == (h & (((1u64 << g) - 1) as u64)) + (1u64
            << g),
        (1u64 << ((g + 1) as u64)) == 2 * (1u64 << g),
{
}

proof fn lemma_size_zero()
    by (bit_vector)
    ensures
        (1u64 << 0u64) == 1u64,
{
}

/// Facts about `home` and `dir_size` at a depth in range.
proof fn lemma_home(key: i32, gd: int)
    requires
        0 <= gd <= 30,
    ensures
        0 <= home(key, gd) < dir_size(gd),
        1 <= dir_size(gd) <= 0x4000_0000,
{
    lemma_mask_bounds(key_hash(key), gd as u64);
}

/// How `home` and `dir_size` change when the depth grows by one.
proof fn lemma_home_grow(key: i32, gd: int)
    requires
        0 <= gd < 30,
    ensures
        home(key, gd + 1) == home(key, gd) || home(key, gd + 1) == home(key, gd) + dir_size(gd),
        dir_size(gd + 1) == 2 * dir_size(gd),
{
    lemma_mask_grow(key_hash(key), gd as u64);
}

/// The low `d` bits of the slot number `x`.
pub open spec fn low_bits(x: int, d: int) -> int {
    ((x as u64) & (((1u64 << (d as u64)) - 1) as u64)) as int
}

proof fn lemma_mask_nest(h: u64, g: u64, d: u64)
    by (bit_vector)
    requires
        d <= g,
        g <= 30,
    ensures
        ((h & (((1u64 << g) - 1) as u64)) & (((1u64 << d) - 1) as u64)) == (h & (((1u64 << d) - 1) as u64)),
{
}

proof fn lemma_mask_twin(t: u64, g: u64, d: u64)
    by (bit_vector)
    requires
        d <= g,
        g < 30,
        t < (1u64 << g),
    ensures
        (((t + (1u64 << g)) as u64) & (((1u64 << d) - 1) as u64)) == (t & (((1u64 << d) - 1) as u64)),
{
}

proof fn lemma_mask_small(t: u64, d: u64)
    by (bit_vector)
    requires
        d <= 30,
        t < (1u64 << d),
    ensures
        (t & (((1u64 << d) - 1) as u64)) == t,
{
}

/// The home of a key at a smaller depth is the low bits of its home at a
/// larger one.
proof fn lemma_home_nest(key: i32, g: int, d: int)
    requires
        0 <= d <= g <= 30,
    ensures
        home(key, d) == low_bits(home(key, g), d),
{
    lemma_mask_nest(key_hash(key), g as u64, d as u64);
    lemma_mask_bounds(key_hash(key), g as u64);
}

/// A slot and its twin in the upper half of a doubled directory agree on
/// their low bits up to the old depth.
proof fn lemma_twin_bits(t: int, g: int, d: int)
    requires
        0 <= d <= g < 30,
        0 <= t < dir_size(g),
    ensures
        low_bits(t + dir_size(g), d) == low_bits(t, d),
{
    lemma_mask_bounds(0, g as u64);
    lemma_mask_twin(t as u64, g as u64, d as u64);
}

// ======================= buckets =======================

/// Whether some entry of `l` has key `k`.
pub open spec fn has_key<V>(l: Seq<(i32, V)>, k: i32) -> bool {
    exists|i: int| 0 <= i < l.len() && (#[trigger] l[i]).0 == k
}

/// Whether no two entries of `l` share a key.
pub open spec fn keys_unique<V>(l: Seq<(i32, V)>) -> bool {
    forall|i: int, j: int| 0 <= i < l.len() && 0 <= j < l.len() && i != j ==> (#[trigger] l[i]).0 != (#[trigger] l[j]).0
}

/// The value stored under `k` in `l`, if any.
pub open spec fn list_get<V>(l: Seq<(i32, V)>, k: i32) -> Option<V> {
    if has_key(l, k) {
        Some(l[choose|i: int| 0 <= i < l.len() && (#[trigger] l[i]).0 == k].1)
    } else {
        None
    }
}

/// In a list with unique keys, the entry at `i` is what `list_get` finds.
proof fn lemma_list_get_at<V>(l: Seq<(i32, V)>, i: int)
    requires
        keys_unique(l),
        0 <= i < l.len(),
    ensures
        has_key(l, l[i].0),
        list_get(l, l[i].0) == Some(l[i].1),
{
    let k = l[i].0;
    assert(has_key(l, k));
    let j = choose|j: int| 0 <= j < l.len() && (#[trigger] l[j]).0 == k;
    assert(j == i);
}

/// A bucket: a bounded list of entries with distinct keys and a local depth.
struct Bucket<K, V> {
    size: usize,
    depth: i32,
    list: Vec<(K, V)>,
}

impl<V: Copy> Bucket<i32, V> {
    spec fn wf(&self) -> bool {
        &&& self.list@.len() <= self.size
        &&& keys_unique(self.list@)
    }

    /// An empty bucket.
    fn new(size: usize, depth: i32) -> (b: Self)
        ensures
            b.size == size,
            b.depth == depth,
            b.list@ == Seq::<(i32, V)>::empty(),
    {
        Bucket { size, depth, list: Vec::new() }
    }

    /// Whether the bucket holds `size` entries.
    fn is_full(&self) -> (r: bool)
        ensures
            r == (self.list@.len() == self.size),
    {
        self.list.len() == self.size
    }

    /// The local depth.
    fn get_depth(&self) -> (d: i32)
        ensures
            d == self.depth,
    {
        self.depth
    }

    /// Raises the local depth by one.
    fn increment_depth(&mut self)
        requires
            old(self).depth < i32::MAX,
        ensures
            final(self).depth == old(self).depth + 1,
            final(self).size == old(self).size,
            final(self).list@ == old(self).list@,
    {
        self.depth = self.depth + 1;
    }

    /// A copy of this bucket.
    fn duplicate(&self) -> (b: Self)
        ensures
            b.size == self.size,
            b.depth == self.depth,
            b.list@ == self.list@,
    {
        let mut list: Vec<(i32, V)> = Vec::new();
        let mut i: usize = 0;
        while i < self.list.len()
            invariant
                i <= self.list@.len(),
                list@ == self.list@.subrange(0, i as int),
            decreases self.list@.len() - i,
        {
            list.push(self.list[i]);
            i = i + 1;
        }
        assert(list@ == self.list@);
        Bucket { size: self.size, depth: self.depth, list }
    }

    /// Looks `key` up; on success stores the value in `value`.
    fn find(&self, key: i32, value: &mut Option<V>) -> (found: bool)
        requires
            self.wf(),
        ensures
            found == has_key(self.list@, key),
            found ==> *final(value) == list_get(self.list@, key),
            !found ==> *final(value) == *old(value),
    {
        let mut i: usize = 0;
        while i < self.list.len()
            invariant
                i <= self.list@.len(),
                self.wf(),
                forall|j: int| 0 <= j < i ==> (#[trigger] self.list@[j]).0 != key,
                *value == *old(value),
            decreases self.list@.len() - i,
        {
            let (k, v) = self.list[i];
            if k == key {
                proof {
                    lemma_list_get_at(self.list@, i as int);
                }
                *value = Some(v);
                return true;
            }
            i = i + 1;
        }
        false
    }

    /// Removes the entry with key `key`; returns whether there was one.
    fn remove(&mut self, key: i32) -> (found: bool)
        requires
            old(self).wf(),
        ensures
            final(self).wf(),
            final(self).size == old(self).size,
            final(self).depth == old(self).depth,
            found == has_key(old(self).list@, key),
            !has_key(final(self).list@, key),
            forall|k: i32| k != key ==> list_get(final(self).list@, k) == list_get(old(self).list@, k),
            forall|e: (i32, V)| final(self).list@.contains(e) ==> old(self).list@.contains(e),
    {
        let mut new_list: Vec<(i32, V)> = Vec::new();
        let mut found = false;
        let mut i: usize = 0;
        let ghost old_list = self.list@;
        while i < self.list.len()
            invariant
                self.list@ == old_list,
                keys_unique(old_list),
                i <= old_list.len(),
                keys_unique(new_list@),
                new_list@.len() <= i,
                found == exists|j: int| 0 <= j < i && (#[trigger] old_list[j]).0 == key,
                forall|j: int| 0 <= j < new_list@.len() ==> (#[trigger] new_list@[j]).0 != key,
                forall|e: (i32, V)| new_list@.contains(e) ==> exists|j: int| 0 <= j < i && old_list[j] == e,
                forall|j: int| 0 <= j < i && (#[trigger] old_list[j]).0 != key ==> new_list@.contains(old_list[j]),
            decreases old_list.len() - i,
        {
            let item = self.list[i];
            if item.0 == key {
                found = true;
            } else {
                proof {
                    assert forall|a: int| 0 <= a < new_list@.len() implies (#[trigger] new_list@[a]).0 != item.0 by {
                        let e = new_list@[a];
                        assert(new_list@.contains(e));
                        let j = choose|j: int| 0 <= j < i && old_list[j] == e;
                        assert(old_list[j].0 != old_list[i as int].0);
                    }
                }
                let ghost pre = new_list@;
                new_list.push(item);
                proof {
                    assert(new_list@ == pre.push(item));
                    assert forall|e: (i32, V)| new_list@.contains(e) implies exists|j: int| 0 <= j < i + 1 && old_list[j] == e by {
                        let a = choose|a: int| 0 <= a < new_list@.len() && new_list@[a] == e;
                        if a < pre.len() {
                            assert(pre[a] == e);
                            assert(pre.contains(e));
                            let j = choose|j: int| 0 <= j < i && old_list[j] == e;
                            assert(0 <= j < i + 1 && old_list[j] == e);
                        } else {
                            assert(old_list[i as int] == e);
                        }
                    }
                    assert forall|j: int| 0 <= j < i && (#[trigger] old_list[j]).0 != key implies new_list@.contains(old_list[j]) by {
                        assert(pre.contains(old_list[j]));
                        let a = choose|a: int| 0 <= a < pre.len() && pre[a] == old_list[j];
                        assert(new_list@[a] == old_list[j]);
                    }
                    assert(new_list@[new_list@.len() - 1] == old_list[i as int]);
                }
            }
            i = i + 1;
        }
        proof {
            assert forall|k: i32| k != key implies list_get(new_list@, k) == list_get(old_list, k) by {
                if has_key(old_list, k) {
                    let j = choose|j: int| 0 <= j < old_list.len() && (#[trigger] old_list[j]).0 == k;
                    lemma_list_get_at(old_list, j);
                    assert(new_list@.contains(old_list[j]));
                    let a = choose|a: int| 0 <= a < new_list@.len() && new_list@[a] == old_list[j];
                    lemma_list_get_at(new_list@, a);
                } else if has_key(new_list@, k) {
                    let a = choose|a: int| 0 <= a < new_list@.len() && (#[trigger] new_list@[a]).0 == k;
                    assert(new_list@.contains(new_list@[a]));
                }
            }
            assert forall|e: (i32, V)| new_list@.contains(e) implies old_list.contains(e) by {
                let j = choose|j: int| 0 <= j < i && old_list[j] == e;
            }
        }
        self.list = new_list;
        found
    }

    /// Inserts or updates `key`. Returns `false` only when the key is absent
    /// and the bucket is full.
    fn insert(&mut self, key: i32, value: V) -> (ok: bool)
        requires
            old(self).wf(),
        ensures
            final(self).wf(),
            final(self).size == old(self).size,
            final(self).depth == old(self).depth,
            ok == (has_key(old(self).list@, key) || old(self).list@.len() < old(self).size),
            ok ==> list_get(final(self).list@, key) == Some(value),
            !ok ==> final(self).list@ == old(self).list@,
            forall|k: i32| k != key ==> list_get(final(self).list@, k) == list_get(old(self).list@, k),
            forall|k: i32| has_key(old(self).list@, k) ==> has_key(final(self).list@, k),
            forall|e: (i32, V)| #[trigger] final(self).list@.contains(e) ==> old(self).list@.contains(e) || e == (key, value),
            final(self).list@.len() <= old(self).list@.len() + 1,
            !has_key(old(self).list@, key) && ok ==> final(self).list@.len() == old(self).list@.len() + 1,
            has_key(old(self).list@, key) ==> final(self).list@.len() == old(self).list@.len(),
    {
        let ghost old_list = self.list@;
        let mut i: usize = 0;
        while i < self.list.len()
            invariant
                self.list@ == old_list,
                old_list == old(self).list@,
                self.wf(),
                self.size == old(self).size,
                self.depth == old(self).depth,
                i <= old_list.len(),
                forall|j: int| 0 <= j < i ==> (#[trigger] old_list[j]).0 != key,
            decreases old_list.len() - i,
        {
            if self.list[i].0 == key {
                self.list[i] = (key, value);
                proof {
                    let nl = self.list@;
                    assert(nl == old_list.update(i as int, (key, value)));
                    assert forall|a: int, b: int| 0 <= a < nl.len() && 0 <= b < nl.len() && a != b implies (#[trigger] nl[a]).0 != (#[trigger] nl[b]).0 by {
                        assert(old_list[a].0 == nl[a].0);
                        assert(old_list[b].0 == nl[b].0);
                    }
                    lemma_list_get_at(nl, i as int);
                    assert forall|k: i32| k != key implies list_get(nl, k) == list_get(old_list, k) by {
                        if has_key(old_list, k) {
                            let j = choose|j: int| 0 <= j < old_list.len() && (#[trigger] old_list[j]).0 == k;
                            lemma_list_get_at(old_list, j);
                            lemma_list_get_at(nl, j);
                        } else if has_key(nl, k) {
                            let j = choose|j: int| 0 <= j < nl.len() && (#[trigger] nl[j]).0 == k;
                            assert(old_list[j].0 == k);
                        }
                    }
                    assert forall|k: i32| has_key(old_list, k) implies has_key(nl, k) by {
                        let j = choose|j: int| 0 <= j < old_list.len() && (#[trigger] old_list[j]).0 == k;
                        assert(nl[j].0 == k);
                    }
                    assert forall|e: (i32, V)| #[trigger] nl.contains(e) implies old_list.contains(e) || e == (key, value) by {
                        let j = choose|j: int| 0 <= j < nl.len() && nl[j] == e;
                        if j != i {
                            assert(old_list[j] == e);
                        }
                    }
                    assert(has_key(old_list, key)) by {
                        assert(old_list[i as int].0 == key);
                    }
                }
                return self.list.len() <= self.size;
            }
            i = i + 1;
        }
        if self.is_full() {
            return false;
        }
        self.list.push((key, value));
        proof {
            let nl = self.list@;
            assert(nl == old_list.push((key, value)));
            let n = old_list.len() as int;
            assert forall|a: int, b: int| 0 <= a < nl.len() && 0 <= b < nl.len() && a != b implies (#[trigger] nl[a]).0 != (#[trigger] nl[b]).0 by {
                if a < n && b < n {
                    assert(old_list[a] == nl[a] && old_list[b] == nl[b]);
                } else if a < n {
                    assert(old_list[a] == nl[a]);
                } else {
                    assert(old_list[b] == nl[b]);
                }
            }
            lemma_list_get_at(nl, n);
            assert forall|k: i32| k != key implies list_get(nl, k) == list_get(old_list, k) by {
                if has_key(old_list, k) {
                    let j = choose|j: int| 0 <= j < old_list.len() && (#[trigger] old_list[j]).0 == k;
                    lemma_list_get_at(old_list, j);
                    lemma_list_get_at(nl, j);
                } else if has_key(nl, k) {
                    let j = choose|j: int| 0 <= j < nl.len() && (#[trigger] nl[j]).0 == k;
                    assert(old_list[j].0 == k);
                }
            }
            assert forall|k: i32| has_key(old_list, k) implies has_key(nl, k) by {
                let j = choose|j: int| 0 <= j < old_list.len() && (#[trigger] old_list[j]).0 == k;
                assert(nl[j].0 == k);
            }
            assert forall|e: (i32, V)| #[trigger] nl.contains(e) implies old_list.contains(e) || e == (key, value) by {
                let j = choose|j: int| 0 <= j < nl.len() && nl[j] == e;
                if j < n {
                    assert(old_list[j] == e);
                }
            }
            assert(!has_key(old_list, key));
        }
        true
    }
}

// ======================= the table =======================

/// An extendible hash table; the methods are defined for `i32` keys.
pub struct ExtendibleHashTable<K, V> {
    global_depth: i32,
    bucket_size: usize,
    num_buckets: i32,
    dir: Vec<Bucket<K, V>>,
}

impl<V: Copy> ExtendibleHashTable<i32, V> {
    /// The global depth.
    pub closed spec fn spec_global_depth(&self) -> int {
        self.global_depth as int
    }

    /// The capacity of every bucket.
    pub closed spec fn spec_bucket_size(&self) -> int {
        self.bucket_size as int
    }

    /// Number of buckets created so far (one more for each split).
    pub closed spec fn spec_num_buckets(&self) -> int {
        self.num_buckets as int
    }

    /// Number of directory slots.
    pub closed spec fn spec_dir_len(&self) -> int {
        self.dir@.len() as int
    }

    /// Local depth of the bucket in slot `i`.
    pub closed spec fn spec_local_depth(&self, i: int) -> int {
        self.dir@[i].depth as int
    }

    /// Whether every entry of `b` has the low bits of slot `j` as its home
    /// at `b`'s local depth.
    spec fn placed(b: Bucket<i32, V>, j: int) -> bool {
        forall|i: int| 0 <= i < b.list@.len() ==> home((#[trigger] b.list@[i]).0, b.depth as int) == low_bits(j, b.depth as int)
    }

    /// A bucket that gained at most the entry `(k, v)` in `k`'s home slot
    /// `j` stays placed.
    proof fn lemma_insert_placed(&self, j: int, k: i32, v: V, nb: Bucket<i32, V>)
        requires
            self.wf(),
            0 <= j < self.dir@.len(),
            j == home(k, self.global_depth as int),
            nb.depth == self.dir@[j].depth,
            forall|e: (i32, V)| #[trigger] nb.list@.contains(e) ==> self.dir@[j].list@.contains(e) || e == (k, v),
        ensures
            Self::placed(nb, j),
    {
        let b = self.dir@[j];
        assert(self.bucket_ok(b));
        assert(Self::placed(b, j));
        assert forall|i: int| 0 <= i < nb.list@.len() implies home((#[trigger] nb.list@[i]).0, nb.depth as int) == low_bits(
            j,
            nb.depth as int,
        ) by {
            let e = nb.list@[i];
            assert(nb.list@.contains(e));
            if e == (k, v) {
                lemma_home_nest(k, self.global_depth as int, b.depth as int);
            } else {
                let a = choose|a: int| 0 <= a < b.list@.len() && b.list@[a] == e;
                assert(home(b.list@[a].0, b.depth as int) == low_bits(j, b.depth as int));
            }
        }
    }

    spec fn bucket_ok(&self, b: Bucket<i32, V>) -> bool {
        &&& b.size == self.bucket_size
        &&& b.wf()
        &&& 0 <= b.depth <= self.global_depth
    }

    /// Well-formedness: the directory has `2^global_depth` slots, every bucket
    /// has the table's capacity, distinct keys, and a local depth no larger
    /// than the global depth.
    pub closed spec fn wf(&self) -> bool {
        &&& 0 <= self.global_depth <= MAX_GLOBAL_DEPTH
        &&& self.dir@.len() == dir_size(self.global_depth as int)
        &&& self.num_buckets >= 1
        &&& forall|j: int| 0 <= j < self.dir@.len() ==> self.bucket_ok(#[trigger] self.dir@[j])
        &&& forall|j: int| 0 <= j < self.dir@.len() ==> Self::placed(#[trigger] self.dir@[j], j)
    }

    /// The value that a lookup of `k` finds: the entry for `k` in the bucket
    /// of `k`'s home slot.
    pub closed spec fn lookup(&self, k: i32) -> Option<V> {
        list_get(self.dir@[home(k, self.global_depth as int)].list@, k)
    }

    /// The map of keys to the values that lookups find.
    pub open spec fn view(&self) -> Map<i32, V> {
        Map::new(|k: i32| self.lookup(k) is Some, |k: i32| self.lookup(k).unwrap())
    }

    /// Whether the entry `(k, v)` is stored in some slot's bucket (home or not).
    pub closed spec fn raw_has(&self, k: i32, v: V) -> bool {
        exists|j: int| 0 <= j < self.dir@.len() && (#[trigger] self.dir@[j]).list@.contains((k, v))
    }

    /// Whether `key` can be put in its home bucket without a split.
    pub closed spec fn fits(&self, key: i32) -> bool {
        let l = self.dir@[home(key, self.global_depth as int)].list@;
        has_key(l, key) || l.len() < self.bucket_size
    }

    /// Whether `key` is missing from a directory at `MAX_GLOBAL_DEPTH`
    /// because at least `bucket_size` other keys with the same home at that
    /// depth are found.
    pub open spec fn crowded(&self, key: i32) -> bool {
        &&& self.spec_global_depth() == MAX_GLOBAL_DEPTH
        &&& self.lookup(key) is None
        &&& exists|ks: Seq<i32>|
            {
                &&& ks.len() >= self.spec_bucket_size()
                &&& ks.no_duplicates()
                &&& forall|i: int|
                    0 <= i < ks.len() ==> home(#[trigger] ks[i], MAX_GLOBAL_DEPTH as int) == home(key, MAX_GLOBAL_DEPTH as int)
                        && self.lookup(ks[i]) is Some
            }
    }

    /// A key whose full home bucket has the largest local depth is crowded out.
    proof fn lemma_crowded(&self, key: i32)
        requires
            self.wf(),
            self.global_depth == MAX_GLOBAL_DEPTH,
            self.dir@[home(key, MAX_GLOBAL_DEPTH as int)].depth == MAX_GLOBAL_DEPTH,
            !self.fits(key),
        ensures
            self.crowded(key),
    {
        let g = MAX_GLOBAL_DEPTH as int;
        let s = home(key, g);
        lemma_home(key, g);
        let b = self.dir@[s];
        assert(self.bucket_ok(b));
        assert(Self::placed(b, s));
        let l = b.list@;
        let ks = Seq::new(l.len(), |i: int| l[i].0);
        lemma_mask_small(s as u64, 30);
        assert(low_bits(s, g) == s);
        assert forall|i: int| 0 <= i < ks.len() implies home(#[trigger] ks[i], g) == home(key, g) && self.lookup(ks[i]) is Some by {
            assert(ks[i] == l[i].0);
            assert(home(l[i].0, g) == low_bits(s, g));
            lemma_list_get_at(l, i);
        }
        assert(ks.no_duplicates()) by {
            assert forall|i: int, j: int| 0 <= i < ks.len() && 0 <= j < ks.len() && i != j implies ks[i] != ks[j] by {
                assert(l[i].0 != l[j].0);
            }
        }
        assert(self.lookup(key) is None);
    }

    /// A table with one empty bucket of capacity `bucket_size`, global depth 0.
    pub fn new(bucket_size: usize) -> (t: Self)
        ensures
            t.wf(),
            t.spec_global_depth() == 0,
            t.spec_bucket_size() == bucket_size,
            t.spec_num_buckets() == 1,
            t.spec_dir_len() == 1,
            t.spec_local_depth(0) == 0,
            forall|k: i32| #[trigger] t.lookup(k) is None,
            forall|k: i32, v: V| !#[trigger] t.raw_has(k, v),
            bucket_size >= 1 ==> forall|k: i32| #[trigger] t.fits(k),
    {
        let mut dir: Vec<Bucket<i32, V>> = Vec::new();
        dir.push(Bucket::new(bucket_size, 0));
        let t = ExtendibleHashTable { global_depth: 0, bucket_size, num_buckets: 1, dir };
        proof {
            lemma_size_zero();
            assert forall|k: i32| #[trigger] t.lookup(k) is None by {
                lemma_home(k, 0);
            }
            if bucket_size >= 1 {
                assert forall|k: i32| #[trigger] t.fits(k) by {
                    lemma_home(k, 0);
                }
            }
            assert forall|k: i32, v: V| !#[trigger] t.raw_has(k, v) by {
                if t.raw_has(k, v) {
                    let j = choose|j: int| 0 <= j < t.dir@.len() && (#[trigger] t.dir@[j]).list@.contains((k, v));
                    assert(j == 0);
                }
            }
        }
        t
    }

    /// The global depth.
    pub fn get_global_depth(&self) -> (d: i32)
        ensures
            d == self.spec_global_depth(),
    {
        self.global_depth
    }

    /// The local depth of slot `dir_index`, or -1 outside the directory.
    pub fn get_local_depth(&self, dir_index: usize) -> (d: i32)
        ensures
            dir_index < self.spec_dir_len() ==> d == self.spec_local_depth(dir_index as int),
            dir_index >= self.spec_dir_len() ==> d == -1,
    {
        if dir_index < self.dir.len() {
            self.dir[dir_index].get_depth()
        } else {
            -1
        }
    }

    /// The number of buckets created so far.
    pub fn get_num_buckets(&self) -> (n: i32)
        ensures
            n == self.spec_num_buckets(),
    {
        self.num_buckets
    }

    /// The home slot of `key`: the low `global_depth` bits of its hash.
    fn index_of(&self, key: i32) -> (i: usize)
        requires
            self.wf(),
        ensures
            i == home(key, self.global_depth as int),
            i < self.dir@.len(),
    {
        let mut hasher = DefaultHasher::new();
        hash_i32_into(key, &mut hasher);
        let hash_val = hasher.finish();
        proof {
            lemma_home(key, self.global_depth as int);
            lemma_mask_bounds(hash_val, self.global_depth as u64);
        }
        let mask: u64 = (1u64 << (self.global_depth as u64)) - 1;
        (hash_val & mask) as usize
    }

    /// The value stored under `key`, if any.
    pub fn find(&self, key: i32) -> (r: Option<V>)
        requires
            self.wf(),
        ensures
            r == self.lookup(key),
    {
        let index = self.index_of(key);
        if index < self.dir.len() {
            let mut value: Option<V> = None;
            assert(self.bucket_ok(self.dir@[index as int]));
            if self.dir[index].find(key, &mut value) {
                return value;
            }
        }
        None
    }

    /// Removes `key`; returns whether a lookup found it.
    pub fn remove(&mut self, key: i32) -> (found: bool)
        requires
            old(self).wf(),
        ensures
            final(self).wf(),
            found == old(self).lookup(key) is Some,
            final(self).lookup(key) is None,
            forall|k: i32| k != key ==> #[trigger] final(self).lookup(k) == old(self).lookup(k),
            forall|k: i32, v: V| #[trigger] final(self).raw_has(k, v) ==> old(self).raw_has(k, v),
            final(self).spec_global_depth() == old(self).spec_global_depth(),
            final(self).spec_bucket_size() == old(self).spec_bucket_size(),
            final(self).spec_num_buckets() == old(self).spec_num_buckets(),
            final(self).spec_dir_len() == old(self).spec_dir_len(),
            forall|i: int| 0 <= i < old(self).spec_dir_len() ==> #[trigger] final(self).spec_local_depth(i)
                == old(self).spec_local_depth(i),
    {
        let index = self.index_of(key);
        if index < self.dir.len() {
            assert(self.bucket_ok(self.dir@[index as int]));
            let found = self.dir[index].remove(key);
            proof {
                assert forall|j: int| 0 <= j < self.dir@.len() implies self.bucket_ok(#[trigger] self.dir@[j]) by {
                    assert(old(self).bucket_ok(old(self).dir@[j]));
                }
                assert forall|j: int| 0 <= j < self.dir@.len() implies Self::placed(#[trigger] self.dir@[j], j) by {
                    assert(Self::placed(old(self).dir@[j], j));
                    if j == index {
                        assert forall|i: int| 0 <= i < self.dir@[j].list@.len() implies home(
                            (#[trigger] self.dir@[j].list@[i]).0,
                            self.dir@[j].depth as int,
                        ) == low_bits(j, self.dir@[j].depth as int) by {
                            let e = self.dir@[j].list@[i];
                            assert(self.dir@[j].list@.contains(e));
                            assert(old(self).dir@[j].list@.contains(e));
                            let a = choose|a: int| 0 <= a < old(self).dir@[j].list@.len() && old(self).dir@[j].list@[a] == e;
                            assert(home(old(self).dir@[j].list@[a].0, old(self).dir@[j].depth as int) == low_bits(j, old(self).dir@[j].depth as int));
                        }
                    }
                }
                assert forall|k: i32| k != key implies #[trigger] self.lookup(k) == old(self).lookup(k) by {
                    lemma_home(k, self.global_depth as int);
                }
                assert forall|k: i32, v: V| #[trigger] self.raw_has(k, v) implies old(self).raw_has(k, v) by {
                    let j = choose|j: int| 0 <= j < self.dir@.len() && (#[trigger] self.dir@[j]).list@.contains((k, v));
                    assert(old(self).dir@[j].list@.contains((k, v)));
                }
            }
            return found;
        }
        false
    }

    /// Puts the entries `items[from..]` into their home buckets, in order.
    /// `target` and `target2` are the slots of the freshly emptied buckets:
    /// every entry whose home is one of them is in `items`, together with at
    /// most `bucket_size` entries in all.
    fn rehash(&mut self, items: &Vec<(i32, V)>, Ghost(orig): Ghost<Self>, target: usize, target2: usize)
        requires
            old(self).wf(),
            items@.len() <= old(self).bucket_size,
            keys_unique(items@),
            target < old(self).dir@.len(),
            target2 < old(self).dir@.len(),
            old(self).dir@[target as int].list@.len() == 0,
            old(self).dir@[target2 as int].list@.len() == 0,
            forall|e: (i32, V)| items@.contains(e) ==> orig.raw_has(e.0, e.1),
            forall|k: i32, v: V| #[trigger] old(self).raw_has(k, v) ==> orig.raw_has(k, v),
        ensures
            final(self).wf(),
            final(self).global_depth == old(self).global_depth,
            final(self).bucket_size == old(self).bucket_size,
            final(self).num_buckets == old(self).num_buckets,
            final(self).dir@.len() == old(self).dir@.len(),
            forall|j: int| 0 <= j < final(self).dir@.len() ==> (#[trigger] final(self).dir@[j]).depth == old(self).dir@[j].depth,
            forall|j: int, k: i32| 0 <= j < final(self).dir@.len() && has_key(old(self).dir@[j].list@, k) ==> #[trigger] has_key(final(self).dir@[j].list@, k),
            forall|i: int| 0 <= i < items@.len() && {
                let h = home(items@[i].0, old(self).global_depth as int);
                h == target || h == target2
            } ==> has_key(final(self).dir@[home((#[trigger] items@[i]).0, old(self).global_depth as int)].list@, items@[i].0),
            forall|k: i32, v: V| #[trigger] final(self).raw_has(k, v) ==> orig.raw_has(k, v),
    {
        let mut j: usize = 0;
        let gd = Ghost(self.global_depth as int);
        while j < items.len()
            invariant
                self.wf(),
                self.global_depth == old(self).global_depth,
                gd@ == self.global_depth,
                self.bucket_size == old(self).bucket_size,
                self.num_buckets == old(self).num_buckets,
                self.dir@.len() == old(self).dir@.len(),
                j <= items@.len(),
                items@.len() <= self.bucket_size,
                keys_unique(items@),
                target < self.dir@.len(),
                target2 < self.dir@.len(),
                target == target2 ==> self.dir@[target as int].list@.len() <= j,
                target != target2 ==> self.dir@[target as int].list@.len() + self.dir@[target2 as int].list@.len() <= j,
                forall|e: (i32, V)| items@.contains(e) ==> orig.raw_has(e.0, e.1),
                forall|jj: int| 0 <= jj < self.dir@.len() ==> (#[trigger] self.dir@[jj]).depth == old(self).dir@[jj].depth,
                forall|jj: int, k: i32| 0 <= jj < self.dir@.len() && has_key(old(self).dir@[jj].list@, k) ==> #[trigger] has_key(self.dir@[jj].list@, k),
                forall|i: int| 0 <= i < j && {
                    let h = home(items@[i].0, gd@);
                    h == target || h == target2
                } ==> has_key(self.dir@[home((#[trigger] items@[i]).0, gd@)].list@, items@[i].0),
                forall|k: i32, v: V| #[trigger] self.raw_has(k, v) ==> orig.raw_has(k, v),
            decreases items@.len() - j,
        {
            let (k, v) = items[j];
            let idx = self.index_of(k);
            let ghost pre = *self;
            proof {
                assert(self.bucket_ok(self.dir@[idx as int]));
                assert(items@.contains((k, v)));
            }
            let ok = self.dir[idx].insert(k, v);
            proof {
                let b = self.dir@[idx as int];
                assert forall|jj: int| 0 <= jj < self.dir@.len() implies self.bucket_ok(#[trigger] self.dir@[jj]) by {
                    assert(pre.bucket_ok(pre.dir@[jj]));
                }
                pre.lemma_insert_placed(idx as int, k, v, self.dir@[idx as int]);
                assert forall|jj: int| 0 <= jj < self.dir@.len() implies Self::placed(#[trigger] self.dir@[jj], jj) by {
                    assert(Self::placed(pre.dir@[jj], jj));
                }
                if idx == target || idx == target2 {
                    assert(ok);
                }
                assert forall|jj: int, kk: i32| 0 <= jj < self.dir@.len() && has_key(old(self).dir@[jj].list@, kk) implies #[trigger] has_key(self.dir@[jj].list@, kk) by {
                    assert(has_key(pre.dir@[jj].list@, kk));
                }
                assert forall|i: int| 0 <= i < j + 1 && {
                    let h = home(items@[i].0, gd@);
                    h == target || h == target2
                } implies has_key(self.dir@[home((#[trigger] items@[i]).0, gd@)].list@, items@[i].0) by {
                    if i < j {
                        let h = home(items@[i].0, gd@);
                        assert(has_key(pre.dir@[h].list@, items@[i].0));
                    } else {
                        assert(list_get(b.list@, k) == Some(v));
                    }
                }
                assert forall|kk: i32, vv: V| #[trigger] self.raw_has(kk, vv) implies orig.raw_has(kk, vv) by {
                    let jj = choose|jj: int| 0 <= jj < self.dir@.len() && (#[trigger] self.dir@[jj]).list@.contains((kk, vv));
                    if jj == idx {
                        if (kk, vv) != (k, v) {
                            assert(pre.dir@[jj].list@.contains((kk, vv)));
                            assert(pre.raw_has(kk, vv));
                        }
                    } else {
                        assert(pre.dir@[jj].list@.contains((kk, vv)));
                        assert(pre.raw_has(kk, vv));
                    }
                }
            }
            j = j + 1;
        }
    }

    /// Splits the full bucket of slot `s`, whose local depth is below the
    /// global depth: the slot gets an empty bucket one level deeper, and the
    /// old bucket's entries are put back into their home buckets.
    fn split_in_place(&mut self, s: usize)
        requires
            old(self).wf(),
            s < old(self).dir@.len(),
            old(self).dir@[s as int].depth < old(self).global_depth,
        ensures
            final(self).wf(),
            final(self).global_depth == old(self).global_depth,
            final(self).bucket_size == old(self).bucket_size,
            final(self).num_buckets == old(self).num_buckets,
            final(self).dir@[s as int].depth == old(self).dir@[s as int].depth + 1,
            forall|k: i32| #[trigger] old(self).lookup(k) is Some ==> final(self).lookup(k) is Some,
            forall|k: i32, v: V| #[trigger] final(self).raw_has(k, v) ==> old(self).raw_has(k, v),
    {
        let ghost orig = *self;
        assert(self.bucket_ok(self.dir@[s as int]));
        let local_depth = self.dir[s].get_depth();
        let new_depth = local_depth + 1;
        let first_bucket = Bucket::new(self.bucket_size, new_depth);
        let second_bucket = Bucket::new(self.bucket_size, new_depth);
        let items = self.dir[s].duplicate();
        // Of all slots, only `s` holds the bucket being split: every slot owns its bucket.
        let top_bit = (s >> (local_depth as usize)) & 1;
        if top_bit == 0 {
            self.dir.set(s, first_bucket);
        } else {
            self.dir.set(s, second_bucket);
        }
        proof {
            assert forall|j: int| 0 <= j < self.dir@.len() implies self.bucket_ok(#[trigger] self.dir@[j]) by {
                assert(orig.bucket_ok(orig.dir@[j]));
            }
            assert forall|e: (i32, V)| items.list@.contains(e) implies orig.raw_has(e.0, e.1) by {
                assert(orig.dir@[s as int].list@.contains(e));
            }
            assert forall|k: i32, v: V| #[trigger] self.raw_has(k, v) implies orig.raw_has(k, v) by {
                let j = choose|j: int| 0 <= j < self.dir@.len() && (#[trigger] self.dir@[j]).list@.contains((k, v));
                assert(j != s);
                assert(orig.dir@[j].list@.contains((k, v)));
            }
        }
        let ghost mid = *self;
        self.rehash(&items.list, Ghost(orig), s, s);
        proof {
            let gd = self.global_depth as int;
            assert forall|k: i32| #[trigger] orig.lookup(k) is Some implies self.lookup(k) is Some by {
                let h = home(k, gd);
                lemma_home(k, gd);
                if h == s {
                    let i = choose|i: int| 0 <= i < items.list@.len() && (#[trigger] items.list@[i]).0 == k;
                    assert(items.list@[i].0 == k);
                    assert(has_key(self.dir@[home(items.list@[i].0, gd)].list@, items.list@[i].0));
                } else {
                    assert(has_key(mid.dir@[h].list@, k));
                    assert(has_key(self.dir@[h].list@, k));
                }
            }
        }
    }

    /// Splits the full bucket of slot `s`, whose local depth equals the
    /// global depth: the directory doubles (the new upper half starts as
    /// copies of the lower half), slots `s` and its new twin get empty
    /// buckets of the new depth, and the old bucket's entries are put back
    /// into their home buckets.
    fn split_and_double(&mut self, s: usize)
        requires
            old(self).wf(),
            s < old(self).dir@.len(),
            old(self).dir@[s as int].depth == old(self).global_depth,
            old(self).global_depth < MAX_GLOBAL_DEPTH,
        ensures
            final(self).wf(),
            final(self).global_depth == old(self).global_depth + 1,
            final(self).bucket_size == old(self).bucket_size,
            final(self).num_buckets == old(self).num_buckets,
            forall|k: i32| #[trigger] old(self).lookup(k) is Some ==> final(self).lookup(k) is Some,
            forall|k: i32, v: V| #[trigger] final(self).raw_has(k, v) ==> old(self).raw_has(k, v),
    {
        let ghost orig = *self;
        let ghost ogd = self.global_depth as int;
        proof {
            lemma_home_grow(0, ogd);
            lemma_home(0, ogd + 1);
        }
        assert(self.bucket_ok(self.dir@[s as int]));
        let local_depth = self.dir[s].get_depth();
        let items = self.dir[s].duplicate();
        self.global_depth = self.global_depth + 1;
        let old_dir_len = self.dir.len();
        let mut i: usize = 0;
        while i < old_dir_len
            invariant
                self.bucket_size == orig.bucket_size,
                self.global_depth == orig.global_depth + 1,
                self.num_buckets == orig.num_buckets,
                old_dir_len == orig.dir@.len(),
                i <= old_dir_len,
                self.dir@.len() == old_dir_len + i,
                old_dir_len <= 0x4000_0000,
                forall|t: int| 0 <= t < old_dir_len ==> #[trigger] self.dir@[t] == orig.dir@[t],
                forall|t: int| old_dir_len <= t < old_dir_len + i ==> {
                    &&& (#[trigger] self.dir@[t]).size == orig.bucket_size
                    &&& self.dir@[t].depth == 0
                    &&& self.dir@[t].list@.len() == 0
                },
            decreases old_dir_len - i,
        {
            self.dir.push(Bucket::new(self.bucket_size, 0));
            i = i + 1;
        }
        let new_depth = local_depth + 1;
        let first_bucket = Bucket::new(self.bucket_size, new_depth);
        let second_bucket = Bucket::new(self.bucket_size, new_depth);
        let dir_extend_size = old_dir_len;
        self.dir.set(s, first_bucket);
        self.dir.set(s + dir_extend_size, second_bucket);
        let mut i: usize = 0;
        while i < dir_extend_size
            invariant
                self.bucket_size == orig.bucket_size,
                self.global_depth == orig.global_depth + 1,
                self.num_buckets == orig.num_buckets,
                dir_extend_size == orig.dir@.len(),
                s < dir_extend_size,
                new_depth == orig.global_depth + 1,
                i <= dir_extend_size,
                self.dir@.len() == 2 * dir_extend_size,
                dir_extend_size <= 0x4000_0000,
                forall|t: int| 0 <= t < dir_extend_size && t != s ==> #[trigger] self.dir@[t] == orig.dir@[t],
                self.dir@[s as int].size == orig.bucket_size,
                self.dir@[s as int].depth == new_depth,
                self.dir@[s as int].list@.len() == 0,
                self.dir@[s + dir_extend_size].size == orig.bucket_size,
                self.dir@[s + dir_extend_size].depth == new_depth,
                self.dir@[s + dir_extend_size].list@.len() == 0,
                forall|t: int| 0 <= t < i && t != s ==> {
                    &&& (#[trigger] self.dir@[t + dir_extend_size]).size == orig.dir@[t].size
                    &&& self.dir@[t + dir_extend_size].depth == orig.dir@[t].depth
                    &&& self.dir@[t + dir_extend_size].list@ == orig.dir@[t].list@
                },
                forall|t: int| i <= t < dir_extend_size && t != s ==> {
                    &&& (#[trigger] self.dir@[t + dir_extend_size]).size == orig.bucket_size
                    &&& self.dir@[t + dir_extend_size].depth == 0
                    &&& self.dir@[t + dir_extend_size].list@.len() == 0
                },
            decreases dir_extend_size - i,
        {
            if self.dir[i + dir_extend_size].get_depth() == 0 {
                let copy = self.dir[i].duplicate();
                self.dir.set(i + dir_extend_size, copy);
            }
            i = i + 1;
        }
        let ghost ext = dir_extend_size as int;
        proof {
            assert forall|j: int| 0 <= j < self.dir@.len() implies self.bucket_ok(#[trigger] self.dir@[j]) by {
                if j < ext {
                    if j != s {
                        assert(orig.bucket_ok(orig.dir@[j]));
                    }
                } else {
                    let t = j - ext;
                    assert(self.dir@[t + ext] == self.dir@[j]);
                    if t != s {
                        assert(orig.bucket_ok(orig.dir@[t]));
                    }
                }
            }
            assert(self.dir@.len() == dir_size(self.global_depth as int));
            assert forall|j: int| 0 <= j < self.dir@.len() implies Self::placed(#[trigger] self.dir@[j], j) by {
                if j < ext {
                    if j != s {
                        assert(Self::placed(orig.dir@[j], j));
                    }
                } else {
                    let t = j - ext;
                    assert(self.dir@[t + ext] == self.dir@[j]);
                    if t != s {
                        let b = orig.dir@[t];
                        assert(orig.bucket_ok(b));
                        assert(Self::placed(b, t));
                        lemma_twin_bits(t, ogd, b.depth as int);
                        assert(ext == dir_size(ogd));
                        assert(low_bits(j, b.depth as int) == low_bits(t, b.depth as int));
                    }
                }
            }
            assert forall|e: (i32, V)| items.list@.contains(e) implies orig.raw_has(e.0, e.1) by {
                assert(orig.dir@[s as int].list@.contains(e));
            }
            assert forall|k: i32, v: V| #[trigger] self.raw_has(k, v) implies orig.raw_has(k, v) by {
                let j = choose|j: int| 0 <= j < self.dir@.len() && (#[trigger] self.dir@[j]).list@.contains((k, v));
                if j < ext {
                    assert(j != s);
                    assert(orig.dir@[j].list@.contains((k, v)));
                } else {
                    let t = j - ext;
                    assert(self.dir@[t + ext] == self.dir@[j]);
                    assert(t != s);
                    assert(orig.dir@[t].list@.contains((k, v)));
                }
            }
        }
        let ghost mid = *self;
        self.rehash(&items.list, Ghost(orig), s, s + dir_extend_size);
        proof {
            let gd = self.global_depth as int;
            assert forall|k: i32| #[trigger] orig.lookup(k) is Some implies self.lookup(k) is Some by {
                let h = home(k, ogd);
                lemma_home(k, ogd);
                lemma_home_grow(k, ogd);
                let h2 = home(k, gd);
                if h == s {
                    let i = choose|i: int| 0 <= i < items.list@.len() && (#[trigger] items.list@[i]).0 == k;
                    assert(items.list@[i].0 == k);
                    assert(has_key(self.dir@[home(items.list@[i].0, gd)].list@, items.list@[i].0));
                } else {
                    if h2 == h {
                        assert(mid.dir@[h2] == orig.dir@[h]);
                    } else {
                        assert(mid.dir@[h + ext].list@ == orig.dir@[h].list@);
                    }
                    assert(has_key(mid.dir@[h2].list@, k));
                    assert(has_key(self.dir@[h2].list@, k));
                }
            }
        }
    }

    /// Inserts or updates `key`, splitting its home bucket (and doubling the
    /// directory when needed) until the key fits.
    ///
    /// After the call a lookup of `key` finds `value`, unless the directory
    /// reached `MAX_GLOBAL_DEPTH` with the key's home bucket still full, which
    /// takes at least `bucket_size` other found keys with the same home at
    /// that depth (the key is then `crowded` out). No
    /// other key that a lookup found before is lost, and every other key that
    /// a lookup finds afterwards maps to a value that was stored for it in
    /// some bucket before (a split puts the copied entries of the split bucket
    /// back into their home buckets). When the key fits without a split, the
    /// table's map is exactly the old one with `key` set to `value`.
    pub fn insert(&mut self, key: i32, value: V)
        requires
            old(self).wf(),
        ensures
            final(self).wf(),
            final(self).lookup(key) == Some(value) || (final(self).spec_global_depth() == MAX_GLOBAL_DEPTH
                && !final(self).fits(key)),
            final(self).lookup(key) != Some(value) ==> final(self).crowded(key),
            forall|k: i32| k != key && #[trigger] old(self).lookup(k) is Some ==> final(self).lookup(k) is Some,
            forall|k: i32| k != key && #[trigger] final(self).lookup(k) is Some ==> old(self).raw_has(k, final(self).lookup(k).unwrap()),
            forall|k: i32, v: V| #[trigger] final(self).raw_has(k, v) ==> old(self).raw_has(k, v) || (k == key && v == value),
            final(self).spec_global_depth() >= old(self).spec_global_depth(),
            final(self).spec_bucket_size() == old(self).spec_bucket_size(),
            final(self).spec_num_buckets() >= old(self).spec_num_buckets(),
            !old(self).fits(key) && !(old(self).spec_global_depth() == MAX_GLOBAL_DEPTH && old(self).spec_local_depth(
                home(key, old(self).spec_global_depth()),
            ) == MAX_GLOBAL_DEPTH) ==> final(self).spec_num_buckets() > old(self).spec_num_buckets()
                || old(self).spec_num_buckets() == i32::MAX,
            old(self).fits(key) ==> {
                &&& final(self).spec_global_depth() == old(self).spec_global_depth()
                &&& final(self).spec_num_buckets() == old(self).spec_num_buckets()
                &&& final(self).spec_dir_len() == old(self).spec_dir_len()
                &&& forall|i: int| 0 <= i < old(self).spec_dir_len() ==> #[trigger] final(self).spec_local_depth(i)
                    == old(self).spec_local_depth(i)
                &&& forall|k: i32| #[trigger] final(self).lookup(k) == if k == key {
                    Some(value)
                } else {
                    old(self).lookup(k)
                }
            },
    {
        self.insert_one(key, value)
    }

    /// The shape of every table: the global depth is at most
    /// `MAX_GLOBAL_DEPTH`, the directory has `2^global_depth` slots, at least
    /// one bucket was created, and every slot's local depth lies between 0
    /// and the global depth.
    pub proof fn lemma_shape(&self)
        requires
            self.wf(),
        ensures
            0 <= self.spec_global_depth() <= MAX_GLOBAL_DEPTH,
            self.spec_dir_len() == dir_size(self.spec_global_depth()),
            self.spec_num_buckets() >= 1,
            forall|i: int|
                0 <= i < self.spec_dir_len() ==> 0 <= #[trigger] self.spec_local_depth(i) <= self.spec_global_depth(),
    {
        assert forall|i: int| 0 <= i < self.spec_dir_len() implies 0 <= #[trigger] self.spec_local_depth(i)
            <= self.spec_global_depth() by {
            assert(self.bucket_ok(self.dir@[i]));
        }
    }

    /// A key that a lookup finds fits without a split, so inserting it again
    /// only updates its value.
    pub proof fn lemma_found_fits(&self, k: i32)
        requires
            self.wf(),
            self.lookup(k) is Some,
        ensures
            self.fits(k),
    {
    }

    /// A value that a lookup finds is stored in some bucket.
    pub proof fn lemma_lookup_some_raw(&self, k: i32, v: V)
        requires
            self.wf(),
            self.lookup(k) == Some(v),
        ensures
            self.raw_has(k, v),
    {
        let h = home(k, self.global_depth as int);
        lemma_home(k, self.global_depth as int);
        let l = self.dir@[h].list@;
        let i = choose|i: int| 0 <= i < l.len() && (#[trigger] l[i]).0 == k;
        assert(l[i] == (k, v));
        assert(l.contains((k, v)));
    }

    fn insert_one(&mut self, key: i32, value: V)
        requires
            old(self).wf(),
        ensures
            final(self).wf(),
            final(self).lookup(key) == Some(value) || (final(self).spec_global_depth() == MAX_GLOBAL_DEPTH
                && !final(self).fits(key)),
            final(self).lookup(key) != Some(value) ==> final(self).crowded(key),
            forall|k: i32| k != key && #[trigger] old(self).lookup(k) is Some ==> final(self).lookup(k) is Some,
            forall|k: i32| k != key && #[trigger] final(self).lookup(k) is Some ==> old(self).raw_has(k, final(self).lookup(k).unwrap()),
            forall|k: i32, v: V| #[trigger] final(self).raw_has(k, v) ==> old(self).raw_has(k, v) || (k == key && v == value),
            final(self).spec_global_depth() >= old(self).spec_global_depth(),
            final(self).spec_bucket_size() == old(self).spec_bucket_size(),
            final(self).spec_num_buckets() >= old(self).spec_num_buckets(),
            !old(self).fits(key) && !(old(self).spec_global_depth() == MAX_GLOBAL_DEPTH && old(self).spec_local_depth(
                home(key, old(self).spec_global_depth()),
            ) == MAX_GLOBAL_DEPTH) ==> final(self).spec_num_buckets() > old(self).spec_num_buckets()
                || old(self).spec_num_buckets() == i32::MAX,
            old(self).fits(key) ==> {
                &&& final(self).spec_global_depth() == old(self).spec_global_depth()
                &&& final(self).spec_num_buckets() == old(self).spec_num_buckets()
                &&& final(self).spec_dir_len() == old(self).spec_dir_len()
                &&& forall|i: int| 0 <= i < old(self).spec_dir_len() ==> #[trigger] final(self).spec_local_depth(i)
                    == old(self).spec_local_depth(i)
                &&& forall|k: i32| #[trigger] final(self).lookup(k) == if k == key {
                    Some(value)
                } else {
                    old(self).lookup(k)
                }
            },
    {
        let ghost orig = *self;
        let ghost mut first = true;
        loop
            invariant
                self.wf(),
                self.global_depth >= orig.global_depth,
                self.bucket_size == orig.bucket_size,
                self.num_buckets >= orig.num_buckets,
                orig == *old(self),
                first ==> *self == orig,
                !first ==> !orig.fits(key),
                !first ==> self.num_buckets > orig.num_buckets || orig.num_buckets == i32::MAX,
                forall|k: i32| #[trigger] orig.lookup(k) is Some ==> self.lookup(k) is Some,
                forall|k: i32, v: V| #[trigger] self.raw_has(k, v) ==> orig.raw_has(k, v),
            decreases MAX_GLOBAL_DEPTH - self.global_depth, self.global_depth - self.dir@[home(
                key,
                self.global_depth as int,
            )].depth,
        {
            let dir_index = self.index_of(key);
            let ghost pre = *self;
            proof {
                assert(self.bucket_ok(self.dir@[dir_index as int]));
            }
            let inserted = self.dir[dir_index].insert(key, value);
            proof {
                pre.lemma_insert_placed(dir_index as int, key, value, self.dir@[dir_index as int]);
                assert forall|jj: int| 0 <= jj < self.dir@.len() implies Self::placed(#[trigger] self.dir@[jj], jj) by {
                    assert(Self::placed(pre.dir@[jj], jj));
                }
            }
            if inserted {
                proof {
                    let gd = self.global_depth as int;
                    assert forall|j: int| 0 <= j < self.dir@.len() implies self.bucket_ok(#[trigger] self.dir@[j]) by {
                        assert(pre.bucket_ok(pre.dir@[j]));
                    }
                    assert forall|k: i32| k != key implies #[trigger] self.lookup(k) == pre.lookup(k) by {
                        lemma_home(k, gd);
                    }
                    assert forall|k: i32, v: V| #[trigger] self.raw_has(k, v) implies orig.raw_has(k, v) || (k == key && v == value) by {
                        let j = choose|j: int| 0 <= j < self.dir@.len() && (#[trigger] self.dir@[j]).list@.contains((k, v));
                        if !(k == key && v == value) {
                            assert(pre.dir@[j].list@.contains((k, v)));
                            assert(pre.raw_has(k, v));
                        }
                    }
                    assert forall|k: i32| k != key && #[trigger] orig.lookup(k) is Some implies self.lookup(k) is Some by {
                        assert(pre.lookup(k) is Some);
                        assert(self.lookup(k) == pre.lookup(k));
                    }
                    assert forall|k: i32| k != key && #[trigger] self.lookup(k) is Some implies orig.raw_has(k, self.lookup(k).unwrap()) by {
                        lemma_home(k, gd);
                        pre.lemma_lookup_some_raw(k, self.lookup(k).unwrap());
                        assert(pre.raw_has(k, self.lookup(k).unwrap()));
                    }
                }
                return;
            }
            proof {
                assert forall|j: int| 0 <= j < self.dir@.len() implies {
                    &&& (#[trigger] self.dir@[j]).list@ == pre.dir@[j].list@
                    &&& self.dir@[j].depth == pre.dir@[j].depth
                    &&& self.bucket_ok(self.dir@[j])
                } by {
                    assert(pre.bucket_ok(pre.dir@[j]));
                }
                assert forall|k: i32| #[trigger] self.lookup(k) == pre.lookup(k) by {
                    lemma_home(k, self.global_depth as int);
                }
                assert forall|k: i32, v: V| #[trigger] self.raw_has(k, v) == pre.raw_has(k, v) by {
                    if self.raw_has(k, v) {
                        let j = choose|j: int| 0 <= j < self.dir@.len() && (#[trigger] self.dir@[j]).list@.contains((k, v));
                        assert(pre.dir@[j].list@.contains((k, v)));
                    }
                    if pre.raw_has(k, v) {
                        let j = choose|j: int| 0 <= j < pre.dir@.len() && (#[trigger] pre.dir@[j]).list@.contains((k, v));
                        assert(self.dir@[j].list@.contains((k, v)));
                    }
                }
                assert(!self.fits(key));
                assert(!orig.fits(key));
            }
            let global_depth = self.global_depth;
            let local_depth = self.dir[dir_index].get_depth();
            let ghost mid = *self;
            if local_depth == global_depth {
                if global_depth == MAX_GLOBAL_DEPTH {
                    proof {
                        self.lemma_crowded(key);
                        assert forall|k: i32| k != key && #[trigger] self.lookup(k) is Some implies orig.raw_has(k, self.lookup(k).unwrap()) by {
                            self.lemma_lookup_some_raw(k, self.lookup(k).unwrap());
                        }
                        assert forall|k: i32, v: V| #[trigger] self.raw_has(k, v) implies orig.raw_has(k, v) by {
                            assert(pre.raw_has(k, v));
                        }
                    }
                    return;
                }
                self.split_and_double(dir_index);
            } else {
                self.split_in_place(dir_index);
            }
            let ghost after = *self;
            if self.num_buckets < i32::MAX {
                self.num_buckets = self.num_buckets + 1;
            }
            proof {
                first = false;
                lemma_home(key, self.global_depth as int);
                assert forall|k: i32| #[trigger] orig.lookup(k) is Some implies self.lookup(k) is Some by {
                    assert(pre.lookup(k) is Some);
                    assert(mid.lookup(k) is Some);
                    assert(after.lookup(k) is Some);
                }
                assert forall|k: i32, v: V| #[trigger] self.raw_has(k, v) implies orig.raw_has(k, v) by {
                    assert(after.raw_has(k, v));
                    assert(mid.raw_has(k, v));
                    assert(pre.raw_has(k, v));
                }
            }
        }
    }
}

} // verus!
