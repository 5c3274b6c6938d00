use std::collections::VecDeque;
use vstd::prelude::*;

use crate::assoc::{
    assoc_find, assoc_map, distinct_keys, lemma_assoc_map_at, lemma_assoc_map_dom,
    lemma_assoc_map_push, lemma_assoc_map_remove, lemma_assoc_map_update,
};
use crate::paths::{hash_hex, join_path, joined_path, simple_hash};
use crate::text::{chars_of, decimal, decimal_chars, string_of, views};

verus! {

/// The screenshots cached for one video: for each range key the paths extracted for it,
/// and the bytes these files take on disk.
pub struct VideoCacheEntry {
    pub screenshot_paths: Vec<(String, Vec<String>)>,
    pub total_size: u64,
}

/// Range keys with the paths cached under them, in the order they were first stored.
pub type RangesView = Seq<(Seq<char>, Seq<Seq<char>>)>;

/// The ranges of an entry as text.
pub open spec fn ranges_view(v: Seq<(String, Vec<String>)>) -> RangesView {
    v.map_values(|e: (String, Vec<String>)| (e.0@, views(e.1@)))
}

/// An entry as its ranges and its size.
pub open spec fn entry_view(e: VideoCacheEntry) -> (RangesView, nat) {
    (ranges_view(e.screenshot_paths@), e.total_size as nat)
}

/// `entry_view` as a function value.
pub open spec fn entry_viewer() -> spec_fn(VideoCacheEntry) -> (RangesView, nat) {
    |e: VideoCacheEntry| entry_view(e)
}

/// The first position of `key` among the ranges, or their number when absent.
pub open spec fn range_index(ranges: RangesView, key: Seq<char>) -> int
    decreases ranges.len(),
{
    if ranges.len() == 0 {
        0
    } else if ranges[0].0 == key {
        0
    } else {
        1 + range_index(ranges.drop_first(), key)
    }
}

/// The paths cached under `key`.
pub open spec fn range_lookup(ranges: RangesView, key: Seq<char>) -> Option<Seq<Seq<char>>> {
    let i = range_index(ranges, key);
    if i < ranges.len() {
        Some(ranges[i].1)
    } else {
        None
    }
}

/// The ranges with `paths` stored under `key`: replacing the paths of an existing key in place,
/// or adding the key at the end.
pub open spec fn range_insert(ranges: RangesView, key: Seq<char>, paths: Seq<Seq<char>>) -> RangesView {
    let i = range_index(ranges, key);
    if i < ranges.len() {
        ranges.update(i, (key, paths))
    } else {
        ranges.push((key, paths))
    }
}

/// The paths cached for the range `key` of the video `hash`, if any.
pub open spec fn cache_lookup(entries: Map<Seq<char>, (RangesView, nat)>, hash: Seq<char>, key: Seq<char>) -> Option<Seq<Seq<char>>> {
    if entries.dom().contains(hash) {
        range_lookup(entries[hash].0, key)
    } else {
        None
    }
}

/// The entries with `paths` stored for the range `key` of the video `hash`: a new video starts
/// with that range alone and size 0, a known one keeps its size.
pub open spec fn cache_store(
    entries: Map<Seq<char>, (RangesView, nat)>,
    hash: Seq<char>,
    key: Seq<char>,
    paths: Seq<Seq<char>>,
) -> Map<Seq<char>, (RangesView, nat)> {
    entries.insert(
        hash,
        if entries.dom().contains(hash) {
            (range_insert(entries[hash].0, key, paths), entries[hash].1)
        } else {
            (range_insert(Seq::empty(), key, paths), 0nat)
        },
    )
}

/// All the paths of the ranges, one range after the other.
pub open spec fn flat_paths(ranges: RangesView) -> Seq<Seq<char>>
    decreases ranges.len(),
{
    if ranges.len() == 0 {
        Seq::empty()
    } else {
        flat_paths(ranges.drop_last()) + ranges.last().1
    }
}

/// `order` without `h`.
pub open spec fn without(order: Seq<Seq<char>>, h: Seq<char>) -> Seq<Seq<char>>
    decreases order.len(),
{
    if order.len() == 0 {
        Seq::empty()
    } else if order.last() == h {
        without(order.drop_last(), h)
    } else {
        without(order.drop_last(), h).push(order.last())
    }
}

/// `order` with `h` moved (or added) to the end: the most recently used.
pub open spec fn touched(order: Seq<Seq<char>>, h: Seq<char>) -> Seq<Seq<char>> {
    without(order, h).push(h)
}

/// The sum of the entries' sizes.
pub open spec fn sum_sizes(v: Seq<(String, VideoCacheEntry)>) -> nat
    decreases v.len(),
{
    if v.len() == 0 {
        0
    } else {
        sum_sizes(v.drop_last()) + v.last().1.total_size as nat
    }
}

/// The sum of a sequence of sizes.
pub open spec fn seq_sum(s: Seq<nat>) -> nat
    decreases s.len(),
{
    if s.len() == 0 {
        0
    } else {
        seq_sum(s.drop_last()) + s.last()
    }
}

/// How many of the least recently used videos are dropped when the cache holds `current`
/// bytes and may hold `max`: they go one by one, in order, while it holds more than `max`.
pub open spec fn evict_count(sizes: Seq<nat>, current: int, max: int) -> nat
    decreases sizes.len(),
{
    if current <= max || sizes.len() == 0 {
        0
    } else {
        1 + evict_count(sizes.drop_first(), current - sizes[0], max)
    }
}

/// The distinct elements property of a sequence of keys.
pub open spec fn no_duplicates(s: Seq<Seq<char>>) -> bool {
    forall|i: int, j: int| 0 <= i < j < s.len() ==> s[i] != s[j]
}

/// A size-bounded cache of extracted screenshots, keyed by video hash and range key; when it
/// grows past its limit the least recently used videos are dropped.
pub struct ScreenshotCache {
    base_dir: String,
    max_size_mb: u64,
    current_size: u64,
    lru_order: VecDeque<String>,
    video_cache: Vec<(String, VideoCacheEntry)>,
}

impl ScreenshotCache {
    /// The directory under which each video's screenshots are kept.
    pub closed spec fn base(&self) -> Seq<char> {
        self.base_dir@
    }

    /// The limit in megabytes.
    pub closed spec fn max_mb(&self) -> nat {
        self.max_size_mb as nat
    }

    /// The limit in bytes.
    pub open spec fn max_bytes(&self) -> nat {
        self.max_mb() * 1048576
    }

    /// The bytes the cached files take.
    pub closed spec fn size(&self) -> nat {
        self.current_size as nat
    }

    /// The cached videos' hashes, least recently used first.
    pub closed spec fn lru(&self) -> Seq<Seq<char>> {
        views(self.lru_order@)
    }

    /// The cached videos: for each hash, its ranges and its size.
    pub closed spec fn entries(&self) -> Map<Seq<char>, (RangesView, nat)> {
        assoc_map(self.video_cache@, entry_viewer())
    }

    /// The cache's invariant: each video is listed once in the use order and once among the
    /// entries, each entry's range keys are distinct, the size is the sum of the entries'
    /// sizes, and the limit in bytes fits in a `u64`.
    pub closed spec fn wf(&self) -> bool {
        &&& distinct_keys(self.video_cache@)
        &&& forall|i: int| 0 <= i < self.video_cache@.len()
            ==> distinct_keys((#[trigger] self.video_cache@[i]).1.screenshot_paths@)
        &&& no_duplicates(self.lru())
        &&& forall|h: Seq<char>| #[trigger] self.lru().contains(h) <==> self.entries().dom().contains(h)
        &&& self.current_size as nat == sum_sizes(self.video_cache@)
        &&& self.max_size_mb * 1048576 <= u64::MAX
    }

    /// An empty cache that keeps its files under `base_dir` and at most `max_size_mb`
    /// megabytes of them.
    pub fn new(base_dir: String, max_size_mb: u64) -> (r: Self)
        requires
            max_size_mb * 1048576 <= u64::MAX,
        ensures
            r.wf(),
            r.base() == base_dir@,
            r.max_mb() == max_size_mb,
            r.size() == 0,
            r.lru() == Seq::<Seq<char>>::empty(),
            r.entries() == Map::<Seq<char>, (RangesView, nat)>::empty(),
    {
        let r = ScreenshotCache {
            base_dir,
            max_size_mb,
            current_size: 0,
            lru_order: VecDeque::new(),
            video_cache: Vec::new(),
        };
        assert(r.lru() =~= Seq::<Seq<char>>::empty());
        r
    }

    /// The hash that names a video's cache directory: the hash of its path as 16 hex digits.
    pub fn video_hash(path: &str) -> (r: String)
        ensures
            r@ == hash_hex(path@),
    {
        simple_hash(path)
    }

    /// The directory of the video with hash `hash`.
    pub fn video_dir(&self, hash: &str) -> (r: String)
        ensures
            r@ == joined_path(self.base(), hash@),
    {
        join_path(self.base_dir.as_str(), hash)
    }

    /// The bytes the cached files take.
    pub fn current_size(&self) -> (r: u64)
        ensures
            r as nat == self.size(),
    {
        self.current_size
    }

    /// The limit in megabytes.
    pub fn max_size_mb(&self) -> (r: u64)
        ensures
            r as nat == self.max_mb(),
    {
        self.max_size_mb
    }
}

proof fn lemma_push_contains(s: Seq<Seq<char>>, a: Seq<char>, x: Seq<char>)
    ensures
        s.push(a).contains(x) <==> s.contains(x) || x == a,
{
    if s.contains(x) {
        let i = choose|i: int| 0 <= i < s.len() && s[i] == x;
        assert(s.push(a)[i] == x);
    }
    if x == a {
        assert(s.push(a)[s.len() as int] == x);
    }
    if s.push(a).contains(x) && x != a {
        let i = choose|i: int| 0 <= i < s.push(a).len() && s.push(a)[i] == x;
        assert(s[i] == x);
    }
}

proof fn lemma_drop_last_contains(s: Seq<Seq<char>>, x: Seq<char>)
    requires
        s.len() > 0,
    ensures
        s.contains(x) <==> s.drop_last().contains(x) || x == s.last(),
{
    assert(s == s.drop_last().push(s.last()));
    lemma_push_contains(s.drop_last(), s.last(), x);
}

proof fn lemma_without_contains(order: Seq<Seq<char>>, h: Seq<char>)
    ensures
        forall|x: Seq<char>| #[trigger] without(order, h).contains(x) <==> order.contains(x) && x != h,
        no_duplicates(order) ==> no_duplicates(without(order, h)),
    decreases order.len(),
{
    if order.len() > 0 {
        let rest = order.drop_last();
        lemma_without_contains(rest, h);
        assert forall|x: Seq<char>| #[trigger] without(order, h).contains(x) <==> order.contains(x) && x != h by {
            lemma_drop_last_contains(order, x);
            assert(without(rest, h).contains(x) <==> rest.contains(x) && x != h);
            if order.last() != h {
                lemma_push_contains(without(rest, h), order.last(), x);
            }
        }
        if no_duplicates(order) {
            assert(no_duplicates(rest)) by {
                assert forall|i: int, j: int| 0 <= i < j < rest.len() implies rest[i] != rest[j] by {
                    assert(rest[i] == order[i] && rest[j] == order[j]);
                }
            }
            if order.last() != h {
                assert(!rest.contains(order.last())) by {
                    if rest.contains(order.last()) {
                        let i = choose|i: int| 0 <= i < rest.len() && rest[i] == order.last();
                        assert(order[i] == order[order.len() - 1]);
                    }
                }
                assert(!without(rest, h).contains(order.last()));
                let w = without(order, h);
                assert forall|i: int, j: int| 0 <= i < j < w.len() implies w[i] != w[j] by {
                    if j == w.len() - 1 {
                        assert(without(rest, h)[i] == w[i]);
                    } else {
                        assert(without(rest, h)[i] == w[i] && without(rest, h)[j] == w[j]);
                    }
                }
            }
        }
    }
}

/// Moving `h` to the end keeps the set of keys (with `h` added) and keeps them distinct.
pub proof fn lemma_touched(order: Seq<Seq<char>>, h: Seq<char>)
    ensures
        forall|x: Seq<char>| #[trigger] touched(order, h).contains(x) <==> order.contains(x) || x == h,
        no_duplicates(order) ==> no_duplicates(touched(order, h)),
        touched(order, h).last() == h,
{
    lemma_without_contains(order, h);
    let t = touched(order, h);
    assert forall|x: Seq<char>| #[trigger] t.contains(x) <==> order.contains(x) || x == h by {
        if x == h {
            assert(t[t.len() - 1] == h);
        } else if order.contains(x) {
            assert(without(order, h).contains(x));
            let i = choose|i: int| 0 <= i < without(order, h).len() && without(order, h)[i] == x;
            assert(t[i] == x);
        }
        if t.contains(x) && x != h {
            let i = choose|i: int| 0 <= i < t.len() && t[i] == x;
            assert(without(order, h)[i] == x);
            assert(without(order, h).contains(x));
        }
    }
    if no_duplicates(order) {
        assert forall|i: int, j: int| 0 <= i < j < t.len() implies t[i] != t[j] by {
            if j == t.len() - 1 {
                assert(t[i] == without(order, h)[i]);
                assert(without(order, h).contains(t[i]));
            } else {
                assert(t[i] == without(order, h)[i] && t[j] == without(order, h)[j]);
            }
        }
    }
}


/// `v` without the entries equal to `h`, then `h` at the end.
fn touched_order(v: &VecDeque<String>, h: &str) -> (r: VecDeque<String>)
    ensures
        views(r@) == touched(views(v@), h@),
{
    let hs = String::from_str(h);
    let mut kept: VecDeque<String> = VecDeque::new();
    let mut i: usize = 0;
    while i < v.len()
        invariant
            i <= v.len(),
            hs@ == h@,
            views(kept@) == without(views(v@).take(i as int), h@),
        decreases v.len() - i,
    {
        assert(views(v@).take(i + 1).drop_last() == views(v@).take(i as int));
        assert(views(v@).take(i + 1).last() == v@[i as int]@);
        if v[i] != hs {
            let c = v[i].clone();
            kept.push_back(c);
            assert(views(kept@) == views(kept@.drop_last()).push(c@));
        }
        i += 1;
    }
    assert(views(v@).take(v.len() as int) == views(v@));
    kept.push_back(hs);
    assert(views(kept@) == views(kept@.drop_last()).push(h@));
    kept
}

/// Copies of the strings.
fn clone_strings(v: &Vec<String>) -> (r: Vec<String>)
    ensures
        r@ == v@,
{
    let mut out: Vec<String> = Vec::new();
    let mut i: usize = 0;
    while i < v.len()
        invariant
            i <= v.len(),
            out@ == v@.take(i as int),
        decreases v.len() - i,
    {
        out.push(v[i].clone());
        i += 1;
    }
    assert(v@.take(v.len() as int) == v@);
    out
}

proof fn lemma_range_index_is(v: Seq<(String, Vec<String>)>, key: Seq<char>, i: int)
    requires
        0 <= i <= v.len(),
        i < v.len() ==> v[i].0@ == key,
        forall|j: int| 0 <= j < i ==> (#[trigger] v[j]).0@ != key,
    ensures
        range_index(ranges_view(v), key) == i,
    decreases i,
{
    if i > 0 {
        let w = v.drop_first();
        assert(ranges_view(w) == ranges_view(v).drop_first());
        assert forall|j: int| 0 <= j < i - 1 implies (#[trigger] w[j]).0@ != key by {
            assert(w[j] == v[j + 1]);
        }
        lemma_range_index_is(w, key, i - 1);
        assert(ranges_view(v)[0].0 == v[0].0@);
    } else if v.len() > 0 {
        assert(ranges_view(v)[0].0 == v[0].0@);
    }
}

impl ScreenshotCache {
    /// Marks the video `hash` as the most recently used: every occurrence of it leaves the use
    /// order and it is appended at the back. The cache stays well formed when the video is
    /// one of its entries.
    pub fn touch_lru(&mut self, hash: &str)
        ensures
            old(self).wf() && old(self).entries().dom().contains(hash@) ==> final(self).wf(),
            final(self).lru() == touched(old(self).lru(), hash@),
            final(self).entries() == old(self).entries(),
            final(self).size() == old(self).size(),
            final(self).base() == old(self).base(),
            final(self).max_mb() == old(self).max_mb(),
    {
        self.move_to_back(hash);
        proof {
            if old(self).wf() && old(self).entries().dom().contains(hash@) {
                lemma_touched(old(self).lru(), hash@);
            }
        }
    }

    /// Moves `hash` to the back of the use order, touching nothing else.
    fn move_to_back(&mut self, hash: &str)
        ensures
            final(self).lru() == touched(old(self).lru(), hash@),
            final(self).video_cache == old(self).video_cache,
            final(self).current_size == old(self).current_size,
            final(self).base_dir == old(self).base_dir,
            final(self).max_size_mb == old(self).max_size_mb,
    {
        let order = touched_order(&self.lru_order, hash);
        self.lru_order = order;
    }

    /// The screenshots cached for the range `range_key` of the video `hash`; on a hit the
    /// video becomes the most recently used, on a miss nothing changes.
    pub fn cached_screenshots(&mut self, hash: &str, range_key: &str) -> (r: Option<Vec<String>>)
        requires
            old(self).wf(),
        ensures
            final(self).wf(),
            final(self).entries() == old(self).entries(),
            final(self).size() == old(self).size(),
            final(self).base() == old(self).base(),
            final(self).max_mb() == old(self).max_mb(),
            match cache_lookup(old(self).entries(), hash@, range_key@) {
                Some(paths) => r matches Some(v) && views(v@) == paths && final(self).lru() == touched(
                    old(self).lru(),
                    hash@,
                ),
                None => r is None && final(self).lru() == old(self).lru(),
            },
    {
        let idx = assoc_find(&self.video_cache, hash);
        proof {
            lemma_assoc_map_dom(self.video_cache@, entry_viewer());
        }
        if idx == self.video_cache.len() {
            return None;
        }
        proof {
            lemma_assoc_map_at(self.video_cache@, entry_viewer(), idx as int);
        }
        let ranges = &self.video_cache[idx].1.screenshot_paths;
        let ridx = assoc_find(ranges, range_key);
        proof {
            lemma_range_index_is(ranges@, range_key@, ridx as int);
        }
        if ridx == ranges.len() {
            return None;
        }
        let paths = clone_strings(&ranges[ridx].1);
        self.touch_lru(hash);
        Some(paths)
    }
}


proof fn lemma_sum_sizes_update(v: Seq<(String, VideoCacheEntry)>, i: int, e: (String, VideoCacheEntry))
    requires
        0 <= i < v.len(),
    ensures
        sum_sizes(v.update(i, e)) + v[i].1.total_size == sum_sizes(v) + e.1.total_size,
    decreases v.len(),
{
    let w = v.update(i, e);
    if i == v.len() - 1 {
        assert(w.drop_last() =~= v.drop_last());
    } else {
        assert(w.drop_last() =~= v.drop_last().update(i, e));
        lemma_sum_sizes_update(v.drop_last(), i, e);
    }
}

proof fn lemma_sum_sizes_remove(v: Seq<(String, VideoCacheEntry)>, i: int)
    requires
        0 <= i < v.len(),
    ensures
        sum_sizes(v.remove(i)) + v[i].1.total_size == sum_sizes(v),
    decreases v.len(),
{
    let w = v.remove(i);
    if i == v.len() - 1 {
        assert(w =~= v.drop_last());
    } else {
        assert(w.drop_last() =~= v.drop_last().remove(i));
        assert(w.last() == v.last());
        lemma_sum_sizes_remove(v.drop_last(), i);
    }
}

impl ScreenshotCache {
    /// Stores `paths` as the screenshots of the range `range_key` of the video `hash` (an
    /// existing entry keeps its size; a new one starts at 0 bytes) and makes the video the most
    /// recently used.
    pub fn insert_screenshots(&mut self, hash: &str, range_key: &str, paths: Vec<String>)
        requires
            old(self).wf(),
        ensures
            final(self).wf(),
            final(self).lru() == touched(old(self).lru(), hash@),
            final(self).size() == old(self).size(),
            final(self).base() == old(self).base(),
            final(self).max_mb() == old(self).max_mb(),
            final(self).entries() == cache_store(old(self).entries(), hash@, range_key@, views(paths@)),
    {
        let ghost old_paths = views(paths@);
        let idx = assoc_find(&self.video_cache, hash);
        proof {
            lemma_assoc_map_dom(self.video_cache@, entry_viewer());
        }
        let rk = String::from_str(range_key);
        if idx < self.video_cache.len() {
            proof {
                lemma_assoc_map_at(self.video_cache@, entry_viewer(), idx as int);
            }
            let ghost before = self.video_cache@;
            let mut slot = (String::new(), VideoCacheEntry { screenshot_paths: Vec::new(), total_size: 0 });
            self.video_cache.set_and_swap(idx, &mut slot);
            let ghost old_ranges = slot.1.screenshot_paths@;
            assert(distinct_keys(old_ranges)) by {
                assert(before[idx as int] == slot);
            }
            let ridx = assoc_find(&slot.1.screenshot_paths, range_key);
            proof {
                lemma_range_index_is(old_ranges, range_key@, ridx as int);
                lemma_assoc_map_dom(old_ranges, |p: Vec<String>| views(p@));
            }
            if ridx < slot.1.screenshot_paths.len() {
                slot.1.screenshot_paths.set(ridx, (rk, paths));
                proof {
                    lemma_assoc_map_update(old_ranges, |p: Vec<String>| views(p@), ridx as int, (rk, paths));
                    assert(ranges_view(slot.1.screenshot_paths@) =~= ranges_view(old_ranges).update(ridx as int, (range_key@, old_paths)));
                }
            } else {
                slot.1.screenshot_paths.push((rk, paths));
                proof {
                    lemma_assoc_map_push(old_ranges, |p: Vec<String>| views(p@), (rk, paths));
                    assert(ranges_view(slot.1.screenshot_paths@) =~= ranges_view(old_ranges).push((range_key@, old_paths)));
                }
            }
            self.video_cache.set(idx, slot);
            proof {
                assert(self.video_cache@ == before.update(idx as int, slot));
                lemma_assoc_map_update(before, entry_viewer(), idx as int, slot);
                lemma_sum_sizes_update(before, idx as int, slot);
                assert forall|i: int| 0 <= i < self.video_cache@.len() implies distinct_keys((#[trigger] self.video_cache@[i]).1.screenshot_paths@) by {
                    if i != idx {
                        assert(self.video_cache@[i] == before[i]);
                    }
                }
            }
        } else {
            let ghost before = self.video_cache@;
            let mut ranges: Vec<(String, Vec<String>)> = Vec::new();
            ranges.push((rk, paths));
            let entry = (String::from_str(hash), VideoCacheEntry { screenshot_paths: ranges, total_size: 0 });
            self.video_cache.push(entry);
            proof {
                lemma_assoc_map_push(before, entry_viewer(), entry);
                assert(self.video_cache@.drop_last() == before);
                assert(ranges_view(entry.1.screenshot_paths@) =~= range_insert(Seq::empty(), range_key@, old_paths));
                assert forall|i: int| 0 <= i < self.video_cache@.len() implies distinct_keys((#[trigger] self.video_cache@[i]).1.screenshot_paths@) by {
                    if i < before.len() {
                        assert(self.video_cache@[i] == before[i]);
                    }
                }
            }
        }
        let ghost mid = self.entries();
        self.move_to_back(hash);
        proof {
            lemma_touched(old(self).lru(), hash@);
            lemma_assoc_map_dom(self.video_cache@, entry_viewer());
            assert(mid.dom().contains(hash@));
            assert forall|h: Seq<char>| #[trigger] self.lru().contains(h) <==> self.entries().dom().contains(h) by {
                assert(old(self).lru().contains(h) <==> old(self).entries().dom().contains(h));
            }
        }
    }
}


impl ScreenshotCache {
    /// All the screenshot paths cached for the video `hash`, range after range.
    pub fn entry_paths(&self, hash: &str) -> (r: Vec<String>)
        requires
            self.wf(),
        ensures
            views(r@) == if self.entries().dom().contains(hash@) {
                flat_paths(self.entries()[hash@].0)
            } else {
                Seq::empty()
            },
    {
        let idx = assoc_find(&self.video_cache, hash);
        proof {
            lemma_assoc_map_dom(self.video_cache@, entry_viewer());
        }
        let mut out: Vec<String> = Vec::new();
        if idx == self.video_cache.len() {
            assert(views(out@) =~= Seq::<Seq<char>>::empty());
            return out;
        }
        proof {
            lemma_assoc_map_at(self.video_cache@, entry_viewer(), idx as int);
        }
        let ranges = &self.video_cache[idx].1.screenshot_paths;
        let mut i: usize = 0;
        while i < ranges.len()
            invariant
                i <= ranges.len(),
                views(out@) == flat_paths(ranges_view(ranges@).take(i as int)),
            decreases ranges.len() - i,
        {
            let ghost rv = ranges_view(ranges@);
            assert(rv.take(i + 1).drop_last() == rv.take(i as int));
            assert(rv.take(i + 1).last() == (ranges@[i as int].0@, views(ranges@[i as int].1@)));
            let mut more = clone_strings(&ranges[i].1);
            let ghost before = out@;
            out.append(&mut more);
            assert(views(out@) =~= views(before) + views(ranges@[i as int].1@));
            i += 1;
        }
        assert(ranges_view(ranges@).take(ranges.len() as int) == ranges_view(ranges@));
        out
    }
}


/// The sizes of the videos in `order`, as the entries record them.
pub open spec fn sizes_in_order(order: Seq<Seq<char>>, entries: Map<Seq<char>, (RangesView, nat)>) -> Seq<nat> {
    order.map_values(|h: Seq<char>| entries[h].1)
}

impl ScreenshotCache {
    /// Records that the files of the video `hash` take `size` bytes; the cache's size becomes
    /// the sum of its entries' sizes again.
    pub fn set_entry_size(&mut self, hash: &str, size: u64)
        requires
            old(self).wf(),
            old(self).entries().dom().contains(hash@),
            old(self).size() - old(self).entries()[hash@].1 + size <= u64::MAX,
        ensures
            final(self).wf(),
            final(self).entries() == old(self).entries().insert(
                hash@,
                (old(self).entries()[hash@].0, size as nat),
            ),
            final(self).size() == old(self).size() - old(self).entries()[hash@].1 + size,
            final(self).lru() == old(self).lru(),
            final(self).base() == old(self).base(),
            final(self).max_mb() == old(self).max_mb(),
    {
        let idx = assoc_find(&self.video_cache, hash);
        proof {
            lemma_assoc_map_dom(self.video_cache@, entry_viewer());
            lemma_assoc_map_at(self.video_cache@, entry_viewer(), idx as int);
        }
        let ghost before = self.video_cache@;
        let mut slot = (String::new(), VideoCacheEntry { screenshot_paths: Vec::new(), total_size: 0 });
        self.video_cache.set_and_swap(idx, &mut slot);
        let old_size = slot.1.total_size;
        proof {
            lemma_sum_sizes_remove(before, idx as int);
            assert(old_size == before[idx as int].1.total_size);
        }
        slot.1.total_size = size;
        self.video_cache.set(idx, slot);
        proof {
            assert(self.video_cache@ == before.update(idx as int, slot));
            lemma_assoc_map_update(before, entry_viewer(), idx as int, slot);
            lemma_sum_sizes_update(before, idx as int, slot);
            assert(entry_view(slot.1) == (old(self).entries()[hash@].0, size as nat));
            assert forall|i: int| 0 <= i < self.video_cache@.len() implies distinct_keys((#[trigger] self.video_cache@[i]).1.screenshot_paths@) by {
                if i != idx {
                    assert(self.video_cache@[i] == before[i]);
                }
            }
            lemma_assoc_map_dom(self.video_cache@, entry_viewer());
            assert forall|h: Seq<char>| #[trigger] self.lru().contains(h) <==> self.entries().dom().contains(h) by {
                assert(old(self).lru().contains(h) <==> old(self).entries().dom().contains(h));
            }
        }
        self.current_size = self.current_size - old_size + size;
    }
}


proof fn lemma_take_set_step(l: Seq<Seq<char>>, k: int, e: Map<Seq<char>, (RangesView, nat)>)
    requires
        0 <= k < l.len(),
    ensures
        e.remove_keys(l.take(k).to_set()).remove(l[k]) == e.remove_keys(l.take(k + 1).to_set()),
{
    assert(l.take(k + 1) == l.take(k).push(l[k]));
    assert forall|x: Seq<char>| #[trigger] l.take(k + 1).to_set().contains(x) <==> l.take(k).to_set().contains(x) || x == l[k] by {
        lemma_push_contains(l.take(k), l[k], x);
    }
    assert(e.remove_keys(l.take(k).to_set()).remove(l[k]) =~= e.remove_keys(l.take(k + 1).to_set()));
}

impl ScreenshotCache {
    /// Drops the least recently used videos, one by one, while the cache holds more than its
    /// limit; returns the hashes of the dropped videos (whose directories are to be deleted),
    /// in the order they were dropped.
    pub fn evict_excess(&mut self) -> (r: Vec<String>)
        requires
            old(self).wf(),
        ensures
            final(self).wf(),
            ({
                let l = old(self).lru();
                let sizes = sizes_in_order(l, old(self).entries());
                let k = evict_count(sizes, old(self).size() as int, old(self).max_bytes() as int) as int;
                &&& views(r@) == l.take(k)
                &&& final(self).lru() == l.skip(k)
                &&& final(self).entries() == old(self).entries().remove_keys(l.take(k).to_set())
                &&& final(self).size() + seq_sum(sizes.take(k)) == old(self).size()
            }),
            final(self).size() <= final(self).max_bytes() || final(self).lru().len() == 0,
            final(self).base() == old(self).base(),
            final(self).max_mb() == old(self).max_mb(),
    {
        let max_bytes = self.max_size_mb * 1048576;
        let mut evicted: Vec<String> = Vec::new();
        let ghost l = self.lru();
        let ghost e0 = self.entries();
        let ghost s0 = self.size() as int;
        let ghost sizes = sizes_in_order(l, e0);
        let ghost mut k: int = 0;
        assert(l.skip(0) == l);
        assert(l.take(0).to_set() =~= Set::<Seq<char>>::empty());
        assert(e0.remove_keys(Set::<Seq<char>>::empty()) =~= e0);
        assert(sizes.take(0) =~= Seq::<nat>::empty());
        assert(sizes.skip(0) == sizes);
        while self.current_size > max_bytes && self.lru_order.len() > 0
            invariant
                self.wf(),
                max_bytes as nat == self.max_bytes(),
                self.base() == old(self).base(),
                self.max_mb() == old(self).max_mb(),
                l == old(self).lru(),
                e0 == old(self).entries(),
                s0 == old(self).size(),
                sizes == sizes_in_order(l, e0),
                no_duplicates(l),
                0 <= k <= l.len(),
                self.lru() == l.skip(k),
                self.entries() == e0.remove_keys(l.take(k).to_set()),
                self.size() + seq_sum(sizes.take(k)) == s0,
                views(evicted@) == l.take(k),
                evict_count(sizes, s0, max_bytes as int) == k + evict_count(sizes.skip(k), self.size() as int, max_bytes as int),
            decreases self.lru_order.len(),
        {
            let ghost v0 = self.video_cache@;
            let ghost lru0 = self.lru();
            assert(lru0.len() == self.lru_order@.len());
            assert(lru0.len() > 0);
            assert(k < l.len());
            let h = match self.lru_order.pop_front() {
                Some(front) => front,
                None => String::new(),
            };
            proof {
                assert(lru0[0] == h@);
                assert(l.skip(k)[0] == l[k]);
                assert(l[k] == h@);
                assert(lru0.contains(h@));
                lemma_assoc_map_dom(v0, entry_viewer());
            }
            let j = assoc_find(&self.video_cache, h.as_str());
            proof {
                lemma_assoc_map_at(v0, entry_viewer(), j as int);
                lemma_assoc_map_remove(v0, entry_viewer(), j as int);
                lemma_sum_sizes_remove(v0, j as int);
                assert(!l.take(k).contains(h@)) by {
                    if l.take(k).contains(h@) {
                        let i = choose|i: int| 0 <= i < k && l.take(k)[i] == h@;
                        assert(l[i] == l[k]);
                    }
                }
                assert(!l.take(k).to_set().contains(h@));
                assert(sizes[k] == e0[h@].1);
                lemma_take_set_step(l, k, e0);
            }
            let e = self.video_cache.remove(j);
            self.current_size = self.current_size - e.1.total_size;
            let ghost ev0 = evicted@;
            evicted.push(h);
            assert(views(evicted@) == views(ev0).push(l[k]));
            proof {
                assert(sizes.take(k + 1).drop_last() == sizes.take(k));
                assert(sizes.skip(k).drop_first() == sizes.skip(k + 1));
                assert(sizes.skip(k)[0] == sizes[k]);
                assert(self.lru() =~= lru0.drop_first());
                assert(lru0.drop_first() =~= l.skip(k + 1));
                assert(views(evicted@) =~= l.take(k + 1));
                // the invariant of the cache
                assert(no_duplicates(self.lru())) by {
                    assert forall|a: int, b: int| 0 <= a < b < self.lru().len() implies self.lru()[a] != self.lru()[b] by {
                        assert(self.lru()[a] == lru0[a + 1] && self.lru()[b] == lru0[b + 1]);
                    }
                }
                assert forall|x: Seq<char>| #[trigger] self.lru().contains(x) <==> self.entries().dom().contains(x) by {
                    assert(lru0.contains(x) <==> v0.len() >= 0 && assoc_map(v0, entry_viewer()).dom().contains(x));
                    lemma_drop_first_contains(lru0, x);
                    if x == h@ {
                        assert(!lru0.drop_first().contains(x)) by {
                            if lru0.drop_first().contains(x) {
                                let i = choose|i: int| 0 <= i < lru0.drop_first().len() && lru0.drop_first()[i] == x;
                                assert(lru0[i + 1] == lru0[0]);
                            }
                        }
                    }
                }
                assert forall|i: int| 0 <= i < self.video_cache@.len() implies distinct_keys((#[trigger] self.video_cache@[i]).1.screenshot_paths@) by {
                    if i < j {
                        assert(self.video_cache@[i] == v0[i]);
                    } else {
                        assert(self.video_cache@[i] == v0[i + 1]);
                    }
                }
                k = k + 1;
            }
        }
        proof {
            if self.size() <= max_bytes {
                assert(evict_count(sizes.skip(k), self.size() as int, max_bytes as int) == 0);
            } else {
                assert(self.lru().len() == 0);
                assert(sizes.skip(k).len() == 0);
            }
        }
        evicted
    }
}

proof fn lemma_drop_first_contains(s: Seq<Seq<char>>, x: Seq<char>)
    requires
        s.len() > 0,
    ensures
        s.contains(x) <==> s.drop_first().contains(x) || x == s[0],
{
    if s.contains(x) && x != s[0] {
        let i = choose|i: int| 0 <= i < s.len() && s[i] == x;
        assert(s.drop_first()[i - 1] == x);
    }
    if s.drop_first().contains(x) {
        let i = choose|i: int| 0 <= i < s.drop_first().len() && s.drop_first()[i] == x;
        assert(s[i + 1] == x);
    }
    if x == s[0] {
        assert(s[0] == x);
    }
}


proof fn lemma_range_index_bounds(ranges: RangesView, key: Seq<char>)
    ensures
        0 <= range_index(ranges, key) <= ranges.len(),
        range_index(ranges, key) < ranges.len() ==> ranges[range_index(ranges, key)].0 == key,
        forall|j: int| 0 <= j < range_index(ranges, key) ==> (#[trigger] ranges[j]).0 != key,
    decreases ranges.len(),
{
    if ranges.len() > 0 && ranges[0].0 != key {
        lemma_range_index_bounds(ranges.drop_first(), key);
        assert forall|j: int| 0 <= j < range_index(ranges, key) implies (#[trigger] ranges[j]).0 != key by {
            if j > 0 {
                assert(ranges[j] == ranges.drop_first()[j - 1]);
            }
        }
    }
}

proof fn lemma_range_index_first(ranges: RangesView, key: Seq<char>, i: int)
    requires
        0 <= i <= ranges.len(),
        i < ranges.len() ==> ranges[i].0 == key,
        forall|j: int| 0 <= j < i ==> (#[trigger] ranges[j]).0 != key,
    ensures
        range_index(ranges, key) == i,
    decreases i,
{
    if i > 0 {
        assert forall|j: int| 0 <= j < i - 1 implies (#[trigger] ranges.drop_first()[j]).0 != key by {
            assert(ranges.drop_first()[j] == ranges[j + 1]);
        }
        lemma_range_index_first(ranges.drop_first(), key, i - 1);
    }
}

/// What was stored under a range key is what is read back under it, and storing under one
/// key leaves what the other keys hold unchanged.
pub proof fn law_range_read_after_store(ranges: RangesView, key: Seq<char>, paths: Seq<Seq<char>>, other: Seq<char>)
    ensures
        range_lookup(range_insert(ranges, key, paths), key) == Some(paths),
        other != key ==> range_lookup(range_insert(ranges, key, paths), other) == range_lookup(ranges, other),
{
    let i = range_index(ranges, key);
    let w = range_insert(ranges, key, paths);
    lemma_range_index_bounds(ranges, key);
    lemma_range_index_bounds(ranges, other);
    lemma_range_index_first(w, key, i);
    if other != key {
        let o = range_index(ranges, other);
        if o < ranges.len() {
            assert(o != i);
            lemma_range_index_first(w, other, o);
        } else {
            assert forall|j: int| 0 <= j < w.len() implies (#[trigger] w[j]).0 != other by {
                if j < ranges.len() && j != i {
                    assert(w[j] == ranges[j]);
                }
            }
            lemma_range_index_first(w, other, w.len() as int);
        }
    }
}

/// The screenshots stored for a range of a video are what a later lookup of that range of that
/// video finds; every other range of every video keeps what it held.
pub proof fn law_cache_read_after_store(
    entries: Map<Seq<char>, (RangesView, nat)>,
    hash: Seq<char>,
    key: Seq<char>,
    paths: Seq<Seq<char>>,
    other_hash: Seq<char>,
    other_key: Seq<char>,
)
    ensures
        cache_lookup(cache_store(entries, hash, key, paths), hash, key) == Some(paths),
        other_hash != hash || other_key != key ==> cache_lookup(cache_store(entries, hash, key, paths), other_hash, other_key)
            == cache_lookup(entries, other_hash, other_key),
{
    let ranges = if entries.dom().contains(hash) { entries[hash].0 } else { Seq::empty() };
    law_range_read_after_store(ranges, key, paths, other_key);
    if !entries.dom().contains(hash) {
        assert(range_index(Seq::<(Seq<char>, Seq<Seq<char>>)>::empty(), other_key) == 0);
    }
}

/// Touching a video makes it the most recently used and keeps the use order free of repeats.
pub proof fn law_touched_is_most_recent(order: Seq<Seq<char>>, h: Seq<char>)
    ensures
        touched(order, h).last() == h,
        forall|x: Seq<char>| #[trigger] touched(order, h).contains(x) <==> order.contains(x) || x == h,
        no_duplicates(order) ==> no_duplicates(touched(order, h)),
{
    lemma_touched(order, h);
}

/// The key under which the cache keeps a range of screenshots: the start in tenths of a
/// second and the interval in milliseconds, joined by `_`.
pub fn range_key(start_tenths: u64, interval_millis: u64) -> (r: String)
    ensures
        r@ == decimal(start_tenths as nat) + seq!['_'] + decimal(interval_millis as nat),
{
    let mut v = decimal_chars(start_tenths);
    v.push('_');
    let mut d = decimal_chars(interval_millis);
    v.append(&mut d);
    string_of(&v)
}

/// The key under which the labelling screen keeps a range of screenshots of a video: the
/// video's key, the start in tenths of a second and the interval in milliseconds, joined by `:`.
pub fn screenshot_range_key(video_key: &str, start_tenths: u64, interval_millis: u64) -> (r: String)
    ensures
        r@ == video_key@ + seq![':'] + decimal(start_tenths as nat) + seq![':'] + decimal(interval_millis as nat),
{
    let mut v = chars_of(video_key);
    v.push(':');
    let mut a = decimal_chars(start_tenths);
    v.append(&mut a);
    v.push(':');
    let mut b = decimal_chars(interval_millis);
    v.append(&mut b);
    let r = string_of(&v);
    assert(r@ =~= video_key@ + seq![':'] + decimal(start_tenths as nat) + seq![':'] + decimal(interval_millis as nat));
    r
}

} // verus!
