use std::collections::{HashMap, HashSet};
use vstd::prelude::*;

use crate::session::ThumbnailResult;
use crate::text::lemma_push_to_set;

verus! {

broadcast use vstd::std_specs::hash::group_hash_axioms;

/// The thumbnails of the overview: the videos waiting for one (in the order they will be
/// made), those made, those that failed (with the reason) and those being made now. At most
/// two are made at a time.
pub struct ThumbnailQueue {
    pub queue: Vec<usize>,
    pub loaded: HashSet<usize>,
    pub errors: HashMap<usize, String>,
    pub in_flight: HashSet<usize>,
}

/// `q` without any occurrence of `x`.
pub open spec fn drop_all(q: Seq<usize>, x: usize) -> Seq<usize>
    decreases q.len(),
{
    if q.len() == 0 {
        q
    } else if q.last() == x {
        drop_all(q.drop_last(), x)
    } else {
        drop_all(q.drop_last(), x).push(q.last())
    }
}

/// The queue after moving the videos of `indices` that have no thumbnail yet to its front,
/// in the order of `indices`.
pub open spec fn prioritized(q: Seq<usize>, indices: Seq<usize>, known: Set<usize>) -> Seq<usize>
    decreases indices.len(),
{
    if indices.len() == 0 {
        q
    } else {
        let rest = prioritized(q, indices.drop_first(), known);
        if known.contains(indices[0]) {
            rest
        } else {
            seq![indices[0]] + drop_all(rest, indices[0])
        }
    }
}

/// How many new thumbnails may be started while `in_flight` are being made.
pub open spec fn free_slots(in_flight: nat) -> nat {
    if in_flight >= 2 {
        0
    } else {
        (2 - in_flight) as nat
    }
}

/// Taking up to `slots` videos from the front of the queue: a video that already has (or is
/// getting) a thumbnail, or is past the `count` videos, uses up its turn without starting.
/// Gives the rest of the queue and the videos started.
pub open spec fn jobs(q: Seq<usize>, slots: nat, known: Set<usize>, count: nat) -> (Seq<usize>, Seq<usize>)
    decreases slots,
{
    if slots == 0 || q.len() == 0 {
        (q, Seq::empty())
    } else {
        let x = q[0];
        if known.contains(x) || x >= count {
            jobs(q.drop_first(), (slots - 1) as nat, known, count)
        } else {
            let (r, s) = jobs(q.drop_first(), (slots - 1) as nat, known.insert(x), count);
            (r, seq![x] + s)
        }
    }
}

proof fn lemma_jobs_fresh(q: Seq<usize>, slots: nat, known: Set<usize>, count: nat)
    ensures
        jobs(q, slots, known, count).1.len() <= slots,
        forall|k: int| 0 <= k < jobs(q, slots, known, count).1.len() ==> !known.contains(#[trigger] jobs(q, slots, known, count).1[k]),
        forall|a: int, b: int| 0 <= a < b < jobs(q, slots, known, count).1.len() ==> jobs(q, slots, known, count).1[a] != jobs(q, slots, known, count).1[b],
    decreases slots,
{
    if slots > 0 && q.len() > 0 {
        let x = q[0];
        if known.contains(x) || x >= count {
            lemma_jobs_fresh(q.drop_first(), (slots - 1) as nat, known, count);
        } else {
            let k2 = known.insert(x);
            lemma_jobs_fresh(q.drop_first(), (slots - 1) as nat, k2, count);
            let s = jobs(q.drop_first(), (slots - 1) as nat, k2, count).1;
            let t = seq![x] + s;
            assert forall|k: int| 0 <= k < t.len() implies !known.contains(#[trigger] t[k]) by {
                if k > 0 {
                    assert(t[k] == s[k - 1]);
                    assert(!k2.contains(s[k - 1]));
                }
            }
            assert forall|a: int, b: int| 0 <= a < b < t.len() implies t[a] != t[b] by {
                assert(t[b] == s[b - 1]);
                assert(!k2.contains(s[b - 1]));
                if a > 0 {
                    assert(t[a] == s[a - 1]);
                }
            }
        }
    }
}

impl ThumbnailQueue {
    /// The videos that have, or are getting, a thumbnail.
    pub open spec fn known(&self) -> Set<usize> {
        self.loaded@.union(self.errors@.dom()).union(self.in_flight@)
    }

    /// Nothing queued, made or failed.
    pub fn new() -> (r: Self)
        ensures
            r.queue@ == Seq::<usize>::empty(),
            r.loaded@ == Set::<usize>::empty(),
            r.errors@ == Map::<usize, String>::empty(),
            r.in_flight@ == Set::<usize>::empty(),
    {
        ThumbnailQueue { queue: Vec::new(), loaded: HashSet::new(), errors: HashMap::new(), in_flight: HashSet::new() }
    }

    /// Forgets every thumbnail, as when another folder is opened.
    pub fn clear(&mut self)
        ensures
            final(self).queue@ == Seq::<usize>::empty(),
            final(self).loaded@ == Set::<usize>::empty(),
            final(self).errors@ == Map::<usize, String>::empty(),
            final(self).in_flight@ == Set::<usize>::empty(),
    {
        *self = ThumbnailQueue::new();
    }

    fn is_known(&self, index: usize) -> (r: bool)
        ensures
            r == self.known().contains(index),
    {
        self.loaded.contains(&index) || self.errors.contains_key(&index) || self.in_flight.contains(&index)
    }

    /// Queues video `index` at the back, unless it has a thumbnail or is already queued.
    pub fn queue_if_needed(&mut self, index: usize)
        ensures
            final(self).queue@ == if old(self).known().contains(index) || old(self).queue@.contains(index) {
                old(self).queue@
            } else {
                old(self).queue@.push(index)
            },
            final(self).loaded@ == old(self).loaded@,
            final(self).errors@ == old(self).errors@,
            final(self).in_flight@ == old(self).in_flight@,
    {
        if self.is_known(index) {
            return;
        }
        let mut i: usize = 0;
        while i < self.queue.len()
            invariant
                i <= self.queue.len(),
                forall|k: int| 0 <= k < i ==> self.queue@[k] != index,
            decreases self.queue.len() - i,
        {
            if self.queue[i] == index {
                assert(self.queue@.contains(index));
                return;
            }
            i += 1;
        }
        self.queue.push(index);
    }

    /// Moves the videos of `indices` (those on screen) that have no thumbnail yet to the front
    /// of the queue, in their order.
    pub fn prioritize(&mut self, indices: &[usize])
        ensures
            final(self).queue@ == prioritized(old(self).queue@, indices@, old(self).known()),
            final(self).loaded@ == old(self).loaded@,
            final(self).errors@ == old(self).errors@,
            final(self).in_flight@ == old(self).in_flight@,
    {
        let ghost q0 = self.queue@;
        let ghost known = self.known();
        let mut k = indices.len();
        assert(indices@.skip(k as int) =~= Seq::<usize>::empty());
        while k > 0
            invariant
                k <= indices.len(),
                self.queue@ == prioritized(q0, indices@.skip(k as int), known),
                known == self.known(),
                self.loaded@ == old(self).loaded@,
                self.errors@ == old(self).errors@,
                self.in_flight@ == old(self).in_flight@,
            decreases k,
        {
            k -= 1;
            let index = indices[k];
            assert(indices@.skip(k as int).drop_first() =~= indices@.skip(k + 1));
            assert(indices@.skip(k as int)[0] == index);
            if !self.is_known(index) {
                let rest = without(&self.queue, index);
                self.queue = rest;
                self.queue.insert(0, index);
                assert(self.queue@ =~= seq![index] + rest@);
            }
        }
        assert(indices@.skip(0) =~= indices@);
    }

    /// Takes the next videos to make thumbnails for (at most two are made at a time) and marks
    /// them as being made; returns them.
    pub fn start_jobs(&mut self, video_count: usize) -> (r: Vec<usize>)
        ensures
            (final(self).queue@, r@) == jobs(old(self).queue@, free_slots(old(self).in_flight@.len()), old(self).known(), video_count as nat),
            final(self).in_flight@ == old(self).in_flight@ + r@.to_set(),
            final(self).loaded@ == old(self).loaded@,
            final(self).errors@ == old(self).errors@,
            r@.len() <= free_slots(old(self).in_flight@.len()),
            forall|k: int| 0 <= k < r@.len() ==> !old(self).known().contains(#[trigger] r@[k]),
            forall|a: int, b: int| 0 <= a < b < r@.len() ==> r@[a] != r@[b],
    {
        proof {
            lemma_jobs_fresh(self.queue@, free_slots(self.in_flight@.len()), self.known(), video_count as nat);
        }
        let busy = self.in_flight.len();
        let free: usize = if busy >= 2 {
            0
        } else {
            2 - busy
        };
        let ghost q0 = self.queue@;
        let ghost k0 = self.known();
        let ghost f0 = self.in_flight@;
        let mut started: Vec<usize> = Vec::new();
        let mut n: usize = 0;
        assert(started@.to_set() =~= Set::<usize>::empty());
        assert(f0 + Set::<usize>::empty() =~= f0);
        while n < free && self.queue.len() > 0
            invariant
                n <= free,
                jobs(q0, free as nat, k0, video_count as nat) == ({
                    let (r, s) = jobs(self.queue@, (free - n) as nat, self.known(), video_count as nat);
                    (r, started@ + s)
                }),
                self.known() == k0 + started@.to_set(),
                self.in_flight@ == f0 + started@.to_set(),
                self.loaded@ == old(self).loaded@,
                self.errors@ == old(self).errors@,
            decreases free - n,
        {
            let ghost qb = self.queue@;
            let ghost kb = self.known();
            let index = self.queue.remove(0);
            assert(self.queue@ =~= qb.drop_first());
            assert(index == qb[0]);
            if !self.is_known(index) && index < video_count {
                let ghost s_before = started@;
                self.in_flight.insert(index);
                started.push(index);
                proof {
                    lemma_push_to_set(s_before, index);
                }
                assert(self.in_flight@ =~= f0 + started@.to_set());
                assert(self.loaded@ == old(self).loaded@);
                assert(self.known() =~= kb.insert(index));
                assert(kb.insert(index) =~= k0 + started@.to_set());
                proof {
                    let (r2, s2) = jobs(qb.drop_first(), (free - n - 1) as nat, kb.insert(index), video_count as nat);
                    assert(s_before + (seq![index] + s2) =~= started@ + s2);
                }
            }
            n += 1;
        }
        proof {
            let (r, s) = jobs(self.queue@, (free - n) as nat, self.known(), video_count as nat);
            assert(s =~= Seq::<usize>::empty());
            assert(started@ + s =~= started@);
        }
        started
    }

    /// Takes the outcome of a thumbnail: the video is no longer being made, and is now made or
    /// failed (with its reason).
    pub fn on_result(&mut self, result: ThumbnailResult)
        ensures
            final(self).queue@ == old(self).queue@,
            match result {
                ThumbnailResult::Loaded { index, .. } => final(self).in_flight@ == old(self).in_flight@.remove(index)
                    && final(self).loaded@ == old(self).loaded@.insert(index) && final(self).errors@ == old(self).errors@,
                ThumbnailResult::Failed { index, reason } => final(self).in_flight@ == old(self).in_flight@.remove(index)
                    && final(self).errors@ == old(self).errors@.insert(index, reason) && final(self).loaded@ == old(self).loaded@,
            },
    {
        match result {
            ThumbnailResult::Loaded { index, .. } => {
                self.in_flight.remove(&index);
                self.loaded.insert(index);
            },
            ThumbnailResult::Failed { index, reason } => {
                self.in_flight.remove(&index);
                self.errors.insert(index, reason);
            },
        }
    }

    /// Forgets the thumbnail of video `index` (its file was renamed).
    pub fn forget(&mut self, index: usize)
        ensures
            final(self).queue@ == old(self).queue@,
            final(self).loaded@ == old(self).loaded@.remove(index),
            final(self).errors@ == old(self).errors@.remove(index),
            final(self).in_flight@ == old(self).in_flight@.remove(index),
    {
        self.loaded.remove(&index);
        self.errors.remove(&index);
        self.in_flight.remove(&index);
    }

    /// Whether thumbnails are waiting or being made.
    pub fn is_busy(&self) -> (r: bool)
        ensures
            r == (self.queue@.len() > 0 || !self.in_flight@.is_empty()),
    {
        self.queue.len() > 0 || !self.in_flight.is_empty()
    }
}

/// `q` without any occurrence of `x`.
fn without(q: &Vec<usize>, x: usize) -> (r: Vec<usize>)
    ensures
        r@ == drop_all(q@, x),
{
    let mut out: Vec<usize> = Vec::new();
    let mut i: usize = 0;
    while i < q.len()
        invariant
            i <= q.len(),
            out@ == drop_all(q@.take(i as int), x),
        decreases q.len() - i,
    {
        assert(q@.take(i + 1).drop_last() =~= q@.take(i as int));
        assert(q@.take(i + 1).last() == q@[i as int]);
        if q[i] != x {
            out.push(q[i]);
        }
        i += 1;
    }
    assert(q@.take(q.len() as int) =~= q@);
    out
}

} // verus!
