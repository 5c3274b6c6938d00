use vstd::prelude::*;

use crate::assoc::{
    assoc_find, assoc_map, distinct_keys, lemma_assoc_map_at, lemma_assoc_map_dom, lemma_assoc_map_push,
    lemma_assoc_map_update,
};
use crate::session::ScreenshotResult;
use crate::text::{contains_string, lemma_push_to_set, views};

verus! {

/// The screenshots shown on the labelling screen and the ranges already cut: which request is
/// the latest, whether it is still being cut, why it failed, the paths shown, the paths of
/// every range cut so far (by range key), and the ranges being cut ahead of time.
pub struct ScreenshotLoader {
    pub request_id: u64,
    pub loading: bool,
    pub error: Option<String>,
    pub paths: Vec<String>,
    pub cached: Vec<(String, Vec<String>)>,
    pub prefetching: Vec<String>,
}

/// What showing a range asks for: its cached paths are shown now, or the range is to be cut
/// under the given request number.
#[derive(Debug)]
pub enum RangeRequest {
    Cached(Vec<String>),
    Extract(u64),
}

/// What an outcome of cutting did: the shown range changed, a range was stored for later, the
/// shown range failed, or the outcome was for an older request.
#[derive(Debug, Clone, Copy, PartialEq, Eq, Structural)]
pub enum ResultEffect {
    Shown,
    Stored,
    Failed,
    Ignored,
}

/// The paths of a cached range as text.
pub open spec fn paths_view() -> spec_fn(Vec<String>) -> Seq<Seq<char>> {
    |p: Vec<String>| views(p@)
}

impl ScreenshotLoader {
    /// The ranges cut so far, by key.
    pub closed spec fn cached_view(&self) -> Map<Seq<char>, Seq<Seq<char>>> {
        assoc_map(self.cached@, paths_view())
    }

    /// The keys of the ranges being cut ahead of time.
    pub closed spec fn prefetching_view(&self) -> Set<Seq<char>> {
        views(self.prefetching@).to_set()
    }

    /// Each range key is cached once.
    pub closed spec fn wf(&self) -> bool {
        distinct_keys(self.cached@)
    }

    /// Nothing shown, requested or cached.
    pub fn new() -> (r: Self)
        ensures
            r.wf(),
            r.request_id == 0,
            !r.loading,
            r.error is None,
            r.paths@.len() == 0,
            r.cached_view() == Map::<Seq<char>, Seq<Seq<char>>>::empty(),
            r.prefetching_view() == Set::<Seq<char>>::empty(),
    {
        let r = ScreenshotLoader {
            request_id: 0,
            loading: false,
            error: None,
            paths: Vec::new(),
            cached: Vec::new(),
            prefetching: Vec::new(),
        };
        assert(views(r.prefetching@).to_set() =~= Set::<Seq<char>>::empty());
        r
    }

    /// Shows the range `key`: from the cache when it was cut before, else a new request (the
    /// previous number plus one, wrapping) for it to be cut.
    pub fn request_range(&mut self, key: &str) -> (r: RangeRequest)
        requires
            old(self).wf(),
        ensures
            final(self).wf(),
            final(self).cached_view() == old(self).cached_view(),
            final(self).prefetching_view() == old(self).prefetching_view(),
            final(self).error is None,
            if old(self).cached_view().dom().contains(key@) {
                (r matches RangeRequest::Cached(p) && views(p@) == old(self).cached_view()[key@])
                    && views(final(self).paths@) == old(self).cached_view()[key@] && !final(self).loading
                    && final(self).request_id == old(self).request_id
            } else {
                r == RangeRequest::Extract(final(self).request_id) && final(self).request_id
                    == old(self).request_id.wrapping_add(1) && final(self).loading && final(self).paths@
                    == old(self).paths@
            },
    {
        proof {
            lemma_assoc_map_dom(self.cached@, paths_view());
        }
        let i = assoc_find(&self.cached, key);
        if i < self.cached.len() {
            proof {
                lemma_assoc_map_at(self.cached@, paths_view(), i as int);
            }
            let p = copy_paths(&self.cached[i].1);
            self.loading = false;
            self.error = None;
            self.paths = copy_paths(&p);
            RangeRequest::Cached(p)
        } else {
            proof {
                if self.cached_view().dom().contains(key@) {
                    let j = choose|j: int| 0 <= j < self.cached@.len() && self.cached@[j].0@ == key@;
                    assert(self.cached@[j].0@ != key@);
                }
            }
            self.request_id = self.request_id.wrapping_add(1);
            self.loading = true;
            self.error = None;
            RangeRequest::Extract(self.request_id)
        }
    }

    /// Marks the range `key` as being cut ahead of time, unless it is cached or already being
    /// cut; returns whether it was marked (and is to be cut now).
    pub fn claim_prefetch(&mut self, key: &str) -> (r: bool)
        requires
            old(self).wf(),
        ensures
            final(self).wf(),
            r == !(old(self).cached_view().dom().contains(key@) || old(self).prefetching_view().contains(key@)),
            final(self).prefetching_view() == if r {
                old(self).prefetching_view().insert(key@)
            } else {
                old(self).prefetching_view()
            },
            final(self).cached_view() == old(self).cached_view(),
            final(self).request_id == old(self).request_id,
            final(self).loading == old(self).loading,
            final(self).error == old(self).error,
            final(self).paths@ == old(self).paths@,
    {
        proof {
            lemma_assoc_map_dom(self.cached@, paths_view());
        }
        let i = assoc_find(&self.cached, key);
        if i < self.cached.len() {
            return false;
        }
        proof {
            if self.cached_view().dom().contains(key@) {
                let j = choose|j: int| 0 <= j < self.cached@.len() && self.cached@[j].0@ == key@;
                assert(self.cached@[j].0@ != key@);
            }
        }
        let k = String::from_str(key);
        if contains_string(&self.prefetching, &k) {
            return false;
        }
        let ghost before = self.prefetching@;
        self.prefetching.push(k);
        proof {
            assert(views(self.prefetching@) == views(before).push(key@));
            lemma_push_to_set(views(before), key@);
        }
        true
    }

    /// Stores `paths` as the range `key`, replacing what was stored under that key.
    fn store(&mut self, key: &String, paths: Vec<String>)
        requires
            old(self).wf(),
        ensures
            final(self).wf(),
            final(self).cached_view() == old(self).cached_view().insert(key@, views(paths@)),
            final(self).prefetching@ == old(self).prefetching@,
            final(self).request_id == old(self).request_id,
            final(self).loading == old(self).loading,
            final(self).error == old(self).error,
            final(self).paths@ == old(self).paths@,
    {
        proof {
            lemma_assoc_map_dom(self.cached@, paths_view());
        }
        let i = assoc_find(&self.cached, key.as_str());
        let entry = (key.clone(), paths);
        if i < self.cached.len() {
            proof {
                lemma_assoc_map_update(self.cached@, paths_view(), i as int, entry);
            }
            self.cached.set(i, entry);
        } else {
            proof {
                if self.cached_view().dom().contains(key@) {
                    let j = choose|j: int| 0 <= j < self.cached@.len() && self.cached@[j].0@ == key@;
                    assert(self.cached@[j].0@ != key@);
                }
                lemma_assoc_map_push(self.cached@, paths_view(), entry);
            }
            self.cached.push(entry);
        }
    }

    /// Takes the outcome of cutting a range. The latest request's screenshots are shown (and
    /// cached), or its failure is shown; a range cut ahead of time is cached and no longer
    /// marked; outcomes of older requests are ignored.
    pub fn on_result(&mut self, result: ScreenshotResult) -> (r: ResultEffect)
        requires
            old(self).wf(),
        ensures
            final(self).wf(),
            final(self).request_id == old(self).request_id,
            match result {
                ScreenshotResult::Loaded { request_id, key, paths } => if request_id == old(self).request_id {
                    r == ResultEffect::Shown && final(self).cached_view() == old(self).cached_view().insert(key@, views(paths@))
                        && !final(self).loading && final(self).error is None && views(final(self).paths@) == views(paths@)
                        && final(self).prefetching_view() == old(self).prefetching_view()
                } else {
                    r == ResultEffect::Ignored && final(self).cached_view() == old(self).cached_view()
                        && final(self).loading == old(self).loading && final(self).error == old(self).error
                        && final(self).paths@ == old(self).paths@ && final(self).prefetching_view() == old(self).prefetching_view()
                },
                ScreenshotResult::Prefetched { key, paths } => r == ResultEffect::Stored
                    && final(self).cached_view() == old(self).cached_view().insert(key@, views(paths@))
                    && final(self).prefetching_view() == old(self).prefetching_view().remove(key@)
                    && final(self).loading == old(self).loading && final(self).error == old(self).error
                    && final(self).paths@ == old(self).paths@,
                ScreenshotResult::Failed { request_id, reason } => if request_id == old(self).request_id {
                    r == ResultEffect::Failed && !final(self).loading && final(self).error == Some(reason)
                        && final(self).paths@.len() == 0 && final(self).cached_view() == old(self).cached_view()
                        && final(self).prefetching_view() == old(self).prefetching_view()
                } else {
                    r == ResultEffect::Ignored && final(self).cached_view() == old(self).cached_view()
                        && final(self).loading == old(self).loading && final(self).error == old(self).error
                        && final(self).paths@ == old(self).paths@ && final(self).prefetching_view() == old(self).prefetching_view()
                },
            },
    {
        match result {
            ScreenshotResult::Loaded { request_id, key, paths } => {
                if request_id != self.request_id {
                    return ResultEffect::Ignored;
                }
                let shown = copy_paths(&paths);
                self.store(&key, paths);
                self.loading = false;
                self.error = None;
                self.paths = shown;
                ResultEffect::Shown
            },
            ScreenshotResult::Prefetched { key, paths } => {
                self.stop_prefetching(&key);
                self.store(&key, paths);
                ResultEffect::Stored
            },
            ScreenshotResult::Failed { request_id, reason } => {
                if request_id != self.request_id {
                    return ResultEffect::Ignored;
                }
                self.loading = false;
                self.error = Some(reason);
                self.paths = Vec::new();
                ResultEffect::Failed
            },
        }
    }

    /// Unmarks the range `key` as being cut ahead of time.
    fn stop_prefetching(&mut self, key: &String)
        ensures
            final(self).prefetching_view() == old(self).prefetching_view().remove(key@),
            final(self).cached@ == old(self).cached@,
            final(self).request_id == old(self).request_id,
            final(self).loading == old(self).loading,
            final(self).error == old(self).error,
            final(self).paths@ == old(self).paths@,
    {
        let ghost before = views(self.prefetching@);
        let mut kept: Vec<String> = Vec::new();
        let mut i: usize = 0;
        while i < self.prefetching.len()
            invariant
                i <= self.prefetching.len(),
                before == views(self.prefetching@),
                views(kept@) == without_key(before.take(i as int), key@),
            decreases self.prefetching.len() - i,
        {
            assert(before.take(i + 1).drop_last() == before.take(i as int));
            assert(before.take(i + 1).last() == self.prefetching@[i as int]@);
            if !(self.prefetching[i] == *key) {
                let ghost prev = views(kept@);
                kept.push(self.prefetching[i].clone());
                assert(views(kept@) == prev.push(self.prefetching@[i as int]@));
            }
            i += 1;
        }
        assert(before.take(self.prefetching.len() as int) == before);
        proof {
            lemma_without_key_set(before, key@);
        }
        self.prefetching = kept;
    }
}

/// `s` without the occurrences of `key`.
pub open spec fn without_key(s: Seq<Seq<char>>, key: Seq<char>) -> Seq<Seq<char>>
    decreases s.len(),
{
    if s.len() == 0 {
        s
    } else if s.last() == key {
        without_key(s.drop_last(), key)
    } else {
        without_key(s.drop_last(), key).push(s.last())
    }
}

proof fn lemma_without_key_set(s: Seq<Seq<char>>, key: Seq<char>)
    ensures
        without_key(s, key).to_set() == s.to_set().remove(key),
    decreases s.len(),
{
    if s.len() == 0 {
        assert(s.to_set() =~= Set::<Seq<char>>::empty());
        assert(without_key(s, key).to_set() =~= Set::<Seq<char>>::empty());
        assert(s.to_set().remove(key) =~= Set::<Seq<char>>::empty());
    } else {
        let p = s.drop_last();
        lemma_without_key_set(p, key);
        assert(s == p.push(s.last()));
        lemma_push_to_set(p, s.last());
        if s.last() != key {
            lemma_push_to_set(without_key(p, key), s.last());
        }
        assert(without_key(s, key).to_set() =~= s.to_set().remove(key));
    }
}

fn copy_paths(v: &Vec<String>) -> (r: Vec<String>)
    ensures
        views(r@) == views(v@),
{
    let mut out: Vec<String> = Vec::new();
    let mut i: usize = 0;
    while i < v.len()
        invariant
            i <= v.len(),
            views(out@) == views(v@).take(i as int),
        decreases v.len() - i,
    {
        let c = v[i].clone();
        let ghost prev = out@;
        out.push(c);
        assert(views(out@) == views(prev).push(c@));
        assert(views(v@).take(i + 1) == views(v@).take(i as int).push(v@[i as int]@));
        i += 1;
    }
    assert(views(v@).take(v.len() as int) == views(v@));
    out
}

} // verus!
