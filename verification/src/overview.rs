use vstd::prelude::*;

use crate::config::VideoFile;
use crate::session::SortMode;
use crate::text::{chars_of, lemma_seq_less_total, lowercase, seq_less, str_less, to_lowercase};

verus! {

/// Whether `needle` occurs in `hay` as a run of consecutive characters.
pub open spec fn contains_text(hay: Seq<char>, needle: Seq<char>) -> bool {
    exists|k: int| 0 <= k <= hay.len() - needle.len() && #[trigger] hay.subrange(k, k + needle.len()) == needle
}

/// The lower-case file names of the videos.
pub open spec fn lower_names(videos: Seq<VideoFile>) -> Seq<Seq<char>> {
    videos.map_values(|v: VideoFile| lowercase(v.filename@))
}

/// The sizes of the videos.
pub open spec fn video_sizes(videos: Seq<VideoFile>) -> Seq<u64> {
    videos.map_values(|v: VideoFile| v.size)
}

/// The positions, in increasing order, of the names that hold the query (every name when the
/// query is empty).
pub open spec fn matching(names: Seq<Seq<char>>, query: Seq<char>) -> Seq<usize>
    decreases names.len(),
{
    if names.len() == 0 {
        Seq::empty()
    } else if query.len() == 0 || contains_text(names.last(), query) {
        matching(names.drop_last(), query).push((names.len() - 1) as usize)
    } else {
        matching(names.drop_last(), query)
    }
}

/// Whether the time `a` is later than `b`, a missing time being the earliest.
pub open spec fn later_time(a: Option<i128>, b: Option<i128>) -> bool {
    match (a, b) {
        (Some(x), Some(y)) => x > y,
        (Some(_), None) => true,
        _ => false,
    }
}

/// Whether video `a` is listed before video `b` in the overview: by name (lower case, in string
/// order), by size (largest first) or by modification time (latest first, then by name);
/// videos that tie keep their order.
pub open spec fn listed_before(
    mode: SortMode,
    names: Seq<Seq<char>>,
    sizes: Seq<u64>,
    times: Seq<Option<i128>>,
    a: int,
    b: int,
) -> bool {
    let by_name = seq_less(names[a], names[b]) || (names[a] == names[b] && a < b);
    match mode {
        SortMode::Name => by_name,
        SortMode::Size => sizes[a] > sizes[b] || (sizes[a] == sizes[b] && a < b),
        SortMode::Date => later_time(times[a], times[b]) || (times[a] == times[b] && by_name),
    }
}

/// Each video of the list is listed before the next one.
pub open spec fn listed_in_order(
    mode: SortMode,
    names: Seq<Seq<char>>,
    sizes: Seq<u64>,
    times: Seq<Option<i128>>,
    v: Seq<usize>,
    m: int,
) -> bool {
    forall|k: int| 0 <= k < m - 1 ==> #[trigger] listed_before(mode, names, sizes, times, v[k] as int, v[k + 1] as int)
}

proof fn lemma_listed_total(mode: SortMode, names: Seq<Seq<char>>, sizes: Seq<u64>, times: Seq<Option<i128>>, a: int, b: int)
    requires
        a != b,
    ensures
        listed_before(mode, names, sizes, times, a, b) || listed_before(mode, names, sizes, times, b, a),
{
    if names[a] != names[b] {
        lemma_seq_less_total(names[a], names[b]);
    }
}

proof fn lemma_matching_facts(names: Seq<Seq<char>>, query: Seq<char>)
    requires
        names.len() <= usize::MAX,
    ensures
        forall|k: int| 0 <= k < matching(names, query).len() ==> (#[trigger] matching(names, query)[k]) < names.len(),
        forall|p: int, q: int| 0 <= p < q < matching(names, query).len() ==> matching(names, query)[p] < matching(names, query)[q],
        matching(names, query).len() <= names.len(),
    decreases names.len(),
{
    if names.len() > 0 {
        let p = names.drop_last();
        lemma_matching_facts(p, query);
        let m = matching(p, query);
        if query.len() == 0 || contains_text(names.last(), query) {
            let w = m.push((names.len() - 1) as usize);
            assert forall|a: int, b: int| 0 <= a < b < w.len() implies w[a] < w[b] by {
                if b == w.len() - 1 {
                    assert(w[a] == m[a]);
                } else {
                    assert(w[a] == m[a] && w[b] == m[b]);
                }
            }
            assert forall|k: int| 0 <= k < w.len() implies (#[trigger] w[k]) < names.len() by {
                if k < m.len() {
                    assert(w[k] == m[k]);
                }
            }
        }
    }
}

/// Whether `needle` appears in `hay` as a run of consecutive characters.
pub open spec fn occurs_in(hay: Seq<char>, needle: Seq<char>) -> bool {
    exists|k: int, j: int| 0 <= k && k + needle.len() == j && j <= hay.len() && #[trigger] hay.subrange(k, j) == needle
}

/// A position is listed exactly when its name holds the query somewhere (at its start or
/// anywhere else), or the query is empty; positions past the names are never listed.
pub proof fn law_listed_iff_name_holds_query(names: Seq<Seq<char>>, query: Seq<char>, i: usize)
    requires
        names.len() <= usize::MAX,
    ensures
        i < names.len() ==> (matching(names, query).contains(i) <==> (query.len() == 0 || occurs_in(names[i as int], query))),
        i >= names.len() ==> !matching(names, query).contains(i),
    decreases names.len(),
{
    if names.len() > 0 {
        let p = names.drop_last();
        law_listed_iff_name_holds_query(p, query, i);
        lemma_matching_facts(p, query);
        let m = matching(p, query);
        let last = names.last();
        let holds = query.len() == 0 || contains_text(last, query);
        assert(contains_text(last, query) <==> occurs_in(last, query)) by {
            if contains_text(last, query) {
                let k = choose|k: int| 0 <= k <= last.len() - query.len() && #[trigger] last.subrange(k, k + query.len()) == query;
                assert(last.subrange(k, k + query.len()) == query);
            }
            if occurs_in(last, query) {
                let (k, j) = choose|k: int, j: int| 0 <= k && k + query.len() == j && j <= last.len() && #[trigger] last.subrange(k, j) == query;
                assert(last.subrange(k, k + query.len()) == query);
            }
        }
        if holds {
            let w = m.push((names.len() - 1) as usize);
            assert(w[w.len() - 1] == (names.len() - 1) as usize);
            if i < p.len() {
                assert(names[i as int] == p[i as int]);
                if m.contains(i) {
                    let t = choose|t: int| 0 <= t < m.len() && m[t] == i;
                    assert(w[t] == i);
                }
                if w.contains(i) {
                    let t = choose|t: int| 0 <= t < w.len() && w[t] == i;
                    if t < m.len() {
                        assert(m[t] == w[t]);
                    }
                }
            } else if i == p.len() {
                assert(w.contains(i));
            } else {
                if w.contains(i) {
                    let t = choose|t: int| 0 <= t < w.len() && w[t] == i;
                    if t < m.len() {
                        assert(m[t] == w[t]);
                    }
                }
            }
        } else {
            if i < p.len() {
                assert(names[i as int] == p[i as int]);
            } else if i == p.len() {
                assert(!m.contains(i)) by {
                    if m.contains(i) {
                        let t = choose|t: int| 0 <= t < m.len() && m[t] == i;
                    }
                }
            }
        }
    }
}

/// Whether `needle` occurs at position `k` of `hay`.
fn occurs_at(hay: &Vec<char>, needle: &Vec<char>, k: usize) -> (r: bool)
    requires
        k + needle.len() <= hay.len(),
    ensures
        r == (hay@.subrange(k as int, k + needle.len()) == needle@),
{
    let mut i: usize = 0;
    while i < needle.len()
        invariant
            i <= needle.len(),
            k + needle.len() <= hay.len(),
            hay@.subrange(k as int, k + i) == needle@.take(i as int),
        decreases needle.len() - i,
    {
        if hay[k + i] != needle[i] {
            assert(hay@.subrange(k as int, k + needle.len())[i as int] != needle@[i as int]);
            return false;
        }
        assert(hay@.subrange(k as int, k + i + 1) =~= hay@.subrange(k as int, k + i).push(hay@[k + i]));
        assert(needle@.take(i + 1) =~= needle@.take(i as int).push(needle@[i as int]));
        i += 1;
    }
    assert(needle@.take(needle.len() as int) =~= needle@);
    true
}

/// Whether `needle` occurs in `hay`.
pub(crate) fn contains_chars(hay: &Vec<char>, needle: &Vec<char>) -> (r: bool)
    ensures
        r == contains_text(hay@, needle@),
{
    if needle.len() > hay.len() {
        return false;
    }
    let last = hay.len() - needle.len();
    let mut k: usize = 0;
    loop
        invariant
            needle.len() <= hay.len(),
            last == hay.len() - needle.len(),
            k <= last,
            forall|p: int| 0 <= p < k ==> #[trigger] hay@.subrange(p, p + needle@.len()) != needle@,
        decreases last - k,
    {
        if occurs_at(hay, needle, k) {
            return true;
        }
        if k == last {
            return false;
        }
        k += 1;
    }
}

/// Whether the time `a` is later than `b`.
fn is_later(a: Option<i128>, b: Option<i128>) -> (r: bool)
    ensures
        r == later_time(a, b),
{
    match (a, b) {
        (Some(x), Some(y)) => x > y,
        (Some(_), None) => true,
        _ => false,
    }
}

/// Whether two times are the same.
fn same_time(a: Option<i128>, b: Option<i128>) -> (r: bool)
    ensures
        r == (a == b),
{
    match (a, b) {
        (Some(x), Some(y)) => x == y,
        (None, None) => true,
        _ => false,
    }
}

/// Whether video `a` comes before video `b` (see `listed_before`).
fn comes_before(
    mode: SortMode,
    names: &Vec<String>,
    videos: &[VideoFile],
    times: &[Option<i128>],
    a: usize,
    b: usize,
) -> (r: bool)
    requires
        a < names.len(),
        b < names.len(),
        names@.len() == videos@.len(),
        times@.len() == videos@.len(),
    ensures
        r == listed_before(
            mode,
            names@.map_values(|s: String| s@),
            video_sizes(videos@),
            times@,
            a as int,
            b as int,
        ),
{
    let ghost nv = names@.map_values(|s: String| s@);
    let by_name = str_less(names[a].as_str(), names[b].as_str()) || (names[a] == names[b] && a < b);
    assert(by_name == (seq_less(nv[a as int], nv[b as int]) || (nv[a as int] == nv[b as int] && a < b)));
    match mode {
        SortMode::Name => by_name,
        SortMode::Size => videos[a].size > videos[b].size || (videos[a].size == videos[b].size && a < b),
        SortMode::Date => is_later(times[a], times[b]) || (same_time(times[a], times[b]) && by_name),
    }
}

proof fn lemma_insert_multiset(before: Seq<usize>, removed: Seq<usize>, w: Seq<usize>, i: int, j: int, x: usize)
    requires
        0 <= j <= i < before.len(),
        removed == before.remove(i),
        x == before[i],
        w == removed.insert(j, x),
    ensures
        w.to_multiset() == before.to_multiset(),
{
    before.to_multiset_ensures();
    w.to_multiset_ensures();
    assert(w.remove(j) =~= removed);
    assert(w[j] == x);
    assert(w.to_multiset() =~= removed.to_multiset().insert(x));
    assert(before.contains(x)) by {
        assert(before[i] == x);
    }
    assert(w.to_multiset() =~= before.to_multiset());
}

#[verifier::rlimit(40)]
#[verifier::spinoff_prover]
proof fn lemma_insert_in_order(
    mode: SortMode,
    names: Seq<Seq<char>>,
    sizes: Seq<u64>,
    times: Seq<Option<i128>>,
    before: Seq<usize>,
    removed: Seq<usize>,
    w: Seq<usize>,
    i: int,
    j: int,
    x: usize,
)
    requires
        0 <= j <= i < before.len(),
        removed == before.remove(i),
        x == before[i],
        w == removed.insert(j, x),
        forall|p: int, q: int| 0 <= p < q < before.len() ==> before[p] != before[q],
        listed_in_order(mode, names, sizes, times, before, i),
        j > 0 ==> !listed_before(mode, names, sizes, times, x as int, removed[j - 1] as int),
        j < i ==> listed_before(mode, names, sizes, times, x as int, removed[j] as int),
    ensures
        listed_in_order(mode, names, sizes, times, w, i + 1),
        forall|p: int, q: int| 0 <= p < q < w.len() ==> w[p] != w[q],
{
    if j > 0 {
        assert(removed[j - 1] == before[j - 1]);
        assert(before[j - 1] != before[i]);
        lemma_listed_total(mode, names, sizes, times, x as int, removed[j - 1] as int);
    }
    assert forall|k: int| 0 <= k < i implies #[trigger] listed_before(mode, names, sizes, times, w[k] as int, w[k + 1] as int) by {
        if k + 1 < j {
            assert(w[k] == before[k] && w[k + 1] == before[k + 1]);
            assert(listed_before(mode, names, sizes, times, before[k] as int, before[k + 1] as int));
        } else if k + 1 == j {
            assert(w[k] == removed[k] && w[k + 1] == x);
        } else if k == j {
            assert(w[k] == x && w[k + 1] == removed[k]);
        } else {
            let k1 = k - 1;
            assert(w[k] == before[k1] && w[k + 1] == before[k1 + 1]);
            assert(listed_before(mode, names, sizes, times, before[k1] as int, before[k1 + 1] as int));
        }
    }
    assert forall|p: int, q: int| 0 <= p < q < w.len() implies w[p] != w[q] by {
        let bp = if p < j {
            p
        } else if p == j {
            i
        } else if p <= i {
            p - 1
        } else {
            p
        };
        let bq = if q < j {
            q
        } else if q == j {
            i
        } else if q <= i {
            q - 1
        } else {
            q
        };
        assert(w[p] == before[bp]);
        assert(w[q] == before[bq]);
        assert(bp != bq);
    }
}

/// The videos shown in the overview, as positions in `videos`: those whose name holds the
/// search text (both in lower case; all when it is empty), in the order of `mode`.
/// `modified` gives the modification time of each video, when it is known.
pub fn sorted_filtered_indices(videos: &[VideoFile], search: &str, mode: SortMode, modified: &[Option<i128>]) -> (r: Vec<usize>)
    requires
        modified@.len() == videos@.len(),
    ensures
        r@.to_multiset() == matching(lower_names(videos@), lowercase(search@)).to_multiset(),
        listed_in_order(mode, lower_names(videos@), video_sizes(videos@), modified@, r@, r@.len() as int),
        forall|i: usize| #[trigger] r@.contains(i) <==> i < videos@.len() && (lowercase(search@).len() == 0
            || occurs_in(lowercase(videos@[i as int].filename@), lowercase(search@))),
{
    let ghost all = lower_names(videos@);
    let query = to_lowercase(search);
    let qv = chars_of(query.as_str());
    let mut names: Vec<String> = Vec::new();
    let mut list: Vec<usize> = Vec::new();
    let mut i: usize = 0;
    while i < videos.len()
        invariant
            i <= videos.len(),
            all == lower_names(videos@),
            qv@ == lowercase(search@),
            names@.len() == i,
            forall|k: int| 0 <= k < i ==> (#[trigger] names@[k])@ == all[k],
            list@ == matching(all.take(i as int), qv@),
        decreases videos.len() - i,
    {
        let lower = to_lowercase(videos[i].filename.as_str());
        let lv = chars_of(lower.as_str());
        assert(all.take(i + 1).drop_last() == all.take(i as int));
        assert(all.take(i + 1).last() == lower@);
        if qv.len() == 0 || contains_chars(&lv, &qv) {
            list.push(i);
        }
        names.push(lower);
        i += 1;
    }
    assert(all.take(videos.len() as int) == all);
    assert(names@.map_values(|s: String| s@) =~= all);
    proof {
        lemma_matching_facts(all, qv@);
    }
    let ghost sizes = video_sizes(videos@);
    let ghost times = modified@;
    let ghost filtered = list@;
    let n = list.len();
    if n == 0 {
        proof {
            lemma_listed_positions(list@, videos@, lowercase(search@));
        }
        return list;
    }
    let mut s: usize = 1;
    while s < n
        invariant
            1 <= s <= n,
            list@.len() == n,
            names@.len() == videos@.len(),
            names@.map_values(|x: String| x@) == all,
            all == lower_names(videos@),
            sizes == video_sizes(videos@),
            times == modified@,
            modified@.len() == videos@.len(),
            list@.to_multiset() == filtered.to_multiset(),
            forall|k: int| 0 <= k < n ==> (#[trigger] list@[k]) < videos@.len(),
            forall|p: int, q: int| 0 <= p < q < n ==> list@[p] != list@[q],
            listed_in_order(mode, all, sizes, times, list@, s as int),
        decreases n - s,
    {
        let ghost before = list@;
        let x = list.remove(s);
        let ghost removed = list@;
        assert(removed =~= before.remove(s as int));
        assert(x == before[s as int]);
        let mut j: usize = s;
        while j > 0 && comes_before(mode, &names, videos, modified, x, list[j - 1])
            invariant
                0 <= j <= s,
                s < n,
                list@ == removed,
                removed.len() == n - 1,
                x < videos@.len(),
                names@.len() == videos@.len(),
                modified@.len() == videos@.len(),
                names@.map_values(|y: String| y@) == all,
                sizes == video_sizes(videos@),
                times == modified@,
                forall|k: int| 0 <= k < n - 1 ==> (#[trigger] removed[k]) < videos@.len(),
                j < s ==> listed_before(mode, all, sizes, times, x as int, removed[j as int] as int),
            decreases j,
        {
            j -= 1;
        }
        list.insert(j, x);
        proof {
            lemma_insert_multiset(before, removed, list@, s as int, j as int, x);
            lemma_insert_in_order(mode, all, sizes, times, before, removed, list@, s as int, j as int, x);
            assert forall|k: int| 0 <= k < n implies (#[trigger] list@[k]) < videos@.len() by {
                if k < j {
                    assert(list@[k] == removed[k]);
                } else if k > j {
                    assert(list@[k] == removed[k - 1]);
                }
            }
        }
        s += 1;
    }
    proof {
        lemma_listed_positions(list@, videos@, lowercase(search@));
    }
    list
}

proof fn lemma_listed_positions(list: Seq<usize>, videos: Seq<VideoFile>, q: Seq<char>)
    requires
        videos.len() <= usize::MAX,
        list.to_multiset() == matching(lower_names(videos), q).to_multiset(),
    ensures
        forall|i: usize| #[trigger] list.contains(i) <==> i < videos.len() && (q.len() == 0
            || occurs_in(lowercase(videos[i as int].filename@), q)),
{
    let all = lower_names(videos);
    let m = matching(all, q);
    assert forall|i: usize| #[trigger] list.contains(i) <==> i < videos.len() && (q.len() == 0
        || occurs_in(lowercase(videos[i as int].filename@), q)) by {
        vstd::seq_lib::to_multiset_contains(list, i);
        vstd::seq_lib::to_multiset_contains(m, i);
        law_listed_iff_name_holds_query(all, q, i);
        if i < videos.len() {
            assert(all[i as int] == lowercase(videos[i as int].filename@));
        }
    }
}

} // verus!
