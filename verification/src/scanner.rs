use std::cmp::Ordering;
use vstd::prelude::*;

use crate::config::VideoFile;
use crate::natord::{compare_ignore_case, flipped, law_natural_order_antisymmetric, natural_order_ignore_case, pos};
use crate::paths::{join_path, joined_path};
use crate::text::{decimal, decimal_chars, lowercase, push_str_chars, string_of, to_lowercase};

verus! {

/// Whether an ordering says "greater".
fn is_greater(o: Ordering) -> (r: bool)
    ensures
        r == (o == Ordering::Greater),
{
    match o {
        Ordering::Greater => true,
        _ => false,
    }
}

proof fn lemma_insert_remove_multiset(
    before: Seq<VideoFile>,
    removed: Seq<VideoFile>,
    w: Seq<VideoFile>,
    i: int,
    j: int,
    x: VideoFile,
)
    requires
        0 <= j <= i < before.len(),
        removed == before.remove(i),
        x == before[i],
        w == removed.insert(j, x),
    ensures
        w.to_multiset() == before.to_multiset(),
{
    before.to_multiset_ensures();
    w.to_multiset_ensures();
    assert(w.remove(j) =~= removed);
    assert(w[j] == x);
    assert(w.to_multiset() =~= removed.to_multiset().insert(x));
    assert(before.contains(x)) by {
        assert(before[i] == x);
    }
    assert(w.to_multiset() =~= before.to_multiset());
}

/// The first `n` videos are in natural order of their names.
pub open spec fn sorted_prefix(v: Seq<VideoFile>, n: int) -> bool {
    forall|k: int|
        0 <= k < n - 1 ==> natural_order_ignore_case(#[trigger] v[k].filename@, v[k + 1].filename@)
            != Ordering::Greater
}

#[verifier::rlimit(40)]
#[verifier::spinoff_prover]
proof fn lemma_insert_keeps_order(
    before: Seq<VideoFile>,
    removed: Seq<VideoFile>,
    w: Seq<VideoFile>,
    i: int,
    j: int,
    x: VideoFile,
)
    requires
        0 <= j <= i < before.len(),
        removed.len() == before.len() - 1,
        forall|k: int| 0 <= k < i ==> #[trigger] removed[k] == before[k],
        w.len() == before.len(),
        forall|k: int| 0 <= k < j ==> #[trigger] w[k] == removed[k],
        w[j] == x,
        forall|k: int| j < k <= i ==> #[trigger] w[k] == removed[k - 1],
        sorted_prefix(before, i),
        j > 0 ==> natural_order_ignore_case(removed[j - 1].filename@, x.filename@) != Ordering::Greater,
        j < i ==> natural_order_ignore_case(removed[j].filename@, x.filename@) == Ordering::Greater,
    ensures
        sorted_prefix(w, i + 1),
{
    assert forall|k: int| 0 <= k < i implies natural_order_ignore_case(
        #[trigger] w[k].filename@,
        w[k + 1].filename@,
    ) != Ordering::Greater by {
        if k + 1 < j {
            assert(w[k] == before[k] && w[k + 1] == before[k + 1]);
        } else if k + 1 == j {
        } else if k == j {
            law_natural_order_antisymmetric(removed[k].filename@, x.filename@);
        } else {
            assert(w[k] == before[k - 1] && w[k + 1] == before[k]);
        }
    }
}

/// `after` is `before` rearranged by `perm` (position `k` of `after` holds video `perm[k]` of
/// `before`), and two videos change their relative order only when the one that came first has
/// a name greater than the other's.
pub open spec fn stable_arrangement(before: Seq<VideoFile>, after: Seq<VideoFile>, perm: Seq<int>) -> bool {
    &&& perm.len() == before.len()
    &&& after.len() == before.len()
    &&& forall|k: int| 0 <= k < perm.len() ==> 0 <= #[trigger] perm[k] < before.len() && after[k] == before[perm[k]]
    &&& forall|p: int, q: int| 0 <= p < q < perm.len() ==> #[trigger] perm[p] != #[trigger] perm[q]
    &&& forall|p: int, q: int|
        0 <= p < q < perm.len() && #[trigger] perm[p] > #[trigger] perm[q] ==> natural_order_ignore_case(
            before[perm[q]].filename@,
            before[perm[p]].filename@,
        ) == Ordering::Greater
}

#[verifier::rlimit(60)]
#[verifier::spinoff_prover]
proof fn lemma_stable_step(
    orig: Seq<VideoFile>,
    cur: Seq<VideoFile>,
    removed: Seq<VideoFile>,
    w: Seq<VideoFile>,
    perm: Seq<int>,
    i: int,
    j: int,
    x: VideoFile,
) -> (perm2: Seq<int>)
    requires
        0 <= j <= i < cur.len(),
        stable_arrangement(orig, cur, perm),
        forall|k: int| i <= k < perm.len() ==> #[trigger] perm[k] == k,
        forall|k: int| 0 <= k < i ==> #[trigger] perm[k] < i,
        removed == cur.remove(i),
        x == cur[i],
        w == removed.insert(j, x),
        forall|k: int| j <= k < i ==> natural_order_ignore_case(#[trigger] removed[k].filename@, x.filename@)
            == Ordering::Greater,
    ensures
        perm2 == perm.remove(i).insert(j, i),
        stable_arrangement(orig, w, perm2),
        forall|k: int| i < k < perm2.len() ==> #[trigger] perm2[k] == k,
        forall|k: int| 0 <= k <= i ==> #[trigger] perm2[k] <= i,
{
    let perm2 = perm.remove(i).insert(j, i);
    assert(perm[i] == i);
    assert forall|k: int| 0 <= k < perm2.len() implies 0 <= #[trigger] perm2[k] < orig.len() && w[k] == orig[perm2[k]] by {
        if k < j {
            assert(perm2[k] == perm[k] && w[k] == cur[k]);
        } else if k == j {
            assert(perm2[k] == i && w[k] == x);
        } else if k <= i {
            assert(perm2[k] == perm[k - 1] && w[k] == cur[k - 1]);
        } else {
            assert(perm2[k] == perm[k] && w[k] == cur[k]);
        }
    }
    assert forall|k: int| 0 <= k <= i implies #[trigger] perm2[k] <= i by {
        if k < j {
            assert(perm2[k] == perm[k]);
        } else if k > j {
            assert(perm2[k] == perm[k - 1]);
        }
    }
    assert forall|k: int| i < k < perm2.len() implies #[trigger] perm2[k] == k by {
        assert(perm2[k] == perm[k]);
    }
    assert forall|p: int, q: int| 0 <= p < q < perm2.len() implies #[trigger] perm2[p] != #[trigger] perm2[q] by {
        let bp = if p < j { p } else if p == j { i } else if p <= i { p - 1 } else { p };
        let bq = if q < j { q } else if q == j { i } else if q <= i { q - 1 } else { q };
        assert(perm2[p] == perm[bp]);
        assert(perm2[q] == perm[bq]);
        assert(bp != bq);
    }
    assert forall|p: int, q: int|
        0 <= p < q < perm2.len() && #[trigger] perm2[p] > #[trigger] perm2[q] implies natural_order_ignore_case(
            orig[perm2[q]].filename@,
            orig[perm2[p]].filename@,
        ) == Ordering::Greater by {
        let bp = if p < j { p } else if p == j { i } else if p <= i { p - 1 } else { p };
        let bq = if q < j { q } else if q == j { i } else if q <= i { q - 1 } else { q };
        assert(perm2[p] == perm[bp]);
        assert(perm2[q] == perm[bq]);
        if p == j {
            if q <= i {
                assert(removed[q - 1] == cur[q - 1]);
                assert(natural_order_ignore_case(removed[q - 1].filename@, x.filename@) == Ordering::Greater);
                assert(cur[q - 1] == orig[perm[q - 1]]);
                assert(x == orig[perm[i]]);
            } else {
                assert(perm[q] == q);
            }
        } else if q == j {
            assert(bp < i);
            assert(perm[bp] < i);
        } else {
            assert(bp < bq);
        }
    }
    perm2
}

/// Sorts the videos by the natural order of their names, ignoring case. The sort is stable:
/// a video only moves before the ones whose names are greater.
#[verifier::rlimit(60)]
pub fn sort_videos_by_name(videos: &mut Vec<VideoFile>)
    ensures
        final(videos)@.to_multiset() == old(videos)@.to_multiset(),
        sorted_prefix(final(videos)@, final(videos)@.len() + 0int),
        exists|perm: Seq<int>| stable_arrangement(old(videos)@, final(videos)@, perm),
{
    let n = videos.len();
    let mut i: usize = 1;
    let ghost mut perm: Seq<int> = Seq::new(videos@.len(), |k: int| k);
    assert(stable_arrangement(old(videos)@, videos@, perm));
    if n == 0 {
        return;
    }
    while i < n
        invariant
            1 <= i <= n,
            videos@.len() == n,
            videos@.to_multiset() == old(videos)@.to_multiset(),
            sorted_prefix(videos@, pos(i)),
            stable_arrangement(old(videos)@, videos@, perm),
            forall|k: int| pos(i) <= k < perm.len() ==> #[trigger] perm[k] == k,
            forall|k: int| 0 <= k < pos(i) ==> #[trigger] perm[k] < pos(i),
        decreases n - i,
    {
        let ghost before = videos@;
        let x = videos.remove(i);
        let ghost removed = videos@;
        assert(removed =~= before.remove(pos(i)));
        let mut j: usize = i;
        while j > 0 && is_greater(compare_ignore_case(videos[j - 1].filename.as_str(), x.filename.as_str()))
            invariant
                0 <= j <= i,
                i < n,
                videos@ == removed,
                removed.len() == n - 1,
                x == before[pos(i)],
                forall|k: int| pos(j) <= k < pos(i) ==> natural_order_ignore_case(
                    #[trigger] removed[k].filename@,
                    x.filename@,
                ) == Ordering::Greater,
            decreases j,
        {
            j -= 1;
        }
        videos.insert(j, x);
        proof {
            lemma_insert_remove_multiset(before, removed, videos@, pos(i), pos(j), x);
            lemma_insert_keeps_order(before, removed, videos@, pos(i), pos(j), x);
            perm = lemma_stable_step(old(videos)@, before, removed, videos@, perm, pos(i), pos(j), x);
        }
        i += 1;
    }

}

} // verus!

verus! {

/// The extensions (lower case) of the files that count as videos.
pub open spec fn video_extensions() -> Seq<Seq<char>> {
    seq![
        "mp4"@,
        "mkv"@,
        "avi"@,
        "mov"@,
        "flv"@,
        "webm"@,
        "ts"@,
        "m4v"@,
        "wmv"@,
        "mpg"@,
        "mpeg"@,
        "3gp"@,
        "ogv"@,
    ]
}

/// Whether a file with extension `ext` is a video: its lower-case form is one of the video
/// extensions. Returns the lower-case form too.
pub fn video_extension(ext: &str) -> (r: (bool, String))
    ensures
        r.1@ == lowercase(ext@),
        r.0 == video_extensions().contains(lowercase(ext@)),
{
    let lower = to_lowercase(ext);
    let known: [&str; 13] = ["mp4", "mkv", "avi", "mov", "flv", "webm", "ts", "m4v", "wmv", "mpg", "mpeg", "3gp", "ogv"];
    let ghost known_views = seq![
        known[0]@, known[1]@, known[2]@, known[3]@, known[4]@, known[5]@, known[6]@, known[7]@,
        known[8]@, known[9]@, known[10]@, known[11]@, known[12]@,
    ];
    assert(known_views =~= video_extensions());
    let mut found = false;
    let mut i: usize = 0;
    while i < 13
        invariant
            i <= 13,
            known_views == video_extensions(),
            forall|k: int| 0 <= k < 13 ==> known_views[k] == (#[trigger] known@[k])@,
            found <==> exists|k: int| 0 <= k < pos(i) && known_views[k] == lower@,
        decreases 13 - i,
    {
        let candidate = String::from_str(known[i]);
        if candidate == lower {
            found = true;
        }
        i += 1;
    }
    proof {
        if found {
            let k = choose|k: int| 0 <= k < 13 && known_views[k] == lower@;
            assert(known_views.contains(lower@));
        } else {
            assert(!known_views.contains(lower@));
        }
    }
    (found, lower)
}

} // verus!
