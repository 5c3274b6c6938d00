use vstd::prelude::*;

use crate::config::{
    compute_digit_count, digit_count_for, parse_video_name, parse_video_stem, FolderProgress,
    VideoFile,
};
use crate::text::{lemma_seq_less_asymmetric, lemma_seq_less_total, lemma_seq_less_transitive, seq_less, str_less};

verus! {

/// The file stems of the videos.
pub open spec fn filenames(videos: Seq<VideoFile>) -> Seq<Seq<char>> {
    videos.map_values(|v: VideoFile| v.filename@)
}

/// The identifier a labelled file stem carries, if it reads as one.
pub open spec fn parsed_identifier(name: Seq<char>) -> Option<Seq<char>> {
    match parse_video_stem(name) {
        Some((id, _n, _labels, _starred)) => Some(id),
        None => None,
    }
}

/// How many of the names carry the identifier `id`.
pub open spec fn identifier_count(names: Seq<Seq<char>>, id: Seq<char>) -> nat
    decreases names.len(),
{
    if names.len() == 0 {
        0
    } else {
        identifier_count(names.drop_last(), id) + if parsed_identifier(names.last()) == Some(id) {
            1nat
        } else {
            0nat
        }
    }
}

/// The largest video number among the names that carry the identifier `id`.
pub open spec fn max_number_for(names: Seq<Seq<char>>, id: Seq<char>) -> Option<nat>
    decreases names.len(),
{
    if names.len() == 0 {
        None
    } else {
        let rest = max_number_for(names.drop_last(), id);
        match parse_video_stem(names.last()) {
            Some((pid, n, _labels, _starred)) => if pid == id {
                match rest {
                    Some(m) => Some(if m > n { m } else { n }),
                    None => Some(n),
                }
            } else {
                rest
            },
            None => rest,
        }
    }
}

proof fn lemma_identifier_count_bound(names: Seq<Seq<char>>, id: Seq<char>)
    ensures
        identifier_count(names, id) <= names.len(),
    decreases names.len(),
{
    if names.len() > 0 {
        lemma_identifier_count_bound(names.drop_last(), id);
    }
}

proof fn lemma_identifier_count_none(names: Seq<Seq<char>>, id: Seq<char>)
    requires
        forall|k: int| 0 <= k < names.len() ==> parsed_identifier(#[trigger] names[k]) != Some(id),
    ensures
        identifier_count(names, id) == 0,
    decreases names.len(),
{
    if names.len() > 0 {
        lemma_identifier_count_none(names.drop_last(), id);
    }
}

/// The identifier that most of the videos' names carry; among identifiers carried equally
/// often, the greatest in string order. `None` when no name carries an identifier.
pub fn detect_identifier_from_filenames(videos: &[VideoFile]) -> (r: Option<String>)
    ensures
        r is None <==> forall|k: int|
            0 <= k < videos@.len() ==> parsed_identifier(#[trigger] filenames(videos@)[k]) is None,
        r matches Some(id) ==> identifier_count(filenames(videos@), id@) > 0 && forall|other: Seq<char>|
            #[trigger] identifier_count(filenames(videos@), other) > 0 ==> identifier_count(
                filenames(videos@),
                other,
            ) < identifier_count(filenames(videos@), id@) || (identifier_count(
                filenames(videos@),
                other,
            ) == identifier_count(filenames(videos@), id@) && !seq_less(id@, other)),
{
    let ghost names = filenames(videos@);
    let mut ids: Vec<String> = Vec::new();
    let mut counts: Vec<usize> = Vec::new();
    let mut i: usize = 0;
    while i < videos.len()
        invariant
            i <= videos.len(),
            names == filenames(videos@),
            ids.len() == counts.len(),
            forall|j: int| 0 <= j < ids.len() ==> #[trigger] counts@[j] as nat == identifier_count(names.take(i as int), ids@[j]@),
            forall|j: int| 0 <= j < ids.len() ==> #[trigger] counts@[j] > 0,
            forall|j: int, k: int| 0 <= j < k < ids.len() ==> ids@[j]@ != ids@[k]@,
            forall|id: Seq<char>| #[trigger] identifier_count(names.take(i as int), id) > 0 ==> exists|j: int| 0 <= j < ids.len() && ids@[j]@ == id,
            ids.len() == 0 <==> forall|k: int| 0 <= k < i ==> parsed_identifier(#[trigger] names[k]) is None,
        decreases videos.len() - i,
    {
        let ghost prev = names.take(i as int);
        let ghost next = names.take(i + 1);
        assert(next.drop_last() == prev);
        assert(next.last() == names[i as int]);
        assert(names[i as int] == videos@[i as int].filename@);
        proof {
            lemma_identifier_count_bound(prev, names[i as int]);
            assert forall|j: int| 0 <= j < ids.len() implies #[trigger] counts@[j] < usize::MAX by {
                lemma_identifier_count_bound(prev, ids@[j]@);
            }
        }
        let ghost old_ids = ids@;
        match parse_video_name(videos[i].filename.as_str()) {
            Some(p) => {
                assert(parsed_identifier(names[i as int]) == Some(p.identifier@));
                let mut j: usize = 0;
                while j < ids.len() && ids[j] != p.identifier
                    invariant
                        j <= ids.len(),
                        forall|k: int| 0 <= k < j ==> ids@[k]@ != p.identifier@,
                    decreases ids.len() - j,
                {
                    j += 1;
                }
                if j < ids.len() {
                    let c = counts[j];
                    counts.set(j, c + 1);
                } else {
                    ids.push(p.identifier);
                    counts.push(1);
                    assert(identifier_count(prev, ids@[j as int]@) == 0) by {
                        if identifier_count(prev, ids@[j as int]@) > 0 {
                            let k = choose|k: int| 0 <= k < j && ids@[k]@ == ids@[j as int]@;
                        }
                    }
                }
                assert forall|id: Seq<char>| #[trigger] identifier_count(next, id) > 0 implies exists|k: int| 0 <= k < ids.len() && ids@[k]@ == id by {
                    if id == p.identifier@ {
                        assert(ids@[j as int]@ == id);
                    } else {
                        assert(identifier_count(prev, id) > 0);
                        let k = choose|k: int| 0 <= k < old_ids.len() && old_ids[k]@ == id;
                        assert(ids@[k] == old_ids[k]);
                    }
                }
            },
            None => {
                assert(parsed_identifier(names[i as int]) is None);
                assert forall|id: Seq<char>| #[trigger] identifier_count(next, id) > 0 implies exists|k: int| 0 <= k < ids.len() && ids@[k]@ == id by {
                    assert(identifier_count(prev, id) > 0);
                }
            },
        }
        i += 1;
    }
    assert(names.take(videos.len() as int) == names);
    if ids.len() == 0 {
        return None;
    }
    let mut best: usize = 0;
    let mut j: usize = 1;
    proof {
        lemma_seq_less_asymmetric(ids@[0]@, ids@[0]@);
    }
    while j < ids.len()
        invariant
            1 <= j <= ids.len(),
            best < j,
            ids.len() == counts.len(),
            forall|k: int, l: int| 0 <= k < l < ids.len() ==> ids@[k]@ != ids@[l]@,
            forall|k: int| 0 <= k < j ==> #[trigger] counts@[k] < counts@[best as int] || (counts@[k]
                == counts@[best as int] && !seq_less(ids@[best as int]@, ids@[k]@)),
        decreases ids.len() - j,
    {
        let better = counts[j] > counts[best] || (counts[j] == counts[best] && str_less(
            ids[best].as_str(),
            ids[j].as_str(),
        ));
        if better {
            proof {
                assert forall|k: int| 0 <= k <= j implies #[trigger] counts@[k] < counts@[j as int] || (
                counts@[k] == counts@[j as int] && !seq_less(ids@[j as int]@, ids@[k]@)) by {
                    if k < j && counts@[k] == counts@[j as int] {
                        if k == best as int {
                            lemma_seq_less_asymmetric(ids@[k]@, ids@[j as int]@);
                        } else {
                            lemma_seq_less_total(ids@[k]@, ids@[best as int]@);
                            lemma_seq_less_transitive(ids@[k]@, ids@[best as int]@, ids@[j as int]@);
                            lemma_seq_less_asymmetric(ids@[k]@, ids@[j as int]@);
                        }
                    }
                    if k == j {
                        lemma_seq_less_asymmetric(ids@[k]@, ids@[k]@);
                    }
                }
            }
            best = j;
        }
        j += 1;
    }
    let id = ids[best].clone();
    assert forall|other: Seq<char>| #[trigger] identifier_count(names, other) > 0 implies identifier_count(
        names,
        other,
    ) < identifier_count(names, id@) || (identifier_count(names, other) == identifier_count(names, id@)
        && !seq_less(id@, other)) by {
        let k = choose|k: int| 0 <= k < ids.len() && ids@[k]@ == other;
        assert(counts@[k] as nat == identifier_count(names, other));
        assert(counts@[best as int] as nat == identifier_count(names, id@));
    }
    assert(counts@[best as int] > 0);
    Some(id)
}

} // verus!

verus! {

proof fn lemma_max_number_bound(names: Seq<Seq<char>>, id: Seq<char>)
    ensures
        max_number_for(names, id) matches Some(m) ==> m <= usize::MAX,
    decreases names.len(),
{
    if names.len() > 0 {
        lemma_max_number_bound(names.drop_last(), id);
    }
}

/// Whether the file stem `name` reads as a labelled name with identifier `id` and number `n`,
/// starred or not.
pub open spec fn carries(name: Seq<char>, id: Seq<char>, n: nat) -> bool {
    exists|labels: Seq<Seq<char>>, starred: bool| parse_video_stem(name) == Some((id, n, labels, starred))
}

/// The number found for an identifier is the largest number among all the names that carry
/// it, starred ones included: every such name's number is at most it, and some name has it.
/// There is none exactly when no name carries the identifier.
pub proof fn law_max_number_is_the_largest(names: Seq<Seq<char>>, id: Seq<char>)
    ensures
        forall|k: int, n: nat| 0 <= k < names.len() && #[trigger] carries(names[k], id, n)
            ==> (max_number_for(names, id) matches Some(m) && n <= m),
        max_number_for(names, id) matches Some(m) ==> exists|k: int| 0 <= k < names.len() && #[trigger] carries(names[k], id, m),
        max_number_for(names, id) is None <==> forall|k: int, n: nat| 0 <= k < names.len() ==> !#[trigger] carries(names[k], id, n),
    decreases names.len(),
{
    if names.len() > 0 {
        let rest = names.drop_last();
        law_max_number_is_the_largest(rest, id);
        let last = names.last();
        assert forall|k: int, n: nat| 0 <= k < names.len() && #[trigger] carries(names[k], id, n)
            implies (max_number_for(names, id) matches Some(m) && n <= m) by {
            if k < rest.len() {
                assert(names[k] == rest[k]);
                assert(carries(rest[k], id, n));
            } else {
                let (labels, starred) = choose|labels: Seq<Seq<char>>, starred: bool| parse_video_stem(last) == Some((id, n, labels, starred));
            }
        }
        if let Some(m) = max_number_for(names, id) {
            match parse_video_stem(last) {
                Some((pid, n, labels, starred)) => {
                    if pid == id && (max_number_for(rest, id) is None || n >= max_number_for(rest, id)->Some_0) {
                        assert(carries(names[names.len() - 1], id, m));
                    } else {
                        let k = choose|k: int| 0 <= k < rest.len() && #[trigger] carries(rest[k], id, m);
                        assert(names[k] == rest[k]);
                    }
                },
                None => {
                    let k = choose|k: int| 0 <= k < rest.len() && #[trigger] carries(rest[k], id, m);
                    assert(names[k] == rest[k]);
                },
            }
        }
        if max_number_for(names, id) is None {
            assert forall|k: int, n: nat| 0 <= k < names.len() implies !#[trigger] carries(names[k], id, n) by {
                if k < rest.len() {
                    assert(names[k] == rest[k]);
                } else if carries(names[k], id, n) {
                    let (labels, starred) = choose|labels: Seq<Seq<char>>, starred: bool| parse_video_stem(last) == Some((id, n, labels, starred));
                }
            }
        }
    }
}

/// The largest number among the videos whose name carries `identifier`, with the number of
/// videos; `None` when no name carries it.
pub fn detect_progress_from_filenames(videos: &[VideoFile], identifier: &str) -> (r: Option<(usize, usize)>)
    ensures
        r == match max_number_for(filenames(videos@), identifier@) {
            Some(m) => Some((m as usize, videos@.len() as usize)),
            None => None::<(usize, usize)>,
        },
        forall|k: int, n: nat| 0 <= k < videos@.len() && #[trigger] carries(filenames(videos@)[k], identifier@, n)
            ==> (r matches Some((m, c)) && n <= m && c == videos@.len()),
{
    let ghost names = filenames(videos@);
    let wanted = String::from_str(identifier);
    let mut max_index: Option<usize> = None;
    let mut i: usize = 0;
    while i < videos.len()
        invariant
            i <= videos.len(),
            names == filenames(videos@),
            wanted@ == identifier@,
            match max_number_for(names.take(i as int), identifier@) {
                Some(m) => max_index == Some(m as usize) && m <= usize::MAX,
                None => max_index is None,
            },
        decreases videos.len() - i,
    {
        let ghost prev = names.take(i as int);
        assert(names.take(i + 1).drop_last() == prev);
        assert(names.take(i + 1).last() == videos@[i as int].filename@);
        proof {
            lemma_max_number_bound(prev, identifier@);
        }
        let ghost name = videos@[i as int].filename@;
        assert(max_number_for(names.take(i + 1), identifier@) == {
            let rest = max_number_for(prev, identifier@);
            match parse_video_stem(name) {
                Some((pid, n, _labels, _starred)) => if pid == identifier@ {
                    match rest {
                        Some(m) => Some(if m > n { m } else { n }),
                        None => Some(n),
                    }
                } else {
                    rest
                },
                None => rest,
            }
        });
        match parse_video_name(videos[i].filename.as_str()) {
            Some(p) => {
                if p.identifier == wanted {
                    max_index = match max_index {
                        Some(m) => Some(if m > p.index { m } else { p.index }),
                        None => Some(p.index),
                    };
                }
            },
            None => {},
        }
        i += 1;
    }
    assert(names.take(videos.len() as int) == names);
    proof {
        lemma_max_number_bound(names, identifier@);
        law_max_number_is_the_largest(names, identifier@);
    }
    match max_index {
        Some(idx) => Some((idx, videos.len())),
        None => None,
    }
}

/// The progress of a folder whose videos carry `identifier`: numbers of `digit_count_for`
/// digits, and the largest number found among its videos as the count processed (0 if none).
pub open spec fn initial_progress(names: Seq<Seq<char>>, identifier: Seq<char>) -> (Seq<char>, nat, nat, nat) {
    (identifier, digit_count_for(names.len()), match max_number_for(names, identifier) {
        Some(m) => m,
        None => 0,
    }, names.len())
}

/// The progress of a folder scanned for the first time, with the given identifier.
pub fn init_progress(videos: &[VideoFile], identifier: &str) -> (r: FolderProgress)
    ensures
        (r.identifier@, r.digit_count as nat, r.last_processed as nat, r.video_count as nat)
            == initial_progress(filenames(videos@), identifier@),
{
    let digit_count = compute_digit_count(videos.len());
    proof {
        lemma_max_number_bound(filenames(videos@), identifier@);
    }
    let last_processed = match detect_progress_from_filenames(videos, identifier) {
        Some((idx, _)) => idx,
        None => 0,
    };
    FolderProgress {
        identifier: String::from_str(identifier),
        digit_count,
        last_processed,
        video_count: videos.len(),
    }
}

/// The progress of a folder when it is opened. With a saved progress: the saved identifier,
/// the larger of the saved and the needed digit count, the current number of videos, and the
/// larger of the saved count processed and the largest number found in the names. Without one:
/// a fresh progress under the identifier that most names carry, or `new_identifier` when none
/// carries one.
pub fn init_progress_for_folder(
    saved: Option<FolderProgress>,
    videos: &[VideoFile],
    new_identifier: &str,
) -> (r: FolderProgress)
    ensures
        match saved {
            Some(p) => r.identifier@ == p.identifier@ && r.digit_count as nat == (if p.digit_count
                >= digit_count_for(videos@.len()) {
                p.digit_count as nat
            } else {
                digit_count_for(videos@.len())
            }) && r.video_count == videos@.len() && r.last_processed as nat == match max_number_for(
                filenames(videos@),
                p.identifier@,
            ) {
                Some(m) => if p.last_processed >= m {
                    p.last_processed as nat
                } else {
                    m
                },
                None => p.last_processed as nat,
            },
            None => {
                let chosen = if forall|k: int|
                    0 <= k < videos@.len() ==> parsed_identifier(#[trigger] filenames(videos@)[k]) is None {
                    new_identifier@
                } else {
                    r.identifier@
                };
                &&& (r.identifier@, r.digit_count as nat, r.last_processed as nat, r.video_count as nat)
                    == initial_progress(filenames(videos@), chosen)
                &&& chosen == new_identifier@ || (identifier_count(filenames(videos@), chosen) > 0
                    && forall|other: Seq<char>|
                    #[trigger] identifier_count(filenames(videos@), other) > 0 ==> identifier_count(
                        filenames(videos@),
                        other,
                    ) < identifier_count(filenames(videos@), chosen) || (identifier_count(
                        filenames(videos@),
                        other,
                    ) == identifier_count(filenames(videos@), chosen) && !seq_less(chosen, other)))
            },
        },
{
    let digit_count = compute_digit_count(videos.len());
    match saved {
        Some(p) => {
            let mut progress = p;
            if progress.digit_count < digit_count {
                progress.digit_count = digit_count;
            }
            progress.video_count = videos.len();
            proof {
                lemma_max_number_bound(filenames(videos@), progress.identifier@);
            }
            match detect_progress_from_filenames(videos, progress.identifier.as_str()) {
                Some((last, _)) => {
                    if progress.last_processed < last {
                        progress.last_processed = last;
                    }
                },
                None => {},
            }
            progress
        },
        None => {
            match detect_identifier_from_filenames(videos) {
                Some(id) => init_progress(videos, id.as_str()),
                None => init_progress(videos, new_identifier),
            }
        },
    }
}

/// How many videos carry `identifier` in their name (the videos already labelled).
pub fn count_processed(videos: &[VideoFile], identifier: &str) -> (r: usize)
    ensures
        r as nat == identifier_count(filenames(videos@), identifier@),
{
    let ghost names = filenames(videos@);
    let wanted = String::from_str(identifier);
    let mut count: usize = 0;
    let mut i: usize = 0;
    while i < videos.len()
        invariant
            i <= videos.len(),
            names == filenames(videos@),
            wanted@ == identifier@,
            count as nat == identifier_count(names.take(i as int), identifier@),
            count <= i,
        decreases videos.len() - i,
    {
        assert(names.take(i + 1).drop_last() == names.take(i as int));
        assert(names.take(i + 1).last() == videos@[i as int].filename@);
        let ghost name = videos@[i as int].filename@;
        assert(identifier_count(names.take(i + 1), identifier@) == identifier_count(
            names.take(i as int),
            identifier@,
        ) + if parsed_identifier(name) == Some(identifier@) {
            1nat
        } else {
            0nat
        });
        match parse_video_name(videos[i].filename.as_str()) {
            Some(p) => {
                assert(parsed_identifier(name) == Some(p.identifier@));
                if p.identifier == wanted {
                    count += 1;
                }
            },
            None => {
                assert(parsed_identifier(name) is None);
            },
        }
        i += 1;
    }
    assert(names.take(videos.len() as int) == names);
    count
}

/// Whether video `index` carries `identifier` in its name (it was labelled already).
pub fn is_processed(videos: &[VideoFile], index: usize, identifier: &str) -> (r: bool)
    ensures
        r == (index < videos@.len() && parsed_identifier(videos@[index as int].filename@) == Some(identifier@)),
{
    if index >= videos.len() {
        return false;
    }
    let wanted = String::from_str(identifier);
    match parse_video_name(videos[index].filename.as_str()) {
        Some(p) => p.identifier == wanted,
        None => false,
    }
}

/// Records that video `index` was finished: the progress moves past it, never back.
pub fn mark_processed(progress: &mut FolderProgress, index: usize)
    requires
        index < usize::MAX,
    ensures
        final(progress).last_processed == if old(progress).last_processed > index + 1 {
            old(progress).last_processed as int
        } else {
            index + 1
        },
        final(progress).identifier == old(progress).identifier,
        final(progress).digit_count == old(progress).digit_count,
        final(progress).video_count == old(progress).video_count,
{
    if progress.last_processed < index + 1 {
        progress.last_processed = index + 1;
    }
}

/// The video where sorting resumes: the first one not yet finished, or the last video when all
/// were; none when there are no videos.
pub fn resume_index(progress: &Option<FolderProgress>, video_count: usize) -> (r: Option<usize>)
    ensures
        video_count == 0 ==> r is None,
        video_count > 0 ==> r == Some(({
            let last: int = match progress {
                Some(p) => p.last_processed as int,
                None => 0,
            };
            if last < video_count - 1 {
                last
            } else {
                video_count - 1
            }
        }) as usize),
{
    if video_count == 0 {
        return None;
    }
    let last = match progress {
        Some(p) => p.last_processed,
        None => 0,
    };
    Some(if last < video_count - 1 {
        last
    } else {
        video_count - 1
    })
}

} // verus!
