use vstd::prelude::*;

use crate::overview::{contains_chars, contains_text};
use crate::text::{
    chars_of, find_char, index_of_from, is_white_space, lemma_index_of_from_bounds, lemma_white_run_end, str_eq,
    string_of, white_run_end, white_space,
};

verus! {

/// The first position at or after `i` that is white space (or the length).
pub open spec fn word_end(s: Seq<char>, i: int) -> int
    decreases s.len() - i,
{
    if i < 0 || i >= s.len() {
        s.len() as int
    } else if !white_space(s[i]) {
        word_end(s, i + 1)
    } else {
        i
    }
}

pub proof fn lemma_word_end(s: Seq<char>, i: int)
    requires
        0 <= i <= s.len(),
    ensures
        i <= word_end(s, i) <= s.len(),
        word_end(s, i) < s.len() ==> white_space(s[word_end(s, i)]),
        forall|k: int| i <= k < word_end(s, i) ==> !white_space(s[k]),
        i < s.len() && !white_space(s[i]) ==> word_end(s, i) > i,
    decreases s.len() - i,
{
    if i < s.len() && !white_space(s[i]) {
        lemma_word_end(s, i + 1);
    }
}

/// The words of `s` from position `i` on: the maximal runs of characters that are not white
/// space (`str::split_whitespace`).
pub open spec fn words_from(s: Seq<char>, i: int) -> Seq<Seq<char>>
    decreases s.len() - i,
{
    if i < 0 || i > s.len() {
        Seq::empty()
    } else {
        let a = white_run_end(s, i);
        if a >= s.len() {
            Seq::empty()
        } else {
            let b = word_end(s, a);
            proof {
                lemma_white_run_end(s, i);
                lemma_word_end(s, a);
            }
            if b <= i {
                Seq::empty()
            } else {
                seq![s.subrange(a, b)] + words_from(s, b)
            }
        }
    }
}

/// The words of `s`.
pub open spec fn words(s: Seq<char>) -> Seq<Seq<char>> {
    words_from(s, 0)
}

/// `s` without the commas at its end (`trim_end_matches(',')`).
pub open spec fn without_trailing_commas(s: Seq<char>) -> Seq<char>
    decreases s.len(),
{
    if s.len() > 0 && s.last() == ',' {
        without_trailing_commas(s.drop_last())
    } else {
        s
    }
}

/// The first position of `w` among `ws`, or their number.
pub open spec fn word_position(ws: Seq<Seq<char>>, w: Seq<char>, i: int) -> int
    decreases ws.len() - i,
{
    if i < 0 || i >= ws.len() {
        ws.len() as int
    } else if ws[i] == w {
        i
    } else {
        word_position(ws, w, i + 1)
    }
}

/// What a line of ffmpeg's report gives as the duration: the word after the word
/// `Duration:`, without trailing commas, when the line holds `Duration:` and that word exists.
pub open spec fn duration_in_line(line: Seq<char>) -> Option<Seq<char>> {
    let ws = words(line);
    let p = word_position(ws, "Duration:"@, 0);
    if contains_text(line, "Duration:"@) && p + 1 < ws.len() {
        Some(without_trailing_commas(ws[p + 1]))
    } else {
        None
    }
}

/// The duration text of ffmpeg's report from the line that starts at `start` on: that of the
/// first line that gives one.
pub open spec fn duration_from(s: Seq<char>, start: int) -> Option<Seq<char>>
    decreases s.len() - start,
{
    if start < 0 || start > s.len() {
        None
    } else {
        let end = index_of_from(s, '\n', start);
        proof {
            if start < s.len() {
                lemma_index_of_from_bounds(s, '\n', start);
            }
        }
        match duration_in_line(s.subrange(start, end)) {
            Some(t) => Some(t),
            None => if end >= s.len() || end < start {
                None
            } else {
                duration_from(s, end + 1)
            },
        }
    }
}

/// The duration text (such as `00:01:30.50`) in the report that ffmpeg prints about a video.
pub open spec fn duration_text(report: Seq<char>) -> Option<Seq<char>> {
    duration_from(report, 0)
}

fn chars_range(v: &Vec<char>, from: usize, to: usize) -> (r: Vec<char>)
    requires
        from <= to <= v.len(),
    ensures
        r@ == v@.subrange(from as int, to as int),
{
    let mut out: Vec<char> = Vec::new();
    let mut i = from;
    while i < to
        invariant
            from <= i <= to <= v.len(),
            out@ == v@.subrange(from as int, i as int),
        decreases to - i,
    {
        out.push(v[i]);
        i += 1;
    }
    out
}

/// The words of `v`.
fn words_of(v: &Vec<char>) -> (r: Vec<Vec<char>>)
    ensures
        r@.map_values(|w: Vec<char>| w@) == words(v@),
{
    let ghost s = v@;
    let mut out: Vec<Vec<char>> = Vec::new();
    let mut i: usize = 0;
    loop
        invariant
            i <= v.len(),
            s == v@,
            words(s) == out@.map_values(|w: Vec<char>| w@) + words_from(s, i as int),
        decreases v.len() - i,
    {
        proof {
            lemma_white_run_end(s, i as int);
        }
        let mut a = i;
        while a < v.len() && is_white_space(v[a])
            invariant
                i <= a <= v.len(),
                s == v@,
                white_run_end(s, a as int) == white_run_end(s, i as int),
            decreases v.len() - a,
        {
            a += 1;
        }
        if a >= v.len() {
            assert(words_from(s, i as int) == Seq::<Seq<char>>::empty());
            assert(out@.map_values(|w: Vec<char>| w@) + Seq::<Seq<char>>::empty() =~= out@.map_values(|w: Vec<char>| w@));
            return out;
        }
        proof {
            lemma_word_end(s, a as int);
        }
        let mut b = a;
        while b < v.len() && !is_white_space(v[b])
            invariant
                a <= b <= v.len(),
                s == v@,
                word_end(s, b as int) == word_end(s, a as int),
            decreases v.len() - b,
        {
            b += 1;
        }
        let w = chars_range(v, a, b);
        let ghost before = out@.map_values(|x: Vec<char>| x@);
        out.push(w);
        assert(out@.map_values(|x: Vec<char>| x@) =~= before.push(w@));
        assert(before + words_from(s, i as int) =~= before.push(w@) + words_from(s, b as int));
        i = b;
    }
}

/// `v` without its trailing commas.
fn drop_trailing_commas(v: &Vec<char>) -> (r: Vec<char>)
    ensures
        r@ == without_trailing_commas(v@),
{
    let mut n = v.len();
    assert(v@.take(n as int) =~= v@);
    while n > 0 && v[n - 1] == ','
        invariant
            n <= v.len(),
            without_trailing_commas(v@) == without_trailing_commas(v@.take(n as int)),
        decreases n,
    {
        assert(v@.take(n as int).drop_last() =~= v@.take(n - 1));
        n -= 1;
    }
    proof {
        if n > 0 {
            assert(v@.take(n as int).last() == v@[n - 1]);
        }
    }
    chars_range(v, 0, n)
}

/// The duration word of one line, when the line gives one.
fn line_duration(line: &Vec<char>) -> (r: Option<Vec<char>>)
    ensures
        match duration_in_line(line@) {
            Some(t) => r matches Some(x) && x@ == t,
            None => r is None,
        },
{
    let marker: Vec<char> = vec!['D', 'u', 'r', 'a', 't', 'i', 'o', 'n', ':'];
    proof {
        reveal_strlit("Duration:");
        assert(marker@ =~= "Duration:"@);
    }
    if !contains_chars(line, &marker) {
        return None;
    }
    let ws = words_of(line);
    let ghost wv = ws@.map_values(|w: Vec<char>| w@);
    let mut p: usize = 0;
    let mut found = false;
    while !found && p < ws.len()
        invariant
            p <= ws.len(),
            wv == ws@.map_values(|w: Vec<char>| w@),
            wv == words(line@),
            marker@ == "Duration:"@,
            found ==> p < ws.len() && wv[p as int] == "Duration:"@,
            word_position(wv, "Duration:"@, 0) == word_position(wv, "Duration:"@, p as int),
        decreases ws.len() - p + if found { 0int } else { 1int },
    {
        let w = string_of(&ws[p]);
        if str_eq(w.as_str(), "Duration:") {
            assert(wv[p as int] == "Duration:"@);
            found = true;
        } else {
            p += 1;
        }
    }
    if p < ws.len() && p + 1 < ws.len() {
        assert(wv[p + 1] == ws@[p + 1]@);
        Some(drop_trailing_commas(&ws[p + 1]))
    } else {
        None
    }
}

/// The duration text in the report that ffmpeg prints about a video (the word after
/// `Duration:` on the first line that has one), which is then read as hours, minutes and
/// seconds.
pub fn duration_field(report: &str) -> (r: Option<String>)
    ensures
        match duration_text(report@) {
            Some(t) => r matches Some(x) && x@ == t,
            None => r is None,
        },
{
    let v = chars_of(report);
    let mut start: usize = 0;
    loop
        invariant
            start <= v.len(),
            v@ == report@,
            duration_text(report@) == duration_from(v@, start as int),
        decreases v.len() - start,
    {
        let end = find_char(&v, '\n', start);
        proof {
            lemma_index_of_from_bounds(v@, '\n', start as int);
        }
        let line = chars_range(&v, start, end);
        match line_duration(&line) {
            Some(t) => {
                return Some(string_of(&t));
            },
            None => {
                if end >= v.len() {
                    return None;
                }
                start = end + 1;
            },
        }
    }
}

} // verus!
