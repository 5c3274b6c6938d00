use vstd::prelude::*;

use crate::natord::{digit_run_end, digit_value, digits_value, is_digit, lemma_digit_run_end_bounds, scan_digit_run};
use crate::text::{
    chars_of, decimal, digit_chars, find_char, index_of_from, lemma_decimal_digits,
    lemma_index_of_from_bounds, lemma_index_of_from_is, push_str_chars, string_of,
    string_of_range, views, zero_padded, zero_padded_chars,
};

verus! {

/// A video found in the scanned folder. `path` is the full path, `filename` the file stem
/// (name without extension) and `extension` the lower-case extension.
#[derive(Debug, Clone, PartialEq, Eq)]
pub struct VideoFile {
    pub path: String,
    pub filename: String,
    pub extension: String,
    pub size: u64,
}

/// Renaming progress of one folder.
#[derive(Debug, Clone, PartialEq, Eq)]
pub struct FolderProgress {
    pub identifier: String,
    pub digit_count: usize,
    pub last_processed: usize,
    pub video_count: usize,
}

/// A tag as stored in the application configuration.
#[derive(Debug, Clone, PartialEq, Eq)]
pub struct TagDef {
    pub name: String,
    pub use_count: u64,
    pub last_used: String,
}

/// Characters that are not allowed in file names.
pub open spec fn is_forbidden_filename_char(c: char) -> bool {
    c == '\\' || c == '/' || c == ':' || c == '*' || c == '?' || c == '"' || c == '<' || c == '>'
        || c == '|'
}

/// `s` with every forbidden file-name character removed.
pub open spec fn sanitized(s: Seq<char>) -> Seq<char> {
    s.filter(|c: char| !is_forbidden_filename_char(c))
}

/// Removes the characters `\ / : * ? " < > |` from `s`, keeping the others in order.
pub fn sanitize_filename(s: &str) -> (r: String)
    ensures
        r@ == sanitized(s@),
{
    let cs = chars_of(s);
    let mut out: Vec<char> = Vec::new();
    let mut i: usize = 0;
    while i < cs.len()
        invariant
            i <= cs.len(),
            cs@ == s@,
            out@ == cs@.take(i as int).filter(|c: char| !is_forbidden_filename_char(c)),
        decreases cs.len() - i,
    {
        let c = cs[i];
        assert(cs@.take(i + 1).drop_last() == cs@.take(i as int));
        reveal_with_fuel(Seq::filter, 1);
        if !(c == '\\' || c == '/' || c == ':' || c == '*' || c == '?' || c == '"' || c == '<'
            || c == '>' || c == '|') {
            out.push(c);
        }
        i += 1;
    }
    assert(cs@.take(cs.len() as int) == cs@);
    string_of(&out)
}

/// The number of digits used to number the videos of a folder of `video_count` videos
/// (between 1 and 5).
pub open spec fn digit_count_for(video_count: nat) -> nat {
    if video_count < 10 {
        1
    } else if video_count < 100 {
        2
    } else if video_count < 1000 {
        3
    } else if video_count < 10000 {
        4
    } else {
        5
    }
}

/// How many digits the video numbers of a folder with `video_count` videos get.
pub fn compute_digit_count(video_count: usize) -> (r: usize)
    ensures
        r as nat == digit_count_for(video_count as nat),
{
    if video_count < 10 {
        return 1;
    }
    if video_count < 100 {
        return 2;
    }
    if video_count < 1000 {
        return 3;
    }
    if video_count < 10000 {
        return 4;
    }
    5
}

/// `[s]`.
pub open spec fn bracketed(s: Seq<char>) -> Seq<char> {
    seq!['['] + s + seq![']']
}

/// The labels, each in square brackets, one after the other.
pub open spec fn labels_text(labels: Seq<Seq<char>>) -> Seq<char>
    decreases labels.len(),
{
    if labels.len() == 0 {
        Seq::empty()
    } else {
        labels_text(labels.drop_last()) + bracketed(labels.last())
    }
}

/// The star mark `[★]`.
pub open spec fn star_mark() -> Seq<char> {
    seq!['[', '★', ']']
}

/// The new file stem of a video: `[identifier]` then its 1-based number zero-padded to
/// `digit_count`, then `[★]` when starred, then each label in brackets, then the former
/// name unless it is overwritten.
pub open spec fn video_name_stem(
    identifier: Seq<char>,
    index: nat,
    digit_count: nat,
    labels: Seq<Seq<char>>,
    starred: bool,
    original_basename: Seq<char>,
    overwrite: bool,
) -> Seq<char> {
    bracketed(identifier) + zero_padded(index + 1, digit_count) + (if starred {
        star_mark()
    } else {
        Seq::empty()
    }) + labels_text(labels) + (if overwrite {
        Seq::empty()
    } else {
        original_basename
    })
}

/// The new file name of a video: its stem, a dot and the extension.
pub open spec fn video_name(
    identifier: Seq<char>,
    index: nat,
    digit_count: nat,
    labels: Seq<Seq<char>>,
    starred: bool,
    original_basename: Seq<char>,
    extension: Seq<char>,
    overwrite: bool,
) -> Seq<char> {
    video_name_stem(identifier, index, digit_count, labels, starred, original_basename, overwrite)
        + seq!['.'] + extension
}

/// The file name that the video at position `index` gets once labelled.
pub fn format_video_name(
    identifier: &str,
    index: usize,
    digit_count: usize,
    labels: &[String],
    starred: bool,
    original_basename: &str,
    extension: &str,
    overwrite: bool,
) -> (r: String)
    requires
        index < usize::MAX,
    ensures
        r@ == video_name(
            identifier@,
            index as nat,
            digit_count as nat,
            views(labels@),
            starred,
            original_basename@,
            extension@,
            overwrite,
        ),
{
    let mut out: Vec<char> = Vec::new();
    out.push('[');
    push_str_chars(&mut out, identifier);
    out.push(']');
    let mut num = zero_padded_chars((index + 1) as u64, digit_count);
    out.append(&mut num);
    if starred {
        out.push('[');
        out.push('★');
        out.push(']');
    }
    let ghost prefix = out@;
    let mut i: usize = 0;
    while i < labels.len()
        invariant
            i <= labels.len(),
            out@ == prefix + labels_text(views(labels@).take(i as int)),
        decreases labels.len() - i,
    {
        out.push('[');
        push_str_chars(&mut out, labels[i].as_str());
        out.push(']');
        assert(views(labels@).take(i + 1).drop_last() == views(labels@).take(i as int));
        i += 1;
    }
    assert(views(labels@).take(labels.len() as int) == views(labels@));
    if !overwrite {
        push_str_chars(&mut out, original_basename);
    }
    out.push('.');
    push_str_chars(&mut out, extension);
    let r = string_of(&out);
    assert(r@ =~= video_name(
        identifier@,
        index as nat,
        digit_count as nat,
        views(labels@),
        starred,
        original_basename@,
        extension@,
        overwrite,
    ));
    r
}

} // verus!

verus! {

/// What a labelled video name holds.
#[derive(Debug, Clone, PartialEq, Eq)]
pub struct ParsedVideoName {
    pub identifier: String,
    /// The 1-based number of the video.
    pub index: usize,
    pub labels: Vec<String>,
    pub starred: bool,
}

/// The bracketed group that starts at `i`: its content and the position after its `]`.
pub open spec fn bracket_group_at(s: Seq<char>, i: int) -> Option<(Seq<char>, int)> {
    if 0 <= i < s.len() && s[i] == '[' {
        let j = index_of_from(s, ']', i + 1);
        if j < s.len() {
            Some((s.subrange(i + 1, j), j + 1))
        } else {
            None
        }
    } else {
        None
    }
}

/// The contents of the consecutive bracketed groups that start at `i`.
pub open spec fn labels_from(s: Seq<char>, i: int) -> Seq<Seq<char>>
    decreases s.len() - i,
{
    if 0 <= i < s.len() && s[i] == '[' && index_of_from(s, ']', i + 1) < s.len() {
        proof {
            lemma_index_of_from_bounds(s, ']', i + 1);
        }
        seq![s.subrange(i + 1, index_of_from(s, ']', i + 1))] + labels_from(
            s,
            index_of_from(s, ']', i + 1) + 1,
        )
    } else {
        Seq::empty()
    }
}

/// Reads a video stem written by `video_name_stem`: `[identifier]` (not empty), a run of
/// digits (its value must fit in a `usize`), an optional `[★]`, then the bracketed labels.
/// Whatever follows the labels is the former name of the video and is not returned.
pub open spec fn parse_video_stem(s: Seq<char>) -> Option<(Seq<char>, nat, Seq<Seq<char>>, bool)> {
    match bracket_group_at(s, 0) {
        None => None,
        Some((id, k)) => {
            let e = digit_run_end(s, k);
            let n = digits_value(s.subrange(k, e));
            if id.len() == 0 || e == k || n > usize::MAX {
                None
            } else {
                let starred = e + 3 <= s.len() && s.subrange(e, e + 3) == star_mark();
                let m = if starred {
                    e + 3
                } else {
                    e
                };
                Some((id, n, labels_from(s, m), starred))
            }
        },
    }
}

/// Reads the identifier, number, star and labels out of a video's file stem.
pub fn parse_video_name(filename: &str) -> (r: Option<ParsedVideoName>)
    ensures
        match parse_video_stem(filename@) {
            None => r is None,
            Some((id, n, labels, starred)) => r matches Some(p) && p.identifier@ == id
                && p.index as nat == n && views(p.labels@) == labels && p.starred == starred,
        },
{
    let s = chars_of(filename);
    if s.len() == 0 || s[0] != '[' {
        return None;
    }
    let j = find_char(&s, ']', 1);
    proof {
        lemma_index_of_from_bounds(s@, ']', 1);
    }
    if j == s.len() || j == 1 {
        return None;
    }
    let identifier = string_of_range(&s, 1, j);
    let k = j + 1;
    let (e, value) = scan_digit_run(&s, k);
    proof {
        lemma_digit_run_end_bounds(s@, k as int);
    }
    if e == k {
        return None;
    }
    let n: usize = match value {
        None => {
            return None;
        },
        Some(v) => {
            if v > usize::MAX as u64 {
                return None;
            }
            v as usize
        },
    };
    let starred = e < s.len() && s.len() - e >= 3 && s[e] == '[' && s[e + 1] == '★' && s[e + 2] == ']';
    proof {
        if e + 3 <= s.len() {
            if s@.subrange(e as int, e + 3) == star_mark() {
                assert(s@.subrange(e as int, e + 3)[1] == '★');
            }
            if s[e as int] == '[' && s[e + 1] == '★' && s[e + 2] == ']' {
                assert(s@.subrange(e as int, e + 3) =~= star_mark());
            }
        }
    }
    let mut m = if starred {
        e + 3
    } else {
        e
    };
    let ghost m0 = m as int;
    let mut labels: Vec<String> = Vec::new();
    let mut done = false;
    while !done
        invariant
            e <= m <= s.len(),
            done ==> labels_from(s@, m as int) == Seq::<Seq<char>>::empty(),
            labels_from(s@, m0) == views(labels@) + labels_from(s@, m as int),
        decreases s.len() - m + (if done { 0int } else { 1int }),
    {
        if m < s.len() && s[m] == '[' {
            let close = find_char(&s, ']', m + 1);
            proof {
                lemma_index_of_from_bounds(s@, ']', m + 1);
            }
            if close < s.len() {
                let label = string_of_range(&s, m + 1, close);
                let ghost old_labels = views(labels@);
                labels.push(label);
                assert(views(labels@) == old_labels.push(label@));
                m = close + 1;
            } else {
                done = true;
            }
        } else {
            done = true;
        }
    }
    assert(views(labels@) == labels_from(s@, m0));
    Some(ParsedVideoName { identifier, index: n, labels, starred })
}

} // verus!

verus! {

proof fn lemma_labels_text_cons(x: Seq<char>, labels: Seq<Seq<char>>)
    ensures
        labels_text(seq![x] + labels) == bracketed(x) + labels_text(labels),
    decreases labels.len(),
{
    if labels.len() == 0 {
        assert(seq![x] + labels == seq![x]);
        assert(seq![x].drop_last() == Seq::<Seq<char>>::empty());
        assert(labels_text(seq![x]) == labels_text(Seq::<Seq<char>>::empty()) + bracketed(x));
        assert(labels_text(seq![x]) =~= bracketed(x) + labels_text(labels));
    } else {
        lemma_labels_text_cons(x, labels.drop_last());
        assert((seq![x] + labels).drop_last() == seq![x] + labels.drop_last());
        assert((seq![x] + labels).last() == labels.last());
        assert(labels_text(seq![x] + labels) =~= bracketed(x) + labels_text(labels));
    }
}

proof fn lemma_bracket_group(s: Seq<char>, i: int, x: Seq<char>)
    requires
        0 <= i,
        i + x.len() + 2 <= s.len(),
        s.subrange(i, i + x.len() + 2) == bracketed(x),
        !x.contains(']'),
    ensures
        bracket_group_at(s, i) == Some((x, i + x.len() + 2)),
{
    let j = i + x.len() + 1;
    assert(s[i] == s.subrange(i, i + x.len() + 2)[0]);
    assert(s[j] == s.subrange(i, i + x.len() + 2)[x.len() as int + 1]);
    assert forall|k: int| i + 1 <= k < j implies s[k] != ']' by {
        assert(s[k] == s.subrange(i, i + x.len() + 2)[k - i]);
        assert(x[k - i - 1] == s[k]);
    }
    lemma_index_of_from_is(s, ']', i + 1, j);
    assert forall|k: int| 0 <= k < x.len() implies s.subrange(i + 1, j)[k] == x[k] by {
        assert(s[i + 1 + k] == s.subrange(i, i + x.len() + 2)[k + 1]);
    }
    assert(s.subrange(i + 1, j) =~= x);
}

proof fn lemma_labels_from_text(s: Seq<char>, i: int, labels: Seq<Seq<char>>)
    requires
        0 <= i,
        i + labels_text(labels).len() <= s.len(),
        s.subrange(i, i + labels_text(labels).len()) == labels_text(labels),
        forall|k: int| 0 <= k < labels.len() ==> !(#[trigger] labels[k]).contains(']'),
        i + labels_text(labels).len() < s.len() ==> s[i + labels_text(labels).len()] != '[',
    ensures
        labels_from(s, i) == labels,
    decreases labels.len(),
{
    if labels.len() == 0 {
        assert(labels_text(labels) == Seq::<char>::empty());
    } else {
        let x = labels[0];
        let rest = labels.drop_first();
        assert(labels == seq![x] + rest);
        lemma_labels_text_cons(x, rest);
        let b = bracketed(x);
        let t = labels_text(rest);
        assert(s.subrange(i, i + b.len()) == b) by {
            assert(s.subrange(i, i + b.len()) =~= s.subrange(i, i + labels_text(labels).len()).subrange(0, b.len() as int));
        }
        assert(rest.len() < labels.len());
        lemma_bracket_group(s, i, x);
        lemma_index_of_from_bounds(s, ']', i + 1);
        let next = i + b.len();
        assert(s.subrange(next, next + t.len()) == t) by {
            assert(s.subrange(next, next + t.len()) =~= s.subrange(i, i + labels_text(labels).len()).subrange(b.len() as int, (b.len() + t.len()) as int));
        }
        assert forall|k: int| 0 <= k < rest.len() implies !(#[trigger] rest[k]).contains(']') by {
            assert(rest[k] == labels[k + 1]);
        }
        lemma_labels_from_text(s, next, rest);
        assert(labels_from(s, i) == seq![x] + labels_from(s, next));
    }
}

proof fn lemma_digit_run_end_is(s: Seq<char>, i: int, j: int)
    requires
        0 <= i <= j <= s.len(),
        forall|k: int| i <= k < j ==> is_digit(#[trigger] s[k]),
        j < s.len() ==> !is_digit(s[j]),
    ensures
        digit_run_end(s, i) == j,
    decreases j - i,
{
    if i < j {
        lemma_digit_run_end_is(s, i + 1, j);
    }
}

proof fn lemma_digits_value_decimal(n: nat)
    ensures
        digits_value(decimal(n)) == n,
    decreases n,
{
    assert(digit_chars()[0] == '0' && digit_chars()[1] == '1' && digit_chars()[2] == '2'
        && digit_chars()[3] == '3' && digit_chars()[4] == '4' && digit_chars()[5] == '5'
        && digit_chars()[6] == '6' && digit_chars()[7] == '7' && digit_chars()[8] == '8'
        && digit_chars()[9] == '9');
    assert(digit_value('0') == 0 && digit_value('1') == 1 && digit_value('2') == 2
        && digit_value('3') == 3 && digit_value('4') == 4 && digit_value('5') == 5
        && digit_value('6') == 6 && digit_value('7') == 7 && digit_value('8') == 8
        && digit_value('9') == 9);
    let d = n % 10;
    assert(digit_value(digit_chars()[d as int]) == d) by {
        if d == 0 {} else if d == 1 {} else if d == 2 {} else if d == 3 {} else if d == 4 {}
        else if d == 5 {} else if d == 6 {} else if d == 7 {} else if d == 8 {} else {}
    }
    if n < 10 {
        assert(decimal(n).drop_last() =~= Seq::<char>::empty());
        assert(decimal(n).last() == digit_chars()[d as int]);
        assert(digits_value(decimal(n)) == digits_value(decimal(n).drop_last()) * 10 + digit_value(decimal(n).last()));
    } else {
        lemma_digits_value_decimal(n / 10);
        assert(decimal(n).drop_last() == decimal(n / 10));
        assert(decimal(n).last() == digit_chars()[d as int]);
        assert(digits_value(decimal(n)) == digits_value(decimal(n).drop_last()) * 10 + digit_value(decimal(n).last()));
        assert(n == (n / 10) * 10 + d);
    }
}

proof fn lemma_digits_value_leading_zeros(k: nat, d: Seq<char>)
    ensures
        digits_value(Seq::new(k, |i: int| '0') + d) == digits_value(d),
    decreases d.len(), k,
{
    let z = Seq::new(k, |i: int| '0');
    if d.len() == 0 {
        if k > 0 {
            lemma_digits_value_leading_zeros((k - 1) as nat, d);
            assert((z + d).drop_last() =~= Seq::new((k - 1) as nat, |i: int| '0') + d);
        } else {
            assert(z + d =~= d);
        }
    } else {
        lemma_digits_value_leading_zeros(k, d.drop_last());
        assert((z + d).drop_last() =~= z + d.drop_last());
    }
}

proof fn lemma_zero_padded(n: nat, width: nat)
    ensures
        digits_value(zero_padded(n, width)) == n,
        zero_padded(n, width).len() >= 1,
        forall|i: int| 0 <= i < zero_padded(n, width).len() ==> is_digit(#[trigger] zero_padded(n, width)[i]),
{
    lemma_digits_value_decimal(n);
    lemma_decimal_digits(n);
    let d = decimal(n);
    if d.len() < width {
        lemma_digits_value_leading_zeros((width - d.len()) as nat, d);
        let z = Seq::new((width - d.len()) as nat, |i: int| '0');
        assert forall|i: int| 0 <= i < zero_padded(n, width).len() implies is_digit(#[trigger] zero_padded(n, width)[i]) by {
            if i >= z.len() {
                assert(zero_padded(n, width)[i] == d[i - z.len()]);
            }
        }
    }
}

/// The name a video gets reads back as what was written into it: parsing the stem of
/// `format_video_name`'s result gives its identifier, its 1-based number, its star and its labels,
/// as long as the identifier is not empty, no part holds a `]`, a first label `★` is not
/// mistaken for the star, and the former name kept after the labels does not start with `[`
/// or a digit.
pub proof fn law_video_name_round_trip(
    identifier: Seq<char>,
    index: nat,
    digit_count: nat,
    labels: Seq<Seq<char>>,
    starred: bool,
    original_basename: Seq<char>,
    overwrite: bool,
)
    requires
        identifier.len() > 0,
        !identifier.contains(']'),
        index + 1 <= usize::MAX,
        forall|k: int| 0 <= k < labels.len() ==> !(#[trigger] labels[k]).contains(']'),
        !starred && labels.len() > 0 ==> labels[0] != seq!['★'],
        !overwrite && original_basename.len() > 0 ==> original_basename[0] != '['
            && !is_digit(original_basename[0]),
    ensures
        parse_video_stem(
            video_name_stem(identifier, index, digit_count, labels, starred, original_basename, overwrite),
        ) == Some((identifier, index + 1, labels, starred)),
{
    let b = bracketed(identifier);
    let z = zero_padded(index + 1, digit_count);
    let st = if starred { star_mark() } else { Seq::<char>::empty() };
    let lt = labels_text(labels);
    let tail = if overwrite { Seq::<char>::empty() } else { original_basename };
    let s = video_name_stem(identifier, index, digit_count, labels, starred, original_basename, overwrite);
    assert(s == b + z + st + lt + tail);
    let k = b.len() as int;
    let e = k + z.len();
    lemma_zero_padded(index + 1, digit_count);
    // the identifier group
    assert(s.subrange(0, k) =~= b);
    lemma_bracket_group(s, 0, identifier);
    // the first character after the number
    if labels.len() > 0 {
        assert(labels == seq![labels[0]] + labels.drop_first());
        lemma_labels_text_cons(labels[0], labels.drop_first());
        assert(lt[0] == '[');
    }
    assert(e < s.len() ==> !is_digit(s[e])) by {
        if e < s.len() {
            if starred {
                assert(s[e] == st[0]);
            } else if labels.len() > 0 {
                assert(s[e] == lt[0]);
            } else {
                assert(s[e] == tail[0]);
            }
        }
    }
    assert forall|i: int| k <= i < e implies is_digit(#[trigger] s[i]) by {
        assert(s[i] == z[i - k]);
    }
    lemma_digit_run_end_is(s, k, e);
    assert(s.subrange(k, e) =~= z);
    // the star
    let m = if starred { e + 3 } else { e };
    if starred {
        assert(s.subrange(e, e + 3) =~= star_mark());
    } else {
        if e + 3 <= s.len() && s.subrange(e, e + 3) == star_mark() {
            assert(s[e] == '[' && s[e + 1] == '★' && s[e + 2] == ']') by {
                assert(s.subrange(e, e + 3)[0] == s[e]);
                assert(s.subrange(e, e + 3)[1] == s[e + 1]);
                assert(s.subrange(e, e + 3)[2] == s[e + 2]);
            }
            if labels.len() > 0 {
                let x = labels[0];
                let bx = bracketed(x);
                assert(lt.subrange(0, bx.len() as int) =~= bx);
                assert(s[e + 1] == lt[1]);
                if x.len() == 0 {
                    assert(lt[1] == ']');
                } else {
                    assert(lt[1] == x[0]);
                    if x.len() == 1 {
                        assert(lt[2] == ']');
                        assert(s[e + 2] == lt[2]);
                        assert(x =~= seq!['★']);
                    } else {
                        assert(lt[2] == x[1]);
                        assert(s[e + 2] == lt[2]);
                        assert(x.contains(']'));
                    }
                }
            } else {
                assert(s[e] == tail[0]);
            }
        }
    }
    // the labels
    let after = m + lt.len();
    assert(s.subrange(m, after) =~= lt);
    assert(after < s.len() ==> s[after] != '[') by {
        if after < s.len() {
            assert(s[after] == tail[0]);
        }
    }
    lemma_labels_from_text(s, m, labels);
}

} // verus!
