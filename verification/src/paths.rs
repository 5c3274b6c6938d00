use std::collections::hash_map::DefaultHasher;
use std::hash::{Hash, Hasher};
use vstd::prelude::*;

use crate::text::{
    decimal, decimal_chars, hex_fixed, hex_fixed_chars, push_str_chars, signed_decimal,
    signed_decimal_chars, string_of,
};

verus! {

/// The path `name` joined onto `base`, as `Path::join` builds it (then read back as text).
pub uninterp spec fn joined_path(base: Seq<char>, name: Seq<char>) -> Seq<char>;

/// `Path::new(base).join(name)`, as a string; the result is named by `joined_path`.
#[verifier::external_body]
pub(crate) fn join_path(base: &str, name: &str) -> (r: String)
    ensures
        r@ == joined_path(base@, name@),
{
    std::path::Path::new(base).join(name).to_string_lossy().into_owned()
}

/// The 64-bit hash that `DefaultHasher::new()` gives a string. `DefaultHasher::new()` starts
/// from fixed keys, so the hash depends on the string alone (within one build of the program).
pub uninterp spec fn str_hash(s: Seq<char>) -> u64;

/// Hashes `s` with a fresh `DefaultHasher`; the result is named by `str_hash`.
#[verifier::external_body]
pub(crate) fn default_hash_str(s: &str) -> (r: u64)
    ensures
        r == str_hash(s@),
{
    let mut h = DefaultHasher::new();
    s.hash(&mut h);
    h.finish()
}

/// The 16 lower-case hex digits of the hash of `s`.
pub open spec fn hash_hex(s: Seq<char>) -> Seq<char> {
    hex_fixed(str_hash(s) as nat, 16)
}

/// A short stable name for a string: its hash as 16 hex digits.
pub fn simple_hash(s: &str) -> (r: String)
    ensures
        r@ == hash_hex(s@),
        r@.len() == 16,
{
    let h = default_hash_str(s);
    let v = hex_fixed_chars(h, 16);
    string_of(&v)
}

/// The directory for cached screenshots and clips under the application directory `app_dir`.
pub fn cache_dir(app_dir: &str) -> (r: String)
    ensures
        r@ == joined_path(app_dir@, "cache"@),
{
    join_path(app_dir, "cache")
}

/// The configuration file under the application directory.
pub fn config_path(app_dir: &str) -> (r: String)
    ensures
        r@ == joined_path(app_dir@, "video_tagger_config.json"@),
{
    join_path(app_dir, "video_tagger_config.json")
}

/// The tag library file under the application directory.
pub fn tag_library_path(app_dir: &str) -> (r: String)
    ensures
        r@ == joined_path(app_dir@, "tag_library.json"@),
{
    join_path(app_dir, "tag_library.json")
}

/// The file name that holds the progress of `folder`: `progress_<hash>.json`.
pub open spec fn progress_file_name(folder: Seq<char>) -> Seq<char> {
    "progress_"@ + hash_hex(folder) + ".json"@
}

/// The progress file of `folder` under the application directory.
pub fn folder_progress_path(app_dir: &str, folder: &str) -> (r: String)
    ensures
        r@ == joined_path(app_dir@, progress_file_name(folder@)),
{
    let mut name = String::from_str("progress_");
    let hash = simple_hash(folder);
    name.append(hash.as_str());
    name.append(".json");
    join_path(app_dir, name.as_str())
}

/// The folder of the model start scripts under the application directory.
pub fn models_dir(app_dir: &str) -> (r: String)
    ensures
        r@ == joined_path(app_dir@, "models"@),
{
    join_path(app_dir, "models")
}

/// The folder of the AI logs under the application directory.
pub fn logs_dir(app_dir: &str) -> (r: String)
    ensures
        r@ == joined_path(app_dir@, "logs"@),
{
    join_path(app_dir, "logs")
}

/// The four-character identifier derived from a seed: the first four hex digits of the hash
/// of the seed's decimal notation.
pub open spec fn identifier_from_seed_spec(seed: int) -> Seq<char> {
    hash_hex(signed_decimal(seed)).take(4)
}

/// The identifier derived from `seed` (the current time in nanoseconds, for new folders).
pub fn identifier_from_seed(seed: i64) -> (r: String)
    ensures
        r@ == identifier_from_seed_spec(seed as int),
        r@.len() == 4,
{
    let digits = signed_decimal_chars(seed);
    let text = string_of(&digits);
    let h = default_hash_str(text.as_str());
    let hex = hex_fixed_chars(h, 16);
    let mut out: Vec<char> = Vec::new();
    let mut i: usize = 0;
    while i < 4
        invariant
            i <= 4,
            hex@.len() == 16,
            out@ == hex@.take(i as int),
        decreases 4 - i,
    {
        out.push(hex[i]);
        i += 1;
    }
    string_of(&out)
}

/// A fresh four-character identifier, derived from the current time in nanoseconds since the
/// Unix epoch (`now_nanos`, read by the caller; 0 when it does not fit in an `i64`).
pub fn generate_identifier(now_nanos: Option<i64>) -> (r: String)
    ensures
        r@ == identifier_from_seed_spec(match now_nanos {
            Some(t) => t as int,
            None => 0,
        }),
        r@.len() == 4,
{
    let seed = match now_nanos {
        Some(t) => t,
        None => 0,
    };
    identifier_from_seed(seed)
}

} // verus!

verus! {

/// The parent directory of a path (`Path::parent`), when it has one.
pub uninterp spec fn parent_of(p: Seq<char>) -> Option<Seq<char>>;

/// The file stem of a path (`Path::file_stem`), when it has one.
pub uninterp spec fn file_stem_part(p: Seq<char>) -> Option<Seq<char>>;

/// The extension of a path (`Path::extension`), when it has one.
pub uninterp spec fn extension_part(p: Seq<char>) -> Option<Seq<char>>;

/// `Path::parent`; the result is named by `parent_of`.
#[verifier::external_body]
pub(crate) fn path_parent(p: &str) -> (r: Option<String>)
    ensures
        match r {
            Some(d) => parent_of(p@) == Some(d@),
            None => parent_of(p@) is None,
        },
{
    std::path::Path::new(p).parent().map(|d| d.to_string_lossy().into_owned())
}

/// `Path::file_stem`; the result is named by `file_stem_part`.
#[verifier::external_body]
pub(crate) fn path_file_stem(p: &str) -> (r: Option<String>)
    ensures
        match r {
            Some(t) => file_stem_part(p@) == Some(t@),
            None => file_stem_part(p@) is None,
        },
{
    std::path::Path::new(p).file_stem().map(|t| t.to_string_lossy().into_owned())
}

/// `Path::extension`; the result is named by `extension_part`.
#[verifier::external_body]
pub(crate) fn path_extension(p: &str) -> (r: Option<String>)
    ensures
        match r {
            Some(e) => extension_part(p@) == Some(e@),
            None => extension_part(p@) is None,
        },
{
    std::path::Path::new(p).extension().map(|e| e.to_string_lossy().into_owned())
}

/// The directory of a path, `.` when it has no parent.
pub open spec fn parent_or_dot(p: Seq<char>) -> Seq<char> {
    match parent_of(p) {
        Some(d) => d,
        None => seq!['.'],
    }
}

/// The file stem of a path, empty when it has none.
pub open spec fn file_stem_of(p: Seq<char>) -> Seq<char> {
    match file_stem_part(p) {
        Some(t) => t,
        None => Seq::empty(),
    }
}

/// The extension of a path, empty when it has none.
pub open spec fn extension_of(p: Seq<char>) -> Seq<char> {
    match extension_part(p) {
        Some(e) => e,
        None => Seq::empty(),
    }
}

/// The last component of a path (`Path::file_name`), when it has one.
pub uninterp spec fn file_name_of(p: Seq<char>) -> Option<Seq<char>>;

/// `Path::file_name`; the result is named by `file_name_of`.
#[verifier::external_body]
pub(crate) fn path_file_name(p: &str) -> (r: Option<String>)
    ensures
        match r {
            Some(n) => file_name_of(p@) == Some(n@),
            None => file_name_of(p@) is None,
        },
{
    std::path::Path::new(p).file_name().map(|s| s.to_string_lossy().into_owned())
}

/// The name shown for a file: its last component, or the whole path when it has none.
pub fn path_name(p: &str) -> (r: String)
    ensures
        r@ == match file_name_of(p@) {
            Some(n) => n,
            None => p@,
        },
{
    match path_file_name(p) {
        Some(n) => n,
        None => String::from_str(p),
    }
}

/// `stem[counter].ext`: the name tried when `stem.ext` is taken.
pub open spec fn conflict_file_name(stem: Seq<char>, counter: nat, ext: Seq<char>) -> Seq<char> {
    stem + seq!['['] + decimal(counter) + seq![']', '.'] + ext
}

/// The `counter`-th alternative name for a file with the given stem and extension.
pub fn conflict_name(stem: &str, counter: u32, ext: &str) -> (r: String)
    ensures
        r@ == conflict_file_name(stem@, counter as nat, ext@),
{
    let mut v: Vec<char> = Vec::new();
    push_str_chars(&mut v, stem);
    v.push('[');
    let mut d = decimal_chars(counter as u64);
    v.append(&mut d);
    v.push(']');
    v.push('.');
    push_str_chars(&mut v, ext);
    let r = string_of(&v);
    assert(r@ =~= conflict_file_name(stem@, counter as nat, ext@));
    r
}

/// The `n`-th name tried for a file whose requested path is `requested`: `stem[n].ext` in the
/// same directory.
pub open spec fn conflict_candidate(requested: Seq<char>, n: nat) -> Seq<char> {
    joined_path(parent_or_dot(requested), conflict_file_name(file_stem_of(requested), n, extension_of(requested)))
}

/// Whether the check `taken` answered `answer` when asked about a path whose text is `p`.
pub open spec fn reported<F: Fn(&str) -> bool>(taken: F, p: Seq<char>, answer: bool) -> bool {
    exists|s: &str| s@ == p && #[trigger] call_ensures(taken, (s,), answer)
}

/// What resolving a name conflict gives, by the answers of the check `taken` (whether a path
/// is taken): the requested path when it was reported free; otherwise the candidate with the
/// least counter reported free, every smaller counter having been reported taken (the search
/// ends at `i32::MAX` whatever the answer there).
pub open spec fn resolved_by<F: Fn(&str) -> bool>(taken: F, requested: Seq<char>, result: Seq<char>) -> bool {
    ||| result == requested && reported(taken, requested, false)
    ||| reported(taken, requested, true) && exists|n: nat|
        1 <= n <= i32::MAX && result == conflict_candidate(requested, n) && (n < i32::MAX ==> reported(
            taken,
            conflict_candidate(requested, n),
            false,
        )) && forall|m: nat| 1 <= m < n ==> #[trigger] reported(taken, conflict_candidate(requested, m), true)
}

/// Makes `output_path` name a path that `taken` reports free (`taken` tells whether something
/// exists at a path): when the requested path is taken, it becomes `stem[n].ext` in the same
/// directory for the first `n = 1, 2, ...` that is reported free. The search stops at
/// `n = i32::MAX`.
pub fn resolve_name_conflict<F: Fn(&str) -> bool>(output_path: &mut String, taken: F)
    requires
        forall|s: &str| #[trigger] call_requires(taken, (s,)),
    ensures
        resolved_by(taken, old(output_path)@, final(output_path)@),
{
    let ghost requested = output_path@;
    let first = output_path.as_str();
    let t0 = taken(first);
    assert(reported(taken, requested, t0));
    if !t0 {
        return;
    }
    let parent = match path_parent(output_path.as_str()) {
        Some(d) => d,
        None => String::from_str("."),
    };
    let stem = match path_file_stem(output_path.as_str()) {
        Some(t) => t,
        None => String::new(),
    };
    let ext = match path_extension(output_path.as_str()) {
        Some(e) => e,
        None => String::new(),
    };
    proof {
        reveal_strlit(".");
        assert(".".view() =~= seq!['.']);
    }
    let mut counter: u32 = 1;
    loop
        invariant
            1 <= counter <= i32::MAX,
            parent@ == parent_or_dot(requested),
            stem@ == file_stem_of(requested),
            ext@ == extension_of(requested),
            requested == old(output_path)@,
            reported(taken, requested, true),
            forall|s: &str| #[trigger] call_requires(taken, (s,)),
            forall|m: nat| 1 <= m < counter ==> #[trigger] reported(taken, conflict_candidate(requested, m), true),
        decreases i32::MAX - counter,
    {
        let name = conflict_name(stem.as_str(), counter, ext.as_str());
        *output_path = join_path(parent.as_str(), name.as_str());
        assert(output_path@ == conflict_candidate(requested, counter as nat));
        let candidate = output_path.as_str();
        let t = taken(candidate);
        assert(reported(taken, conflict_candidate(requested, counter as nat), t));
        if !t || counter == 2147483647 {
            return;
        }
        counter += 1;
    }
}

} // verus!
