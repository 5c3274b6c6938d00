use vstd::prelude::*;

use crate::config::{sanitize_filename, sanitized};
use crate::text::{trim, trimmed, views};

verus! {

/// A UTC instant: seconds since the Unix epoch and the nanoseconds past that second.
#[derive(Debug, Clone, Copy, PartialEq, Eq)]
pub struct Timestamp {
    pub secs: i64,
    pub nanos: u32,
}

/// A tag of the library: its name, how often it was used and when last.
#[derive(Debug, Clone, PartialEq, Eq)]
pub struct TagEntry {
    pub name: String,
    pub use_count: u64,
    pub last_used: Timestamp,
}

/// The tags the user has created, in the order they were added.
#[derive(Debug, Clone, PartialEq, Eq)]
pub struct TagLibrary {
    entries: Vec<TagEntry>,
}

/// The names of the entries, in order.
pub open spec fn entry_names(es: Seq<TagEntry>) -> Seq<Seq<char>> {
    es.map_values(|e: TagEntry| e.name@)
}

/// The entries without those named `name`.
pub open spec fn without_tag(es: Seq<TagEntry>, name: Seq<char>) -> Seq<TagEntry>
    decreases es.len(),
{
    if es.len() == 0 {
        Seq::empty()
    } else if es.last().name@ == name {
        without_tag(es.drop_last(), name)
    } else {
        without_tag(es.drop_last(), name).push(es.last())
    }
}

/// The name a tag gets when the user types `typed`: trimmed, then cleaned of the characters
/// that file names cannot hold.
pub open spec fn tag_name_for(typed: Seq<char>) -> Seq<char> {
    sanitized(trimmed(typed))
}

/// The first position of an entry named `name`, or the number of entries.
pub open spec fn first_named(es: Seq<TagEntry>, name: Seq<char>) -> int
    decreases es.len(),
{
    if es.len() == 0 {
        0
    } else if es[0].name@ == name {
        0
    } else {
        1 + first_named(es.drop_first(), name)
    }
}

/// How many times `name` occurs in `names`.
pub open spec fn occurrences(names: Seq<Seq<char>>, name: Seq<char>) -> nat
    decreases names.len(),
{
    if names.len() == 0 {
        0
    } else {
        occurrences(names.drop_last(), name) + if names.last() == name {
            1nat
        } else {
            0nat
        }
    }
}

/// `after` is `before` with the tag the user typed as `typed` added at `now`: unchanged when
/// the cleaned name is empty or already present, otherwise with a new last entry of that name,
/// used 0 times, last used `now`.
pub open spec fn tag_added(before: Seq<TagEntry>, after: Seq<TagEntry>, typed: Seq<char>, now: Timestamp) -> bool {
    let name = tag_name_for(typed);
    if name.len() == 0 || entry_names(before).contains(name) {
        after == before
    } else {
        &&& after.len() == before.len() + 1
        &&& after.drop_last() == before
        &&& after.last().name@ == name
        &&& after.last().use_count == 0
        &&& after.last().last_used == now
    }
}

impl TagLibrary {
    /// The entries, in the order they were added.
    pub closed spec fn entries_view(&self) -> Seq<TagEntry> {
        self.entries@
    }

    /// An empty library.
    pub fn new() -> (r: Self)
        ensures
            r.entries_view() == Seq::<TagEntry>::empty(),
    {
        TagLibrary { entries: Vec::new() }
    }

    /// A library holding `entries` (as loaded from disk).
    pub fn from_entries(entries: Vec<TagEntry>) -> (r: Self)
        ensures
            r.entries_view() == entries@,
    {
        TagLibrary { entries }
    }

    /// Adds a tag named after `typed` (trimmed, forbidden file-name characters removed), used 0
    /// times and last used at `now`, unless that name is empty or already in the library.
    pub fn add_tag(&mut self, typed: &str, now: Timestamp)
        ensures
            tag_added(old(self).entries_view(), final(self).entries_view(), typed@, now),
    {
        let t = trim(typed);
        let name = sanitize_filename(t.as_str());
        if name.as_str().is_empty() {
            return;
        }
        let mut i: usize = 0;
        while i < self.entries.len()
            invariant
                i <= self.entries.len(),
                self.entries@ == old(self).entries@,
                name@ == tag_name_for(typed@),
                forall|k: int| 0 <= k < i ==> (#[trigger] self.entries@[k]).name@ != name@,
            decreases self.entries.len() - i,
        {
            if self.entries[i].name == name {
                proof {
                    assert(entry_names(self.entries@)[i as int] == name@);
                }
                return;
            }
            i += 1;
        }
        proof {
            assert(!entry_names(old(self).entries_view()).contains(name@)) by {
                if entry_names(old(self).entries_view()).contains(name@) {
                    let k = choose|k: int| 0 <= k < self.entries@.len() && entry_names(self.entries@)[k] == name@;
                    assert(self.entries@[k].name@ == name@);
                }
            }
        }
        self.entries.push(TagEntry { name, use_count: 0, last_used: now });
        assert(self.entries@.drop_last() == old(self).entries@);
    }

    /// Removes every tag named `name`.
    pub fn remove_tag(&mut self, name: &str)
        ensures
            final(self).entries_view() == without_tag(old(self).entries_view(), name@),
            final(self).entries_view() == old(self).entries_view().filter(named_otherwise(name@)),
    {
        let wanted = String::from_str(name);
        let mut rest: Vec<TagEntry> = Vec::new();
        std::mem::swap(&mut self.entries, &mut rest);
        let ghost all = rest@;
        assert(all.len() == rest.len());
        let mut kept: Vec<TagEntry> = Vec::new();
        let mut i: usize = 0;
        while rest.len() > 0
            invariant
                all == old(self).entries@,
                i + rest@.len() == all.len(),
                all.len() <= usize::MAX,
                rest@ == all.skip(i as int),
                wanted@ == name@,
                kept@ == without_tag(all.take(i as int), name@),
            decreases rest.len(),
        {
            let e = rest.remove(0);
            assert(all.take(i + 1).drop_last() == all.take(i as int));
            assert(all[i as int] == e);
            assert(all.take(i + 1).last() == e);
            if e.name != wanted {
                kept.push(e);
            }
            i += 1;
            assert(rest@ =~= all.skip(i as int));
        }
        assert(all.take(i as int) == all);
        self.entries = kept;
        proof {
            law_remove_keeps_the_other_tags(old(self).entries_view(), name@);
        }
    }
}

proof fn lemma_first_named_is(es: Seq<TagEntry>, name: Seq<char>, j: int)
    requires
        0 <= j <= es.len(),
        j < es.len() ==> es[j].name@ == name,
        forall|k: int| 0 <= k < j ==> (#[trigger] es[k]).name@ != name,
    ensures
        first_named(es, name) == j,
    decreases j,
{
    if j > 0 {
        assert forall|k: int| 0 <= k < j - 1 implies (#[trigger] es.drop_first()[k]).name@ != name by {
            assert(es.drop_first()[k] == es[k + 1]);
        }
        lemma_first_named_is(es.drop_first(), name, j - 1);
    }
}

proof fn lemma_first_named_same_names(a: Seq<TagEntry>, b: Seq<TagEntry>, name: Seq<char>)
    requires
        a.len() == b.len(),
        forall|i: int| 0 <= i < a.len() ==> (#[trigger] a[i]).name@ == b[i].name@,
    ensures
        first_named(a, name) == first_named(b, name),
    decreases a.len(),
{
    if a.len() > 0 {
        assert(a[0].name@ == b[0].name@);
        assert forall|i: int| 0 <= i < a.drop_first().len() implies (#[trigger] a.drop_first()[i]).name@ == b.drop_first()[i].name@ by {
            assert(a.drop_first()[i] == a[i + 1] && b.drop_first()[i] == b[i + 1]);
        }
        lemma_first_named_same_names(a.drop_first(), b.drop_first(), name);
    }
}

proof fn lemma_occurrences_prefix(names: Seq<Seq<char>>, name: Seq<char>, k: int)
    requires
        0 <= k <= names.len(),
    ensures
        occurrences(names.take(k), name) <= occurrences(names, name),
    decreases names.len() - k,
{
    if k < names.len() {
        lemma_occurrences_prefix(names, name, k + 1);
        assert(names.take(k + 1).drop_last() == names.take(k));
    } else {
        assert(names.take(k) == names);
    }
}

/// Each tag's use after `names` were applied: the first entry of each name counts one more
/// use per occurrence of its name and was last used `now` if it occurs; every other entry is
/// unchanged.
pub open spec fn used_as(before: Seq<TagEntry>, after: Seq<TagEntry>, names: Seq<Seq<char>>, now: Timestamp) -> bool {
    &&& after.len() == before.len()
    &&& forall|i: int| #![trigger after[i]] 0 <= i < before.len() ==> {
        let e = before[i];
        let f = after[i];
        &&& f.name@ == e.name@
        &&& if first_named(before, e.name@) == i {
            &&& f.use_count == e.use_count + occurrences(names, e.name@)
            &&& f.last_used == if occurrences(names, e.name@) > 0 {
                now
            } else {
                e.last_used
            }
        } else {
            f == e
        }
    }
}

impl TagLibrary {
    /// Counts one use, at `now`, of the first tag of each name in `names` (a name listed twice
    /// counts twice; names not in the library are ignored).
    pub fn record_usage(&mut self, names: &[String], now: Timestamp)
        requires
            forall|i: int| 0 <= i < old(self).entries_view().len() && first_named(old(self).entries_view(), (#[trigger] old(self).entries_view()[i]).name@) == i
                ==> old(self).entries_view()[i].use_count + occurrences(views(names@), old(self).entries_view()[i].name@) <= u64::MAX,
        ensures
            used_as(old(self).entries_view(), final(self).entries_view(), views(names@), now),
    {
        let ghost before = self.entries@;
        let ghost all = views(names@);
        assert(before == old(self).entries_view());
        assert(all.take(0) =~= Seq::<Seq<char>>::empty());
        let mut k: usize = 0;
        while k < names.len()
            invariant
                k <= names.len(),
                before == old(self).entries@,
                all == views(names@),
                used_as(before, self.entries@, all.take(k as int), now),
                forall|i: int| 0 <= i < before.len() && first_named(before, (#[trigger] before[i]).name@) == i
                    ==> before[i].use_count + occurrences(all, before[i].name@) <= u64::MAX,
            decreases names.len() - k,
        {
            let ghost cur = self.entries@;
            let ghost n = all[k as int];
            assert(all.take(k + 1).drop_last() == all.take(k as int));
            assert(all.take(k + 1).last() == n);
            assert(names@[k as int]@ == n);
            let mut j: usize = 0;
            while j < self.entries.len() && self.entries[j].name != names[k]
                invariant
                    j <= self.entries.len(),
                    k < names.len(),
                    self.entries@ == cur,
                    names@[k as int]@ == n,
                    forall|m: int| 0 <= m < j ==> (#[trigger] cur[m]).name@ != n,
                decreases self.entries.len() - j,
            {
                j += 1;
            }
            proof {
                lemma_first_named_is(cur, n, j as int);
                lemma_first_named_same_names(cur, before, n);
            }
            if j < self.entries.len() {
                proof {
                    lemma_first_named_same_names(cur, before, before[j as int].name@);
                    lemma_occurrences_prefix(all, n, k + 1);
                }
                let mut slot = TagEntry { name: String::new(), use_count: 0, last_used: now };
                self.entries.set_and_swap(j, &mut slot);
                slot.use_count = slot.use_count + 1;
                slot.last_used = now;
                self.entries.set(j, slot);
            }
            proof {
                let after = self.entries@;
                assert forall|i: int| #![trigger after[i]] 0 <= i < before.len() implies {
                    let e = before[i];
                    let f = after[i];
                    &&& f.name@ == e.name@
                    &&& if first_named(before, e.name@) == i {
                        &&& f.use_count == e.use_count + occurrences(all.take(k + 1), e.name@)
                        &&& f.last_used == if occurrences(all.take(k + 1), e.name@) > 0 {
                            now
                        } else {
                            e.last_used
                        }
                    } else {
                        f == e
                    }
                } by {
                    assert(cur[i] == after[i] || i == j);
                    lemma_first_named_same_names(cur, before, before[i].name@);
                }
            }
            k += 1;
        }
        assert(all.take(names.len() as int) == all);
    }

    /// The tags in the order they were added.
    pub fn entries_in_saved_order(&self) -> (r: Vec<&TagEntry>)
        ensures
            r@.len() == self.entries_view().len(),
            forall|i: int| 0 <= i < r@.len() ==> *r@[i] == self.entries_view()[i],
    {
        let mut out: Vec<&TagEntry> = Vec::new();
        let mut i: usize = 0;
        while i < self.entries.len()
            invariant
                i <= self.entries.len(),
                out@.len() == i,
                forall|m: int| 0 <= m < i ==> *out@[m] == self.entries@[m],
            decreases self.entries.len() - i,
        {
            out.push(&self.entries[i]);
            i += 1;
        }
        out
    }

    /// The tag names in the order they were added.
    pub fn names_in_saved_order(&self) -> (r: Vec<String>)
        ensures
            views(r@) == entry_names(self.entries_view()),
    {
        let mut out: Vec<String> = Vec::new();
        let mut i: usize = 0;
        while i < self.entries.len()
            invariant
                i <= self.entries.len(),
                views(out@) == entry_names(self.entries@).take(i as int),
            decreases self.entries.len() - i,
        {
            let c = self.entries[i].name.clone();
            let ghost prev = out@;
            out.push(c);
            assert(views(out@) == views(prev).push(c@));
            assert(views(out@) =~= entry_names(self.entries@).take(i + 1));
            i += 1;
        }
        assert(entry_names(self.entries@).take(self.entries.len() as int) == entry_names(self.entries@));
        out
    }
}

impl Default for TagLibrary {
    fn default() -> (r: Self)
        ensures
            r.entries_view() == Seq::<TagEntry>::empty(),
    {
        TagLibrary::new()
    }
}

/// No two entries share a name.
pub open spec fn distinct_names(es: Seq<TagEntry>) -> bool {
    forall|i: int, j: int| 0 <= i < j < es.len() ==> es[i].name@ != es[j].name@
}

/// Adding a tag twice is adding it once, and adding keeps the names distinct.
pub proof fn law_add_tag_idempotent(
    a: Seq<TagEntry>,
    b: Seq<TagEntry>,
    c: Seq<TagEntry>,
    typed: Seq<char>,
    now1: Timestamp,
    now2: Timestamp,
)
    requires
        tag_added(a, b, typed, now1),
        tag_added(b, c, typed, now2),
    ensures
        c == b,
        distinct_names(a) ==> distinct_names(b),
{
    let name = tag_name_for(typed);
    if !(name.len() == 0 || entry_names(a).contains(name)) {
        assert(entry_names(b)[b.len() - 1] == name);
        assert(entry_names(b).contains(name));
        if distinct_names(a) {
            assert forall|i: int, j: int| 0 <= i < j < b.len() implies b[i].name@ != b[j].name@ by {
                if j == b.len() - 1 {
                    assert(b[i] == a[i]);
                    assert(entry_names(a)[i] == a[i].name@);
                } else {
                    assert(b[i] == a[i] && b[j] == a[j]);
                }
            }
        }
    }
}

/// Whether an entry has a name other than `name`.
pub open spec fn named_otherwise(name: Seq<char>) -> spec_fn(TagEntry) -> bool {
    |e: TagEntry| e.name@ != name
}

/// Removing a tag keeps every entry of another name, in its order, and only those: the
/// entries after removal are the entries before, filtered by name.
pub proof fn law_remove_keeps_the_other_tags(es: Seq<TagEntry>, name: Seq<char>)
    ensures
        without_tag(es, name) == es.filter(named_otherwise(name)),
    decreases es.len(),
{
    reveal_with_fuel(Seq::filter, 1);
    if es.len() > 0 {
        law_remove_keeps_the_other_tags(es.drop_last(), name);
    }
}

proof fn lemma_without_tag(es: Seq<TagEntry>, name: Seq<char>)
    ensures
        forall|i: int| 0 <= i < without_tag(es, name).len() ==> (#[trigger] without_tag(es, name)[i]).name@ != name,
        without_tag(es, name).len() <= es.len(),
    decreases es.len(),
{
    if es.len() > 0 {
        lemma_without_tag(es.drop_last(), name);
        let w = without_tag(es, name);
        let r = without_tag(es.drop_last(), name);
        assert forall|i: int| 0 <= i < w.len() implies (#[trigger] w[i]).name@ != name by {
            if es.last().name@ != name && i == r.len() {
            } else {
                assert(w[i] == r[i]);
            }
        }
    }
}

/// After removing a tag no entry carries its name, and removing it again changes nothing.
pub proof fn law_remove_tag(es: Seq<TagEntry>, name: Seq<char>)
    ensures
        !entry_names(without_tag(es, name)).contains(name),
        without_tag(without_tag(es, name), name) == without_tag(es, name),
{
    lemma_without_tag(es, name);
    let w = without_tag(es, name);
    if entry_names(w).contains(name) {
        let i = choose|i: int| 0 <= i < entry_names(w).len() && entry_names(w)[i] == name;
        assert(w[i].name@ == name);
    }
    lemma_without_tag_keeps(w, name);
}

proof fn lemma_without_tag_keeps(es: Seq<TagEntry>, name: Seq<char>)
    requires
        forall|i: int| 0 <= i < es.len() ==> (#[trigger] es[i]).name@ != name,
    ensures
        without_tag(es, name) == es,
    decreases es.len(),
{
    if es.len() > 0 {
        assert(es.last() == es[es.len() - 1]);
        lemma_without_tag_keeps(es.drop_last(), name);
        assert(es.drop_last().push(es.last()) =~= es);
    }
}

} // verus!
