use vstd::prelude::*;

use crate::config::ParsedVideoName;
use crate::text::{dedup, dedup_strings, trim, trimmed, views};

verus! {

/// The screen the application shows.
#[derive(Debug, Clone, Copy, PartialEq, Eq, Structural)]
pub enum AppMode {
    Fresh,
    Overview,
    Sorting,
}

/// The order of the overview.
#[derive(Debug, Clone, Copy, PartialEq, Eq, Structural)]
pub enum SortMode {
    Name,
    Date,
    Size,
}

/// A thumbnail decoded for the overview, or why it could not be.
pub enum ThumbnailResult {
    Loaded { index: usize, size: [usize; 2], rgba: Vec<u8> },
    Failed { index: usize, reason: String },
}

/// Screenshots cut for a range of a video, or why they could not be.
pub enum ScreenshotResult {
    Loaded { request_id: u64, key: String, paths: Vec<String> },
    Prefetched { key: String, paths: Vec<String> },
    Failed { request_id: u64, reason: String },
}

/// The labelling of one video in progress: one label per tag category (in category order),
/// the labels taken back by undo, the star, and the cursors of the tag grid and of the
/// screenshot grid. The category after the last tag category is the star category.
pub struct SortingSession {
    pub current_labels: Vec<String>,
    pub undone_labels: Vec<String>,
    pub is_starred: bool,
    pub pending_overwrite_once: bool,
    pub active_category_index: usize,
    pub selected_tag_index: usize,
    pub selected_screenshot_index: usize,
}

/// A session as plain values.
pub struct SessionView {
    pub labels: Seq<Seq<char>>,
    pub undone: Seq<Seq<char>>,
    pub starred: bool,
    pub overwrite_once: bool,
    pub category: int,
    pub tag: int,
    pub screenshot: int,
}

impl View for SortingSession {
    type V = SessionView;

    open spec fn view(&self) -> SessionView {
        SessionView {
            labels: views(self.current_labels@),
            undone: views(self.undone_labels@),
            starred: self.is_starred,
            overwrite_once: self.pending_overwrite_once,
            category: self.active_category_index as int,
            tag: self.selected_tag_index as int,
            screenshot: self.selected_screenshot_index as int,
        }
    }
}

/// The tag categories (each in display order) as text.
pub open spec fn cat_views(categories: Seq<Vec<String>>) -> Seq<Seq<Seq<char>>> {
    categories.map_values(|v: Vec<String>| views(v@))
}

/// The two choices of the star category.
pub open spec fn star_choices() -> Seq<Seq<char>> {
    seq!["不打星"@, "星标"@]
}

/// The choices offered in category `c`: its tags, or the star choices past the last category.
pub open spec fn tags_of(cats: Seq<Seq<Seq<char>>>, c: int) -> Seq<Seq<char>> {
    if 0 <= c < cats.len() {
        cats[c]
    } else {
        star_choices()
    }
}

/// The smaller of two integers.
pub open spec fn min_int(a: int, b: int) -> int {
    if a <= b {
        a
    } else {
        b
    }
}

/// The larger of two integers.
pub open spec fn max_int(a: int, b: int) -> int {
    if a >= b {
        a
    } else {
        b
    }
}

/// The first position at or after `i` that holds `label`, or the number of tags.
pub open spec fn position_from(tags: Seq<Seq<char>>, label: Seq<char>, i: int) -> int
    decreases tags.len() - i,
{
    if i < 0 || i >= tags.len() {
        tags.len() as int
    } else if tags[i] == label {
        i
    } else {
        position_from(tags, label, i + 1)
    }
}

/// The first position of `label` among `tags`, or their number when absent.
pub open spec fn position_in(tags: Seq<Seq<char>>, label: Seq<char>) -> int {
    position_from(tags, label, 0)
}

/// A session with other cursors.
pub open spec fn with_cursors(v: SessionView, category: int, tag: int, screenshot: int) -> SessionView {
    SessionView {
        labels: v.labels,
        undone: v.undone,
        starred: v.starred,
        overwrite_once: v.overwrite_once,
        category,
        tag,
        screenshot,
    }
}

/// A session with other labels.
pub open spec fn with_labels(v: SessionView, labels: Seq<Seq<char>>, undone: Seq<Seq<char>>) -> SessionView {
    SessionView {
        labels,
        undone,
        starred: v.starred,
        overwrite_once: v.overwrite_once,
        category: v.category,
        tag: v.tag,
        screenshot: v.screenshot,
    }
}

/// A session with another star.
pub open spec fn with_star(v: SessionView, starred: bool) -> SessionView {
    SessionView {
        labels: v.labels,
        undone: v.undone,
        starred,
        overwrite_once: v.overwrite_once,
        category: v.category,
        tag: v.tag,
        screenshot: v.screenshot,
    }
}

/// The last valid position among `n` choices (0 when there are none).
pub open spec fn last_choice(n: int) -> int {
    if n > 1 {
        n - 1
    } else {
        0
    }
}

/// The cursors brought back in range: the category at most the star category, the tag within
/// the choices of that category, the screenshot within the ten shown.
pub open spec fn clamp_cursor(v: SessionView, cats: Seq<Seq<Seq<char>>>) -> SessionView {
    let c = min_int(v.category, cats.len() as int);
    with_cursors(v, c, min_int(v.tag, last_choice(tags_of(cats, c).len() as int)), min_int(v.screenshot, 9))
}

/// Selecting category `idx`: the tag cursor goes to the label already chosen there (or to the
/// star choice in the star category), else to the first tag.
pub open spec fn select_spec(v: SessionView, idx: int, cats: Seq<Seq<Seq<char>>>) -> SessionView {
    let c = min_int(idx, cats.len() as int);
    let tags = tags_of(cats, c);
    let t = if c >= cats.len() {
        if v.starred {
            1int
        } else {
            0int
        }
    } else if c < v.labels.len() && position_in(tags, v.labels[c]) < tags.len() {
        position_in(tags, v.labels[c])
    } else {
        0int
    };
    clamp_cursor(with_cursors(v, c, t, v.screenshot), cats)
}

/// Whether `label` is already the label of a category other than `idx`.
pub open spec fn label_taken(labels: Seq<Seq<char>>, idx: int, label: Seq<char>) -> bool {
    exists|i: int| 0 <= i < labels.len() && i != idx && labels[i] == label
}

/// Choosing `label` for the active category: refused in the star category and when another
/// category already has it; otherwise it replaces the category's label (or is appended when
/// the category has none yet) and the undone labels are forgotten.
pub open spec fn set_label_spec(v: SessionView, label: Seq<char>, cats: Seq<Seq<Seq<char>>>) -> SessionView {
    if v.category >= cats.len() || label_taken(v.labels, v.category, label) {
        v
    } else if v.category < v.labels.len() {
        with_labels(v, v.labels.update(v.category, label), Seq::empty())
    } else {
        with_labels(v, v.labels.push(label), Seq::empty())
    }
}

/// Undo: in the star category a star is taken back first; otherwise the last label is taken
/// back (kept for redo) and the category after the remaining labels is selected.
pub open spec fn undo_spec(v: SessionView, cats: Seq<Seq<Seq<char>>>) -> SessionView {
    if v.starred && v.category >= cats.len() {
        with_cursors(with_star(v, false), v.category, 0, v.screenshot)
    } else if v.labels.len() > 0 {
        let w = with_labels(v, v.labels.drop_last(), v.undone.push(v.labels.last()));
        select_spec(w, min_int(w.labels.len() as int, cats.len() as int), cats)
    } else {
        v
    }
}

/// Redo: the last label taken back is chosen again for the active category.
pub open spec fn redo_spec(v: SessionView, cats: Seq<Seq<Seq<char>>>) -> SessionView {
    if v.undone.len() > 0 {
        set_label_spec(with_labels(v, v.labels, v.undone.drop_last()), v.undone.last(), cats)
    } else {
        v
    }
}

/// Confirming the tag under the cursor: in the star category it sets the star and asks for
/// the video to be finished; otherwise the tag becomes the category's label and the next
/// category is selected.
pub open spec fn choose_spec(v: SessionView, cats: Seq<Seq<Seq<char>>>) -> (SessionView, bool) {
    let w = clamp_cursor(v, cats);
    if w.category >= cats.len() {
        (with_star(w, w.tag == 1), true)
    } else {
        let tags = tags_of(cats, w.category);
        let w2 = if w.tag < tags.len() {
            set_label_spec(w, tags[w.tag], cats)
        } else {
            w
        };
        (select_spec(w2, min_int(w2.category + 1, cats.len() as int), cats), false)
    }
}

/// The session of a video whose name holds `parsed` (labels and star), or of an unlabelled one.
pub open spec fn hydrate_spec(v: SessionView, parsed: Option<(Seq<Seq<char>>, bool)>, cats: Seq<Seq<Seq<char>>>) -> SessionView {
    let w = match parsed {
        Some((labels, starred)) => with_star(with_labels(v, dedup(labels), Seq::empty()), starred),
        None => with_star(with_labels(v, Seq::empty(), Seq::empty()), false),
    };
    select_spec(w, min_int(w.labels.len() as int, cats.len() as int), cats)
}

/// Whether the cursors are in range for the given categories.
pub open spec fn cursors_in_range(v: SessionView, cats: Seq<Seq<Seq<char>>>) -> bool {
    &&& 0 <= v.category <= cats.len()
    &&& 0 <= v.tag <= last_choice(tags_of(cats, v.category).len() as int)
    &&& 0 <= v.screenshot <= 9
}

/// Whether no label is used by two categories.
pub open spec fn labels_distinct(labels: Seq<Seq<char>>) -> bool {
    forall|i: int, j: int| 0 <= i < j < labels.len() ==> labels[i] != labels[j]
}

/// A key of the labelling screen.
#[derive(Debug, Clone, Copy, PartialEq, Eq, Structural)]
pub enum SortingKey {
    ScreensBack,
    ScreensForward,
    ShotLeft,
    ShotRight,
    ShotUp,
    ShotDown,
    PlayAudio,
    Undo,
    CategoryUp,
    CategoryDown,
    TagLeft,
    TagRight,
    Number(usize),
    Confirm,
}

/// What a key asks of the screen besides the session change. After `Chosen` no further key of
/// the same frame is read.
#[derive(Debug, Clone, Copy, PartialEq, Eq, Structural)]
pub enum KeyEffect {
    Nothing,
    ScreensBack,
    ScreensForward,
    PlayAudio,
    Chosen { finalize: bool },
}

/// What one key does to the session.
pub open spec fn key_spec(v: SessionView, key: SortingKey, cats: Seq<Seq<Seq<char>>>) -> (SessionView, KeyEffect) {
    match key {
        SortingKey::ScreensBack => (v, KeyEffect::ScreensBack),
        SortingKey::ScreensForward => (v, KeyEffect::ScreensForward),
        SortingKey::PlayAudio => (v, KeyEffect::PlayAudio),
        SortingKey::ShotLeft => (with_cursors(v, v.category, v.tag, if v.screenshot % 5 > 0 {
            v.screenshot - 1
        } else {
            v.screenshot
        }), KeyEffect::Nothing),
        SortingKey::ShotRight => (with_cursors(v, v.category, v.tag, if v.screenshot % 5 < 4 {
            min_int(v.screenshot + 1, 9)
        } else {
            v.screenshot
        }), KeyEffect::Nothing),
        SortingKey::ShotUp => (with_cursors(v, v.category, v.tag, max_int(v.screenshot - 5, 0)), KeyEffect::Nothing),
        SortingKey::ShotDown => (with_cursors(v, v.category, v.tag, min_int(v.screenshot + 5, 9)), KeyEffect::Nothing),
        SortingKey::Undo => (undo_spec(v, cats), KeyEffect::Nothing),
        SortingKey::CategoryUp => (select_spec(v, max_int(v.category - 1, 0), cats), KeyEffect::Nothing),
        SortingKey::CategoryDown => (select_spec(v, min_int(v.category + 1, cats.len() as int), cats), KeyEffect::Nothing),
        SortingKey::TagLeft => (with_cursors(v, v.category, max_int(v.tag - 1, 0), v.screenshot), KeyEffect::Nothing),
        SortingKey::TagRight => (with_cursors(
            v,
            v.category,
            min_int(v.tag + 1, last_choice(tags_of(cats, v.category).len() as int)),
            v.screenshot,
        ), KeyEffect::Nothing),
        SortingKey::Number(n) => if n < tags_of(cats, v.category).len() {
            let (w, fin) = choose_spec(with_cursors(v, v.category, n as int, v.screenshot), cats);
            (w, KeyEffect::Chosen { finalize: fin })
        } else {
            (v, KeyEffect::Nothing)
        },
        SortingKey::Confirm => {
            let (w, fin) = choose_spec(v, cats);
            (w, KeyEffect::Chosen { finalize: fin })
        },
    }
}

/// The labels that go into the new name: those that are not blank.
pub open spec fn kept_labels(labels: Seq<Seq<char>>) -> Seq<Seq<char>>
    decreases labels.len(),
{
    if labels.len() == 0 {
        Seq::empty()
    } else if trimmed(labels.last()).len() > 0 {
        kept_labels(labels.drop_last()).push(labels.last())
    } else {
        kept_labels(labels.drop_last())
    }
}

/// Where the labelling goes after a video is finished or skipped.
#[derive(Debug, Clone, Copy, PartialEq, Eq, Structural)]
pub enum NextVideo {
    /// Back to the overview: the video was edited on its own.
    Overview,
    /// Back to the overview with the completion notice: it was the last video.
    Completed,
    /// On to the video with this index.
    Edit(usize),
}

/// The step after finishing video `current` of `count`.
pub fn next_video(current: usize, count: usize, independent: bool) -> (r: NextVideo)
    requires
        current < count,
    ensures
        independent ==> r == NextVideo::Overview,
        !independent && current + 1 >= count ==> r == NextVideo::Completed,
        !independent && current + 1 < count ==> r == NextVideo::Edit((current + 1) as usize),
{
    if independent {
        NextVideo::Overview
    } else if current + 1 >= count {
        NextVideo::Completed
    } else {
        NextVideo::Edit(current + 1)
    }
}

fn position_of(tags: &Vec<String>, label: &String) -> (r: usize)
    ensures
        r as int == position_in(views(tags@), label@),
{
    let ghost all = views(tags@);
    let mut i: usize = 0;
    while i < tags.len()
        invariant
            i <= tags.len(),
            all == views(tags@),
            forall|k: int| 0 <= k < i ==> all[k] != label@,
        decreases tags.len() - i,
    {
        if tags[i] == *label {
            proof {
                lemma_position_in_first(all, label@, i as int);
            }
            return i;
        }
        i += 1;
    }
    proof {
        lemma_position_in_first(all, label@, all.len() as int);
    }
    i
}

proof fn lemma_position_from_is(tags: Seq<Seq<char>>, label: Seq<char>, from: int, i: int)
    requires
        0 <= from <= i <= tags.len(),
        i < tags.len() ==> tags[i] == label,
        forall|k: int| from <= k < i ==> tags[k] != label,
    ensures
        position_from(tags, label, from) == i,
    decreases i - from,
{
    if from < i {
        lemma_position_from_is(tags, label, from + 1, i);
    }
}

proof fn lemma_position_in_first(tags: Seq<Seq<char>>, label: Seq<char>, i: int)
    requires
        0 <= i <= tags.len(),
        i < tags.len() ==> tags[i] == label,
        forall|k: int| 0 <= k < i ==> tags[k] != label,
    ensures
        position_in(tags, label) == i,
{
    lemma_position_from_is(tags, label, 0, i);
}

fn copy_strings(v: &Vec<String>) -> (r: Vec<String>)
    ensures
        views(r@) == views(v@),
{
    let mut out: Vec<String> = Vec::new();
    let mut i: usize = 0;
    while i < v.len()
        invariant
            i <= v.len(),
            views(out@) == views(v@).take(i as int),
        decreases v.len() - i,
    {
        let c = v[i].clone();
        let ghost prev = out@;
        out.push(c);
        assert(views(out@) == views(prev).push(c@));
        assert(views(v@).take(i + 1) == views(v@).take(i as int).push(v@[i as int]@));
        i += 1;
    }
    assert(views(v@).take(v.len() as int) == views(v@));
    out
}

/// The two choices of the star category.
fn star_choice_strings() -> (r: Vec<String>)
    ensures
        views(r@) == star_choices(),
{
    let mut v: Vec<String> = Vec::new();
    v.push(String::from_str("不打星"));
    v.push(String::from_str("星标"));
    assert(views(v@) =~= star_choices());
    v
}

impl SortingSession {
    /// A session with no label and all cursors at the start.
    pub fn new() -> (r: Self)
        ensures
            r@.labels.len() == 0,
            r@.undone.len() == 0,
            !r@.starred,
            !r@.overwrite_once,
            r@.category == 0,
            r@.tag == 0,
            r@.screenshot == 0,
    {
        let r = SortingSession {
            current_labels: Vec::new(),
            undone_labels: Vec::new(),
            is_starred: false,
            pending_overwrite_once: false,
            active_category_index: 0,
            selected_tag_index: 0,
            selected_screenshot_index: 0,
        };
        assert(r@.labels =~= Seq::<Seq<char>>::empty());
        assert(r@.undone =~= Seq::<Seq<char>>::empty());
        r
    }

    /// Clears the labels, the star and the cursors, as when a video is opened.
    pub fn reset_edit_state(&mut self)
        ensures
            final(self)@.labels.len() == 0,
            final(self)@.undone.len() == 0,
            !final(self)@.starred,
            !final(self)@.overwrite_once,
            final(self)@.category == 0,
            final(self)@.tag == 0,
            final(self)@.screenshot == 0,
    {
        *self = SortingSession::new();
    }

    /// Whether the star category is selected.
    pub fn is_star_category(&self, categories: &Vec<Vec<String>>) -> (r: bool)
        ensures
            r == (self@.category >= categories@.len()),
    {
        self.active_category_index >= categories.len()
    }

    /// The choices of the selected category.
    pub fn current_category_tags(&self, categories: &Vec<Vec<String>>) -> (r: Vec<String>)
        ensures
            views(r@) == tags_of(cat_views(categories@), self@.category),
    {
        if self.active_category_index < categories.len() {
            copy_strings(&categories[self.active_category_index])
        } else {
            star_choice_strings()
        }
    }

    fn clamp_category_cursor(&mut self, categories: &Vec<Vec<String>>)
        ensures
            final(self)@ == clamp_cursor(old(self)@, cat_views(categories@)),
    {
        if self.active_category_index > categories.len() {
            self.active_category_index = categories.len();
        }
        let count = if self.active_category_index < categories.len() {
            categories[self.active_category_index].len()
        } else {
            2
        };
        let last = if count > 1 {
            count - 1
        } else {
            0
        };
        if self.selected_tag_index > last {
            self.selected_tag_index = last;
        }
        if self.selected_screenshot_index > 9 {
            self.selected_screenshot_index = 9;
        }
        assert(final(self)@ =~= clamp_cursor(old(self)@, cat_views(categories@)));
    }

    /// Selects category `category_index` (at most the star category).
    pub fn select_category(&mut self, category_index: usize, categories: &Vec<Vec<String>>)
        ensures
            final(self)@ == select_spec(old(self)@, category_index as int, cat_views(categories@)),
    {
        let ghost cats = cat_views(categories@);
        let ghost v0 = self@;
        self.active_category_index = if category_index < categories.len() {
            category_index
        } else {
            categories.len()
        };
        if self.active_category_index >= categories.len() {
            self.selected_tag_index = if self.is_starred {
                1
            } else {
                0
            };
        } else {
            self.selected_tag_index = 0;
            let c = self.active_category_index;
            if c < self.current_labels.len() {
                let p = position_of(&categories[c], &self.current_labels[c]);
                if p < categories[c].len() {
                    self.selected_tag_index = p;
                }
            }
        }
        assert(self@ =~= with_cursors(
            v0,
            min_int(category_index as int, cats.len() as int),
            self@.tag,
            v0.screenshot,
        ));
        self.clamp_category_cursor(categories);
    }

    /// Chooses `label` for the selected category (see `set_label_spec`).
    pub fn set_current_category_label(&mut self, label: String, categories: &Vec<Vec<String>>)
        ensures
            final(self)@ == set_label_spec(old(self)@, label@, cat_views(categories@)),
    {
        if self.active_category_index >= categories.len() {
            return;
        }
        let idx = self.active_category_index;
        let ghost labels = views(self.current_labels@);
        let mut i: usize = 0;
        while i < self.current_labels.len()
            invariant
                i <= self.current_labels.len(),
                labels == views(self.current_labels@),
                *self == *old(self),
                idx == self.active_category_index,
                idx < categories.len(),
                forall|k: int| 0 <= k < i && k != idx ==> labels[k] != label@,
            decreases self.current_labels.len() - i,
        {
            if i != idx && self.current_labels[i] == label {
                assert(labels[i as int] == label@);
                assert(label_taken(labels, idx as int, label@));
                return;
            }
            i += 1;
        }
        let ghost v0 = self@;
        if idx < self.current_labels.len() {
            self.current_labels.set(idx, label);
        } else {
            self.current_labels.push(label);
        }
        self.undone_labels = Vec::new();
        assert(self@.labels =~= set_label_spec(v0, label@, cat_views(categories@)).labels);
        assert(self@.undone =~= Seq::<Seq<char>>::empty());
    }

    /// Fills the session from the name of the video being opened: its labels (each once) and
    /// its star; then the category after the labels is selected.
    pub fn hydrate_labels(&mut self, parsed: Option<ParsedVideoName>, categories: &Vec<Vec<String>>)
        ensures
            final(self)@ == hydrate_spec(
                old(self)@,
                match parsed {
                    Some(p) => Some((views(p.labels@), p.starred)),
                    None => None,
                },
                cat_views(categories@),
            ),
    {
        let ghost v0 = self@;
        match parsed {
            Some(p) => {
                self.current_labels = dedup_strings(p.labels);
                self.is_starred = p.starred;
            },
            None => {
                self.current_labels = Vec::new();
                self.is_starred = false;
            },
        }
        self.undone_labels = Vec::new();
        assert(self@.undone =~= Seq::<Seq<char>>::empty());
        proof {
            if self.current_labels@.len() == 0 {
                assert(self@.labels =~= Seq::<Seq<char>>::empty());
            }
        }
        let n = if self.current_labels.len() < categories.len() {
            self.current_labels.len()
        } else {
            categories.len()
        };
        self.select_category(n, categories);
    }

    /// Takes back the star or the last label (see `undo_spec`).
    pub fn undo_label(&mut self, categories: &Vec<Vec<String>>)
        ensures
            final(self)@ == undo_spec(old(self)@, cat_views(categories@)),
    {
        if self.is_starred && self.active_category_index >= categories.len() {
            self.is_starred = false;
            self.selected_tag_index = 0;
            return;
        }
        let ghost v0 = self@;
        match self.current_labels.pop() {
            Some(label) => {
                self.undone_labels.push(label);
                assert(self@.labels =~= v0.labels.drop_last());
                assert(self@.undone =~= v0.undone.push(v0.labels.last()));
                let n = if self.current_labels.len() < categories.len() {
                    self.current_labels.len()
                } else {
                    categories.len()
                };
                self.select_category(n, categories);
            },
            None => {},
        }
    }

    /// Chooses again the last label taken back (see `redo_spec`).
    pub fn redo_label(&mut self, categories: &Vec<Vec<String>>)
        ensures
            final(self)@ == redo_spec(old(self)@, cat_views(categories@)),
    {
        let ghost v0 = self@;
        match self.undone_labels.pop() {
            Some(label) => {
                assert(self@.undone =~= v0.undone.drop_last());
                self.set_current_category_label(label, categories);
            },
            None => {},
        }
    }

    /// Confirms the tag under the cursor (see `choose_spec`); returns whether the video is to be
    /// finished now.
    pub fn select_current_tag_and_advance(&mut self, categories: &Vec<Vec<String>>) -> (r: bool)
        ensures
            (final(self)@, r) == choose_spec(old(self)@, cat_views(categories@)),
    {
        self.clamp_category_cursor(categories);
        if self.active_category_index >= categories.len() {
            self.is_starred = self.selected_tag_index == 1;
            return true;
        }
        let c = self.active_category_index;
        if self.selected_tag_index < categories[c].len() {
            let label = categories[c][self.selected_tag_index].clone();
            self.set_current_category_label(label, categories);
        }
        let next = if self.active_category_index + 1 < categories.len() {
            self.active_category_index + 1
        } else {
            categories.len()
        };
        self.select_category(next, categories);
        false
    }

    /// Applies one key of the labelling screen (see `key_spec`).
    pub fn handle_key(&mut self, key: SortingKey, categories: &Vec<Vec<String>>) -> (r: KeyEffect)
        ensures
            (final(self)@, r) == key_spec(old(self)@, key, cat_views(categories@)),
    {
        match key {
            SortingKey::ScreensBack => KeyEffect::ScreensBack,
            SortingKey::ScreensForward => KeyEffect::ScreensForward,
            SortingKey::PlayAudio => KeyEffect::PlayAudio,
            SortingKey::ShotLeft => {
                if self.selected_screenshot_index % 5 > 0 {
                    self.selected_screenshot_index = self.selected_screenshot_index - 1;
                }
                KeyEffect::Nothing
            },
            SortingKey::ShotRight => {
                if self.selected_screenshot_index % 5 < 4 {
                    self.selected_screenshot_index = if self.selected_screenshot_index < 9 {
                        self.selected_screenshot_index + 1
                    } else {
                        9
                    };
                }
                KeyEffect::Nothing
            },
            SortingKey::ShotUp => {
                self.selected_screenshot_index = if self.selected_screenshot_index >= 5 {
                    self.selected_screenshot_index - 5
                } else {
                    0
                };
                KeyEffect::Nothing
            },
            SortingKey::ShotDown => {
                self.selected_screenshot_index = if self.selected_screenshot_index < 4 {
                    self.selected_screenshot_index + 5
                } else {
                    9
                };
                KeyEffect::Nothing
            },
            SortingKey::Undo => {
                self.undo_label(categories);
                KeyEffect::Nothing
            },
            SortingKey::CategoryUp => {
                let c = if self.active_category_index > 0 {
                    self.active_category_index - 1
                } else {
                    0
                };
                self.select_category(c, categories);
                KeyEffect::Nothing
            },
            SortingKey::CategoryDown => {
                let c = if self.active_category_index < categories.len() {
                    self.active_category_index + 1
                } else {
                    categories.len()
                };
                self.select_category(c, categories);
                KeyEffect::Nothing
            },
            SortingKey::TagLeft => {
                if self.selected_tag_index > 0 {
                    self.selected_tag_index = self.selected_tag_index - 1;
                }
                KeyEffect::Nothing
            },
            SortingKey::TagRight => {
                let count = if self.active_category_index < categories.len() {
                    categories[self.active_category_index].len()
                } else {
                    2
                };
                let last = if count > 1 {
                    count - 1
                } else {
                    0
                };
                self.selected_tag_index = if self.selected_tag_index < last {
                    self.selected_tag_index + 1
                } else {
                    last
                };
                KeyEffect::Nothing
            },
            SortingKey::Number(n) => {
                let count = if self.active_category_index < categories.len() {
                    categories[self.active_category_index].len()
                } else {
                    2
                };
                if n < count {
                    self.selected_tag_index = n;
                    let fin = self.select_current_tag_and_advance(categories);
                    KeyEffect::Chosen { finalize: fin }
                } else {
                    KeyEffect::Nothing
                }
            },
            SortingKey::Confirm => {
                let fin = self.select_current_tag_and_advance(categories);
                KeyEffect::Chosen { finalize: fin }
            },
        }
    }

    /// The labels that go into the new name of the video.
    pub fn final_labels(&self) -> (r: Vec<String>)
        ensures
            views(r@) == kept_labels(self@.labels),
    {
        let ghost labels = self@.labels;
        let mut out: Vec<String> = Vec::new();
        let mut i: usize = 0;
        while i < self.current_labels.len()
            invariant
                i <= self.current_labels.len(),
                labels == views(self.current_labels@),
                views(out@) == kept_labels(labels.take(i as int)),
            decreases self.current_labels.len() - i,
        {
            assert(labels.take(i + 1).drop_last() == labels.take(i as int));
            assert(labels.take(i + 1).last() == labels[i as int]);
            let t = trim(self.current_labels[i].as_str());
            if !t.as_str().is_empty() {
                let ghost prev = out@;
                out.push(self.current_labels[i].clone());
                assert(views(out@) == views(prev).push(labels[i as int]));
            }
            i += 1;
        }
        assert(labels.take(self.current_labels.len() as int) == labels);
        out
    }

    /// Whether finishing the video renames it: it has a label or a star.
    pub fn should_rename(&self) -> (r: bool)
        ensures
            r == (kept_labels(self@.labels).len() > 0 || self@.starred),
    {
        let labels = self.final_labels();
        labels.len() > 0 || self.is_starred
    }
}

/// Whatever the session, a chosen label never ends up in two categories, and the cursors stay
/// in range: both hold after every key of the labelling screen.
pub proof fn law_keys_keep_session_sound(v: SessionView, key: SortingKey, cats: Seq<Seq<Seq<char>>>)
    requires
        labels_distinct(v.labels),
        cursors_in_range(v, cats),
    ensures
        labels_distinct(key_spec(v, key, cats).0.labels),
        cursors_in_range(key_spec(v, key, cats).0, cats),
{
    match key {
        SortingKey::Undo => lemma_undo_sound(v, cats),
        SortingKey::CategoryUp => lemma_select_sound(v, max_int(v.category - 1, 0), cats),
        SortingKey::CategoryDown => lemma_select_sound(v, min_int(v.category + 1, cats.len() as int), cats),
        SortingKey::Number(n) => {
            if n < tags_of(cats, v.category).len() {
                lemma_choose_sound(with_cursors(v, v.category, n as int, v.screenshot), cats);
            }
        },
        SortingKey::Confirm => lemma_choose_sound(v, cats),
        _ => {},
    }
}

proof fn lemma_select_sound(v: SessionView, idx: int, cats: Seq<Seq<Seq<char>>>)
    requires
        idx >= 0,
        0 <= v.screenshot,
        0 <= v.tag,
    ensures
        cursors_in_range(select_spec(v, idx, cats), cats),
        select_spec(v, idx, cats).labels == v.labels,
        select_spec(v, idx, cats).undone == v.undone,
        select_spec(v, idx, cats).starred == v.starred,
{
    let c = min_int(idx, cats.len() as int);
    let tags = tags_of(cats, c);
    if c < cats.len() && c < v.labels.len() {
        lemma_position_in_bounds(tags, v.labels[c]);
    }
}

proof fn lemma_position_from_bounds(tags: Seq<Seq<char>>, label: Seq<char>, from: int)
    requires
        0 <= from,
    ensures
        from <= position_from(tags, label, from) || position_from(tags, label, from) == tags.len(),
        0 <= position_from(tags, label, from) <= tags.len(),
    decreases tags.len() - from,
{
    if from < tags.len() && tags[from] != label {
        lemma_position_from_bounds(tags, label, from + 1);
    }
}

proof fn lemma_position_in_bounds(tags: Seq<Seq<char>>, label: Seq<char>)
    ensures
        0 <= position_in(tags, label) <= tags.len(),
{
    lemma_position_from_bounds(tags, label, 0);
}

proof fn lemma_set_label_distinct(v: SessionView, label: Seq<char>, cats: Seq<Seq<Seq<char>>>)
    requires
        labels_distinct(v.labels),
        0 <= v.category,
    ensures
        labels_distinct(set_label_spec(v, label, cats).labels),
        set_label_spec(v, label, cats).category == v.category,
        set_label_spec(v, label, cats).tag == v.tag,
        set_label_spec(v, label, cats).screenshot == v.screenshot,
{
    let w = set_label_spec(v, label, cats);
    if !(v.category >= cats.len() || label_taken(v.labels, v.category, label)) {
        assert forall|k: int| 0 <= k < v.labels.len() && k != v.category implies v.labels[k] != label by {
            if v.labels[k] == label {
                assert(label_taken(v.labels, v.category, label));
            }
        }
        if v.category < v.labels.len() {
            assert(w.labels == v.labels.update(v.category, label));
            assert forall|i: int, j: int| 0 <= i < j < w.labels.len() implies w.labels[i] != w.labels[j] by {
                if i != v.category && j != v.category {
                    assert(w.labels[i] == v.labels[i] && w.labels[j] == v.labels[j]);
                }
            }
        } else {
            assert(w.labels == v.labels.push(label));
            assert forall|i: int, j: int| 0 <= i < j < w.labels.len() implies w.labels[i] != w.labels[j] by {
                if j < v.labels.len() {
                    assert(w.labels[i] == v.labels[i] && w.labels[j] == v.labels[j]);
                } else {
                    assert(w.labels[i] == v.labels[i] && w.labels[j] == label);
                }
            }
        }
    }
}

proof fn lemma_undo_sound(v: SessionView, cats: Seq<Seq<Seq<char>>>)
    requires
        labels_distinct(v.labels),
        cursors_in_range(v, cats),
    ensures
        labels_distinct(undo_spec(v, cats).labels),
        cursors_in_range(undo_spec(v, cats), cats),
{
    if !(v.starred && v.category >= cats.len()) && v.labels.len() > 0 {
        let w = with_labels(v, v.labels.drop_last(), v.undone.push(v.labels.last()));
        lemma_select_sound(w, min_int(w.labels.len() as int, cats.len() as int), cats);
    }
}

proof fn lemma_choose_sound(v: SessionView, cats: Seq<Seq<Seq<char>>>)
    requires
        labels_distinct(v.labels),
        0 <= v.category,
        0 <= v.tag,
        0 <= v.screenshot,
    ensures
        labels_distinct(choose_spec(v, cats).0.labels),
        cursors_in_range(choose_spec(v, cats).0, cats),
{
    let w = clamp_cursor(v, cats);
    if w.category < cats.len() {
        let tags = tags_of(cats, w.category);
        if w.tag < tags.len() {
            lemma_set_label_distinct(w, tags[w.tag], cats);
        }
        let w2 = if w.tag < tags.len() {
            set_label_spec(w, tags[w.tag], cats)
        } else {
            w
        };
        lemma_select_sound(w2, min_int(w2.category + 1, cats.len() as int), cats);
    }
}

/// Redo gives back what undo took: after an undo of the last label, a redo restores the
/// labels, when no label is used twice and every label has its category.
pub proof fn law_redo_restores_undone_label(v: SessionView, cats: Seq<Seq<Seq<char>>>)
    requires
        labels_distinct(v.labels),
        0 < v.labels.len() <= cats.len(),
        !(v.starred && v.category >= cats.len()),
        0 <= v.tag,
        0 <= v.screenshot,
    ensures
        redo_spec(undo_spec(v, cats), cats).labels == v.labels,
{
    let w = with_labels(v, v.labels.drop_last(), v.undone.push(v.labels.last()));
    let n = w.labels.len() as int;
    lemma_select_sound(w, n, cats);
    let u = undo_spec(v, cats);
    assert(u == select_spec(w, n, cats));
    assert(u.category == n);
    assert(u.undone.last() == v.labels.last());
    let u2 = with_labels(u, u.labels, u.undone.drop_last());
    assert(!label_taken(u2.labels, u2.category, v.labels.last())) by {
        if label_taken(u2.labels, u2.category, v.labels.last()) {
            let i = choose|i: int| 0 <= i < u2.labels.len() && i != u2.category && u2.labels[i] == v.labels.last();
            assert(v.labels[i] == v.labels[v.labels.len() - 1]);
        }
    }
    assert(u2.labels.push(v.labels.last()) =~= v.labels);
}

} // verus!
