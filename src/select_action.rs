use vstd::prelude::*;
use crate::text::{file_name, file_name_of, upper_of, uppercase};

verus! {

/// The views of a sequence of paths.
pub open spec fn paths_of(v: Seq<String>) -> Seq<Seq<char>> {
    v.map_values(|s: String| s@)
}

/// How a click changes the selection.
#[derive(Clone, Copy, PartialEq, Eq, Debug, Structural)]
pub enum SelectionMode {
    Single,
    Multiple,
    Ranged,
}

/// The mode is a function of the modifier keys held during a tick: the range
/// modifier wins over the multi-select modifier.
pub fn derive_mode(range_held: bool, multi_held: bool) -> (mode: SelectionMode)
    ensures
        mode == (if range_held {
            SelectionMode::Ranged
        } else if multi_held {
            SelectionMode::Multiple
        } else {
            SelectionMode::Single
        }),
{
    if range_held {
        SelectionMode::Ranged
    } else if multi_held {
        SelectionMode::Multiple
    } else {
        SelectionMode::Single
    }
}

/// Whether `path` occurs in `paths`.
pub fn contains_path(paths: &Vec<String>, path: &String) -> (r: bool)
    ensures
        r == paths_of(paths@).contains(path@),
{
    let mut i: usize = 0;
    while i < paths.len()
        invariant
            i <= paths.len(),
            forall|j: int| 0 <= j < i ==> paths@[j]@ != path@,
        decreases paths.len() - i,
    {
        if paths[i] == *path {
            assert(paths_of(paths@)[i as int] == path@);
            return true;
        }
        i = i + 1;
    }
    proof {
        if paths_of(paths@).contains(path@) {
            let k = choose|k: int| 0 <= k < paths_of(paths@).len() && paths_of(paths@)[k] == path@;
            assert(paths@[k]@ == path@);
        }
    }
    false
}


/// The selection after a click in `Single` mode: clicking the sole selected
/// entry clears the selection, clicking anything else selects exactly it.
pub open spec fn single_click(sel: Seq<Seq<char>>, e: Seq<char>) -> Seq<Seq<char>> {
    if sel == seq![e] {
        Seq::empty()
    } else {
        seq![e]
    }
}

/// Holds of every path but `e`.
pub open spec fn other_than(e: Seq<char>) -> spec_fn(Seq<char>) -> bool {
    |x: Seq<char>| x != e
}

/// Holds of every path that is not in `gone`.
pub open spec fn absent_from(gone: Seq<Seq<char>>) -> spec_fn(Seq<char>) -> bool {
    |x: Seq<char>| !gone.contains(x)
}

/// The selection after a click in `Multiple` mode: membership of `e` flips.
pub open spec fn toggle(sel: Seq<Seq<char>>, e: Seq<char>) -> Seq<Seq<char>> {
    if sel.contains(e) {
        sel.filter(other_than(e))
    } else {
        sel.push(e)
    }
}

/// `sel` extended, in order, by each item of `items` not yet in it.
pub open spec fn add_missing(sel: Seq<Seq<char>>, items: Seq<Seq<char>>) -> Seq<Seq<char>>
    decreases items.len(),
{
    if items.len() == 0 {
        sel
    } else {
        let s = add_missing(sel, items.drop_last());
        if s.contains(items.last()) {
            s
        } else {
            s.push(items.last())
        }
    }
}

/// The smallest index below `n` at which `e` stands in `listing`, or -1.
pub open spec fn first_index(listing: Seq<Seq<char>>, e: Seq<char>, n: int) -> int
    decreases n,
{
    if n <= 0 {
        -1
    } else {
        let j = first_index(listing, e, n - 1);
        if j >= 0 {
            j
        } else if listing[n - 1] == e {
            n - 1
        } else {
            -1
        }
    }
}

/// The largest index below `n` whose entry is selected, or -1.
pub open spec fn last_selected_index(listing: Seq<Seq<char>>, sel: Seq<Seq<char>>, n: int) -> int
    decreases n,
{
    if n <= 0 {
        -1
    } else if sel.contains(listing[n - 1]) {
        n - 1
    } else {
        last_selected_index(listing, sel, n - 1)
    }
}

/// `first_index` finds an index below `n` holding `e`, and looking further
/// does not change what it found.
pub proof fn lemma_first_index(listing: Seq<Seq<char>>, e: Seq<char>, n: int, m: int)
    requires
        0 <= n <= m <= listing.len(),
    ensures
        first_index(listing, e, n) < n,
        first_index(listing, e, n) >= 0 ==> first_index(listing, e, m) == first_index(listing, e, n),
        first_index(listing, e, n) >= 0 ==> listing[first_index(listing, e, n)] == e,
    decreases m,
{
    if m > n {
        lemma_first_index(listing, e, n, m - 1);
    } else if n > 0 {
        lemma_first_index(listing, e, n - 1, n - 1);
    }
}

/// `last_selected_index` finds an index below `n` whose entry is selected.
pub proof fn lemma_last_selected_index(listing: Seq<Seq<char>>, sel: Seq<Seq<char>>, n: int)
    requires
        0 <= n <= listing.len(),
    ensures
        -1 <= last_selected_index(listing, sel, n) < n,
        last_selected_index(listing, sel, n) >= 0 ==> sel.contains(listing[last_selected_index(listing, sel, n)]),
    decreases n,
{
    if n > 0 {
        lemma_last_selected_index(listing, sel, n - 1);
    }
}

/// The anchor of a ranged click: the position of the last selected entry in
/// the listing, or 0 when none of them is selected.
pub open spec fn anchor_index(listing: Seq<Seq<char>>, sel: Seq<Seq<char>>) -> int {
    let i = last_selected_index(listing, sel, listing.len() as int);
    if i < 0 {
        0
    } else {
        i
    }
}

/// The selection after a click in `Ranged` mode: every entry between the
/// anchor and the clicked one, both included, is added; a click on an entry
/// that is not in the listing changes nothing.
pub open spec fn ranged_click(sel: Seq<Seq<char>>, e: Seq<char>, listing: Seq<Seq<char>>) -> Seq<Seq<char>> {
    let t = first_index(listing, e, listing.len() as int);
    if t < 0 {
        sel
    } else {
        let a = anchor_index(listing, sel);
        let lo = if a <= t { a } else { t };
        let hi = if a <= t { t } else { a };
        add_missing(sel, listing.subrange(lo, hi + 1))
    }
}

/// The selection after a click on `e` under `mode`.
pub open spec fn click(mode: SelectionMode, sel: Seq<Seq<char>>, e: Seq<char>, listing: Seq<Seq<char>>) -> Seq<Seq<char>> {
    match mode {
        SelectionMode::Single => single_click(sel, e),
        SelectionMode::Multiple => toggle(sel, e),
        SelectionMode::Ranged => ranged_click(sel, e, listing),
    }
}

/// The paths of `files` other than `e`, in their order.
fn without_path(files: &Vec<String>, e: &String) -> (r: Vec<String>)
    ensures
        paths_of(r@) == paths_of(files@).filter(other_than(e@)),
{
    let ghost keep = other_than(e@);
    let mut out: Vec<String> = Vec::new();
    let mut i: usize = 0;
    while i < files.len()
        invariant
            i <= files.len(),
            keep == other_than(e@),
            paths_of(out@) == paths_of(files@.subrange(0, i as int)).filter(keep),
        decreases files.len() - i,
    {
        let ghost before = paths_of(files@.subrange(0, i as int));
        let ghost after = paths_of(files@.subrange(0, i + 1));
        proof {
            reveal(Seq::filter);
            assert(after.drop_last() =~= before);
            assert(after.last() == files@[i as int]@);
        }
        if !(files[i] == *e) {
            out.push(files[i].clone());
            assert(paths_of(out@) =~= before.filter(keep).push(files@[i as int]@));
        }
        i = i + 1;
    }
    assert(files@.subrange(0, files.len() as int) =~= files@);
    out
}

/// The paths of `files` that do not occur in `gone`, in their order.
fn without_paths(files: &Vec<String>, gone: &Vec<String>) -> (r: Vec<String>)
    ensures
        paths_of(r@) == paths_of(files@).filter(absent_from(paths_of(gone@))),
{
    let ghost keep = absent_from(paths_of(gone@));
    let mut out: Vec<String> = Vec::new();
    let mut i: usize = 0;
    while i < files.len()
        invariant
            i <= files.len(),
            keep == absent_from(paths_of(gone@)),
            paths_of(out@) == paths_of(files@.subrange(0, i as int)).filter(keep),
        decreases files.len() - i,
    {
        let ghost before = paths_of(files@.subrange(0, i as int));
        let ghost after = paths_of(files@.subrange(0, i + 1));
        proof {
            reveal(Seq::filter);
            assert(after.drop_last() =~= before);
            assert(after.last() == files@[i as int]@);
        }
        if !contains_path(gone, &files[i]) {
            out.push(files[i].clone());
            assert(paths_of(out@) =~= before.filter(keep).push(files@[i as int]@));
        }
        i = i + 1;
    }
    assert(files@.subrange(0, files.len() as int) =~= files@);
    out
}

/// The first position of `e` in `listing`, if it occurs there.
fn first_position(listing: &Vec<String>, e: &String) -> (r: Option<usize>)
    ensures
        match r {
            Some(t) => t as int == first_index(paths_of(listing@), e@, listing.len() as int),
            None => first_index(paths_of(listing@), e@, listing.len() as int) < 0,
        },
{
    let ghost ls = paths_of(listing@);
    let mut i: usize = 0;
    while i < listing.len()
        invariant
            i <= listing.len(),
            ls == paths_of(listing@),
            first_index(ls, e@, i as int) < 0,
        decreases listing.len() - i,
    {
        if listing[i] == *e {
            proof {
                lemma_first_index(ls, e@, i as int + 1, listing.len() as int);
            }
            return Some(i);
        }
        i = i + 1;
    }
    None
}

/// The last position in `listing` whose entry is in `files`, if any.
fn last_selected_position(listing: &Vec<String>, files: &Vec<String>) -> (r: Option<usize>)
    ensures
        match r {
            Some(a) => a as int == last_selected_index(paths_of(listing@), paths_of(files@), listing.len() as int),
            None => last_selected_index(paths_of(listing@), paths_of(files@), listing.len() as int) < 0,
        },
{
    let ghost ls = paths_of(listing@);
    let ghost sel = paths_of(files@);
    let mut n: usize = listing.len();
    while n > 0
        invariant
            n <= listing.len(),
            ls == paths_of(listing@),
            sel == paths_of(files@),
            last_selected_index(ls, sel, listing.len() as int) == last_selected_index(ls, sel, n as int),
        decreases n,
    {
        if contains_path(files, &listing[n - 1]) {
            return Some(n - 1);
        }
        n = n - 1;
    }
    None
}

/// A path occurs in `add_missing(sel, items)` exactly when it occurs in `sel`
/// or in `items`, and no path is added twice.
pub proof fn lemma_add_missing(sel: Seq<Seq<char>>, items: Seq<Seq<char>>)
    ensures
        forall|x: Seq<char>| #[trigger] add_missing(sel, items).contains(x) <==> (sel.contains(x) || items.contains(x)),
        sel.no_duplicates() ==> add_missing(sel, items).no_duplicates(),
    decreases items.len(),
{
    if items.len() > 0 {
        lemma_add_missing(sel, items.drop_last());
        let s = add_missing(sel, items.drop_last());
        assert forall|x: Seq<char>| s.push(items.last()).contains(x) <==> (s.contains(x) || x == items.last()) by {
            if s.push(items.last()).contains(x) {
                let k = choose|k: int| 0 <= k < s.len() + 1 && s.push(items.last())[k] == x;
                if k < s.len() {
                    assert(s[k] == x);
                }
            }
            if s.contains(x) {
                let k = choose|k: int| 0 <= k < s.len() && s[k] == x;
                assert(s.push(items.last())[k] == x);
            }
            if x == items.last() {
                assert(s.push(items.last())[s.len() as int] == x);
            }
        }
        if sel.no_duplicates() && !s.contains(items.last()) {
            assert forall|i: int, j: int| 0 <= i < j < s.len() + 1 implies s.push(items.last())[i] != s.push(items.last())[j] by {
                if j == s.len() {
                    assert(s[i] == s.push(items.last())[i]);
                }
            }
        }
        assert forall|x: Seq<char>| items.contains(x) <==> (items.drop_last().contains(x) || x == items.last()) by {
            if items.contains(x) {
                let k = choose|k: int| 0 <= k < items.len() && items[k] == x;
                if k < items.len() - 1 {
                    assert(items.drop_last()[k] == x);
                }
            }
            if items.drop_last().contains(x) {
                let k = choose|k: int| 0 <= k < items.drop_last().len() && items.drop_last()[k] == x;
                assert(items[k] == x);
            }
        }
        assert forall|x: Seq<char>| #[trigger] add_missing(sel, items).contains(x) <==> (sel.contains(x) || items.contains(x)) by {
            assert(items.contains(x) <==> (items.drop_last().contains(x) || x == items.last()));
            assert(s.contains(x) <==> (sel.contains(x) || items.drop_last().contains(x)));
        }
    }
}

/// Keeping some of a selection's paths keeps them distinct.
pub proof fn lemma_filter_distinct(sel: Seq<Seq<char>>, keep: spec_fn(Seq<char>) -> bool)
    requires
        sel.no_duplicates(),
    ensures
        sel.filter(keep).no_duplicates(),
    decreases sel.len(),
{
    reveal(Seq::filter);
    if sel.len() > 0 {
        let rest = sel.drop_last();
        assert(rest.no_duplicates());
        lemma_filter_distinct(rest, keep);
        if keep(sel.last()) {
            if rest.filter(keep).contains(sel.last()) {
                rest.lemma_filter_contains_rev(keep, sel.last());
                let k = choose|k: int| 0 <= k < rest.len() && rest[k] == sel.last();
                assert(sel[k] == sel[sel.len() - 1]);
            }
        }
    }
}

/// Whether the file name of `path`, in upper case, begins with `key`.
pub open spec fn name_starts_with(path: Seq<char>, key: char) -> bool {
    match file_name_of(path) {
        Some(n) => upper_of(n).len() > 0 && upper_of(n)[0] == key,
        None => false,
    }
}

/// The first index at or after `from` whose file name begins with `key`, or -1.
pub open spec fn key_match_from(listing: Seq<Seq<char>>, key: char, from: int) -> int
    decreases listing.len() - from,
{
    if from < 0 || from >= listing.len() {
        -1
    } else if name_starts_with(listing[from], key) {
        from
    } else {
        key_match_from(listing, key, from + 1)
    }
}

/// Where a jump to `key` lands: the first entry after the last selected one
/// (or from the top, when nothing in the listing is selected) whose name
/// begins with `key`; the search does not wrap around. -1 when there is none.
pub open spec fn jump_target(listing: Seq<Seq<char>>, sel: Seq<Seq<char>>, key: char) -> int {
    key_match_from(listing, key, last_selected_index(listing, sel, listing.len() as int) + 1)
}

/// `key_match_from` finds an entry of the listing at or after `from`.
pub proof fn lemma_key_match_from(listing: Seq<Seq<char>>, key: char, from: int)
    ensures
        key_match_from(listing, key, from) < listing.len(),
        key_match_from(listing, key, from) >= 0 ==> key_match_from(listing, key, from) >= from,
    decreases listing.len() - from,
{
    if 0 <= from < listing.len() {
        lemma_key_match_from(listing, key, from + 1);
    }
}

/// Whether the file name of `path`, in upper case, begins with `key`.
fn starts_with_key(path: &String, key: char) -> (r: bool)
    ensures
        r == name_starts_with(path@, key),
{
    match file_name(path) {
        Some(n) => {
            let upper = uppercase(n.as_str());
            let s = upper.as_str();
            s.unicode_len() > 0 && s.get_char(0) == key
        },
        None => false,
    }
}

/// The first position at or after `from` whose file name begins with `key`.
fn find_key_match(listing: &Vec<String>, key: char, from: usize) -> (r: Option<usize>)
    ensures
        match r {
            Some(j) => j as int == key_match_from(paths_of(listing@), key, from as int),
            None => key_match_from(paths_of(listing@), key, from as int) < 0,
        },
{
    let ghost ls = paths_of(listing@);
    let mut j: usize = from;
    while j < listing.len()
        invariant
            from <= j,
            ls == paths_of(listing@),
            key_match_from(ls, key, from as int) == key_match_from(ls, key, j as int),
        decreases listing.len() - j,
    {
        if starts_with_key(&listing[j], key) {
            return Some(j);
        }
        j = j + 1;
    }
    None
}

/// The state of the jump-to-letter feature: a key that was acted on stays
/// held, and no further jump happens, until it is released.
#[derive(Clone, Copy, PartialEq, Eq, Debug, Structural)]
pub enum KeySelect {
    Idle,
    Held { key: char, needs_scroll: bool },
}

/// What a caller gets when it asks for the selection.
pub enum SelectionResult {
    Single(String),
    Multiple(Vec<String>),
    NothingSelected(String),
}

impl SelectionResult {
    /// Both results are of one variant and hold the same paths or message.
    pub open spec fn same_as(&self, other: &SelectionResult) -> bool {
        match (self, other) {
            (SelectionResult::Single(a), SelectionResult::Single(b)) => a@ == b@,
            (SelectionResult::Multiple(a), SelectionResult::Multiple(b)) => paths_of(a@) == paths_of(b@),
            (SelectionResult::NothingSelected(a), SelectionResult::NothingSelected(b)) => a@ == b@,
            _ => false,
        }
    }

    /// A copy that owns its own paths.
    pub fn clone(&self) -> (r: SelectionResult)
        ensures
            r.same_as(self),
    {
        match self {
            SelectionResult::Single(path) => SelectionResult::Single(path.clone()),
            SelectionResult::Multiple(paths) => {
                let copy = paths.clone();
                assert(paths_of(copy@) =~= paths_of(paths@));
                SelectionResult::Multiple(copy)
            },
            SelectionResult::NothingSelected(err) => SelectionResult::NothingSelected(err.clone()),
        }
    }
}

/// The selected entries and the mode that governs how clicks change them.
pub struct SelectAction {
    pub files: Vec<String>,
    pub mode: SelectionMode,
    pub key_select: KeySelect,
}

impl SelectAction {
    /// The selected paths, in the order they were selected.
    pub open spec fn selection(&self) -> Seq<Seq<char>> {
        paths_of(self.files@)
    }

    /// No path is selected twice.
    pub open spec fn wf(&self) -> bool {
        self.selection().no_duplicates()
    }

    pub fn new() -> (r: Self)
        ensures
            r.selection() == Seq::<Seq<char>>::empty(),
            r.mode == SelectionMode::Single,
            r.key_select == KeySelect::Idle,
            r.wf(),
    {
        SelectAction { files: Vec::new(), mode: SelectionMode::Single, key_select: KeySelect::Idle }
    }

    pub fn is_file_selected(&self, file: &String) -> (r: bool)
        ensures
            r == self.selection().contains(file@),
    {
        contains_path(&self.files, file)
    }

    /// Selects exactly `file`, whatever the mode, and records `key` as held
    /// with the view still to be scrolled to it.
    pub fn select_by_key(&mut self, file: &String, key: char)
        ensures
            final(self).selection() == seq![file@],
            final(self).mode == old(self).mode,
            final(self).key_select == (KeySelect::Held { key, needs_scroll: true }),
            final(self).wf(),
    {
        self.files.clear();
        self.files.push(file.clone());
        self.key_select = KeySelect::Held { key, needs_scroll: true };
        assert(self.selection() =~= seq![file@]);
        assert(self.selection().no_duplicates());
    }

    /// A press of `key`: while a key is held nothing happens; otherwise the
    /// selection jumps to the next entry of `listing` whose name begins with
    /// `key`, if there is one.
    pub fn key_pressed(&mut self, listing: &Vec<String>, key: char)
        ensures
            final(self).mode == old(self).mode,
            ({
                let t = jump_target(paths_of(listing@), old(self).selection(), key);
                if old(self).key_select == KeySelect::Idle && t >= 0 {
                    &&& final(self).selection() == seq![paths_of(listing@)[t]]
                    &&& final(self).key_select == (KeySelect::Held { key, needs_scroll: true })
                } else {
                    &&& final(self).selection() == old(self).selection()
                    &&& final(self).key_select == old(self).key_select
                }
            }),
            old(self).wf() ==> final(self).wf(),
    {
        if self.key_select != KeySelect::Idle {
            return;
        }
        proof {
            lemma_last_selected_index(paths_of(listing@), self.selection(), listing.len() as int);
        }
        let from = match last_selected_position(listing, &self.files) {
            Some(a) => a + 1,
            None => 0,
        };
        let found = find_key_match(listing, key, from);
        proof {
            lemma_key_match_from(paths_of(listing@), key, from as int);
        }
        if let Some(t) = found {
            self.select_by_key(&listing[t], key);
        }
    }

    /// A release of `key` ends the hold that a press of it started.
    pub fn key_released(&mut self, key: char)
        ensures
            final(self).files == old(self).files,
            final(self).mode == old(self).mode,
            final(self).key_select == (match old(self).key_select {
                KeySelect::Held { key: k, .. } if k == key => KeySelect::Idle,
                other => other,
            }),
    {
        if let KeySelect::Held { key: k, .. } = self.key_select {
            if k == key {
                self.key_select = KeySelect::Idle;
            }
        }
    }

    /// The view has scrolled to the entry a key selected.
    pub fn scrolled_to_selection(&mut self)
        ensures
            final(self).files == old(self).files,
            final(self).mode == old(self).mode,
            final(self).key_select == (match old(self).key_select {
                KeySelect::Held { key, .. } => KeySelect::Held { key, needs_scroll: false },
                KeySelect::Idle => KeySelect::Idle,
            }),
    {
        if let KeySelect::Held { key, .. } = self.key_select {
            self.key_select = KeySelect::Held { key, needs_scroll: false };
        }
    }

    /// Switches between `Single` and `Multiple`; `Ranged` stays as it is.
    pub fn toggle_selection_mode(&mut self)
        ensures
            final(self).files == old(self).files,
            final(self).key_select == old(self).key_select,
            final(self).mode == match old(self).mode {
                SelectionMode::Single => SelectionMode::Multiple,
                SelectionMode::Multiple => SelectionMode::Single,
                SelectionMode::Ranged => SelectionMode::Ranged,
            },
    {
        self.mode = match self.mode {
            SelectionMode::Single => SelectionMode::Multiple,
            SelectionMode::Multiple => SelectionMode::Single,
            SelectionMode::Ranged => SelectionMode::Ranged,
        };
    }

    /// Empties the selection and goes back to `Single` mode.
    pub fn clear_selection(&mut self)
        ensures
            final(self).selection() == Seq::<Seq<char>>::empty(),
            final(self).mode == SelectionMode::Single,
            final(self).key_select == old(self).key_select,
            final(self).wf(),
    {
        self.files.clear();
        self.mode = SelectionMode::Single;
        assert(self.selection() =~= Seq::<Seq<char>>::empty());
    }

    /// Removes `file` from the selection; nothing happens if it is not there.
    pub fn deselect_file(&mut self, file: &String)
        ensures
            final(self).selection() == old(self).selection().filter(other_than(file@)),
            final(self).mode == old(self).mode,
            final(self).key_select == old(self).key_select,
            old(self).wf() ==> final(self).wf(),
    {
        self.files = without_path(&self.files, file);
        proof {
            if old(self).wf() {
                lemma_filter_distinct(old(self).selection(), other_than(file@));
            }
        }
    }

    /// The selection as the caller shows it: `nothing_selected` as an error
    /// when it is empty, the one entry in `Single` mode, all of them otherwise.
    pub fn get_selected_files(&self, nothing_selected: &String) -> (r: SelectionResult)
        ensures
            match r {
                SelectionResult::NothingSelected(m) => self.files.len() == 0 && m@ == nothing_selected@,
                SelectionResult::Single(p) => {
                    &&& self.files.len() > 0
                    &&& self.mode == SelectionMode::Single
                    &&& p@ == self.selection()[0]
                },
                SelectionResult::Multiple(ps) => {
                    &&& self.files.len() > 0
                    &&& self.mode != SelectionMode::Single
                    &&& paths_of(ps@) == self.selection()
                },
            },
    {
        if self.files.is_empty() {
            return SelectionResult::NothingSelected(nothing_selected.clone());
        }
        match self.mode {
            SelectionMode::Single => SelectionResult::Single(self.files[0].clone()),
            _ => {
                let copy = self.files.clone();
                assert(paths_of(copy@) =~= self.selection());
                SelectionResult::Multiple(copy)
            },
        }
    }

    /// Drops from the selection every path in `missing`, the selected paths
    /// whose entries no longer exist on disk.
    pub fn remove_deleted_files(&mut self, missing: &Vec<String>)
        ensures
            final(self).selection() == old(self).selection().filter(absent_from(paths_of(missing@))),
            final(self).mode == old(self).mode,
            final(self).key_select == old(self).key_select,
            old(self).wf() ==> final(self).wf(),
    {
        self.files = without_paths(&self.files, missing);
        proof {
            if old(self).wf() {
                lemma_filter_distinct(old(self).selection(), absent_from(paths_of(missing@)));
            }
        }
    }

    /// Applies a click on `file` under the current mode; `listing` is the
    /// ordered sequence of entries that a ranged click spans.
    pub fn select_file(&mut self, file: &String, listing: &Vec<String>)
        ensures
            final(self).selection() == click(old(self).mode, old(self).selection(), file@, paths_of(listing@)),
            final(self).mode == old(self).mode,
            final(self).key_select == old(self).key_select,
            old(self).wf() ==> final(self).wf(),
    {
        let ghost sel = self.selection();
        let ghost held = self.key_select;
        match self.mode {
            SelectionMode::Single => {
                let sole = self.files.len() == 1 && self.files[0] == *file;
                proof {
                    if sole {
                        assert(sel =~= seq![file@]);
                    } else if sel == seq![file@] {
                        assert(sel[0] == file@);
                    }
                }
                self.files.clear();
                if !sole {
                    self.files.push(file.clone());
                    assert(self.selection() =~= seq![file@]);
                    assert(self.selection().no_duplicates());
                } else {
                    assert(self.selection() =~= Seq::<Seq<char>>::empty());
                    assert(self.selection().no_duplicates());
                }
            },
            SelectionMode::Multiple => {
                if self.is_file_selected(file) {
                    self.files = without_path(&self.files, file);
                    proof {
                        if sel.no_duplicates() {
                            lemma_filter_distinct(sel, other_than(file@));
                        }
                    }
                    assert(sel.no_duplicates() ==> self.selection().no_duplicates());
                } else {
                    self.files.push(file.clone());
                    assert(self.selection() =~= sel.push(file@));
                    proof {
                        lemma_add_missing(sel, seq![file@]);
                        assert(seq![file@].drop_last() =~= Seq::<Seq<char>>::empty());
                        assert(add_missing(sel, Seq::<Seq<char>>::empty()) == sel);
                        assert(add_missing(sel, seq![file@]) == sel.push(file@));
                    }
                }
            },
            SelectionMode::Ranged => {
                if let Some(t) = first_position(listing, file) {
                    let a = match last_selected_position(listing, &self.files) {
                        Some(a) => a,
                        None => 0,
                    };
                    let ghost ls = paths_of(listing@);
                    proof {
                        lemma_first_index(ls, file@, listing.len() as int, listing.len() as int);
                        lemma_last_selected_index(ls, sel, listing.len() as int);
                    }
                    assert(a as int == anchor_index(ls, sel));
                    let lo = if a <= t { a } else { t };
                    let hi = if a <= t { t } else { a };
                    let mut j: usize = lo;
                    while j < hi + 1
                        invariant
                            lo <= j <= hi + 1,
                            hi < listing.len(),
                            ls == paths_of(listing@),
                            self.selection() == add_missing(sel, ls.subrange(lo as int, j as int)),
                            self.mode == SelectionMode::Ranged,
                            self.key_select == held,
                        decreases hi + 1 - j,
                    {
                        let ghost before = self.selection();
                        assert(ls.subrange(lo as int, j + 1).drop_last() =~= ls.subrange(lo as int, j as int));
                        assert(ls.subrange(lo as int, j + 1).last() == listing@[j as int]@);
                        if !contains_path(&self.files, &listing[j]) {
                            self.files.push(listing[j].clone());
                            assert(self.selection() =~= before.push(listing@[j as int]@));
                        }
                        j = j + 1;
                    }
                    proof {
                        lemma_add_missing(sel, ls.subrange(lo as int, hi + 1));
                    }
                    assert(sel.no_duplicates() ==> self.selection().no_duplicates());
                }
            },
        }
    }
}

/// The selection after clicking each of `clicked` in turn under `mode`.
pub open spec fn clicks(mode: SelectionMode, sel: Seq<Seq<char>>, clicked: Seq<Seq<char>>, listing: Seq<Seq<char>>) -> Seq<Seq<char>>
    decreases clicked.len(),
{
    if clicked.len() == 0 {
        sel
    } else {
        click(mode, clicks(mode, sel, clicked.drop_last(), listing), clicked.last(), listing)
    }
}

/// In `Single` mode, whatever was selected before and whatever is clicked,
/// after each click at most one entry is selected.
pub proof fn lemma_single_mode_selects_at_most_one(sel: Seq<Seq<char>>, clicked: Seq<Seq<char>>, listing: Seq<Seq<char>>)
    ensures
        forall|k: int| 1 <= k <= clicked.len() ==> #[trigger] clicks(SelectionMode::Single, sel, clicked.take(k), listing).len() <= 1,
{
    assert forall|k: int| 1 <= k <= clicked.len() implies #[trigger] clicks(SelectionMode::Single, sel, clicked.take(k), listing).len() <= 1 by {
        let before = clicks(SelectionMode::Single, sel, clicked.take(k).drop_last(), listing);
        let e = clicked.take(k).last();
        assert(clicks(SelectionMode::Single, sel, clicked.take(k), listing) == single_click(before, e));
    }
}

/// In `Single` mode, clicking the sole selected entry empties the selection.
pub proof fn lemma_single_click_on_selected_clears(e: Seq<char>, listing: Seq<Seq<char>>)
    ensures
        click(SelectionMode::Single, seq![e], e, listing) == Seq::<Seq<char>>::empty(),
{
}

/// In `Multiple` mode, clicking the same entry twice in a row gives back the
/// set of entries selected before.
pub proof fn lemma_multiple_click_twice_restores(sel: Seq<Seq<char>>, e: Seq<char>, listing: Seq<Seq<char>>)
    ensures
        click(SelectionMode::Multiple, click(SelectionMode::Multiple, sel, e, listing), e, listing).to_set() == sel.to_set(),
{
    let once = click(SelectionMode::Multiple, sel, e, listing);
    let twice = click(SelectionMode::Multiple, once, e, listing);
    assert forall|s: Seq<Seq<char>>, x: Seq<char>| #[trigger] s.filter(other_than(e)).contains(x) <==> (s.contains(x) && x != e) by {
        if s.filter(other_than(e)).contains(x) {
            s.lemma_filter_contains_rev(other_than(e), x);
            let k = choose|k: int| 0 <= k < s.filter(other_than(e)).len() && s.filter(other_than(e))[k] == x;
            s.lemma_filter_pred(other_than(e), k);
        }
        if s.contains(x) && x != e {
            let k = choose|k: int| 0 <= k < s.len() && s[k] == x;
            s.lemma_filter_contains(other_than(e), k);
        }
    }
    assert forall|s: Seq<Seq<char>>, x: Seq<char>| #[trigger] s.push(e).contains(x) <==> (s.contains(x) || x == e) by {
        if s.push(e).contains(x) {
            let k = choose|k: int| 0 <= k < s.len() + 1 && s.push(e)[k] == x;
            if k < s.len() {
                assert(s[k] == x);
            }
        }
        if s.contains(x) {
            let k = choose|k: int| 0 <= k < s.len() && s[k] == x;
            assert(s.push(e)[k] == x);
        }
        if x == e {
            assert(s.push(e)[s.len() as int] == x);
        }
    }
    assert(twice.to_set() =~= sel.to_set());
}

/// Pruning keeps exactly the selected paths that are not reported missing,
/// and keeps them distinct.
pub proof fn lemma_prune_keeps_exactly_present(sel: Seq<Seq<char>>, missing: Seq<Seq<char>>)
    requires
        sel.no_duplicates(),
    ensures
        forall|x: Seq<char>| #[trigger] sel.filter(absent_from(missing)).contains(x) <==> (sel.contains(x) && !missing.contains(x)),
        sel.filter(absent_from(missing)).no_duplicates(),
{
    let keep = absent_from(missing);
    assert forall|x: Seq<char>| #[trigger] sel.filter(keep).contains(x) <==> (sel.contains(x) && !missing.contains(x)) by {
        if sel.filter(keep).contains(x) {
            sel.lemma_filter_contains_rev(keep, x);
            let k = choose|k: int| 0 <= k < sel.filter(keep).len() && sel.filter(keep)[k] == x;
            sel.lemma_filter_pred(keep, k);
        }
        if sel.contains(x) && !missing.contains(x) {
            let k = choose|k: int| 0 <= k < sel.len() && sel[k] == x;
            sel.lemma_filter_contains(keep, k);
        }
    }
    lemma_filter_distinct(sel, keep);
}

} // verus!
