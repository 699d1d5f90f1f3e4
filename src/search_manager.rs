//! The search pipeline as a state machine. Worker threads ask it for the next
//! directory to list, list it, and hand the listing back; the state machine
//! decides what is a match, which subdirectories are scheduled next, when the
//! run is over, and what a cancelled run still does.
use vstd::prelude::*;
use crate::text::{contains_text, has_infix, lower_of, lowercase};

verus! {

/// One entry of a directory as a worker listed it.
pub struct ListedEntry {
    pub path: String,
    pub name: String,
    pub is_dir: bool,
}

/// The plain values of a listed entry.
pub struct EntryView {
    pub path: Seq<char>,
    pub name: Seq<char>,
    pub is_dir: bool,
}

impl View for ListedEntry {
    type V = EntryView;

    open spec fn view(&self) -> EntryView {
        EntryView { path: self.path@, name: self.name@, is_dir: self.is_dir }
    }
}

/// The views of a sequence of listed entries.
pub open spec fn entries_of(v: Seq<ListedEntry>) -> Seq<EntryView> {
    v.map_values(|e: ListedEntry| e@)
}

/// An entry matches when its name, in lower case, contains the query, which
/// is kept in lower case.
pub open spec fn is_match(e: EntryView, query: Seq<char>) -> bool {
    has_infix(lower_of(e.name), query)
}

/// The paths of the matching entries of a listing, in listing order.
pub open spec fn matches_of(listing: Seq<EntryView>, query: Seq<char>) -> Seq<Seq<char>>
    decreases listing.len(),
{
    if listing.len() == 0 {
        Seq::empty()
    } else {
        let rest = matches_of(listing.drop_last(), query);
        if is_match(listing.last(), query) {
            rest.push(listing.last().path)
        } else {
            rest
        }
    }
}

/// The paths of the subdirectories of a listing, in listing order.
pub open spec fn subdirs_of(listing: Seq<EntryView>) -> Seq<Seq<char>>
    decreases listing.len(),
{
    if listing.len() == 0 {
        Seq::empty()
    } else {
        let rest = subdirs_of(listing.drop_last());
        if listing.last().is_dir {
            rest.push(listing.last().path)
        } else {
            rest
        }
    }
}

/// Where a run stands.
#[derive(Clone, Copy, PartialEq, Eq, Debug, Structural)]
pub enum SearchPhase {
    Idle,
    Running,
    Completed,
    Cancelled,
}

/// The plain values of a search.
pub struct SearchModel {
    pub phase: SearchPhase,
    pub query: Seq<char>,
    /// Directories scheduled for listing and not yet handed out, oldest first.
    pub pending: Seq<Seq<char>>,
    /// Directories handed out whose listing has not come back.
    pub in_flight: nat,
    /// Matches found and not yet drained.
    pub found: Seq<Seq<char>>,
    /// Matches drained so far.
    pub content: Seq<Seq<char>>,
}

impl SearchModel {
    /// Only a running search has directories waiting.
    pub open spec fn wf(self) -> bool {
        self.phase != SearchPhase::Running ==> self.pending.len() == 0
    }

    /// A fresh run over `roots` for a query already in lower case.
    pub open spec fn started(roots: Seq<Seq<char>>, query: Seq<char>) -> SearchModel {
        SearchModel {
            phase: if roots.len() > 0 { SearchPhase::Running } else { SearchPhase::Completed },
            query,
            pending: roots,
            in_flight: 0,
            found: Seq::empty(),
            content: Seq::empty(),
        }
    }

    /// Whether a directory can be handed out to a worker now.
    pub open spec fn can_hand_out(self) -> bool {
        &&& self.phase == SearchPhase::Running
        &&& self.pending.len() > 0
        &&& self.in_flight < usize::MAX
    }

    /// The oldest pending directory goes to a worker.
    pub open spec fn handed_out(self) -> SearchModel {
        SearchModel { pending: self.pending.drop_first(), in_flight: self.in_flight + 1, ..self }
    }

    /// A worker reports the listing of its directory, `None` when it could not
    /// be read. A running search records the matches and schedules the
    /// subdirectories; it is complete once nothing is pending or in flight.
    /// Any other search only counts the worker as done.
    pub open spec fn completed(self, listing: Option<Seq<EntryView>>) -> SearchModel {
        let in_flight = if self.in_flight > 0 { (self.in_flight - 1) as nat } else { 0 };
        if self.phase == SearchPhase::Running {
            let (matches, subdirs) = match listing {
                Some(l) => (matches_of(l, self.query), subdirs_of(l)),
                None => (Seq::empty(), Seq::empty()),
            };
            let pending = self.pending + subdirs;
            SearchModel {
                phase: if pending.len() == 0 && in_flight == 0 { SearchPhase::Completed } else { SearchPhase::Running },
                pending,
                in_flight,
                found: self.found + matches,
                ..self
            }
        } else {
            SearchModel { in_flight, ..self }
        }
    }

    /// A running search stops scheduling; others are left as they are.
    pub open spec fn cancelled(self) -> SearchModel {
        if self.phase == SearchPhase::Running {
            SearchModel { phase: SearchPhase::Cancelled, pending: Seq::empty(), ..self }
        } else {
            self
        }
    }

    /// The matches found so far move to the drained content.
    pub open spec fn drained(self) -> SearchModel {
        SearchModel { found: Seq::empty(), content: self.content + self.found, ..self }
    }
}

/// A search run: the query, the directories still to list, and the matches.
pub struct SearchManager {
    pub search_content: Vec<String>,
    pub search_query: String,
    pub phase: SearchPhase,
    pending: Vec<String>,
    in_flight: usize,
    found: Vec<String>,
}

impl View for SearchManager {
    type V = SearchModel;

    closed spec fn view(&self) -> SearchModel {
        SearchModel {
            phase: self.phase,
            query: self.search_query@,
            pending: self.pending@.map_values(|s: String| s@),
            in_flight: self.in_flight as nat,
            found: self.found@.map_values(|s: String| s@),
            content: self.search_content@.map_values(|s: String| s@),
        }
    }
}

/// The plain values of a listing handed back by a worker.
pub open spec fn listing_view(listing: Option<Vec<ListedEntry>>) -> Option<Seq<EntryView>> {
    match listing {
        Some(l) => Some(entries_of(l@)),
        None => None,
    }
}

impl SearchManager {
    pub fn new() -> (r: Self)
        ensures
            r@ == (SearchModel {
                phase: SearchPhase::Idle,
                query: Seq::empty(),
                pending: Seq::empty(),
                in_flight: 0,
                found: Seq::empty(),
                content: Seq::empty(),
            }),
            r@.wf(),
    {
        let r = SearchManager {
            search_content: Vec::new(),
            search_query: String::new(),
            phase: SearchPhase::Idle,
            pending: Vec::new(),
            in_flight: 0,
            found: Vec::new(),
        };
        assert(r@.pending =~= Seq::<Seq<char>>::empty());
        assert(r@.found =~= Seq::<Seq<char>>::empty());
        assert(r@.content =~= Seq::<Seq<char>>::empty());
        r
    }

    /// Starts a fresh run over `roots` for the current query, which is kept
    /// in lower case from now on.
    pub fn search(&mut self, roots: &Vec<String>)
        ensures
            final(self)@ == SearchModel::started(roots@.map_values(|s: String| s@), lower_of(old(self)@.query)),
            final(self)@.wf(),
    {
        self.search_query = lowercase(self.search_query.as_str());
        self.search_content = Vec::new();
        self.found = Vec::new();
        self.pending = roots.clone();
        self.in_flight = 0;
        self.phase = if roots.len() > 0 { SearchPhase::Running } else { SearchPhase::Completed };
        assert(self@.pending =~= roots@.map_values(|s: String| s@));
        assert(self@.found =~= Seq::<Seq<char>>::empty());
        assert(self@.content =~= Seq::<Seq<char>>::empty());
    }

    /// Starts a fresh run over the single directory `volume`.
    pub fn search_in_volume(&mut self, volume: &String)
        ensures
            final(self)@ == SearchModel::started(seq![volume@], lower_of(old(self)@.query)),
            final(self)@.wf(),
    {
        let mut roots: Vec<String> = Vec::new();
        roots.push(volume.clone());
        assert(roots@.map_values(|s: String| s@) =~= seq![volume@]);
        self.search(&roots);
    }

    /// Whether the run still schedules work.
    pub fn is_running(&self) -> (r: bool)
        ensures
            r == (self@.phase == SearchPhase::Running),
    {
        self.phase == SearchPhase::Running
    }

    /// The next directory for a worker to list, oldest first; `None` when the
    /// run is not running or nothing is pending.
    pub fn next_directory(&mut self) -> (r: Option<String>)
        ensures
            match r {
                Some(d) => {
                    &&& old(self)@.can_hand_out()
                    &&& d@ == old(self)@.pending[0]
                    &&& final(self)@ == old(self)@.handed_out()
                },
                None => !old(self)@.can_hand_out() && final(self)@ == old(self)@,
            },
            old(self)@.wf() ==> final(self)@.wf(),
    {
        if self.phase == SearchPhase::Running && self.pending.len() > 0 && self.in_flight < usize::MAX {
            let ghost before = self@;
            let d = self.pending.remove(0);
            self.in_flight = self.in_flight + 1;
            assert(self@.pending =~= before.pending.drop_first());
            Some(d)
        } else {
            None
        }
    }

    /// A worker hands back the listing of the directory it was given, `None`
    /// when the directory could not be read.
    pub fn complete_directory(&mut self, listing: Option<Vec<ListedEntry>>)
        ensures
            final(self)@ == old(self)@.completed(listing_view(listing)),
            old(self)@.wf() ==> final(self)@.wf(),
    {
        let ghost before = self@;
        if self.in_flight > 0 {
            self.in_flight = self.in_flight - 1;
        }
        if self.phase != SearchPhase::Running {
            return;
        }
        if let Some(entries) = listing {
            let ghost es = entries_of(entries@);
            let mut i: usize = 0;
            while i < entries.len()
                invariant
                    i <= entries.len(),
                    es == entries_of(entries@),
                    self.phase == SearchPhase::Running,
                    self@.query == before.query,
                    self@.in_flight == (if before.in_flight > 0 { (before.in_flight - 1) as nat } else { 0 }),
                    self@.content == before.content,
                    self@.found == before.found + matches_of(es.take(i as int), before.query),
                    self@.pending == before.pending + subdirs_of(es.take(i as int)),
                decreases entries.len() - i,
            {
                let ghost f0 = self@.found;
                let ghost p0 = self@.pending;
                assert(es.take(i + 1).drop_last() =~= es.take(i as int));
                assert(es.take(i + 1).last() == entries@[i as int]@);
                let e = &entries[i];
                let lower = lowercase(e.name.as_str());
                if contains_text(lower.as_str(), self.search_query.as_str()) {
                    self.found.push(e.path.clone());
                    assert(self@.found =~= f0.push(e.path@));
                }
                if e.is_dir {
                    self.pending.push(e.path.clone());
                    assert(self@.pending =~= p0.push(e.path@));
                }
                i = i + 1;
            }
            assert(es.take(entries.len() as int) =~= es);
        } else {
            assert(before.pending + Seq::<Seq<char>>::empty() =~= before.pending);
            assert(before.found + Seq::<Seq<char>>::empty() =~= before.found);
        }
        if self.pending.len() == 0 && self.in_flight == 0 {
            self.phase = SearchPhase::Completed;
        }
    }

    /// Stops a running search: nothing pending is handed out any more, and
    /// listings that come back afterwards schedule and report nothing.
    pub fn cancel(&mut self)
        ensures
            final(self)@ == old(self)@.cancelled(),
            old(self)@.wf() ==> final(self)@.wf(),
    {
        if self.phase == SearchPhase::Running {
            self.phase = SearchPhase::Cancelled;
            self.pending = Vec::new();
            assert(self@.pending =~= Seq::<Seq<char>>::empty());
        }
    }

    /// Everything found since the last drain, without waiting for more.
    pub fn drain(&mut self) -> (r: Vec<String>)
        ensures
            r@.map_values(|s: String| s@) == old(self)@.found,
            final(self)@ == old(self)@.drained(),
    {
        let ghost before = self@;
        let mut batch: Vec<String> = Vec::new();
        std::mem::swap(&mut batch, &mut self.found);
        let mut i: usize = 0;
        while i < batch.len()
            invariant
                i <= batch.len(),
                batch@.map_values(|s: String| s@) == before.found,
                self@.content == before.content + batch@.take(i as int).map_values(|s: String| s@),
                self@.found.len() == 0,
                self@.phase == before.phase,
                self@.query == before.query,
                self@.pending == before.pending,
                self@.in_flight == before.in_flight,
            decreases batch.len() - i,
        {
            let ghost c0 = self@.content;
            self.search_content.push(batch[i].clone());
            assert(self@.content =~= c0.push(batch@[i as int]@));
            assert(batch@.take(i + 1).map_values(|s: String| s@) =~= batch@.take(i as int).map_values(|s: String| s@).push(batch@[i as int]@));
            i = i + 1;
        }
        assert(batch@.take(batch.len() as int) =~= batch@);
        assert(self@.found =~= Seq::<Seq<char>>::empty());
        batch
    }
}

/// One step of a search run by a single worker over a filesystem whose
/// listings are given by `fs`: the oldest pending directory is handed out,
/// listed, and its listing handed back.
pub open spec fn expand_next(m: SearchModel, fs: spec_fn(Seq<char>) -> Option<Seq<EntryView>>) -> SearchModel {
    if m.can_hand_out() {
        m.handed_out().completed(fs(m.pending[0]))
    } else {
        m
    }
}

/// `n` such steps.
pub open spec fn expand_steps(m: SearchModel, fs: spec_fn(Seq<char>) -> Option<Seq<EntryView>>, n: nat) -> SearchModel
    decreases n,
{
    if n == 0 {
        m
    } else {
        expand_steps(expand_next(m, fs), fs, (n - 1) as nat)
    }
}

/// What may happen to a search after it started.
pub enum SearchEvent {
    HandOut,
    Complete(Option<Seq<EntryView>>),
    Cancel,
    Drain,
}

/// The search after each of `events` in turn.
pub open spec fn run_events(m: SearchModel, events: Seq<SearchEvent>) -> SearchModel
    decreases events.len(),
{
    if events.len() == 0 {
        m
    } else {
        let before = run_events(m, events.drop_last());
        match events.last() {
            SearchEvent::HandOut => if before.can_hand_out() { before.handed_out() } else { before },
            SearchEvent::Complete(listing) => before.completed(listing),
            SearchEvent::Cancel => before.cancelled(),
            SearchEvent::Drain => before.drained(),
        }
    }
}

/// A matching entry of a listing is among the listing's matches.
pub proof fn lemma_matches_of_contains(listing: Seq<EntryView>, query: Seq<char>, e: EntryView)
    requires
        listing.contains(e),
        is_match(e, query),
    ensures
        matches_of(listing, query).contains(e.path),
    decreases listing.len(),
{
    let k = choose|k: int| 0 <= k < listing.len() && listing[k] == e;
    let rest = matches_of(listing.drop_last(), query);
    if k == listing.len() - 1 {
        assert(rest.push(e.path)[rest.len() as int] == e.path);
    } else {
        assert(listing.drop_last()[k] == e);
        lemma_matches_of_contains(listing.drop_last(), query, e);
        let j = choose|j: int| 0 <= j < rest.len() && rest[j] == e.path;
        if is_match(listing.last(), query) {
            assert(rest.push(listing.last().path)[j] == e.path);
        }
    }
}

/// A subdirectory of a listing is scheduled by it.
pub proof fn lemma_subdirs_of_contains(listing: Seq<EntryView>, e: EntryView)
    requires
        listing.contains(e),
        e.is_dir,
    ensures
        subdirs_of(listing).contains(e.path),
    decreases listing.len(),
{
    let k = choose|k: int| 0 <= k < listing.len() && listing[k] == e;
    let rest = subdirs_of(listing.drop_last());
    if k == listing.len() - 1 {
        assert(rest.push(e.path)[rest.len() as int] == e.path);
    } else {
        assert(listing.drop_last()[k] == e);
        lemma_subdirs_of_contains(listing.drop_last(), e);
        let j = choose|j: int| 0 <= j < rest.len() && rest[j] == e.path;
        if listing.last().is_dir {
            assert(rest.push(listing.last().path)[j] == e.path);
        }
    }
}

/// Steps compose.
pub proof fn lemma_expand_steps_add(m: SearchModel, fs: spec_fn(Seq<char>) -> Option<Seq<EntryView>>, a: nat, b: nat)
    ensures
        expand_steps(m, fs, a + b) == expand_steps(expand_steps(m, fs, a), fs, b),
    decreases a,
{
    if a > 0 {
        lemma_expand_steps_add(expand_next(m, fs), fs, (a - 1) as nat, b);
        assert((a + b - 1) as nat == (a - 1) as nat + b);
    }
}

/// A directory `i` places from the front of the queue reaches the front
/// after `i` steps, with the run still going.
pub proof fn lemma_reaches_front(m: SearchModel, fs: spec_fn(Seq<char>) -> Option<Seq<EntryView>>, d: Seq<char>, i: nat)
    requires
        m.phase == SearchPhase::Running,
        m.in_flight == 0,
        i < m.pending.len(),
        m.pending[i as int] == d,
    ensures
        expand_steps(m, fs, i).phase == SearchPhase::Running,
        expand_steps(m, fs, i).in_flight == 0,
        expand_steps(m, fs, i).pending.len() > 0,
        expand_steps(m, fs, i).pending[0] == d,
        expand_steps(m, fs, i).query == m.query,
    decreases i,
{
    if i > 0 {
        let next = expand_next(m, fs);
        assert(next.pending[i - 1] == d);
        lemma_reaches_front(next, fs, d, (i - 1) as nat);
    }
}

/// A search for `query` from `root` finds a matching `file` that sits in a
/// subdirectory `dir` of the root, however many other entries either
/// directory holds: after finitely many steps its path is among the matches
/// that the next drain hands out.
pub proof fn lemma_deep_match_found(
    root: Seq<char>,
    query: Seq<char>,
    fs: spec_fn(Seq<char>) -> Option<Seq<EntryView>>,
    dir: EntryView,
    file: EntryView,
)
    requires
        fs(root) is Some,
        fs(root)->0.contains(dir),
        dir.is_dir,
        fs(dir.path) is Some,
        fs(dir.path)->0.contains(file),
        is_match(file, query),
    ensures
        exists|n: nat| #[trigger] expand_steps(SearchModel::started(seq![root], query), fs, n).found.contains(file.path),
{
    let m0 = SearchModel::started(seq![root], query);
    let m1 = expand_next(m0, fs);
    let subdirs = subdirs_of(fs(root)->0);
    lemma_subdirs_of_contains(fs(root)->0, dir);
    let k = choose|k: int| 0 <= k < subdirs.len() && subdirs[k] == dir.path;
    assert(m0.handed_out().pending =~= Seq::<Seq<char>>::empty());
    assert(m1.pending =~= subdirs);
    lemma_reaches_front(m1, fs, dir.path, k as nat);
    let mk = expand_steps(m1, fs, k as nat);
    let last = expand_next(mk, fs);
    assert(mk.can_hand_out());
    assert(last == mk.handed_out().completed(fs(dir.path)));
    lemma_matches_of_contains(fs(dir.path)->0, query, file);
    let found = matches_of(fs(dir.path)->0, query);
    let j = choose|j: int| 0 <= j < found.len() && found[j] == file.path;
    assert(last.found == mk.found + found);
    assert(last.found[mk.found.len() + j] == file.path);
    lemma_expand_steps_add(m0, fs, 1, k as nat);
    lemma_expand_steps_add(m0, fs, 1 + k as nat, 1);
    assert(expand_steps(m0, fs, 1) == expand_steps(expand_next(m0, fs), fs, 0));
    assert(expand_steps(mk, fs, 1) == expand_steps(expand_next(mk, fs), fs, 0));
    assert(expand_steps(m0, fs, (2 + k) as nat).found.contains(file.path));
}

/// A subdirectory of the root that cannot be read does not keep a match in a
/// sibling subdirectory from being found.
pub proof fn lemma_unreadable_sibling_harmless(
    root: Seq<char>,
    query: Seq<char>,
    fs: spec_fn(Seq<char>) -> Option<Seq<EntryView>>,
    unreadable: EntryView,
    dir: EntryView,
    file: EntryView,
)
    requires
        fs(root) is Some,
        fs(root)->0.contains(unreadable),
        unreadable.is_dir,
        fs(unreadable.path) is None,
        fs(root)->0.contains(dir),
        dir.is_dir,
        fs(dir.path) is Some,
        fs(dir.path)->0.contains(file),
        is_match(file, query),
    ensures
        exists|n: nat| #[trigger] expand_steps(SearchModel::started(seq![root], query), fs, n).found.contains(file.path),
{
    lemma_deep_match_found(root, query, fs, dir, file);
}

/// Once a search has been cancelled, whatever happens after (short of a new
/// run) nothing is scheduled and nothing is handed out: no directory is
/// pending, and the search never runs again.
pub proof fn lemma_nothing_scheduled_after_cancel(m: SearchModel, events: Seq<SearchEvent>)
    requires
        m.wf(),
    ensures
        forall|k: int| 0 <= k <= events.len() ==> {
            let after = #[trigger] run_events(m.cancelled(), events.take(k));
            &&& after.pending.len() == 0
            &&& after.phase != SearchPhase::Running
            &&& !after.can_hand_out()
        },
    decreases events.len(),
{
    if events.len() > 0 {
        lemma_nothing_scheduled_after_cancel(m, events.drop_last());
        assert forall|k: int| 0 <= k <= events.len() implies {
            let after = #[trigger] run_events(m.cancelled(), events.take(k));
            &&& after.pending.len() == 0
            &&& after.phase != SearchPhase::Running
            &&& !after.can_hand_out()
        } by {
            if k < events.len() {
                assert(events.take(k) =~= events.drop_last().take(k));
            } else {
                assert(events.take(k) =~= events);
                assert(events.drop_last().take(k - 1) =~= events.drop_last());
                let prev = run_events(m.cancelled(), events.drop_last().take(k - 1));
                assert(prev.pending.len() == 0 && prev.phase != SearchPhase::Running);
            }
        }
    } else {
        assert(events.take(0) =~= events);
    }
}

} // verus!

