//! Where the browser is: the current directory, the history around it, and
//! the ordered content of the current directory.
use vstd::prelude::*;
use crate::search_manager::{entries_of, EntryView, ListedEntry};
use crate::select_action::paths_of;
use crate::text::chars_of;

verus! {

broadcast use vstd::seq_lib::group_to_multiset_ensures;

/// Whether `a` comes strictly before `b` in lexicographic order by code point.
pub open spec fn chars_lt(a: Seq<char>, b: Seq<char>) -> bool
    decreases a.len(),
{
    if b.len() == 0 {
        false
    } else if a.len() == 0 {
        true
    } else if a[0] != b[0] {
        (a[0] as u32) < (b[0] as u32)
    } else {
        chars_lt(a.drop_first(), b.drop_first())
    }
}

/// Whether `a` is listed strictly before `b`: directories before files, and
/// by path within each group.
pub open spec fn listed_before(a: EntryView, b: EntryView) -> bool {
    (a.is_dir && !b.is_dir) || (a.is_dir == b.is_dir && chars_lt(a.path, b.path))
}

/// No entry is listed after one that should come after it.
pub open spec fn in_listing_order(s: Seq<EntryView>) -> bool {
    forall|i: int, j: int| 0 <= i < j < s.len() ==> !listed_before(#[trigger] s[j], #[trigger] s[i])
}

/// The paths of some entries, in order.
pub open spec fn entry_paths(s: Seq<EntryView>) -> Seq<Seq<char>> {
    s.map_values(|e: EntryView| e.path)
}

pub proof fn lemma_chars_lt_irreflexive(a: Seq<char>)
    ensures
        !chars_lt(a, a),
    decreases a.len(),
{
    if a.len() > 0 {
        lemma_chars_lt_irreflexive(a.drop_first());
    }
}

pub proof fn lemma_chars_lt_transitive(a: Seq<char>, b: Seq<char>, c: Seq<char>)
    requires
        chars_lt(a, b),
        chars_lt(b, c),
    ensures
        chars_lt(a, c),
    decreases a.len(),
{
    if a.len() > 0 && b.len() > 0 && c.len() > 0 && a[0] == b[0] && b[0] == c[0] {
        lemma_chars_lt_transitive(a.drop_first(), b.drop_first(), c.drop_first());
    }
}

pub proof fn lemma_listed_before_order(a: EntryView, b: EntryView, c: EntryView)
    ensures
        !listed_before(a, a),
        listed_before(a, b) && listed_before(b, c) ==> listed_before(a, c),
{
    lemma_chars_lt_irreflexive(a.path);
    if listed_before(a, b) && listed_before(b, c) && a.is_dir == b.is_dir && b.is_dir == c.is_dir {
        lemma_chars_lt_transitive(a.path, b.path, c.path);
    }
}

/// Whether `a` comes strictly before `b` by code point.
fn text_lt(a: &String, b: &String) -> (r: bool)
    ensures
        r == chars_lt(a@, b@),
{
    let x = chars_of(a.as_str());
    let y = chars_of(b.as_str());
    let mut i: usize = 0;
    assert(x@.skip(0) =~= x@);
    assert(y@.skip(0) =~= y@);
    while i < x.len() && i < y.len() && x[i] == y[i]
        invariant
            i <= x.len(),
            i <= y.len(),
            x@.subrange(0, i as int) == y@.subrange(0, i as int),
            chars_lt(x@, y@) == chars_lt(x@.skip(i as int), y@.skip(i as int)),
            x@ == a@,
            y@ == b@,
        decreases x.len() - i,
    {
        assert(x@.skip(i as int)[0] == x@[i as int]);
        assert(y@.skip(i as int)[0] == y@[i as int]);
        assert(x@.skip(i as int).drop_first() =~= x@.skip(i + 1));
        assert(y@.skip(i as int).drop_first() =~= y@.skip(i + 1));
        assert(x@.subrange(0, i + 1) =~= x@.subrange(0, i as int).push(x@[i as int]));
        assert(y@.subrange(0, i + 1) =~= y@.subrange(0, i as int).push(y@[i as int]));
        i = i + 1;
    }
    if i == y.len() {
        assert(y@.skip(i as int).len() == 0);
        false
    } else if i == x.len() {
        assert(x@.skip(i as int).len() == 0);
        true
    } else {
        assert(x@.skip(i as int)[0] == x@[i as int]);
        assert(y@.skip(i as int)[0] == y@[i as int]);
        (x[i] as u32) < (y[i] as u32)
    }
}

/// Whether `a` is listed strictly before `b`.
fn entry_before(a: &ListedEntry, b: &ListedEntry) -> (r: bool)
    ensures
        r == listed_before(a@, b@),
{
    (a.is_dir && !b.is_dir) || (a.is_dir == b.is_dir && text_lt(&a.path, &b.path))
}

/// The entries of `listing` in listing order.
fn sort_listing(listing: &Vec<ListedEntry>) -> (r: Vec<ListedEntry>)
    ensures
        entries_of(r@).to_multiset() == entries_of(listing@).to_multiset(),
        in_listing_order(entries_of(r@)),
{
    let mut out: Vec<ListedEntry> = Vec::new();
    let mut i: usize = 0;
    while i < listing.len()
        invariant
            i <= listing.len(),
            entries_of(out@).to_multiset() == entries_of(listing@.take(i as int)).to_multiset(),
            in_listing_order(entries_of(out@)),
        decreases listing.len() - i,
    {
        let e = &listing[i];
        let mut k: usize = 0;
        while k < out.len() && !entry_before(e, &out[k])
            invariant
                k <= out.len(),
                forall|t: int| 0 <= t < k ==> !listed_before(e@, #[trigger] entries_of(out@)[t]),
            decreases out.len() - k,
        {
            k = k + 1;
        }
        let ghost before = entries_of(out@);
        proof {
            assert forall|t: int| k <= t < before.len() implies !listed_before(#[trigger] before[t], e@) by {
                lemma_listed_before_order(before[t], e@, before[k as int]);
                if t > k {
                    assert(!listed_before(before[t], before[k as int]));
                }
            }
        }
        let copy = ListedEntry { path: e.path.clone(), name: e.name.clone(), is_dir: e.is_dir };
        out.insert(k, copy);
        assert(entries_of(out@) =~= before.insert(k as int, e@));
        assert(entries_of(listing@.take(i + 1)) =~= entries_of(listing@.take(i as int)).push(e@));
        i = i + 1;
    }
    assert(listing@.take(listing.len() as int) =~= listing@);
    out
}

pub enum DirectoryActions {
    DisplayContents,
    Searching,
}

pub struct PathManager {
    pub default_path: String,
    pub current_path: String,
    pub previous_paths: Vec<String>,
    pub next_paths: Vec<String>,
    pub directory_content: Vec<String>,
    pub directory_action: DirectoryActions,
    pub deleted_folder: bool,
    pub update_folder_content: bool,
}

impl PathManager {
    /// Starts in `home_path` with no history; its content is read on the
    /// first refresh.
    pub fn new(home_path: &String) -> (r: Self)
        ensures
            r.default_path@ == home_path@,
            r.current_path@ == home_path@,
            r.previous_paths@.len() == 0,
            r.next_paths@.len() == 0,
            r.directory_content@.len() == 0,
            r.directory_action == DirectoryActions::DisplayContents,
            !r.deleted_folder,
            r.update_folder_content,
    {
        PathManager {
            default_path: home_path.clone(),
            current_path: home_path.clone(),
            previous_paths: Vec::new(),
            next_paths: Vec::new(),
            directory_content: Vec::new(),
            directory_action: DirectoryActions::DisplayContents,
            deleted_folder: false,
            update_folder_content: true,
        }
    }

    /// Goes to `path`, remembering the current directory for going back.
    pub fn update_current_directory(&mut self, path: &String)
        ensures
            final(self).current_path@ == path@,
            paths_of(final(self).previous_paths@) == paths_of(old(self).previous_paths@).push(old(self).current_path@),
            final(self).next_paths == old(self).next_paths,
            final(self).update_folder_content,
    {
        let ghost before = paths_of(self.previous_paths@);
        self.previous_paths.push(self.current_path.clone());
        self.current_path = path.clone();
        self.update_folder_content = true;
        assert(paths_of(self.previous_paths@) =~= before.push(old(self).current_path@));
    }

    /// Goes back to the directory visited before, if any, so that going
    /// forward returns here.
    pub fn go_back(&mut self) -> (moved: bool)
        ensures
            moved == (old(self).previous_paths@.len() > 0),
            moved ==> {
                &&& final(self).current_path@ == old(self).previous_paths@.last()@
                &&& paths_of(final(self).previous_paths@) == paths_of(old(self).previous_paths@).drop_last()
                &&& paths_of(final(self).next_paths@) == paths_of(old(self).next_paths@).push(old(self).current_path@)
                &&& final(self).update_folder_content
            },
            !moved ==> final(self).current_path == old(self).current_path && final(self).next_paths == old(self).next_paths,
    {
        let ghost prev = paths_of(self.previous_paths@);
        let ghost next = paths_of(self.next_paths@);
        match self.previous_paths.pop() {
            Some(path) => {
                self.next_paths.push(self.current_path.clone());
                self.current_path = path;
                self.update_folder_content = true;
                assert(paths_of(self.previous_paths@) =~= prev.drop_last());
                assert(paths_of(self.next_paths@) =~= next.push(old(self).current_path@));
                true
            },
            None => false,
        }
    }

    /// Goes forward again to the directory left by going back, if any.
    pub fn go_forward(&mut self) -> (moved: bool)
        ensures
            moved == (old(self).next_paths@.len() > 0),
            moved ==> {
                &&& final(self).current_path@ == old(self).next_paths@.last()@
                &&& paths_of(final(self).next_paths@) == paths_of(old(self).next_paths@).drop_last()
                &&& paths_of(final(self).previous_paths@) == paths_of(old(self).previous_paths@).push(old(self).current_path@)
                &&& final(self).update_folder_content
            },
            !moved ==> final(self).current_path == old(self).current_path && final(self).previous_paths == old(self).previous_paths,
    {
        let ghost prev = paths_of(self.previous_paths@);
        let ghost next = paths_of(self.next_paths@);
        match self.next_paths.pop() {
            Some(path) => {
                self.previous_paths.push(self.current_path.clone());
                self.current_path = path;
                self.update_folder_content = true;
                assert(paths_of(self.next_paths@) =~= next.drop_last());
                assert(paths_of(self.previous_paths@) =~= prev.push(old(self).current_path@));
                true
            },
            None => false,
        }
    }

    /// Takes in the listing of the current directory, `None` when it could
    /// not be read: the content becomes the listed paths, directories first
    /// and each group ordered by path.
    pub fn fill_directory_content(&mut self, listing: Option<Vec<ListedEntry>>)
        ensures
            !final(self).update_folder_content,
            final(self).current_path == old(self).current_path,
            match listing {
                None => final(self).deleted_folder && final(self).directory_content@.len() == 0,
                Some(l) => {
                    &&& !final(self).deleted_folder
                    &&& exists|s: Seq<EntryView>| {
                        &&& s.to_multiset() == entries_of(l@).to_multiset()
                        &&& in_listing_order(s)
                        &&& #[trigger] entry_paths(s) == paths_of(final(self).directory_content@)
                    }
                },
            },
    {
        self.directory_content.clear();
        self.update_folder_content = false;
        match listing {
            None => {
                self.deleted_folder = true;
            },
            Some(entries) => {
                self.deleted_folder = false;
                let sorted = sort_listing(&entries);
                let ghost s = entries_of(sorted@);
                let mut i: usize = 0;
                while i < sorted.len()
                    invariant
                        i <= sorted.len(),
                        s == entries_of(sorted@),
                        paths_of(self.directory_content@) == entry_paths(s.take(i as int)),
                        !self.update_folder_content,
                        !self.deleted_folder,
                        self.current_path == old(self).current_path,
                    decreases sorted.len() - i,
                {
                    let ghost before = paths_of(self.directory_content@);
                    self.directory_content.push(sorted[i].path.clone());
                    assert(paths_of(self.directory_content@) =~= before.push(sorted@[i as int].path@));
                    assert(entry_paths(s.take(i + 1)) =~= entry_paths(s.take(i as int)).push(s[i as int].path));
                    i = i + 1;
                }
                assert(s.take(sorted.len() as int) =~= s);
                assert(s.to_multiset() == entries_of(entries@).to_multiset());
                assert(entry_paths(s) == paths_of(self.directory_content@));
            },
        }
    }
}

} // verus!
