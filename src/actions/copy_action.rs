//! The entries chosen for copying and where they go.
use vstd::prelude::*;
use crate::select_action::paths_of;

verus! {

pub struct CopyAction {
    pub files: Vec<String>,
    pub destination: Option<String>,
}

impl CopyAction {
    pub fn new() -> (r: Self)
        ensures
            paths_of(r.files@) == Seq::<Seq<char>>::empty(),
            r.destination is None,
    {
        let r = CopyAction { files: Vec::new(), destination: None };
        assert(paths_of(r.files@) =~= Seq::<Seq<char>>::empty());
        r
    }

    /// Adds `files`, in order, after the ones already chosen.
    pub fn upload_files(&mut self, files: &Vec<String>)
        ensures
            paths_of(final(self).files@) == paths_of(old(self).files@) + paths_of(files@),
            final(self).destination == old(self).destination,
    {
        let ghost start = paths_of(self.files@);
        let mut i: usize = 0;
        while i < files.len()
            invariant
                i <= files.len(),
                paths_of(self.files@) == start + paths_of(files@.take(i as int)),
                self.destination == old(self).destination,
            decreases files.len() - i,
        {
            let ghost before = paths_of(self.files@);
            self.files.push(files[i].clone());
            assert(paths_of(self.files@) =~= before.push(files@[i as int]@));
            assert(paths_of(files@.take(i + 1)) =~= paths_of(files@.take(i as int)).push(files@[i as int]@));
            i = i + 1;
        }
        assert(files@.take(files.len() as int) =~= files@);
    }

    pub fn copy_to(&mut self, destination: &String)
        ensures
            final(self).destination matches Some(d) && d@ == destination@,
            final(self).files == old(self).files,
    {
        self.destination = Some(destination.clone());
    }
}

} // verus!
