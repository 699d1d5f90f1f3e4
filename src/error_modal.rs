//! The state of the error dialog: its title, its caption and whether it shows.
use vstd::prelude::*;

verus! {

pub struct ErrorModal {
    pub title: String,
    pub caption: String,
    pub visible: bool,
}

impl ErrorModal {
    pub fn new() -> (r: Self)
        ensures
            r.title@ == Seq::<char>::empty(),
            r.caption@ == Seq::<char>::empty(),
            !r.visible,
    {
        ErrorModal { title: String::new(), caption: String::new(), visible: false }
    }

    pub fn set_caption(&mut self, caption: &String)
        ensures
            final(self).caption@ == caption@,
            final(self).title == old(self).title,
            final(self).visible == old(self).visible,
    {
        self.caption = caption.clone();
    }

    pub fn set_title(&mut self, title: &String)
        ensures
            final(self).title@ == title@,
            final(self).caption == old(self).caption,
            final(self).visible == old(self).visible,
    {
        self.title = title.clone();
    }

    pub fn set_title_and_caption(&mut self, title: &String, caption: &String)
        ensures
            final(self).title@ == title@,
            final(self).caption@ == caption@,
            final(self).visible == old(self).visible,
    {
        self.set_caption(caption);
        self.set_title(title);
    }

    pub fn set_visible(&mut self, visible: bool)
        ensures
            final(self).visible == visible,
            final(self).title == old(self).title,
            final(self).caption == old(self).caption,
    {
        self.visible = visible;
    }
}

} // verus!
