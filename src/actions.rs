//! What the user does to entries: selecting them, and copying them elsewhere.
use vstd::prelude::*;
use crate::select_action::{KeySelect, SelectAction, SelectionMode};

pub mod copy_action;

verus! {

pub struct Actions {
    pub select_action: SelectAction,
}

impl Actions {
    pub fn new() -> (r: Self)
        ensures
            r.select_action.selection() == Seq::<Seq<char>>::empty(),
            r.select_action.mode == SelectionMode::Single,
            r.select_action.key_select == KeySelect::Idle,
            r.select_action.wf(),
    {
        Actions { select_action: SelectAction::new() }
    }
}

} // verus!
