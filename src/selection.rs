use vstd::prelude::*;
use crate::catalog::AppInfo;

verus! {

/// A keyboard action recognised by the launcher.
#[derive(Clone, Copy, Debug, PartialEq, Eq, Structural)]
pub enum Action {
    MoveUp,
    MoveDown,
    Activate,
    Cancel,
}

/// What the launcher asks of the world outside after an action.
#[derive(Clone, Debug)]
pub enum Effect {
    Nothing,
    Launch(AppInfo),
    Hide,
}

/// The selection cursor over the current filtered view.
#[derive(Clone, Copy, Debug, PartialEq, Eq, Structural)]
pub struct Selection {
    pub index: usize,
}

impl Selection {
    /// A cursor at the top of the list.
    pub fn new() -> (s: Selection)
        ensures
            s.index == 0,
    {
        Selection { index: 0 }
    }

    /// Moves one row down when a row exists below; at the last row the
    /// cursor stays where it is.
    pub fn move_down(&mut self, n: usize)
        ensures
            old(self).index + 1 < n ==> final(self).index == old(self).index + 1,
            old(self).index + 1 >= n ==> final(self).index == old(self).index,
    {
        if self.index < n && self.index + 1 < n {
            self.index = self.index + 1;
        }
    }

    /// Moves one row up; at the top the cursor stays where it is.
    pub fn move_up(&mut self)
        ensures
            old(self).index > 0 ==> final(self).index == old(self).index - 1,
            old(self).index == 0 ==> final(self).index == 0,
    {
        if self.index > 0 {
            self.index = self.index - 1;
        }
    }

    /// Brings the cursor into a view of `n` rows: past the end it moves to
    /// the last row; on an empty view it is left alone.
    pub fn clamp(&mut self, n: usize)
        ensures
            n > 0 ==> final(self).index < n,
            old(self).index < n || n == 0 ==> final(self).index == old(self).index,
            n > 0 && old(self).index >= n ==> final(self).index == n - 1,
    {
        if n > 0 && self.index >= n {
            self.index = n - 1;
        }
    }

    /// The entry under the cursor, where there is one; an empty view gives
    /// nothing to launch.
    pub fn activate(&self, view: &Vec<AppInfo>) -> (r: Option<AppInfo>)
        ensures
            r is Some <==> self.index < view@.len(),
            r is Some ==> r->Some_0@ == view@[self.index as int]@,
    {
        if self.index < view.len() {
            Some(view[self.index].duplicate())
        } else {
            None
        }
    }

    /// Applies one action over `view`: moves the cursor, launches the
    /// entry under it, or asks to hide the launcher.
    pub fn apply(&mut self, action: Action, view: &Vec<AppInfo>) -> (r: Effect)
        ensures
            action == Action::MoveDown ==> (r is Nothing && (if old(self).index + 1 < view@.len() {
                final(self).index == old(self).index + 1
            } else {
                final(self).index == old(self).index
            })),
            action == Action::MoveUp ==> (r is Nothing && (if old(self).index > 0 {
                final(self).index == old(self).index - 1
            } else {
                final(self).index == 0
            })),
            action == Action::Activate ==> final(self).index == old(self).index && (if old(self).index
                < view@.len() {
                r is Launch && r->Launch_0@ == view@[old(self).index as int]@
            } else {
                r is Nothing
            }),
            action == Action::Cancel ==> final(self).index == old(self).index && r is Hide,
    {
        match action {
            Action::MoveDown => {
                self.move_down(view.len());
                Effect::Nothing
            },
            Action::MoveUp => {
                self.move_up();
                Effect::Nothing
            },
            Action::Activate => match self.activate(view) {
                Some(app) => Effect::Launch(app),
                None => Effect::Nothing,
            },
            Action::Cancel => Effect::Hide,
        }
    }
}

} // verus!
