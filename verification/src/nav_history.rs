//! A window's history of files, as a browser tab has one of pages: a stack with
//! a cursor.
use vstd::prelude::*;

use crate::path::{are_same_path, same_path};
use crate::text::text_option;

verus! {

/// The most entries that a history keeps. Beyond it the oldest are dropped.
pub const MAX_ENTRIES: usize = 50;

/// The back and forward history of one window.
#[derive(Debug, Clone, PartialEq, Eq)]
pub struct NavHistory {
    entries: Vec<String>,
    cursor: usize,
}

/// The value of a [`NavHistory`].
pub ghost struct NavView {
    /// The paths, the oldest first.
    pub entries: Seq<Seq<char>>,
    /// The position of the current one.
    pub cursor: int,
}

impl NavView {
    /// There is a current entry, and no more than [`MAX_ENTRIES`] in all.
    pub open spec fn wf(self) -> bool {
        &&& 0 <= self.cursor < self.entries.len()
        &&& self.entries.len() <= MAX_ENTRIES
    }

    /// The current path.
    pub open spec fn current(self) -> Seq<char> {
        self.entries[self.cursor]
    }

    /// Whether there is an entry before the current one.
    pub open spec fn can_back(self) -> bool {
        self.cursor > 0
    }

    /// Whether there is an entry behind the current one.
    pub open spec fn can_forward(self) -> bool {
        self.cursor + 1 < self.entries.len()
    }

    /// The history after a visit to `path`: what was ahead is gone, and `path`
    /// is the last entry and the current one. A visit to the current path
    /// changes nothing.
    pub open spec fn pushed(self, path: Seq<char>) -> NavView {
        if same_path(self.current(), path) {
            self
        } else {
            let all = self.entries.take(self.cursor + 1).push(path);
            let kept = if all.len() > MAX_ENTRIES {
                all.skip(all.len() - MAX_ENTRIES)
            } else {
                all
            };
            NavView { entries: kept, cursor: kept.len() - 1 }
        }
    }

    /// The history with the cursor moved by `step`.
    pub open spec fn moved(self, step: int) -> NavView {
        NavView { entries: self.entries, cursor: self.cursor + step }
    }
}

/// The values of a list of paths.
pub open spec fn path_views(paths: Seq<String>) -> Seq<Seq<char>> {
    paths.map_values(|p: String| p@)
}

impl View for NavHistory {
    type V = NavView;

    closed spec fn view(&self) -> NavView {
        NavView { entries: path_views(self.entries@), cursor: self.cursor as int }
    }
}

impl NavHistory {
    /// A history with `initial` alone.
    pub fn new(initial: String) -> (r: Self)
        ensures
            r@ == (NavView { entries: seq![initial@], cursor: 0 }),
            r@.wf(),
    {
        let mut entries: Vec<String> = Vec::new();
        let ghost text = initial@;
        entries.push(initial);
        let r = NavHistory { entries, cursor: 0 };
        assert(r@.entries =~= seq![text]);
        r
    }

    /// A copy of the history.
    pub fn copied(&self) -> (r: Self)
        ensures
            r@ == self@,
    {
        let mut entries: Vec<String> = Vec::new();
        let mut i: usize = 0;
        while i < self.entries.len()
            invariant
                i <= self.entries@.len(),
                path_views(entries@) =~= path_views(self.entries@).take(i as int),
            decreases self.entries@.len() - i,
        {
            let ghost before = path_views(entries@);
            entries.push(self.entries[i].clone());
            i = i + 1;
            assert(path_views(entries@) =~= before.push(self.entries@[i - 1]@));
        }
        assert(path_views(entries@) =~= path_views(self.entries@));
        NavHistory { entries, cursor: self.cursor }
    }

    /// Visits `path`.
    pub fn push(&mut self, path: String)
        requires
            old(self)@.wf(),
        ensures
            final(self)@ == old(self)@.pushed(path@),
            final(self)@.wf(),
    {
        let ghost before = self@;
        let ghost text = path@;
        assert(before.current() == self.entries@[self.cursor as int]@);
        if are_same_path(self.entries[self.cursor].as_str(), path.as_str()) {
            return;
        }
        self.entries.truncate(self.cursor + 1);
        assert(path_views(self.entries@) =~= before.entries.take(before.cursor + 1));
        self.entries.push(path);
        let ghost all = before.entries.take(before.cursor + 1).push(text);
        assert(path_views(self.entries@) =~= all);
        if self.entries.len() > MAX_ENTRIES {
            let oldest = self.entries.remove(0);
            assert(path_views(self.entries@) =~= all.skip(1));
        }
        self.cursor = self.entries.len() - 1;
        assert(self@.entries =~= before.pushed(text).entries);
    }

    /// Moves one entry back and returns it, where there is one.
    pub fn back(&mut self) -> (r: Option<String>)
        requires
            old(self)@.wf(),
        ensures
            old(self)@.can_back() ==> final(self)@ == old(self)@.moved(-1) && text_option(r)
                == Some(final(self)@.current()),
            !old(self)@.can_back() ==> *final(self) == *old(self) && r is None,
            final(self)@.wf(),
    {
        if !self.can_back() {
            return None;
        }
        self.cursor = self.cursor - 1;
        assert(self@.current() == self.entries@[self.cursor as int]@);
        Some(self.entries[self.cursor].clone())
    }

    /// Moves one entry forward and returns it, where there is one.
    pub fn forward(&mut self) -> (r: Option<String>)
        requires
            old(self)@.wf(),
        ensures
            old(self)@.can_forward() ==> final(self)@ == old(self)@.moved(1) && text_option(r)
                == Some(final(self)@.current()),
            !old(self)@.can_forward() ==> *final(self) == *old(self) && r is None,
            final(self)@.wf(),
    {
        if !self.can_forward() {
            return None;
        }
        self.cursor = self.cursor + 1;
        assert(self@.current() == self.entries@[self.cursor as int]@);
        Some(self.entries[self.cursor].clone())
    }

    /// Whether [`Self::back`] would return an entry.
    pub fn can_back(&self) -> (r: bool)
        requires
            self@.wf(),
        ensures
            r == self@.can_back(),
    {
        self.cursor > 0
    }

    /// Whether [`Self::forward`] would return an entry.
    pub fn can_forward(&self) -> (r: bool)
        requires
            self@.wf(),
        ensures
            r == self@.can_forward(),
    {
        self.cursor < self.entries.len() - 1
    }

    /// The current entry.
    pub fn current(&self) -> (r: Option<&str>)
        requires
            self@.wf(),
        ensures
            r matches Some(path) && path@ == self@.current(),
    {
        assert(self@.current() == self.entries@[self.cursor as int]@);
        Some(self.entries[self.cursor].as_str())
    }
}

/// Going back undoes a visit to another path as far as what is shown goes, and
/// after a visit nothing lies ahead.
pub proof fn law_back_undoes_a_visit(history: NavView, path: Seq<char>)
    requires
        history.wf(),
        !same_path(history.current(), path),
    ensures
        history.pushed(path).wf(),
        history.pushed(path).current() == path,
        !history.pushed(path).can_forward(),
        history.pushed(path).can_back(),
        history.pushed(path).moved(-1).current() == history.current(),
{
}

/// A step back and a step forward cancel out, in either order.
pub proof fn law_steps_cancel_out(history: NavView)
    requires
        history.wf(),
    ensures
        history.can_back() ==> history.moved(-1).can_forward() && history.moved(-1).moved(1)
            == history,
        history.can_forward() ==> history.moved(1).can_back() && history.moved(1).moved(-1)
            == history,
{
}

/// Visiting the current path again changes nothing.
pub proof fn law_a_repeated_visit_is_none(history: NavView, path: Seq<char>)
    requires
        history.wf(),
    ensures
        history.pushed(path).pushed(path) == history.pushed(path),
{
}

/// A visit to another path keeps what was visited up to the current path, as far back
/// as 50 entries go: so many steps back from it lead to what so many steps less led
/// to before.
pub proof fn law_a_visit_keeps_what_lies_behind(history: NavView, path: Seq<char>, steps: int)
    requires
        history.wf(),
        !same_path(history.current(), path),
        1 <= steps <= history.cursor + 1,
        steps < 50,
    ensures
        ({
            let after = history.pushed(path);
            &&& after.cursor == after.entries.len() - 1
            &&& after.entries.len() == if history.cursor + 2 <= 50 {
                history.cursor + 2
            } else {
                50
            }
            &&& after.entries[after.cursor - steps] == history.entries[history.cursor + 1 - steps]
        }),
{
}

} // verus!
