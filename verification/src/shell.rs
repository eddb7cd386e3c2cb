//! The windows of the application: which of them a file is opened in, what their
//! histories hold, and what is due when.
use vstd::prelude::*;

use crate::nav_history::{path_views, NavHistory, NavView};
use crate::path::{are_same_path, same_path};
use crate::routes::NavDirection;
use crate::text::{chars_of, has_prefix_str, same_text, text_option, text_ref_option};
use crate::util::{file_title, is_markdown, is_markdown_file, title_of};

verus! {

/// How long the start waits for a file from the system before it asks for one, in
/// milliseconds.
pub const OPEN_EVENT_GRACE: u64 = 400;

/// How long a window has to rest before its place is kept.
pub const WINDOW_STATE_SAVE_DEBOUNCE: u64 = 500;

/// How long the place of a new window is not kept.
pub const STARTUP_MOVE_GRACE: u64 = 1000;

// ---------------------------------------------------------------------------
// Windows
// ---------------------------------------------------------------------------

/// A window.
pub struct WindowInfo {
    pub id: u64,
    /// The files that it showed, and shows. An empty window has none.
    pub history: Option<NavHistory>,
    /// When it was made, in milliseconds.
    pub created: u64,
}

/// The value of a [`WindowInfo`].
pub ghost struct WindowView {
    pub id: u64,
    pub history: Option<NavView>,
    pub created: u64,
}

impl View for WindowInfo {
    type V = WindowView;

    open spec fn view(&self) -> WindowView {
        WindowView {
            id: self.id,
            history: match self.history {
                Some(h) => Some(h@),
                None => None,
            },
            created: self.created,
        }
    }
}

/// The values of a list of windows.
pub open spec fn window_views(windows: Seq<WindowInfo>) -> Seq<WindowView> {
    windows.map_values(|w: WindowInfo| w@)
}

impl WindowView {
    /// Whether the window shows the file at `path`.
    pub open spec fn shows(self, path: Seq<char>) -> bool {
        self.history matches Some(h) && same_path(h.current(), path)
    }
}

/// What always holds of the windows: each has its own number, which is below
/// `next`, and no two show the same file.
pub open spec fn windows_wf(windows: Seq<WindowView>, next: u64) -> bool {
    &&& forall|i: int| 0 <= i < windows.len() ==> (#[trigger] windows[i]).id < next
    &&& forall|i: int|
        0 <= i < windows.len() ==> ((#[trigger] windows[i]).history matches Some(h) ==> h.wf())
    &&& forall|i: int, j: int|
        0 <= i < j < windows.len() ==> (#[trigger] windows[i]).id != (#[trigger] windows[j]).id
    &&& forall|i: int, j: int|
        0 <= i < windows.len() && 0 <= j < windows.len() && i != j ==> ((
        #[trigger] windows[i]).history matches Some(h) ==> !(#[trigger] windows[j]).shows(
            h.current(),
        ))
}

/// The first window, from number `i` on, that shows the file at `path`.
pub open spec fn window_showing(windows: Seq<WindowView>, path: Seq<char>, i: int) -> Option<int>
    decreases windows.len() - i,
{
    if i < 0 || i >= windows.len() {
        None
    } else if windows[i].shows(path) {
        Some(i)
    } else {
        window_showing(windows, path, i + 1)
    }
}

/// The window with the number `id`, from position `i` on.
pub open spec fn window_at(windows: Seq<WindowView>, id: u64, i: int) -> Option<int>
    decreases windows.len() - i,
{
    if i < 0 || i >= windows.len() {
        None
    } else if windows[i].id == id {
        Some(i)
    } else {
        window_at(windows, id, i + 1)
    }
}

/// The first empty window, from position `i` on.
pub open spec fn empty_window(windows: Seq<WindowView>, i: int) -> Option<int>
    decreases windows.len() - i,
{
    if i < 0 || i >= windows.len() {
        None
    } else if windows[i].history is None {
        Some(i)
    } else {
        empty_window(windows, i + 1)
    }
}

/// What is known of a window that shows a file.
pub(crate) proof fn lemma_window_showing(windows: Seq<WindowView>, path: Seq<char>, i: int)
    requires
        0 <= i,
    ensures
        match window_showing(windows, path, i) {
            Some(k) => i <= k < windows.len() && windows[k].shows(path),
            None => forall|j: int| i <= j < windows.len() ==> !(#[trigger] windows[j]).shows(path),
        },
    decreases windows.len() - i,
{
    if i < windows.len() && !windows[i].shows(path) {
        lemma_window_showing(windows, path, i + 1);
    }
}

/// What is known of a window with a number.
pub(crate) proof fn lemma_window_at(windows: Seq<WindowView>, id: u64, i: int)
    requires
        0 <= i,
    ensures
        match window_at(windows, id, i) {
            Some(k) => i <= k < windows.len() && windows[k].id == id,
            None => forall|j: int| i <= j < windows.len() ==> (#[trigger] windows[j]).id != id,
        },
    decreases windows.len() - i,
{
    if i < windows.len() && windows[i].id != id {
        lemma_window_at(windows, id, i + 1);
    }
}

/// Whether a window shows the file at `path`.
fn is_showing(window: &WindowInfo, path: &str) -> (r: bool)
    requires
        window@.history matches Some(h) ==> h.wf(),
    ensures
        r == window@.shows(path@),
{
    match &window.history {
        None => false,
        Some(h) => match h.current() {
            Some(current) => are_same_path(current, path),
            None => false,
        },
    }
}

/// The first window that shows the file at `path`.
fn find_window_with_file(windows: &Vec<WindowInfo>, path: &str) -> (r: Option<usize>)
    requires
        forall|i: int|
            0 <= i < windows@.len() ==> ((#[trigger] window_views(windows@)[i]).history matches Some(
                h,
            ) ==> h.wf()),
    ensures
        match r {
            Some(i) => i < windows@.len() && window_showing(window_views(windows@), path@, 0)
                == Some(i as int),
            None => window_showing(window_views(windows@), path@, 0) is None,
        },
{
    let ghost all = window_views(windows@);
    let mut i: usize = 0;
    while i < windows.len()
        invariant
            all == window_views(windows@),
            forall|i: int|
                0 <= i < windows@.len() ==> ((#[trigger] all[i]).history matches Some(h) ==> h.wf()),
            i <= windows@.len(),
            window_showing(all, path@, 0) == window_showing(all, path@, i as int),
        decreases windows@.len() - i,
    {
        assert(all[i as int] == windows@[i as int]@);
        if is_showing(&windows[i], path) {
            return Some(i);
        }
        i = i + 1;
    }
    None
}

/// The window with the number `id`.
fn find_window(windows: &Vec<WindowInfo>, id: u64) -> (r: Option<usize>)
    ensures
        match r {
            Some(i) => i < windows@.len() && window_at(window_views(windows@), id, 0) == Some(
                i as int,
            ),
            None => window_at(window_views(windows@), id, 0) is None,
        },
{
    let ghost all = window_views(windows@);
    let mut i: usize = 0;
    while i < windows.len()
        invariant
            all == window_views(windows@),
            i <= windows@.len(),
            window_at(all, id, 0) == window_at(all, id, i as int),
        decreases windows@.len() - i,
    {
        assert(all[i as int] == windows@[i as int]@);
        if windows[i].id == id {
            return Some(i);
        }
        i = i + 1;
    }
    None
}

// ---------------------------------------------------------------------------
// The shell
// ---------------------------------------------------------------------------

/// All windows, and what is due.
pub struct Shell {
    windows: Vec<WindowInfo>,
    /// The number of the next window.
    next_id: u64,
    /// When a file is asked for, where one still is.
    picker_deadline: Option<u64>,
    /// When the place of a window is kept, and of which.
    save: Option<(u64, u64)>,
}

/// The value of a [`Shell`].
pub ghost struct ShellView {
    pub windows: Seq<WindowView>,
    pub next_id: u64,
    pub picker_deadline: Option<u64>,
    pub save: Option<(u64, u64)>,
}

impl View for Shell {
    type V = ShellView;

    closed spec fn view(&self) -> ShellView {
        ShellView {
            windows: window_views(self.windows@),
            next_id: self.next_id,
            picker_deadline: self.picker_deadline,
            save: self.save,
        }
    }
}

/// What is to be done with a window.
#[derive(Debug, Clone, Copy, PartialEq, Eq, Structural)]
pub enum Plan {
    /// Bring this window to the front. It shows the file already.
    Focus(u64),
    /// Have this window show the file.
    Show(u64),
    /// Make this window, which shows the file.
    Make(u64),
    /// Nothing.
    Nothing,
}

/// The histories of a window that has shown one file.
pub open spec fn fresh_history(path: Seq<char>) -> NavView {
    NavView { entries: seq![path], cursor: 0 }
}

impl ShellView {
    /// What always holds.
    pub open spec fn wf(self) -> bool {
        windows_wf(self.windows, self.next_id)
    }

    /// The shell with another history in window number `i`.
    pub open spec fn with_history(self, i: int, history: NavView) -> ShellView {
        ShellView {
            windows: self.windows.update(
                i,
                WindowView { history: Some(history), ..self.windows[i] },
            ),
            ..self
        }
    }

    /// The shell with one more window.
    pub open spec fn with_window(self, history: Option<NavView>, now: u64) -> ShellView {
        ShellView {
            windows: self.windows.push(WindowView { id: self.next_id, history, created: now }),
            next_id: (self.next_id + 1) as u64,
            ..self
        }
    }

    /// Whether the window `target` is there and empty, and where.
    pub open spec fn empty_target(self, target: Option<u64>) -> Option<int> {
        match target {
            None => None,
            Some(id) => match window_at(self.windows, id, 0) {
                Some(i) if self.windows[i].history is None => Some(i),
                _ => None,
            },
        }
    }

    /// What opening the file at `path` for the window `target` comes to: the window
    /// that shows it already, the target where that is empty, or else a new window.
    /// No file is asked for any more.
    pub open spec fn opened(self, target: Option<u64>, path: Seq<char>, now: u64) -> (
        ShellView,
        Plan,
    ) {
        let asked = ShellView { picker_deadline: None, ..self };
        match window_showing(self.windows, path, 0) {
            Some(i) => (asked, Plan::Focus(self.windows[i].id)),
            None => match self.empty_target(target) {
                Some(i) => (
                    asked.with_history(i, fresh_history(path)),
                    Plan::Show(self.windows[i].id),
                ),
                None => if self.next_id == u64::MAX {
                    (asked, Plan::Nothing)
                } else {
                    (
                        asked.with_window(Some(fresh_history(path)), now),
                        Plan::Make(self.next_id),
                    )
                },
            },
        }
    }

    /// What following a link from window `id` to the file at `path` comes to: the
    /// other window that shows it already, or else the window itself, with the file
    /// in its history.
    pub open spec fn switched(self, id: u64, path: Seq<char>) -> (ShellView, Plan) {
        match (window_at(self.windows, id, 0), window_showing(self.windows, path, 0)) {
            (None, _) => (self, Plan::Nothing),
            (Some(i), Some(j)) if i != j => (self, Plan::Focus(self.windows[j].id)),
            (Some(i), _) => (
                self.with_history(
                    i,
                    match self.windows[i].history {
                        Some(h) => h.pushed(path),
                        None => fresh_history(path),
                    },
                ),
                Plan::Show(id),
            ),
        }
    }

    /// What a step through the history of window `id` comes to: the other window
    /// that shows the file there already, and the history as it was; or else the
    /// window itself, with the step made.
    pub open spec fn navigated(self, id: u64, direction: NavDirection) -> (ShellView, Plan) {
        match window_at(self.windows, id, 0) {
            None => (self, Plan::Nothing),
            Some(i) => match self.windows[i].history {
                None => (self, Plan::Nothing),
                Some(h) => {
                    let (possible, step) = match direction {
                        NavDirection::Back => (h.can_back(), -1int),
                        NavDirection::Forward => (h.can_forward(), 1int),
                    };
                    if !possible {
                        (self, Plan::Nothing)
                    } else {
                        match window_showing(self.windows, h.moved(step).current(), 0) {
                            Some(j) if j != i => (self, Plan::Focus(self.windows[j].id)),
                            _ => (self.with_history(i, h.moved(step)), Plan::Show(id)),
                        }
                    }
                },
            },
        }
    }

    /// What is left when window `id` is closed.
    pub open spec fn closed(self, id: u64) -> ShellView {
        ShellView {
            windows: match window_at(self.windows, id, 0) {
                Some(i) => self.windows.remove(i),
                None => self.windows,
            },
            save: match self.save {
                Some((at, of)) if of == id => None,
                other => other,
            },
            ..self
        }
    }

    /// What is due after window `id` was moved or resized at the time `now`. What
    /// happens to a new window does not count.
    pub open spec fn moved(self, id: u64, now: u64) -> ShellView {
        match window_at(self.windows, id, 0) {
            Some(i) if now >= saturated(self.windows[i].created, STARTUP_MOVE_GRACE) => ShellView {
                save: Some((saturated(now, WINDOW_STATE_SAVE_DEBOUNCE), id)),
                ..self
            },
            _ => self,
        }
    }
}

/// The sum of two times.
pub open spec fn saturated(a: u64, b: u64) -> u64 {
    if a + b > u64::MAX {
        u64::MAX
    } else {
        (a + b) as u64
    }
}

/// Another history of another file in a window keeps what always holds.
proof fn lemma_with_history(shell: ShellView, i: int, history: NavView)
    requires
        shell.wf(),
        0 <= i < shell.windows.len(),
        history.wf(),
        forall|j: int|
            0 <= j < shell.windows.len() && j != i ==> !(#[trigger] shell.windows[j]).shows(
                history.current(),
            ),
    ensures
        shell.with_history(i, history).wf(),
{
    let before = shell.windows;
    let after = shell.with_history(i, history).windows;
    assert forall|a: int, b: int|
        0 <= a < after.len() && 0 <= b < after.len() && a != b implies ((
    #[trigger] after[a]).history matches Some(h) ==> !(#[trigger] after[b]).shows(h.current())) by {
        if a != i && b != i {
            assert(after[a] == before[a] && after[b] == before[b]);
        } else if a == i {
            assert(after[b] == before[b]);
        } else {
            assert(after[a] == before[a]);
            if let Some(h) = after[a].history {
                assert(!before[a].shows(history.current()));
                assert(!same_path(h.current(), history.current()));
            }
        }
    }
}

/// One more window with another file keeps what always holds.
proof fn lemma_with_window(shell: ShellView, history: Option<NavView>, now: u64)
    requires
        shell.wf(),
        shell.next_id < u64::MAX,
        history matches Some(h) ==> h.wf() && forall|j: int|
            0 <= j < shell.windows.len() ==> !(#[trigger] shell.windows[j]).shows(h.current()),
    ensures
        shell.with_window(history, now).wf(),
{
    let before = shell.windows;
    let after = shell.with_window(history, now).windows;
    let n = before.len() as int;
    assert forall|a: int, b: int|
        0 <= a < after.len() && 0 <= b < after.len() && a != b implies ((
    #[trigger] after[a]).history matches Some(h) ==> !(#[trigger] after[b]).shows(h.current())) by {
        if a < n && b < n {
            assert(after[a] == before[a] && after[b] == before[b]);
        } else if a == n {
            assert(after[b] == before[b]);
        } else {
            assert(after[a] == before[a]);
            if let Some(h) = after[a].history {
                if let Some(g) = history {
                    assert(!before[a].shows(g.current()));
                }
            }
        }
    }
}

/// Opening a file keeps what always holds.
pub proof fn law_opening_keeps_one_window_per_file(
    shell: ShellView,
    target: Option<u64>,
    path: Seq<char>,
    now: u64,
)
    requires
        shell.wf(),
    ensures
        shell.opened(target, path, now).0.wf(),
{
    lemma_window_showing(shell.windows, path, 0);
    if let Some(id) = target {
        lemma_window_at(shell.windows, id, 0);
    }
    let asked = ShellView { picker_deadline: None, ..shell };
    if window_showing(shell.windows, path, 0) is None {
        match shell.empty_target(target) {
            Some(i) => lemma_with_history(asked, i, fresh_history(path)),
            None => {
                if shell.next_id != u64::MAX {
                    lemma_with_window(asked, Some(fresh_history(path)), now);
                }
            },
        }
    }
}

/// Following a link keeps what always holds: no two windows come to show the same
/// file.
pub proof fn law_switching_keeps_one_window_per_file(shell: ShellView, id: u64, path: Seq<char>)
    requires
        shell.wf(),
    ensures
        shell.switched(id, path).0.wf(),
{
    lemma_window_showing(shell.windows, path, 0);
    lemma_window_at(shell.windows, id, 0);
    if let Some(i) = window_at(shell.windows, id, 0) {
        let other = window_showing(shell.windows, path, 0);
        if other is None || other == Some(i) {
            let history = match shell.windows[i].history {
                Some(h) => h.pushed(path),
                None => fresh_history(path),
            };
            assert forall|j: int| 0 <= j < shell.windows.len() && j != i implies !(
            #[trigger] shell.windows[j]).shows(history.current()) by {
                if other == Some(i) {
                    let h = shell.windows[i].history->Some_0;
                    assert(same_path(h.current(), path));
                    assert(shell.windows[i].history == Some(h));
                    assert(!shell.windows[j].shows(h.current()));
                } else {
                    assert(!shell.windows[j].shows(path));
                }
            }
            assert(history.wf());
            lemma_with_history(shell, i, history);
        }
    }
}

/// Moving through a history keeps what always holds.
pub proof fn law_navigating_keeps_one_window_per_file(
    shell: ShellView,
    id: u64,
    direction: NavDirection,
)
    requires
        shell.wf(),
    ensures
        shell.navigated(id, direction).0.wf(),
{
    lemma_window_at(shell.windows, id, 0);
    if let Some(i) = window_at(shell.windows, id, 0) {
        if let Some(h) = shell.windows[i].history {
            let (possible, step) = match direction {
                NavDirection::Back => (h.can_back(), -1int),
                NavDirection::Forward => (h.can_forward(), 1int),
            };
            if possible {
                let next = h.moved(step);
                let path = next.current();
                lemma_window_showing(shell.windows, path, 0);
                let other = window_showing(shell.windows, path, 0);
                if other is None || other == Some(i) {
                    assert forall|j: int| 0 <= j < shell.windows.len() && j != i implies !(
                    #[trigger] shell.windows[j]).shows(path) by {
                        if other == Some(i) {
                            assert(same_path(h.current(), path));
                            assert(shell.windows[i].history == Some(h));
                            assert(!shell.windows[j].shows(h.current()));
                        }
                    }
                    lemma_with_history(shell, i, next);
                }
            }
        }
    }
}

/// A link or a step that leads to a file which another window shows leaves the
/// window and its history as they were, and brings the other window to the front.
pub proof fn law_a_file_shown_elsewhere_is_left_there(
    shell: ShellView,
    id: u64,
    path: Seq<char>,
    direction: NavDirection,
)
    ensures
        shell.switched(id, path).1 is Focus ==> shell.switched(id, path).0 == shell,
        shell.navigated(id, direction).1 is Focus ==> shell.navigated(id, direction).0 == shell,
{
}

/// Closing a window keeps what always holds.
pub proof fn law_closing_keeps_one_window_per_file(shell: ShellView, id: u64)
    requires
        shell.wf(),
    ensures
        shell.closed(id).wf(),
{
    lemma_window_at(shell.windows, id, 0);
    let before = shell.windows;
    let after = shell.closed(id).windows;
    if let Some(k) = window_at(before, id, 0) {
        assert forall|a: int| 0 <= a < after.len() implies (#[trigger] after[a]) == if a < k {
            before[a]
        } else {
            before[a + 1]
        } by {}
    }
}

// ---------------------------------------------------------------------------
// What happens
// ---------------------------------------------------------------------------

/// The sum of two times.
fn later(a: u64, b: u64) -> (r: u64)
    ensures
        r == saturated(a, b),
{
    if a > u64::MAX - b {
        u64::MAX
    } else {
        a + b
    }
}

/// What is due at a time.
#[derive(Debug, Clone, Copy, PartialEq, Eq, Structural)]
pub enum Due {
    /// Ask for a file.
    Picker,
    /// Keep the place of this window.
    Save(u64),
    Nothing,
}

/// When something is due next.
#[derive(Debug, Clone, Copy, PartialEq, Eq, Structural)]
pub enum Wake {
    At(u64),
    /// Nothing is.
    Never,
}

/// Whether a time has come.
pub open spec fn has_come(deadline: Option<u64>, now: u64) -> bool {
    deadline matches Some(d) && now >= d
}

impl ShellView {
    /// What is due at the time `now`, one thing at a time, and what is still due
    /// then.
    pub open spec fn ticked(self, now: u64) -> (ShellView, Due) {
        if has_come(self.picker_deadline, now) {
            (ShellView { picker_deadline: None, ..self }, Due::Picker)
        } else {
            match self.save {
                Some((at, id)) if now >= at => (
                    ShellView { save: None, ..self },
                    if window_at(self.windows, id, 0) is Some {
                        Due::Save(id)
                    } else {
                        Due::Nothing
                    },
                ),
                _ => (self, Due::Nothing),
            }
        }
    }

    /// When something is due next.
    pub open spec fn wake(self) -> Wake {
        match (self.picker_deadline, self.save) {
            (Some(a), Some((b, _))) => Wake::At(
                if a <= b {
                    a
                } else {
                    b
                },
            ),
            (Some(a), None) => Wake::At(a),
            (None, Some((b, _))) => Wake::At(b),
            (None, None) => Wake::Never,
        }
    }

    /// The window made last, among the first `n`; of those made at the same time,
    /// the later one.
    pub open spec fn newest(self, n: int) -> int
        decreases n,
    {
        if n <= 1 {
            0
        } else {
            let before = self.newest(n - 1);
            if self.windows[n - 1].created >= self.windows[before].created {
                n - 1
            } else {
                before
            }
        }
    }

    /// The window that a command without a window is for: the one with the focus,
    /// or else the one made last.
    pub open spec fn frontmost(self, focused: Option<u64>) -> Option<u64> {
        match focused {
            Some(id) if window_at(self.windows, id, 0) is Some => Some(id),
            _ => if self.windows.len() == 0 {
                None
            } else {
                Some(self.windows[self.newest(self.windows.len() as int)].id)
            },
        }
    }
}

/// The newest of some windows is one of them.
pub(crate) proof fn lemma_newest(shell: ShellView, n: int)
    requires
        1 <= n <= shell.windows.len(),
    ensures
        0 <= shell.newest(n) < n,
    decreases n,
{
    if n > 1 {
        lemma_newest(shell, n - 1);
    }
}

/// No window comes to the front before one made later, unless it has the focus.
pub proof fn law_the_newest_window_is_in_front(shell: ShellView, n: int, i: int)
    requires
        0 <= i < n <= shell.windows.len(),
    ensures
        shell.windows[i].created <= shell.windows[shell.newest(n)].created,
    decreases n,
{
    lemma_newest(shell, n);
    if n > 1 {
        lemma_newest(shell, n - 1);
        if i < n - 1 {
            law_the_newest_window_is_in_front(shell, n - 1, i);
        }
    }
}

impl Shell {
    /// The shell at the start: without windows, or with an empty one that asks for
    /// a file after [`OPEN_EVENT_GRACE`].
    pub fn new(empty_window: bool, now: u64) -> (r: Shell)
        ensures
            r@.wf(),
            r@ == if empty_window {
                ShellView {
                    windows: seq![WindowView { id: 0, history: None, created: now }],
                    next_id: 1,
                    picker_deadline: Some(saturated(now, OPEN_EVENT_GRACE)),
                    save: None,
                }
            } else {
                ShellView { windows: seq![], next_id: 0, picker_deadline: None, save: None }
            },
            empty_window && now <= u64::MAX - 400 ==> r@.picker_deadline == Some(
                (now + 400) as u64,
            ),
    {
        let mut windows: Vec<WindowInfo> = Vec::new();
        if empty_window {
            windows.push(WindowInfo { id: 0, history: None, created: now });
            let deadline: u64 = later(now, OPEN_EVENT_GRACE);
            let r = Shell { windows, next_id: 1, picker_deadline: Some(deadline), save: None };
            assert(r@.windows =~= seq![WindowView { id: 0, history: None, created: now }]);
            r
        } else {
            let r = Shell { windows, next_id: 0, picker_deadline: None, save: None };
            assert(r@.windows =~= seq![]);
            r
        }
    }

    /// Puts another history into window number `i`.
    fn set_history(&mut self, i: usize, history: NavHistory)
        requires
            i < old(self).windows@.len(),
        ensures
            final(self)@ == old(self)@.with_history(i as int, history@),
    {
        let ghost before = self@;
        let ghost view = history@;
        let old_window = self.windows.remove(i);
        let window = WindowInfo {
            id: old_window.id,
            history: Some(history),
            created: old_window.created,
        };
        self.windows.insert(i, window);
        proof {
            assert(before.windows[i as int] == old_window@);
            assert(self@.windows =~= before.with_history(i as int, view).windows);
        }
    }

    /// Opens the file at `path`, which is resolved, for the window `target`.
    pub fn open(&mut self, target: Option<u64>, path: &str, now: u64) -> (r: Plan)
        requires
            old(self)@.wf(),
        ensures
            (final(self)@, r) == old(self)@.opened(target, path@, now),
            final(self)@.wf(),
    {
        let ghost before = self@;
        proof {
            law_opening_keeps_one_window_per_file(before, target, path@, now);
        }
        self.picker_deadline = None;
        if let Some(i) = find_window_with_file(&self.windows, path) {
            assert(before.windows[i as int] == self.windows@[i as int]@);
            return Plan::Focus(self.windows[i].id);
        }
        if let Some(id) = target {
            if let Some(i) = find_window(&self.windows, id) {
                assert(before.windows[i as int] == self.windows@[i as int]@);
                if self.windows[i].history.is_none() {
                    let shown: u64 = self.windows[i].id;
                    self.set_history(i, NavHistory::new(path.to_owned()));
                    return Plan::Show(shown);
                }
            }
        }
        if self.next_id == u64::MAX {
            return Plan::Nothing;
        }
        let id: u64 = self.next_id;
        let history = NavHistory::new(path.to_owned());
        self.windows.push(WindowInfo { id, history: Some(history), created: now });
        self.next_id = id + 1;
        proof {
            let asked = ShellView { picker_deadline: None, ..before };
            assert(self@.windows =~= asked.with_window(Some(fresh_history(path@)), now).windows);
        }
        Plan::Make(id)
    }

    /// Follows a link from window `id` to the file at `path`, which is resolved.
    pub fn switch(&mut self, id: u64, path: &str) -> (r: Plan)
        requires
            old(self)@.wf(),
        ensures
            (final(self)@, r) == old(self)@.switched(id, path@),
            final(self)@.wf(),
    {
        let ghost before = self@;
        proof {
            law_switching_keeps_one_window_per_file(before, id, path@);
        }
        let i = match find_window(&self.windows, id) {
            Some(i) => i,
            None => {
                return Plan::Nothing;
            },
        };
        assert(before.windows[i as int] == self.windows@[i as int]@);
        if let Some(j) = find_window_with_file(&self.windows, path) {
            if j != i {
                assert(before.windows[j as int] == self.windows@[j as int]@);
                return Plan::Focus(self.windows[j].id);
            }
        }
        let history = match &self.windows[i].history {
            Some(h) => {
                let mut next = h.copied();
                next.push(path.to_owned());
                next
            },
            None => NavHistory::new(path.to_owned()),
        };
        self.set_history(i, history);
        Plan::Show(id)
    }

    /// Moves through the history of window `id`.
    pub fn navigate(&mut self, id: u64, direction: NavDirection) -> (r: Plan)
        requires
            old(self)@.wf(),
        ensures
            (final(self)@, r) == old(self)@.navigated(id, direction),
            final(self)@.wf(),
    {
        let ghost before = self@;
        proof {
            law_navigating_keeps_one_window_per_file(before, id, direction);
        }
        let i = match find_window(&self.windows, id) {
            Some(i) => i,
            None => {
                return Plan::Nothing;
            },
        };
        assert(before.windows[i as int] == self.windows@[i as int]@);
        let mut history = match &self.windows[i].history {
            Some(h) => h.copied(),
            None => {
                return Plan::Nothing;
            },
        };
        let target = match direction {
            NavDirection::Back => history.back(),
            NavDirection::Forward => history.forward(),
        };
        let path = match target {
            Some(p) => p,
            None => {
                return Plan::Nothing;
            },
        };
        if let Some(j) = find_window_with_file(&self.windows, path.as_str()) {
            if j != i {
                assert(before.windows[j as int] == self.windows@[j as int]@);
                return Plan::Focus(self.windows[j].id);
            }
        }
        self.set_history(i, history);
        Plan::Show(id)
    }

    /// Closes window `id`. Returns whether none is left.
    pub fn close(&mut self, id: u64) -> (r: bool)
        requires
            old(self)@.wf(),
        ensures
            final(self)@ == old(self)@.closed(id),
            final(self)@.wf(),
            r == (final(self)@.windows.len() == 0),
    {
        let ghost before = self@;
        proof {
            law_closing_keeps_one_window_per_file(before, id);
        }
        if let Some(i) = find_window(&self.windows, id) {
            let window = self.windows.remove(i);
            assert(self@.windows =~= before.windows.remove(i as int));
        }
        if let Some((at, of)) = self.save {
            if of == id {
                self.save = None;
            }
        }
        self.windows.len() == 0
    }

    /// Takes note that window `id` was moved or resized.
    pub fn moved(&mut self, id: u64, now: u64)
        requires
            old(self)@.wf(),
        ensures
            final(self)@ == old(self)@.moved(id, now),
            final(self)@.wf(),
    {
        if let Some(i) = find_window(&self.windows, id) {
            assert(self@.windows[i as int] == self.windows@[i as int]@);
            if now >= later(self.windows[i].created, STARTUP_MOVE_GRACE) {
                self.save = Some((later(now, WINDOW_STATE_SAVE_DEBOUNCE), id));
            }
        }
    }

    /// What is due at the time `now`.
    pub fn tick(&mut self, now: u64) -> (r: Due)
        requires
            old(self)@.wf(),
        ensures
            (final(self)@, r) == old(self)@.ticked(now),
            final(self)@.wf(),
    {
        if let Some(deadline) = self.picker_deadline {
            if now >= deadline {
                self.picker_deadline = None;
                return Due::Picker;
            }
        }
        if let Some((at, id)) = self.save {
            if now >= at {
                self.save = None;
                if find_window(&self.windows, id).is_some() {
                    return Due::Save(id);
                }
            }
        }
        Due::Nothing
    }

    /// When something is due next.
    pub fn wake(&self) -> (r: Wake)
        ensures
            r == self@.wake(),
    {
        match (self.picker_deadline, self.save) {
            (Some(a), Some((b, _))) => Wake::At(
                if a <= b {
                    a
                } else {
                    b
                },
            ),
            (Some(a), None) => Wake::At(a),
            (None, Some((b, _))) => Wake::At(b),
            (None, None) => Wake::Never,
        }
    }

    /// The window that a command without a window is for, where `focused` has the
    /// focus.
    pub fn frontmost(&self, focused: Option<u64>) -> (r: Option<u64>)
        ensures
            r == self@.frontmost(focused),
    {
        if let Some(id) = focused {
            if find_window(&self.windows, id).is_some() {
                return Some(id);
            }
        }
        let n: usize = self.windows.len();
        if n == 0 {
            return None;
        }
        let ghost view = self@;
        let mut newest: usize = 0;
        let mut i: usize = 1;
        while i < n
            invariant
                n == self.windows@.len(),
                view == self@,
                1 <= i <= n,
                newest < i,
                newest == view.newest(i as int),
            decreases n - i,
        {
            assert(view.windows[i as int] == self.windows@[i as int]@);
            assert(view.windows[newest as int] == self.windows@[newest as int]@);
            if self.windows[i].created >= self.windows[newest].created {
                newest = i;
            }
            i = i + 1;
        }
        assert(view.windows[newest as int] == self.windows@[newest as int]@);
        Some(self.windows[newest].id)
    }

    /// The first empty window.
    pub fn find_empty_window(&self) -> (r: Option<u64>)
        ensures
            r == match empty_window(self@.windows, 0) {
                Some(i) => Some(self@.windows[i].id),
                None => None,
            },
    {
        let ghost all = self@.windows;
        let mut i: usize = 0;
        while i < self.windows.len()
            invariant
                all == self@.windows,
                i <= self.windows@.len(),
                empty_window(all, 0) == empty_window(all, i as int),
            decreases self.windows@.len() - i,
        {
            assert(all[i as int] == self.windows@[i as int]@);
            if self.windows[i].history.is_none() {
                return Some(self.windows[i].id);
            }
            i = i + 1;
        }
        None
    }

    /// Whether the history of window `id` goes back and forward, where it has one.
    pub fn nav_of(&self, id: u64) -> (r: Option<(bool, bool)>)
        requires
            self@.wf(),
        ensures
            r == match window_at(self@.windows, id, 0) {
                Some(i) => match self@.windows[i].history {
                    Some(h) => Some((h.can_back(), h.can_forward())),
                    None => None,
                },
                None => None,
            },
    {
        match find_window(&self.windows, id) {
            None => None,
            Some(i) => {
                assert(self@.windows[i as int] == self.windows@[i as int]@);
                match &self.windows[i].history {
                    Some(h) => Some((h.can_back(), h.can_forward())),
                    None => None,
                }
            },
        }
    }

    /// The file that window `id` shows.
    pub fn file_of(&self, id: u64) -> (r: Option<&str>)
        requires
            self@.wf(),
        ensures
            text_ref_option(r) == match window_at(self@.windows, id, 0) {
                Some(i) => match self@.windows[i].history {
                    Some(h) => Some(h.current()),
                    None => None,
                },
                None => None,
            },
    {
        match find_window(&self.windows, id) {
            None => None,
            Some(i) => {
                assert(self@.windows[i as int] == self.windows@[i as int]@);
                match &self.windows[i].history {
                    Some(h) => h.current(),
                    None => None,
                }
            },
        }
    }
}

// ---------------------------------------------------------------------------
// Commands
// ---------------------------------------------------------------------------

/// How the size of the text changes.
#[derive(Debug, Clone, Copy, PartialEq, Eq, Structural)]
pub enum ZoomDir {
    In,
    Out,
    Reset,
}

/// The word for a change of size.
pub open spec fn zoom_word(dir: ZoomDir) -> Seq<char> {
    match dir {
        ZoomDir::In => "in"@,
        ZoomDir::Out => "out"@,
        ZoomDir::Reset => "reset"@,
    }
}

impl ZoomDir {
    /// The word for the change.
    pub fn as_js_arg(&self) -> (r: &'static str)
        ensures
            r@ == zoom_word(*self),
    {
        match self {
            ZoomDir::In => "in",
            ZoomDir::Out => "out",
            ZoomDir::Reset => "reset",
        }
    }
}

/// The script that changes the size of the text in a page.
pub fn zoom_script(dir: ZoomDir) -> (r: String)
    ensures
        r@ == "window.__mdviewViewer && window.__mdviewViewer.zoom('"@ + zoom_word(dir) + "')"@,
{
    let mut out = String::new();
    out.append("window.__mdviewViewer && window.__mdviewViewer.zoom('");
    out.append(dir.as_js_arg());
    out.append("')");
    assert(out@ =~= "window.__mdviewViewer && window.__mdviewViewer.zoom('"@ + zoom_word(dir)
        + "')"@);
    out
}

/// What a menu asks for.
#[derive(Debug, Clone, Copy, PartialEq, Eq, Structural)]
pub enum MenuCommand {
    PickFile,
    Zoom(ZoomDir),
    Reload,
}

/// What the menu item `id` asks for.
pub open spec fn command_of(id: Seq<char>) -> Option<MenuCommand> {
    if id == "open"@ {
        Some(MenuCommand::PickFile)
    } else if id == "zoom-in"@ {
        Some(MenuCommand::Zoom(ZoomDir::In))
    } else if id == "zoom-out"@ {
        Some(MenuCommand::Zoom(ZoomDir::Out))
    } else if id == "zoom-reset"@ {
        Some(MenuCommand::Zoom(ZoomDir::Reset))
    } else if id == "reload"@ {
        Some(MenuCommand::Reload)
    } else {
        None
    }
}

/// What the menu item `id` asks for.
pub fn menu_command(id: &str) -> (r: Option<MenuCommand>)
    ensures
        r == command_of(id@),
{
    if same_text(id, "open") {
        Some(MenuCommand::PickFile)
    } else if same_text(id, "zoom-in") {
        Some(MenuCommand::Zoom(ZoomDir::In))
    } else if same_text(id, "zoom-out") {
        Some(MenuCommand::Zoom(ZoomDir::Out))
    } else if same_text(id, "zoom-reset") {
        Some(MenuCommand::Zoom(ZoomDir::Reset))
    } else if same_text(id, "reload") {
        Some(MenuCommand::Reload)
    } else {
        None
    }
}

/// What becomes of a page that wants to go to a URL.
#[derive(Debug, Clone, Copy, PartialEq, Eq, Structural)]
pub enum Navigation {
    /// It goes there: that is the application itself.
    Inside,
    /// It stays, and the URL is handed to the system.
    Outside,
    /// It stays.
    Refused,
}

/// What becomes of a page that wants to go to `url`. The application's own URLs
/// begin with `own`.
pub open spec fn navigation(url: Seq<char>, own: Seq<char>) -> Navigation {
    if own.is_prefix_of(url) {
        Navigation::Inside
    } else if "http://"@.is_prefix_of(url) || "https://"@.is_prefix_of(url)
        || "mailto:"@.is_prefix_of(url) {
        Navigation::Outside
    } else {
        Navigation::Refused
    }
}

/// What becomes of a page that wants to go to `url`, where the application's own
/// URLs begin with `own`.
pub fn navigation_policy(url: &str, own: &str) -> (r: Navigation)
    ensures
        r == navigation(url@, own@),
{
    let url = chars_of(url);
    let url = url.as_slice();
    if has_prefix_str(url, own) {
        Navigation::Inside
    } else if has_prefix_str(url, "http://") || has_prefix_str(url, "https://") || has_prefix_str(
        url,
        "mailto:",
    ) {
        Navigation::Outside
    } else {
        Navigation::Refused
    }
}

/// The title of a window that shows `file`.
pub open spec fn title_text(file: Option<Seq<char>>) -> Seq<char> {
    match file {
        Some(path) => title_of(path) + " — mdview"@,
        None => "mdview"@,
    }
}

/// The title of a window that shows `file`.
pub fn window_title(file: Option<&str>) -> (r: String)
    ensures
        r@ == title_text(text_ref_option(file)),
{
    match file {
        Some(path) => {
            let mut out = file_title(path);
            out.append(" — mdview");
            out
        },
        None => "mdview".to_owned(),
    }
}

/// The Markdown files among `paths`, in their order.
pub open spec fn markdown_among(paths: Seq<Seq<char>>) -> Seq<Seq<char>>
    decreases paths.len(),
{
    if paths.len() == 0 {
        seq![]
    } else if is_markdown(paths.last()) {
        markdown_among(paths.drop_last()).push(paths.last())
    } else {
        markdown_among(paths.drop_last())
    }
}

/// The Markdown files among `paths`, which were dropped or handed over by the
/// system. Each of them is opened.
pub fn markdown_files(paths: &Vec<String>) -> (r: Vec<String>)
    ensures
        path_views(r@) == markdown_among(path_views(paths@)),
{
    let ghost all = path_views(paths@);
    let mut out: Vec<String> = Vec::new();
    let mut i: usize = 0;
    assert(path_views(out@) =~= markdown_among(all.take(0)));
    while i < paths.len()
        invariant
            all == path_views(paths@),
            i <= paths@.len(),
            path_views(out@) == markdown_among(all.take(i as int)),
        decreases paths@.len() - i,
    {
        let ghost before = path_views(out@);
        assert(all.take(i + 1).drop_last() =~= all.take(i as int));
        assert(all.take(i + 1).last() == paths@[i as int]@);
        if is_markdown_file(paths[i].as_str()) {
            out.push(paths[i].clone());
            assert(path_views(out@) =~= before.push(paths@[i as int]@));
        }
        i = i + 1;
    }
    assert(all.take(i as int) =~= all);
    out
}

/// What is compared to tell whether two paths lead to the same file: what `path`
/// resolves to, or itself where it does not.
pub fn canonical_or_given(path: &str, resolved: Option<String>) -> (r: String)
    ensures
        r@ == match text_option(resolved) {
            Some(c) => c,
            None => path@,
        },
{
    match resolved {
        Some(c) => c,
        None => path.to_owned(),
    }
}

// ---------------------------------------------------------------------------
// The directory of a window
// ---------------------------------------------------------------------------

/// The directory that a window stays in, where it stayed in `kept` so far and a file
/// in `dir` is shown: the first that there is.
pub open spec fn root_after(kept: Option<Seq<char>>, dir: Option<Seq<char>>) -> Option<Seq<char>> {
    if kept is Some {
        kept
    } else {
        dir
    }
}

/// The directory that a window stays in, where it stayed in `kept` so far and a file
/// in `dir` is shown.
pub fn kept_root(kept: Option<String>, dir: Option<String>) -> (r: Option<String>)
    ensures
        text_option(r) == root_after(text_option(kept), text_option(dir)),
{
    match kept {
        Some(root) => Some(root),
        None => dir,
    }
}

/// The directory that a window stays in once files in all of `dirs` were shown.
pub open spec fn root_after_all(
    kept: Option<Seq<char>>,
    dirs: Seq<Option<Seq<char>>>,
) -> Option<Seq<char>>
    decreases dirs.len(),
{
    if dirs.len() == 0 {
        kept
    } else {
        root_after(root_after_all(kept, dirs.drop_last()), dirs.last())
    }
}

/// Once a window has a directory it stays in it, whatever files it shows after.
pub proof fn law_a_window_stays_in_its_directory(root: Seq<char>, dirs: Seq<Option<Seq<char>>>)
    ensures
        root_after_all(Some(root), dirs) == Some(root),
    decreases dirs.len(),
{
    if dirs.len() > 0 {
        law_a_window_stays_in_its_directory(root, dirs.drop_last());
    }
}

} // verus!
