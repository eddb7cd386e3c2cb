//! What holds of every step that the windows of the application take.
use vstd::prelude::*;

use crate::nav_history::NavView;
use crate::path::joined_path;
use crate::routes::NavDirection;
use crate::shell::{
    command_of, law_the_newest_window_is_in_front, lemma_newest, lemma_window_at,
    lemma_window_showing, markdown_among, navigation, title_text, window_at, window_showing,
    zoom_word, Due, MenuCommand, Navigation, Plan, ShellView, Wake, WindowView, ZoomDir,
};
use crate::util::{is_markdown, law_a_title_is_a_name};

verus! {

// ---------------------------------------------------------------------------
// Opening and closing
// ---------------------------------------------------------------------------

/// Whether no window shows the file at `path`.
pub open spec fn is_shown_nowhere(windows: Seq<WindowView>, path: Seq<char>) -> bool {
    forall|j: int| 0 <= j < windows.len() ==> !(#[trigger] windows[j]).shows(path)
}

/// Whether the window at `i` is the only one that differs between `before` and
/// `after`, and differs in its history alone.
pub open spec fn changes_history_only(
    before: Seq<WindowView>,
    after: Seq<WindowView>,
    i: int,
) -> bool {
    &&& before.len() == after.len()
    &&& after[i].id == before[i].id
    &&& after[i].created == before[i].created
    &&& forall|j: int| 0 <= j < before.len() && j != i ==> #[trigger] after[j] == before[j]
}

/// A window with a number of its own is found by it.
proof fn lemma_found(shell: ShellView, i: int)
    requires
        shell.wf(),
        0 <= i < shell.windows.len(),
    ensures
        window_at(shell.windows, shell.windows[i].id, 0) == Some(i),
{
    let id = shell.windows[i].id;
    lemma_window_at(shell.windows, id, 0);
    let k = window_at(shell.windows, id, 0)->Some_0;
    assert(shell.windows[i].id == id);
    if k < i {
        assert(shell.windows[k].id != shell.windows[i].id);
    } else if i < k {
        assert(shell.windows[i].id != shell.windows[k].id);
    }
}

/// A file that a window shows is found there and nowhere else.
proof fn lemma_found_by_file(shell: ShellView, i: int, path: Seq<char>)
    requires
        shell.wf(),
        0 <= i < shell.windows.len(),
        shell.windows[i].shows(path),
    ensures
        window_showing(shell.windows, path, 0) == Some(i),
{
    lemma_window_showing(shell.windows, path, 0);
    let k = window_showing(shell.windows, path, 0)->Some_0;
    if k != i {
        let h = shell.windows[i].history->Some_0;
        assert(!shell.windows[k].shows(h.current()));
    }
}

/// A file that a window shows is not opened a second time: the window comes to the
/// front, and no window changes.
pub proof fn law_an_open_file_is_brought_to_the_front(
    shell: ShellView,
    target: Option<u64>,
    path: Seq<char>,
    now: u64,
    i: int,
)
    requires
        shell.wf(),
        0 <= i < shell.windows.len(),
        shell.windows[i].shows(path),
    ensures
        shell.opened(target, path, now).1 == Plan::Focus(shell.windows[i].id),
        shell.opened(target, path, now).0.windows == shell.windows,
        shell.opened(target, path, now).0.next_id == shell.next_id,
{
    lemma_found_by_file(shell, i, path);
}

/// Any other file is shown in the window that it is opened for, where that is
/// empty. No other window changes.
pub proof fn law_an_empty_window_is_filled(
    shell: ShellView,
    path: Seq<char>,
    now: u64,
    i: int,
)
    requires
        shell.wf(),
        is_shown_nowhere(shell.windows, path),
        0 <= i < shell.windows.len(),
        shell.windows[i].history is None,
    ensures
        ({
            let id = shell.windows[i].id;
            let (after, plan) = shell.opened(Some(id), path, now);
            &&& plan == Plan::Show(id)
            &&& changes_history_only(shell.windows, after.windows, i)
            &&& after.windows[i].history == Some(NavView { entries: seq![path], cursor: 0 })
            &&& after.next_id == shell.next_id
        }),
{
    lemma_window_showing(shell.windows, path, 0);
    lemma_found(shell, i);
}

/// It is shown in a window of its own, with a number that no window had, where the
/// window that it is opened for is not empty or is not there. The windows that were
/// there do not change.
pub proof fn law_a_new_window_is_made(
    shell: ShellView,
    target: Option<u64>,
    path: Seq<char>,
    now: u64,
)
    requires
        shell.wf(),
        shell.next_id < u64::MAX,
        is_shown_nowhere(shell.windows, path),
        target matches Some(id) ==> forall|j: int|
            0 <= j < shell.windows.len() && (#[trigger] shell.windows[j]).id == id
                ==> shell.windows[j].history is Some,
    ensures
        ({
            let (after, plan) = shell.opened(target, path, now);
            let n = shell.windows.len() as int;
            &&& after.windows.len() == n + 1
            &&& plan == Plan::Make(after.windows[n].id)
            &&& after.windows.take(n) == shell.windows
            &&& forall|j: int|
                0 <= j < n ==> (#[trigger] shell.windows[j]).id != after.windows[n].id
            &&& after.windows[n].history == Some(NavView { entries: seq![path], cursor: 0 })
            &&& after.windows[n].created == now
            &&& after.next_id == shell.next_id + 1
        }),
{
    lemma_window_showing(shell.windows, path, 0);
    if let Some(id) = target {
        lemma_window_at(shell.windows, id, 0);
    }
    let after = shell.opened(target, path, now).0;
    let n = shell.windows.len() as int;
    assert(after.windows.take(n) =~= shell.windows);
}

/// Once a file is opened none is asked for any more, and what is to be kept stays.
pub proof fn law_opening_ends_the_asking(
    shell: ShellView,
    target: Option<u64>,
    path: Seq<char>,
    now: u64,
)
    ensures
        shell.opened(target, path, now).0.picker_deadline is None,
        shell.opened(target, path, now).0.save == shell.save,
{
}

/// Closing a window takes that window alone, and what was to be kept of it.
pub proof fn law_closing_takes_one_window(shell: ShellView, i: int)
    requires
        shell.wf(),
        0 <= i < shell.windows.len(),
    ensures
        ({
            let id = shell.windows[i].id;
            let after = shell.closed(id);
            &&& after.windows == shell.windows.take(i) + shell.windows.skip(i + 1)
            &&& after.save == if shell.save matches Some((_, of)) && of == id {
                None
            } else {
                shell.save
            }
            &&& after.next_id == shell.next_id
            &&& after.picker_deadline == shell.picker_deadline
        }),
{
    lemma_found(shell, i);
    let id = shell.windows[i].id;
    assert(shell.closed(id).windows =~= shell.windows.take(i) + shell.windows.skip(i + 1));
}

/// Closing a window that is not there takes none.
pub proof fn law_closing_nothing_takes_nothing(shell: ShellView, id: u64)
    requires
        forall|j: int| 0 <= j < shell.windows.len() ==> (#[trigger] shell.windows[j]).id != id,
    ensures
        shell.closed(id).windows == shell.windows,
        shell.closed(id).next_id == shell.next_id,
        shell.closed(id).picker_deadline == shell.picker_deadline,
{
    lemma_window_at(shell.windows, id, 0);
}

// ---------------------------------------------------------------------------
// Links and histories
// ---------------------------------------------------------------------------

/// A link to a file that no other window shows is followed in its own window, which
/// shows the file then. No other window changes.
pub proof fn law_links_are_followed_in_their_window(shell: ShellView, path: Seq<char>, i: int)
    requires
        shell.wf(),
        0 <= i < shell.windows.len(),
        forall|j: int|
            0 <= j < shell.windows.len() && j != i ==> !(#[trigger] shell.windows[j]).shows(path),
    ensures
        ({
            let id = shell.windows[i].id;
            let (after, plan) = shell.switched(id, path);
            &&& plan == Plan::Show(id)
            &&& changes_history_only(shell.windows, after.windows, i)
            &&& after.windows[i].shows(path)
            &&& match shell.windows[i].history {
                None => after.windows[i].history == Some(
                    NavView { entries: seq![path], cursor: 0 },
                ),
                Some(h) => after.windows[i].history == Some(h.pushed(path)),
            }
            &&& after.next_id == shell.next_id
            &&& after.save == shell.save
            &&& after.picker_deadline == shell.picker_deadline
        }),
{
    lemma_found(shell, i);
    lemma_window_showing(shell.windows, path, 0);
    if let Some(k) = window_showing(shell.windows, path, 0) {
        assert(k == i);
    }
    if let Some(h) = shell.windows[i].history {
        assert(h.wf());
    }
}

/// A link to a file that another window shows brings that window to the front, and
/// changes none.
pub proof fn law_links_lead_to_the_window_that_shows(
    shell: ShellView,
    path: Seq<char>,
    i: int,
    k: int,
)
    requires
        shell.wf(),
        0 <= i < shell.windows.len(),
        0 <= k < shell.windows.len(),
        k != i,
        shell.windows[k].shows(path),
    ensures
        shell.switched(shell.windows[i].id, path) == (shell, Plan::Focus(shell.windows[k].id)),
{
    lemma_found(shell, i);
    lemma_found_by_file(shell, k, path);
}

/// How far a step leads through a history.
pub open spec fn step_of(direction: NavDirection) -> int {
    match direction {
        NavDirection::Back => -1,
        NavDirection::Forward => 1,
    }
}

/// A step through a history leads to the entry before the current one, or to the
/// one behind it. The entries stay, and no other window changes.
pub proof fn law_steps_lead_to_the_next_entry(shell: ShellView, direction: NavDirection, i: int)
    requires
        shell.wf(),
        0 <= i < shell.windows.len(),
        shell.windows[i].history matches Some(h) && 0 <= h.cursor + step_of(direction)
            < h.entries.len() && forall|j: int|
            0 <= j < shell.windows.len() && j != i ==> !(#[trigger] shell.windows[j]).shows(
                h.entries[h.cursor + step_of(direction)],
            ),
    ensures
        ({
            let id = shell.windows[i].id;
            let h = shell.windows[i].history->Some_0;
            let (after, plan) = shell.navigated(id, direction);
            &&& plan == Plan::Show(id)
            &&& changes_history_only(shell.windows, after.windows, i)
            &&& after.windows[i].history == Some(
                NavView { entries: h.entries, cursor: h.cursor + step_of(direction) },
            )
            &&& after.next_id == shell.next_id
            &&& after.save == shell.save
            &&& after.picker_deadline == shell.picker_deadline
        }),
{
    lemma_found(shell, i);
    let h = shell.windows[i].history->Some_0;
    let path = h.entries[h.cursor + step_of(direction)];
    lemma_window_showing(shell.windows, path, 0);
    if let Some(k) = window_showing(shell.windows, path, 0) {
        assert(k == i);
    }
}

/// A step to a file that another window shows brings that window to the front.
pub proof fn law_steps_lead_to_the_window_that_shows(
    shell: ShellView,
    direction: NavDirection,
    i: int,
    k: int,
)
    requires
        shell.wf(),
        0 <= i < shell.windows.len(),
        0 <= k < shell.windows.len(),
        k != i,
        shell.windows[i].history matches Some(h) && 0 <= h.cursor + step_of(direction)
            < h.entries.len() && shell.windows[k].shows(h.entries[h.cursor + step_of(direction)]),
    ensures
        shell.navigated(shell.windows[i].id, direction) == (
            shell,
            Plan::Focus(shell.windows[k].id),
        ),
{
    lemma_found(shell, i);
    let h = shell.windows[i].history->Some_0;
    lemma_found_by_file(shell, k, h.entries[h.cursor + step_of(direction)]);
}

/// There is no step out of a history, none in an empty window and none in a window
/// that is not there; nor is a link followed there.
pub proof fn law_steps_end_with_the_history(
    shell: ShellView,
    id: u64,
    path: Seq<char>,
    direction: NavDirection,
)
    requires
        shell.wf(),
    ensures
        (forall|j: int|
            0 <= j < shell.windows.len() && (#[trigger] shell.windows[j]).id == id ==> match shell.windows[j].history {
                None => true,
                Some(h) => h.cursor + step_of(direction) < 0 || h.cursor + step_of(direction)
                    >= h.entries.len(),
            }) ==> shell.navigated(id, direction) == (shell, Plan::Nothing),
        (forall|j: int| 0 <= j < shell.windows.len() ==> (#[trigger] shell.windows[j]).id != id)
            ==> shell.switched(id, path) == (shell, Plan::Nothing),
{
    lemma_window_at(shell.windows, id, 0);
    if let Some(i) = window_at(shell.windows, id, 0) {
        assert(shell.windows[i].id == id);
        if let Some(h) = shell.windows[i].history {
            assert(h.wf());
        }
    }
}

// ---------------------------------------------------------------------------
// Times
// ---------------------------------------------------------------------------

/// The place of a window is kept half a second after it was last moved. What
/// happens in the first second of a window does not count.
pub proof fn law_places_are_kept_after_a_rest(shell: ShellView, i: int, now: u64)
    requires
        shell.wf(),
        0 <= i < shell.windows.len(),
        now <= u64::MAX - 500,
    ensures
        ({
            let id = shell.windows[i].id;
            let after = shell.moved(id, now);
            &&& now >= shell.windows[i].created + 1000 ==> after.save == Some(
                ((now + 500) as u64, id),
            )
            &&& now < shell.windows[i].created + 1000 ==> after.save == shell.save
            &&& after.windows == shell.windows
            &&& after.next_id == shell.next_id
            &&& after.picker_deadline == shell.picker_deadline
        }),
{
    lemma_found(shell, i);
}

/// What is due at a time is what its time has come for, one thing after another, and
/// a file to be asked for before anything else. What is done is not due any more.
pub proof fn law_what_is_due_is_done_once(shell: ShellView, now: u64)
    ensures
        ({
            let (after, due) = shell.ticked(now);
            &&& due is Picker <==> (shell.picker_deadline matches Some(at) && at <= now)
            &&& due is Picker ==> after.picker_deadline is None && after.save == shell.save
            &&& !(due is Picker) ==> after.picker_deadline == shell.picker_deadline
            &&& due matches Due::Save(id) ==> (shell.save matches Some((at, of)) && at <= now && of
                == id)
            &&& !(due is Picker) && (shell.save matches Some((at, _)) && at <= now)
                ==> after.save is None
            &&& (shell.save matches Some((at, _)) ==> now < at) ==> after.save == shell.save
            &&& after.windows == shell.windows
            &&& after.next_id == shell.next_id
        }),
{
}

/// The place of a window that is there is kept when its time has come, and of one
/// that is not there none is.
pub proof fn law_places_of_windows_are_kept(shell: ShellView, now: u64, at: u64, id: u64, i: int)
    requires
        shell.save == Some((at, id)),
        at <= now,
        shell.picker_deadline matches Some(t) ==> now < t,
        0 <= i < shell.windows.len(),
    ensures
        shell.windows[i].id == id ==> shell.ticked(now).1 == Due::Save(id),
        (forall|j: int| 0 <= j < shell.windows.len() ==> (#[trigger] shell.windows[j]).id != id)
            ==> shell.ticked(now).1 == Due::Nothing,
{
    lemma_window_at(shell.windows, id, 0);
}

/// Nothing is due before the time to wake at, and something is at that time.
pub proof fn law_the_time_to_wake(shell: ShellView, now: u64)
    ensures
        match shell.wake() {
            Wake::At(t) => {
                &&& now < t ==> shell.ticked(now) == (shell, Due::Nothing)
                &&& now >= t ==> shell.ticked(now).0 != shell
            },
            Wake::Never => shell.ticked(now) == (shell, Due::Nothing),
        },
{
}

/// A command is for the window with the focus, or else for the one made last.
pub proof fn law_commands_find_their_window(shell: ShellView, focused: Option<u64>, i: int)
    requires
        shell.wf(),
        0 <= i < shell.windows.len(),
    ensures
        focused == Some(shell.windows[i].id) ==> shell.frontmost(focused) == focused,
        focused is None ==> exists|k: int|
            0 <= k < shell.windows.len() && shell.frontmost(focused) == Some(
                (#[trigger] shell.windows[k]).id,
            ) && shell.windows[i].created <= shell.windows[k].created,
{
    lemma_found(shell, i);
    let n = shell.windows.len() as int;
    lemma_newest(shell, n);
    law_the_newest_window_is_in_front(shell, n, i);
    let k = shell.newest(n);
    assert(shell.windows[k].id == shell.windows[k].id);
}

// ---------------------------------------------------------------------------
// Commands and titles
// ---------------------------------------------------------------------------

/// What the items of the menu ask for, and that no other text asks for anything.
pub proof fn law_menu_items(id: Seq<char>)
    ensures
        command_of("open"@) == Some(MenuCommand::PickFile),
        command_of("zoom-in"@) == Some(MenuCommand::Zoom(ZoomDir::In)),
        command_of("zoom-out"@) == Some(MenuCommand::Zoom(ZoomDir::Out)),
        command_of("zoom-reset"@) == Some(MenuCommand::Zoom(ZoomDir::Reset)),
        command_of("reload"@) == Some(MenuCommand::Reload),
        command_of(id) is Some ==> id == "open"@ || id == "zoom-in"@ || id == "zoom-out"@ || id
            == "zoom-reset"@ || id == "reload"@,
        zoom_word(ZoomDir::In) == "in"@,
        zoom_word(ZoomDir::Out) == "out"@,
        zoom_word(ZoomDir::Reset) == "reset"@,
{
    reveal_strlit("open");
    reveal_strlit("zoom-in");
    reveal_strlit("zoom-out");
    reveal_strlit("zoom-reset");
    reveal_strlit("reload");
    assert("open"@.len() == 4);
    assert("zoom-in"@.len() == 7);
    assert("zoom-out"@.len() == 8);
    assert("zoom-reset"@.len() == 10);
    assert("reload"@.len() == 6);
}

/// A page goes on inside the application only; pages of the web and addresses of mail
/// are handed to the system, and nothing else is.
pub proof fn law_where_pages_may_go(own: Seq<char>, rest: Seq<char>)
    ensures
        navigation(own + rest, own) == Navigation::Inside,
        !own.is_prefix_of("http://"@ + rest) ==> navigation("http://"@ + rest, own)
            == Navigation::Outside,
        !own.is_prefix_of("https://"@ + rest) ==> navigation("https://"@ + rest, own)
            == Navigation::Outside,
        !own.is_prefix_of("mailto:"@ + rest) ==> navigation("mailto:"@ + rest, own)
            == Navigation::Outside,
        navigation(rest, own) is Outside ==> "http://"@.is_prefix_of(rest)
            || "https://"@.is_prefix_of(rest) || "mailto:"@.is_prefix_of(rest),
        navigation(rest, own) is Inside ==> own.is_prefix_of(rest),
{
    assert((own + rest).subrange(0, own.len() as int) =~= own);
    let a = "http://"@;
    let b = "https://"@;
    let c = "mailto:"@;
    assert((a + rest).subrange(0, a.len() as int) =~= a);
    assert((b + rest).subrange(0, b.len() as int) =~= b);
    assert((c + rest).subrange(0, c.len() as int) =~= c);
}

/// A window is titled by the name of its file and by the application; an empty one
/// by the application alone.
pub proof fn law_windows_are_titled(dir: Seq<char>, name: Seq<char>)
    requires
        name.len() > 0,
        !name.contains('/'),
        name != "."@,
        name != ".."@,
        dir.len() > 0 ==> dir == "/"@ || dir.last() != '/' && dir.last() != '.',
    ensures
        title_text(Some(joined_path(dir, name))) == name + " — mdview"@,
        title_text(None) == "mdview"@,
{
    law_a_title_is_a_name(dir, name);
}

/// Of the files that are dropped all that are Markdown are opened, and no others, in
/// their order.
pub proof fn law_dropped_files_are_sifted(paths: Seq<Seq<char>>)
    ensures
        markdown_among(paths) == paths.filter(|p: Seq<char>| is_markdown(p)),
    decreases paths.len(),
{
    reveal(Seq::filter);
    if paths.len() > 0 {
        law_dropped_files_are_sifted(paths.drop_last());
    }
}

} // verus!
