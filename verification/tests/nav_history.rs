use markdown_remarkable::nav_history::NavHistory;

fn p(name: &str) -> String {
    name.to_string()
}

#[test]
fn new_starts_on_the_initial_entry_with_no_history_either_way() {
    let history = NavHistory::new(p("a.md"));
    assert_eq!(history.current(), Some(p("a.md").as_str()));
    assert!(!history.can_back());
    assert!(!history.can_forward());
}

#[test]
fn push_advances_current_and_enables_back() {
    let mut history = NavHistory::new(p("a.md"));
    history.push(p("b.md"));
    assert_eq!(history.current(), Some(p("b.md").as_str()));
    assert!(history.can_back());
    assert!(!history.can_forward());
}

#[test]
fn push_same_path_as_current_is_a_no_op() {
    let mut history = NavHistory::new(p("a.md"));
    history.push(p("a.md"));
    assert_eq!(history.current(), Some(p("a.md").as_str()));
    assert!(!history.can_back());
}

#[test]
fn back_then_forward_round_trips() {
    let mut history = NavHistory::new(p("a.md"));
    history.push(p("b.md"));
    assert_eq!(history.back(), Some(p("a.md")));
    assert_eq!(history.current(), Some(p("a.md").as_str()));
    assert!(!history.can_back());
    assert!(history.can_forward());
    assert_eq!(history.forward(), Some(p("b.md")));
    assert_eq!(history.current(), Some(p("b.md").as_str()));
    assert!(history.can_back());
    assert!(!history.can_forward());
}

#[test]
fn back_past_the_oldest_entry_returns_none_and_does_not_move() {
    let mut history = NavHistory::new(p("a.md"));
    assert_eq!(history.back(), None);
    assert_eq!(history.current(), Some(p("a.md").as_str()));
}

#[test]
fn forward_past_the_newest_entry_returns_none_and_does_not_move() {
    let mut history = NavHistory::new(p("a.md"));
    assert_eq!(history.forward(), None);
    assert_eq!(history.current(), Some(p("a.md").as_str()));
}

#[test]
fn push_after_back_truncates_the_forward_branch() {
    let mut history = NavHistory::new(p("a.md"));
    history.push(p("b.md"));
    history.push(p("c.md"));
    history.back();
    assert!(history.can_forward());
    history.push(p("d.md"));
    assert_eq!(history.current(), Some(p("d.md").as_str()));
    assert!(!history.can_forward());
    assert_eq!(history.back(), Some(p("b.md")));
    assert_eq!(history.back(), Some(p("a.md")));
    assert_eq!(history.back(), None);
}

#[test]
fn navigating_back_to_a_previously_visited_path_via_push_does_not_dedupe_across_the_whole_stack() {
    let mut history = NavHistory::new(p("a.md"));
    history.push(p("b.md"));
    history.push(p("a.md"));
    assert_eq!(history.current(), Some(p("a.md").as_str()));
    assert!(history.can_back());
    assert_eq!(history.back(), Some(p("b.md")));
}

#[test]
fn push_caps_at_max_entries_dropping_the_oldest_and_keeping_the_cursor_correct() {
    let mut history = NavHistory::new(p("v0.md"));
    for i in 1..60 {
        history.push(p(&format!("v{i}.md")));
    }
    assert_eq!(history.current(), Some(p("v59.md").as_str()));
    for _ in 0..49 {
        history.back();
    }
    assert_eq!(history.current(), Some(p("v10.md").as_str()));
    assert!(!history.can_back());
}
