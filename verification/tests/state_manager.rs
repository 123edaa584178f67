use todo_state::state::{Todo, TodoState};

fn state_with(titles: &[(&str, &str)]) -> TodoState {
    let mut s = TodoState::new();
    for (title, description) in titles {
        s.set_draft_title(title.to_string());
        s.set_draft_description(description.to_string());
        s.add();
    }
    s
}

#[test]
fn new_state_is_empty() {
    let s = TodoState::new();
    assert_eq!(s.len(), 0);
    assert_eq!(s.draft_title, "");
    assert_eq!(s.draft_description, "");
}

#[test]
fn add_appends_and_clears_drafts() {
    let mut s = TodoState::new();
    s.set_draft_title("Buy milk".to_string());
    s.set_draft_description("2%".to_string());
    s.add();
    assert_eq!(s.len(), 1);
    assert_eq!(s.items[0].title, "Buy milk");
    assert_eq!(s.items[0].description, "2%");
    assert!(!s.items[0].completed);
    assert_eq!(s.items[0].id, 1);
    assert_eq!(s.draft_title, "");
    assert_eq!(s.draft_description, "");
}

#[test]
fn add_with_empty_title_is_a_noop() {
    let mut s = TodoState::new();
    s.set_draft_description("kept".to_string());
    s.add();
    assert_eq!(s.len(), 0);
    assert_eq!(s.draft_title, "");
    assert_eq!(s.draft_description, "kept");
    s.add();
    assert_eq!(s.len(), 0);
    assert_eq!(s.draft_description, "kept");
}

#[test]
fn add_does_not_trim_whitespace() {
    let mut s = TodoState::new();
    s.set_draft_title("   ".to_string());
    s.add();
    assert_eq!(s.len(), 1);
    assert_eq!(s.items[0].title, "   ");
}

#[test]
fn toggle_flips_only_the_chosen_item() {
    let mut s = state_with(&[("first", "a"), ("second", "b")]);
    s.toggle(0);
    assert_eq!(s.len(), 2);
    assert!(s.items[0].completed);
    assert_eq!(s.items[0].title, "first");
    assert_eq!(s.items[0].description, "a");
    assert_eq!(s.items[0].id, 1);
    assert!(!s.items[1].completed);
    assert_eq!(s.items[1].title, "second");
    s.toggle(0);
    assert!(!s.items[0].completed);
}

#[test]
fn remove_shifts_later_items_down() {
    let mut s = state_with(&[("a", ""), ("b", ""), ("c", "")]);
    s.remove(1);
    assert_eq!(s.len(), 2);
    assert_eq!(s.items[0].title, "a");
    assert_eq!(s.items[1].title, "c");
    assert!(s.items.iter().all(|t| t.title != "b"));
}

#[test]
fn sequential_scenario_leaves_one_completed_item() {
    let mut s = TodoState::new();
    s.set_draft_title("A".to_string());
    s.set_draft_description("".to_string());
    s.add();
    s.set_draft_title("B".to_string());
    s.set_draft_description("".to_string());
    s.add();
    s.toggle(0);
    s.remove(1);
    assert_eq!(s.len(), 1);
    assert_eq!(s.items[0].title, "A");
    assert!(s.items[0].completed);
}

#[test]
fn identifiers_repeat_after_a_removal() {
    // The identifier is the length at creation time plus one, so after a
    // removal a fresh item knowingly reuses an identifier.
    let mut s = state_with(&[("a", ""), ("b", "")]);
    assert_eq!(s.items[0].id, 1);
    assert_eq!(s.items[1].id, 2);
    s.remove(0);
    s.set_draft_title("c".to_string());
    s.add();
    assert_eq!(s.items[1].id, 2);
}

#[test]
fn from_items_keeps_the_given_list() {
    let items = vec![
        Todo { title: "x".to_string(), description: "y".to_string(), completed: true, id: 7 },
    ];
    let s = TodoState::from_items(items);
    assert_eq!(s.len(), 1);
    assert_eq!(s.items[0].title, "x");
    assert_eq!(s.items[0].description, "y");
    assert!(s.items[0].completed);
    assert_eq!(s.items[0].id, 7);
    assert_eq!(s.draft_title, "");
}
