use humansort::{Action, AppState, AppView, HumansortError, HumansortItem, HumansortState};

fn values(state: &HumansortState) -> Vec<String> {
    state.get_all_items().iter().map(|i| i.value().clone()).collect()
}

fn add(state: &AppState, name: &str) -> Result<AppState, HumansortError> {
    state.reduce(Action::AddItem { name: name.to_string() })
}

#[test]
fn session_starts_on_input() {
    let state = AppState::default();
    assert_eq!(state.current_view, AppView::Input);
    assert!(state.humansort_state.get_all_items().is_empty());
    assert_eq!(AppState::new().current_view, AppView::Input);
}

#[test]
fn session_edits_items() {
    let state = add(&AppState::new(), "a").unwrap();
    let state = add(&state, "b").unwrap();
    assert_eq!(add(&state, "a").err(), Some(HumansortError::DuplicateItem));
    let state = state
        .reduce(Action::RenameItem { old_name: "a".to_string(), new_name: "c".to_string() })
        .unwrap();
    assert_eq!(values(&state.humansort_state), vec!["c".to_string(), "b".to_string()]);
    let refused =
        state.reduce(Action::RenameItem { old_name: "x".to_string(), new_name: "y".to_string() });
    assert_eq!(refused.err(), Some(HumansortError::UnknownItem));
    let state = state.reduce(Action::RemoveItem { name: "c".to_string() }).unwrap();
    assert_eq!(values(&state.humansort_state), vec!["b".to_string()]);
    let refused = state.reduce(Action::RemoveItem { name: "c".to_string() });
    assert_eq!(refused.err(), Some(HumansortError::UnknownItem));
    assert_eq!(state.current_view, AppView::Input);
}

#[test]
fn session_records_judgments_and_views() {
    let state = add(&AppState::new(), "a").unwrap();
    let state = add(&state, "b").unwrap();
    let state = state.reduce(Action::ChangeView { new_view: AppView::Sorting }).unwrap();
    assert_eq!(state.current_view, AppView::Sorting);
    let outcome = vec![
        HumansortItem::new("b".to_string(), 0.5f32.to_bits()),
        HumansortItem::new("a".to_string(), (-0.5f32).to_bits()),
    ];
    let state = state.reduce(Action::SelectPreference { outcome }).unwrap();
    assert_eq!(values(&state.humansort_state), vec!["b".to_string(), "a".to_string()]);
    assert_eq!(state.current_view, AppView::Sorting);
    let short = vec![HumansortItem::new("b".to_string(), 0)];
    let refused = state.reduce(Action::SelectPreference { outcome: short });
    assert_eq!(refused.err(), Some(HumansortError::TooFewItems));
}
