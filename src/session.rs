use vstd::prelude::*;
use crate::item::{HumansortItem, ZERO_RATING};
use crate::order::{insert_desc, sort_desc, views};
use crate::state::{
    all_known, index_of, values_of, with_ratings, HumansortError, HumansortState,
};

verus! {

/// The screens of an interactive session.
#[derive(Clone, Copy, Debug, PartialEq, Eq, Structural)]
pub enum AppView {
    /// Entering and editing the items.
    Input,
    /// Judging batches.
    Sorting,
    /// Reading the ranking.
    Output,
}

/// What the user did.
pub enum Action {
    /// Added an item.
    AddItem { name: String },
    /// Renamed an item.
    RenameItem { old_name: String, new_name: String },
    /// Removed an item.
    RemoveItem { name: String },
    /// Judged a batch: the judged items with the ratings that the judgment
    /// gave them, the winner first.
    SelectPreference { outcome: Vec<HumansortItem> },
    /// Moved to another screen.
    ChangeView { new_view: AppView },
}

/// An interactive session: the screen shown and the ranking.
pub struct AppState {
    pub current_view: AppView,
    pub humansort_state: HumansortState,
}

impl AppState {
    /// A fresh session: the input screen and an empty ranking.
    pub fn new() -> (r: AppState)
        ensures
            r.current_view == AppView::Input,
            r.humansort_state.wf(),
            r.humansort_state@.len() == 0,
    {
        AppState { current_view: AppView::Input, humansort_state: HumansortState::new() }
    }

    /// The session after `action`; the ranking operation's error where it
    /// refuses, and then the session stays as it was.
    pub fn reduce(&self, action: Action) -> (r: Result<AppState, HumansortError>)
        requires
            self.humansort_state.wf(),
        ensures
            r is Ok ==> r->Ok_0.humansort_state.wf(),
            r is Ok ==> r->Ok_0.humansort_state.spec_num_items()
                == self.humansort_state.spec_num_items(),
            match action {
                Action::ChangeView { new_view } => r is Ok && r->Ok_0.current_view == new_view
                    && r->Ok_0.humansort_state@ == self.humansort_state@,
                Action::AddItem { name } => (r is Ok <==> !values_of(
                    self.humansort_state@,
                ).contains(name@)) && (r is Err ==> r->Err_0 == HumansortError::DuplicateItem)
                    && (r is Ok ==> r->Ok_0.current_view == self.current_view
                    && r->Ok_0.humansort_state@ == insert_desc(
                    self.humansort_state@,
                    (name@, ZERO_RATING),
                )),
                Action::RenameItem { old_name, new_name } => ((r is Err && r->Err_0
                    == HumansortError::UnknownItem) <==> !values_of(
                    self.humansort_state@,
                ).contains(old_name@)) && (r is Err <==> !values_of(
                    self.humansort_state@,
                ).contains(old_name@) || (old_name@ != new_name@ && values_of(
                    self.humansort_state@,
                ).contains(new_name@))) && (r is Ok ==> r->Ok_0.current_view == self.current_view
                    && r->Ok_0.humansort_state@ == self.humansort_state@.update(
                    index_of(self.humansort_state@, old_name@),
                    (
                        new_name@,
                        self.humansort_state@[index_of(self.humansort_state@, old_name@)].1,
                    ),
                )),
                Action::RemoveItem { name } => (r is Ok <==> values_of(
                    self.humansort_state@,
                ).contains(name@)) && (r is Err ==> r->Err_0 == HumansortError::UnknownItem) && (
                r is Ok ==> r->Ok_0.current_view == self.current_view
                    && r->Ok_0.humansort_state@ == self.humansort_state@.remove(
                    index_of(self.humansort_state@, name@),
                )),
                Action::SelectPreference { outcome } => ((r is Err && r->Err_0
                    == HumansortError::TooFewItems) <==> outcome@.len() < 2) && (r is Ok <==> (
                outcome@.len() >= 2 && all_known(
                    self.humansort_state@,
                    values_of(views(outcome@)),
                ))) && (r is Ok ==> r->Ok_0.current_view == self.current_view
                    && r->Ok_0.humansort_state@ == sort_desc(
                    with_ratings(self.humansort_state@, views(outcome@)),
                )),
            },
    {
        let mut humansort_state = self.humansort_state.copy();
        let current_view = match action {
            Action::AddItem { name } => {
                if let Err(e) = humansort_state.add_item(&name) {
                    return Err(e);
                }
                self.current_view
            },
            Action::RenameItem { old_name, new_name } => {
                if let Err(e) = humansort_state.rename_item(&old_name, &new_name) {
                    return Err(e);
                }
                self.current_view
            },
            Action::RemoveItem { name } => {
                if let Err(e) = humansort_state.remove_item(&name) {
                    return Err(e);
                }
                self.current_view
            },
            Action::SelectPreference { outcome } => {
                if let Err(e) = humansort_state.update(outcome.as_slice()) {
                    return Err(e);
                }
                self.current_view
            },
            Action::ChangeView { new_view } => new_view,
        };
        Ok(AppState { current_view, humansort_state })
    }
}

impl Default for AppState {
    fn default() -> (r: AppState)
        ensures
            r.current_view == AppView::Input,
            r.humansort_state.wf(),
            r.humansort_state@.len() == 0,
    {
        AppState::new()
    }
}

} // verus!
