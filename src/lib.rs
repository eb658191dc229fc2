//! A ranking engine that elicits a total order over a set of named items
//! from repeated small judgments ("this one is best among these").
//!
//! A [`HumansortState`] keeps its items sorted by descending rating, picks
//! batches to judge with a bias towards the best-rated items, records the
//! new ratings that a judgment produces, and reconciles its items with an
//! updated list without losing the ratings of the items that stay.

pub mod item;
pub mod laws;
pub mod order;
pub mod reconcile;
pub mod select;
pub mod session;
pub mod state;

pub use item::{HumansortItem, ZERO_RATING};
pub use order::{rank_of, sort_by_rating};
pub use reconcile::non_blank_lines;
pub use session::{Action, AppState, AppView};
pub use select::{pick_indices, warp_index, DRAWS_PER_ITEM, DRAW_RANGE};
pub use state::{HumansortError, HumansortState, DEFAULT_NUM_ITEMS, MAX_NUM_ITEMS, MIN_NUM_ITEMS};
