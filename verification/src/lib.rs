//! Selection of a multiset of owned items whose total value falls in a
//! half-open value window and whose copy count falls in a count window,
//! preferring totals closest to the window midpoint.

mod assemble;
mod combine;
mod enumerate;
mod inventory;
mod pipeline;
mod prefix;
mod sorting;

pub use assemble::Pick;
pub use combine::Best;
pub use combine::combine;
pub use combine::lower_bound;
pub use enumerate::Combo;
pub use enumerate::enumerate_combos;
pub use prefix::build_leftover_prefix;
pub use inventory::Item;
pub use inventory::Query;
pub use pipeline::find_selection;
pub use sorting::sort_items_desc;
