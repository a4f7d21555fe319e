//! HTTP-style headers: a single name/value pair type (`Header`) and a
//! multi-valued collection of pairs keyed by header name (`HeaderMap`),
//! which keeps the values of each name in first-in-first-out order.

mod header;
mod header_map;
mod laws;
mod model;
mod text;

pub use header::Header;
pub use header::TypedHeader;
pub use header_map::lemma_values_nonempty;
pub use header_map::HeaderMap;
pub use laws::added_all;
pub use laws::lemma_adds_are_fifo;
pub use laws::lemma_remove_clears_name;
pub use laws::lemma_remove_idempotent;
pub use laws::lemma_replace_pins_single_value;
pub use model::added;
pub use model::removed;
pub use model::distinct_names;
pub use model::grouped;
pub use model::has_name;
pub use model::map_of;
pub use model::names_contiguous;
pub use model::replaced;
pub use model::strs_view;
pub use model::total_of;
pub use model::values_for;
pub use model::values_view;
pub use model::wf_entries;
pub use model::Entry;
pub use text::Text;
