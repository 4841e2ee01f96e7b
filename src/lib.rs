//! A collapsible tree picker: the item model and the projection that decides
//! which rows a tree shows, how deep each one sits and which controls it carries.

pub mod item;
pub mod laws;
pub mod layout;

pub use item::PickerItem;
pub use layout::{visible_rows, Row, Toggle};
