//! A growable container that hands out stable integer indices for inserted
//! values and reuses the cells of removed values through a free chain that is
//! threaded through the storage itself.

pub mod laws;
pub mod list;
pub mod model;
pub mod slot;

pub use list::SlotList;
pub use model::SlotListModel;
pub use slot::Slot;
