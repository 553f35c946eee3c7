pub mod codec;
pub mod entry;
pub mod lookup;
pub mod store;
