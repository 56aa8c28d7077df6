pub mod auction;
pub mod bids;
pub mod identity;
pub mod item;
pub mod laws;
pub mod record;
pub mod stable;
pub mod store;
