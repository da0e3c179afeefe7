pub mod mockable;
pub mod ord_hash;

pub use mockable::Mockable;
pub use ord_hash::OrderedHashmap;
