pub mod net;
pub mod store;
pub mod wake;
