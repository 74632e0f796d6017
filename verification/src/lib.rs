pub mod event;
pub mod laws;
pub mod loader;
pub mod model;
