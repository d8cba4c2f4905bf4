pub mod text;
pub mod magnet;
pub mod state;
pub mod history;
pub mod settings;
pub mod session;
pub mod order;
pub mod media;
pub mod search;
pub mod android;
