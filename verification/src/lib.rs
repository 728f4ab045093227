pub mod text;
pub mod assoc;
pub mod libalpm;
pub mod cache;
pub mod loader;
pub mod aur_helper;
pub mod lock;
pub mod settings;
pub mod laws;
