pub mod kinds;
pub mod record;
pub mod debounce;
pub mod classify;
pub mod pipeline;
pub mod table;
pub mod laws;
