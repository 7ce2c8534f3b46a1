//! What the service answers: the shapes of its responses and the rules that
//! fill them.

pub mod dto;
pub mod handlers;
pub mod state;

pub use handlers::ApiError;
pub use state::AppState;
