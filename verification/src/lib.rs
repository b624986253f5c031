pub mod boardstate;
pub mod laws;
pub mod rules;

pub use boardstate::BoardState;
pub use rules::Turn;
