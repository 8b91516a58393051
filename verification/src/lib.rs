pub mod analytics;
pub mod chat;
pub mod tictactoe;
