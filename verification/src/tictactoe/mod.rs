pub mod agent3;
pub mod agent5;
pub mod board;
