pub mod command;
pub mod ghostsweeper;
pub mod random;
