pub mod command;
pub mod input;
pub mod order;
pub mod quote;
pub mod shell;
pub mod terminal;
pub mod text;
pub mod trie;
